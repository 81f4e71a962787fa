use grid_search::board::Board;
use grid_search::cavern::{expand_grid, parse_digit_grid, parse_digit_row};
use grid_search::origami::{decode_command, Axis, Point as FoldPoint};
use grid_search::submarine::{Direction, Submarine};
use grid_search::syntax::{autocomplete_points, match_illegal, score_autocomplete, score_illegal};
use grid_search::utils::{read_challenge_data, wrap};
use grid_search::probe::{Probe, Rectangle, Vector2};
use grid_search::vents::{get_direction, Line, Point};

#[test]
fn challenge_data_paths() {
    assert_eq!(read_challenge_data(15, true), "resources/day15example.txt");
    assert_eq!(read_challenge_data(2, false), "resources/day2.txt");
    assert_eq!(read_challenge_data(10, false), "resources/day10.txt");
}

#[test]
fn wrap_into_range() {
    assert_eq!(wrap(11, 0, 9), 1);
    assert_eq!(wrap(3, 0, 9), 3);
    assert_eq!(wrap(10, 1, 10), 10);
    assert_eq!(wrap(11, 1, 10), 1);
    // Negative inputs land one higher, as the solutions rely on.
    assert_eq!(wrap(-1, 0, 9), 0);
}

#[test]
fn submarine_decodes_commands() {
    let (dir, dist) = Submarine::decode_command("forward 5");
    assert!(matches!(dir, Direction::Forward));
    assert_eq!(dist, 5);
    let (dir, dist) = Submarine::decode_command("down 12");
    assert!(matches!(dir, Direction::Down));
    assert_eq!(dist, 12);
    let (dir, dist) = Submarine::decode_command("up 3");
    assert!(matches!(dir, Direction::Up));
    assert_eq!(dist, 3);
}

#[test]
fn submarine_plain_course() {
    let mut sub = Submarine::default();
    for command in ["forward 5", "down 5", "forward 8", "up 3", "down 8", "forward 2"] {
        sub.update(command);
    }
    let (x, y) = sub.pos();
    assert_eq!((x, y), (15, 10));
    assert_eq!(x * y, 150);
}

#[test]
fn submarine_aimed_course() {
    let mut sub = Submarine::default();
    for command in ["forward 5", "down 5", "forward 8", "up 3", "down 8", "forward 2"] {
        sub.update_aimed(command);
    }
    let (x, y) = sub.pos();
    assert_eq!((x, y), (15, 60));
    assert_eq!(x * y, 900);
}

#[test]
fn submarine_new_sets_position() {
    let sub = Submarine::new(3, 4, 5);
    assert_eq!(sub.pos(), (3, 4));
}

fn sample_board() -> Board {
    Board::new(vec![
        vec![14, 21, 17, 24, 4],
        vec![10, 16, 15, 9, 19],
        vec![18, 8, 23, 26, 20],
        vec![22, 11, 13, 6, 5],
        vec![2, 0, 12, 3, 7],
    ])
}

#[test]
fn board_wins_on_a_full_row() {
    let mut board = sample_board();
    assert_eq!(board.score(), None);
    for n in [7, 4, 9, 5, 11, 17, 23, 2, 0, 14, 21] {
        assert!(!board.check_win());
        assert!(board.mark_number(n));
    }
    assert!(board.mark_number(24));
    assert!(board.check_win());
    // The winning example board: unmarked sum 188, last number 24.
    assert_eq!(board.score(), Some(188 * 24));
}

#[test]
fn board_ignores_absent_numbers() {
    let mut board = sample_board();
    assert!(!board.mark_number(99));
    assert_eq!(board.score(), None);
    assert!(!board.check_win());
}

#[test]
fn board_wins_on_a_full_column() {
    let mut board = sample_board();
    for n in [24, 9, 26, 6, 3] {
        board.mark_number(n);
    }
    assert!(board.check_win());
}

#[test]
fn line_from_arrow_and_points() {
    let line = Line::from_arrow("0,9 -> 5,9");
    assert_eq!(line.p, Point { x: 0, y: 9 });
    assert_eq!(line.q, Point { x: 5, y: 9 });
    let points = line.all_points();
    assert_eq!(points.len(), 6);
    assert_eq!(points[0], Point { x: 0, y: 9 });
    assert_eq!(points[5], Point { x: 5, y: 9 });
}

#[test]
fn diagonal_line_points() {
    let line = Line::from_arrow("9,7 -> 7,9");
    let points = line.all_points();
    assert_eq!(
        points,
        vec![
            Point { x: 9, y: 7 },
            Point { x: 8, y: 8 },
            Point { x: 7, y: 9 }
        ]
    );
}

#[test]
fn direction_is_a_unit_step() {
    let p = Point { x: 3, y: 3 };
    assert_eq!(get_direction(&p, &Point { x: 3, y: 9 }), Point { x: 0, y: 1 });
    assert_eq!(get_direction(&p, &Point { x: 0, y: 0 }), Point { x: -1, y: -1 });
    assert_eq!(get_direction(&p, &p), Point { x: 0, y: 0 });
}

#[test]
fn illegal_scores() {
    assert_eq!(score_illegal(')'), Some(3));
    assert_eq!(score_illegal(']'), Some(57));
    assert_eq!(score_illegal('}'), Some(1197));
    assert_eq!(score_illegal('>'), Some(25137));
    assert_eq!(score_illegal('x'), None);
}

#[test]
fn mismatched_pairs_score() {
    assert_eq!(match_illegal('(', ']'), Some(57));
    assert_eq!(match_illegal('[', '>'), Some(25137));
    assert_eq!(match_illegal('(', ')'), None);
    assert_eq!(match_illegal('<', '>'), None);
    assert_eq!(match_illegal('(', 'x'), None);
}

#[test]
fn autocomplete_scores() {
    assert_eq!(score_autocomplete('('), Some(1));
    assert_eq!(score_autocomplete('<'), Some(4));
    assert_eq!(score_autocomplete(')'), None);
}

#[test]
fn autocomplete_stack_total() {
    // The unclosed openers of `[({(<(())[]>[[{[]{<()<>>` complete for
    // 288957 points.
    let stack = vec!['[', '(', '{', '(', '[', '[', '{', '{'];
    assert_eq!(autocomplete_points(&stack), 288957);
}

#[test]
fn digit_rows_parse() {
    assert_eq!(parse_digit_row("1163751742"), vec![1, 1, 6, 3, 7, 5, 1, 7, 4, 2]);
    let grid = parse_digit_grid(&vec!["12".to_string(), "95".to_string()]);
    assert_eq!(grid, vec![vec![1, 2], vec![9, 5]]);
}

#[test]
fn expanded_cavern_wraps_past_nine() {
    let grid = vec![vec![8u64]];
    let big = expand_grid(&grid, 1, 1);
    assert_eq!(big.len(), 5);
    assert_eq!(big[0], vec![8, 9, 1, 2, 3]);
    assert_eq!(big[4], vec![3, 4, 5, 6, 7]);
    assert_eq!(big[2][2], 3);
}

#[test]
fn cavern_example_risks() {
    // The ten-by-ten example cavern: cheapest risk 40, and 315 after the
    // five-fold expansion.
    let lines: Vec<String> = [
        "1163751742",
        "1381373672",
        "2136511328",
        "3694931569",
        "7463417111",
        "1319128137",
        "1359912421",
        "3125421639",
        "1293138521",
        "2311944581",
    ]
    .iter()
    .map(|s| s.to_string())
    .collect();
    let grid = parse_digit_grid(&lines);
    let end = (grid.len() - 1, grid[0].len() - 1);
    let (_, cost) = grid_search::pathfinder::find_path(&grid, (0, 0), end).expect("connected");
    assert_eq!(cost, 40);
    let big = expand_grid(&grid, 10, 10);
    let big_end = (big.len() - 1, big[0].len() - 1);
    let (_, cost) = grid_search::pathfinder::find_path(&big, (0, 0), big_end).expect("connected");
    assert_eq!(cost, 315);
}

#[test]
fn probe_steps_under_drag_and_gravity() {
    let mut probe = Probe {
        position: Vector2 { x: 0, y: 0 },
        velocity: Vector2 { x: 7, y: 2 },
    };
    probe.update();
    assert_eq!(probe.position, Vector2 { x: 7, y: 2 });
    assert_eq!(probe.velocity, Vector2 { x: 6, y: 1 });
    let target = Rectangle {
        top_left_corner: Vector2 { x: 20, y: -5 },
        bottom_right_corner: Vector2 { x: 30, y: -10 },
    };
    assert!(target.contains(&Vector2 { x: 20, y: -5 }));
    assert!(target.contains(&Vector2 { x: 25, y: -7 }));
    assert!(!target.contains(&Vector2 { x: 19, y: -7 }));
    assert!(!target.passed(&probe));
    let sunk = Probe {
        position: Vector2 { x: 25, y: -11 },
        velocity: Vector2 { x: 0, y: -4 },
    };
    assert!(target.passed(&sunk));
}

#[test]
fn fold_commands_decode() {
    let (v, axis) = decode_command("fold along y=7");
    assert_eq!(v, 7);
    assert!(matches!(axis, Axis::Vertical));
    let (v, axis) = decode_command("fold along x=655");
    assert_eq!(v, 655);
    assert!(matches!(axis, Axis::Horizontal));
}

#[test]
fn dots_fold_across_the_line() {
    let mut dot = FoldPoint { x: 4, y: 10 };
    dot.flip(7, Axis::Vertical);
    assert_eq!((dot.x, dot.y), (4, 4));
    dot.flip(7, Axis::Vertical);
    assert_eq!((dot.x, dot.y), (4, 4), "dots on the near side stay put");
    let mut dot = FoldPoint { x: 9, y: 2 };
    dot.flip(5, Axis::Horizontal);
    assert_eq!((dot.x, dot.y), (1, 2));
}
