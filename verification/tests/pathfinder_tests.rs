use grid_search::pathfinder::{astar, find_path, grid_is_valid, neighbours, try_find_path, SearchError};

fn ones(rows: usize, cols: usize) -> Vec<Vec<u64>> {
    vec![vec![1u64; cols]; rows]
}

#[test]
fn unit_grid_cost_is_manhattan() {
    // A uniform-cost grid: the cheapest cost equals the Manhattan distance
    // and the path holds one more cell than its cost.
    let grid = ones(4, 6);
    for &(start, end) in &[((0, 0), (3, 5)), ((2, 1), (0, 4)), ((3, 0), (0, 0))] {
        let (path, cost) = find_path(&grid, start, end).expect("connected grid");
        let md = (start.0 as i64 - end.0 as i64).unsigned_abs()
            + (start.1 as i64 - end.1 as i64).unsigned_abs();
        assert_eq!(cost, md as u128);
        assert_eq!(path.len() as u128, cost + 1);
    }
}

#[test]
fn path_endpoints_and_steps() {
    let grid = vec![
        vec![1, 3, 1, 2],
        vec![2, 9, 4, 1],
        vec![1, 1, 1, 1],
    ];
    let (path, _) = find_path(&grid, (0, 0), (2, 3)).expect("connected grid");
    assert_eq!(path[0], (0, 0));
    assert_eq!(*path.last().unwrap(), (2, 3));
    for w in path.windows(2) {
        let dr = (w[0].0 as i64 - w[1].0 as i64).abs();
        let dc = (w[0].1 as i64 - w[1].1 as i64).abs();
        assert_eq!(dr + dc, 1, "consecutive cells must be 4-adjacent");
    }
}

#[test]
fn same_inputs_same_cost() {
    let grid = vec![
        vec![1, 1, 6, 1],
        vec![1, 2, 1, 1],
        vec![9, 1, 1, 8],
    ];
    let first = find_path(&grid, (0, 0), (2, 3)).expect("connected grid");
    let second = find_path(&grid, (0, 0), (2, 3)).expect("connected grid");
    assert_eq!(first.1, second.1);
    // Tie-breaking is deterministic, so even the paths agree.
    assert_eq!(first.0, second.0);
}

#[test]
fn start_equals_end() {
    let grid = ones(3, 3);
    let (path, cost) = find_path(&grid, (1, 2), (1, 2)).expect("trivial path");
    assert_eq!(path, vec![(1, 2)]);
    assert_eq!(cost, 0);
}

#[test]
fn three_by_three_of_ones() {
    let grid = ones(3, 3);
    let (path, cost) = find_path(&grid, (0, 0), (2, 2)).expect("connected grid");
    assert_eq!(cost, 4);
    assert_eq!(path.len(), 5);
}

#[test]
fn cheap_detour_beats_expensive_cell() {
    let grid = vec![vec![1, 9], vec![1, 1]];
    let (path, cost) = find_path(&grid, (0, 0), (1, 1)).expect("connected grid");
    assert_eq!(cost, 2);
    assert!(path.contains(&(1, 0)), "the path must dodge the 9");
    assert!(!path.contains(&(0, 1)));
}

#[test]
fn long_cheap_detour_is_taken() {
    // Straight across costs 10; around the bottom costs 6.
    let grid = vec![
        vec![1, 9, 1],
        vec![1, 9, 1],
        vec![1, 1, 1],
    ];
    let (_, cost) = find_path(&grid, (0, 0), (0, 2)).expect("connected grid");
    assert_eq!(cost, 6);
}

#[test]
fn astar_returns_forward_path() {
    let grid = ones(2, 2);
    let path = astar((0, 0), (1, 1), &grid).expect("connected grid");
    assert_eq!(path[0], (0, 0));
    assert_eq!(*path.last().unwrap(), (1, 1));
    assert_eq!(path.len(), 3);
}

#[test]
fn zero_cost_cells_are_free() {
    let grid = vec![vec![5, 0], vec![0, 0]];
    let (_, cost) = find_path(&grid, (0, 0), (1, 1)).expect("connected grid");
    assert_eq!(cost, 0);
}

#[test]
fn grid_validity() {
    assert!(grid_is_valid(&ones(2, 3)));
    assert!(!grid_is_valid(&Vec::new()));
    assert!(!grid_is_valid(&vec![Vec::new()]));
    assert!(!grid_is_valid(&vec![vec![1, 2], vec![3]]));
}

#[test]
fn invalid_shape_is_rejected() {
    let jagged = vec![vec![1, 2], vec![3]];
    assert_eq!(
        try_find_path(&jagged, (0, 0), (0, 1)),
        Err(SearchError::InvalidShape)
    );
    assert_eq!(
        try_find_path(&Vec::new(), (0, 0), (0, 0)),
        Err(SearchError::InvalidShape)
    );
}

#[test]
fn out_of_bounds_cells_are_rejected() {
    let grid = ones(2, 2);
    assert_eq!(
        try_find_path(&grid, (0, 0), (2, 0)),
        Err(SearchError::InvalidCoordinates)
    );
    assert_eq!(
        try_find_path(&grid, (5, 5), (0, 0)),
        Err(SearchError::InvalidCoordinates)
    );
}

#[test]
fn try_find_path_searches_valid_input() {
    let grid = ones(2, 2);
    let r = try_find_path(&grid, (0, 0), (1, 1)).expect("valid input");
    let (path, cost) = r.expect("connected grid");
    assert_eq!(cost, 2);
    assert_eq!(path.len(), 3);
}

#[test]
fn zero_cost_heuristic_can_overshoot() {
    // With zero-cost cells the Manhattan heuristic can overestimate the
    // cost left, and the search may settle for a dearer route: here it
    // pays 3 although a free detour along the bottom and top rows exists.
    // The optimality guarantee of `find_path` asks for costs of at least
    // one per cell.
    let grid = vec![
        vec![0, 0, 0, 0, 0, 0, 0, 0, 0, 0],
        vec![3, 9, 9, 9, 9, 9, 9, 9, 9, 0],
        vec![7, 0, 0, 0, 0, 0, 0, 0, 0, 0],
    ];
    let (_, cost) = find_path(&grid, (2, 0), (0, 0)).expect("connected grid");
    assert_eq!(cost, 3);
}

#[test]
fn neighbours_in_fixed_order() {
    // Emission order is up, left, down, right; out-of-bounds candidates
    // are skipped and nothing repeats.
    assert_eq!(neighbours(&(0, 0), &(3, 3)), vec![(1, 0), (0, 1)]);
    assert_eq!(
        neighbours(&(1, 1), &(3, 3)),
        vec![(0, 1), (1, 0), (2, 1), (1, 2)]
    );
    assert_eq!(neighbours(&(2, 2), &(3, 3)), vec![(1, 2), (2, 1)]);
    assert_eq!(neighbours(&(0, 0), &(1, 1)), Vec::<(usize, usize)>::new());
}
