//! Best-first shortest-path search on a rectangular cost grid.
//!
//! A grid is a rectangular `Vec<Vec<u64>>` of non-negative entry costs: the
//! cost of a path is the sum of the entry costs of every cell on it except
//! the first. `find_path` searches for a cheapest path between two cells
//! using a best-first search ordered by accumulated cost plus the Manhattan
//! distance still to travel.

use vstd::prelude::*;

verus! {

/// A grid cell, as `(row, column)`, both 0-indexed.
pub type Position = (usize, usize);

/// A well-formed grid: at least one row, at least one column, and every row
/// of the same length.
pub open spec fn grid_wf(g: Seq<Vec<u64>>) -> bool {
    &&& g.len() > 0
    &&& g[0]@.len() > 0
    &&& forall|i: int| 0 <= i < g.len() ==> (#[trigger] g[i]@).len() == g[0]@.len()
}

/// Whether cell `p` lies inside the grid `g`.
pub open spec fn in_bounds(g: Seq<Vec<u64>>, p: Position) -> bool {
    p.0 < g.len() && p.1 < g[0]@.len()
}

/// The cost charged for stepping onto cell `p`.
pub open spec fn cost_at(g: Seq<Vec<u64>>, p: Position) -> int {
    g[p.0 as int]@[p.1 as int] as int
}

/// Whether every cell of the grid costs at least one. Under this condition
/// the Manhattan heuristic never overestimates the cost left to travel, and
/// the search result is optimal.
pub open spec fn costs_ge_1(g: Seq<Vec<u64>>) -> bool {
    forall|p: Position| in_bounds(g, p) ==> #[trigger] cost_at(g, p) >= 1
}

/// 4-directional adjacency: the row or the column differs by exactly one,
/// and the other coordinate is equal.
pub open spec fn adjacent(p: Position, q: Position) -> bool {
    ||| (p.0 == q.0 && (p.1 + 1 == q.1 || q.1 + 1 == p.1))
    ||| (p.1 == q.1 && (p.0 + 1 == q.0 || q.0 + 1 == p.0))
}

/// `path` is a walk from `s` to `e`: non-empty, inside the grid, and each
/// consecutive pair of cells 4-directionally adjacent.
pub open spec fn is_path(g: Seq<Vec<u64>>, path: Seq<Position>, s: Position, e: Position) -> bool {
    &&& path.len() >= 1
    &&& path[0] == s
    &&& path[path.len() - 1] == e
    &&& forall|i: int| 0 <= i < path.len() ==> in_bounds(g, #[trigger] path[i])
    &&& forall|i: int| 1 <= i < path.len() ==> adjacent(path[i - 1], #[trigger] path[i])
}

/// The total cost of a path: the entry costs of every cell except the first.
pub open spec fn path_cost(g: Seq<Vec<u64>>, path: Seq<Position>) -> int
    decreases path.len(),
{
    if path.len() <= 1 {
        0
    } else {
        path_cost(g, path.drop_last()) + cost_at(g, path.last())
    }
}

/// An upper bound on the cost of any duplicate-free path through `g`.
pub open spec fn cost_bound(g: Seq<Vec<u64>>) -> int {
    (g.len() * g[0]@.len() - 1) * (u64::MAX as int)
}

proof fn lemma_path_cost_nonneg(g: Seq<Vec<u64>>, path: Seq<Position>)
    ensures
        path_cost(g, path) >= 0,
    decreases path.len(),
{
    if path.len() > 1 {
        lemma_path_cost_nonneg(g, path.drop_last());
    }
}

/// Stepping a prefix: the cost of one more cell.
proof fn lemma_path_cost_take_step(g: Seq<Vec<u64>>, path: Seq<Position>, k: int)
    requires
        1 <= k < path.len(),
    ensures
        path_cost(g, path.take(k + 1)) == path_cost(g, path.take(k)) + cost_at(g, path[k]),
{
    assert(path.take(k + 1).drop_last() =~= path.take(k));
    assert(path.take(k + 1).last() == path[k]);
}

/// A prefix of a path costs no more than the whole path.
proof fn lemma_path_cost_take_le(g: Seq<Vec<u64>>, path: Seq<Position>, k: int)
    requires
        1 <= k <= path.len(),
    ensures
        path_cost(g, path.take(k)) <= path_cost(g, path),
    decreases path.len() - k,
{
    if k == path.len() {
        assert(path.take(k) =~= path);
    } else {
        lemma_path_cost_take_step(g, path, k);
        lemma_path_cost_take_le(g, path, k + 1);
    }
}

/// With every cost at least one, a path's remainder past a prefix costs at
/// least one per remaining step.
proof fn lemma_path_cost_suffix_ge_steps(g: Seq<Vec<u64>>, path: Seq<Position>, k: int)
    requires
        costs_ge_1(g),
        forall|i: int| 0 <= i < path.len() ==> in_bounds(g, #[trigger] path[i]),
        1 <= k <= path.len(),
    ensures
        path_cost(g, path) >= path_cost(g, path.take(k)) + (path.len() - k),
    decreases path.len() - k,
{
    if k == path.len() {
        assert(path.take(k) =~= path);
    } else {
        lemma_path_cost_take_step(g, path, k);
        lemma_path_cost_suffix_ge_steps(g, path, k + 1);
    }
}

/// A prefix of a path is a path to the prefix's last cell.
proof fn lemma_path_prefix(g: Seq<Vec<u64>>, path: Seq<Position>, s: Position, e: Position, k: int)
    requires
        is_path(g, path, s, e),
        1 <= k <= path.len(),
    ensures
        is_path(g, path.take(k), s, path[k - 1]),
{
}

/// Appending an adjacent in-bounds cell extends a path.
proof fn lemma_path_push(
    g: Seq<Vec<u64>>,
    path: Seq<Position>,
    s: Position,
    e: Position,
    q: Position,
)
    requires
        is_path(g, path, s, e),
        adjacent(e, q),
        in_bounds(g, q),
    ensures
        is_path(g, path.push(q), s, q),
        path_cost(g, path.push(q)) == path_cost(g, path) + cost_at(g, q),
{
    assert(path.push(q).drop_last() =~= path);
    let p2 = path.push(q);
    assert forall|i: int| 1 <= i < p2.len() implies adjacent(p2[i - 1], #[trigger] p2[i]) by {
        if i < path.len() {
            assert(adjacent(path[i - 1], path[i]));
        }
    }
}

/// Any in-bounds path costs at most `u64::MAX` per step.
proof fn lemma_path_cost_le_len(g: Seq<Vec<u64>>, path: Seq<Position>)
    requires
        path.len() >= 1,
        forall|i: int| 0 <= i < path.len() ==> in_bounds(g, #[trigger] path[i]),
    ensures
        path_cost(g, path) <= (path.len() - 1) * (u64::MAX as int),
    decreases path.len(),
{
    if path.len() > 1 {
        lemma_path_cost_le_len(g, path.drop_last());
        assert(cost_at(g, path.last()) <= u64::MAX as int);
        assert((path.len() - 2) * (u64::MAX as int) + (u64::MAX as int) == (path.len() - 1) * (
        u64::MAX as int)) by (nonlinear_arith);
    }
}

/// Prepending an adjacent in-bounds cell extends a path at its front.
proof fn lemma_path_prepend(
    g: Seq<Vec<u64>>,
    path: Seq<Position>,
    s: Position,
    e: Position,
    x: Position,
)
    requires
        is_path(g, path, s, e),
        adjacent(x, s),
        in_bounds(g, x),
    ensures
        is_path(g, seq![x] + path, x, e),
        path_cost(g, seq![x] + path) == path_cost(g, path) + cost_at(g, s),
    decreases path.len(),
{
    let p2 = seq![x] + path;
    assert(p2[0] == x);
    assert(p2.len() == path.len() + 1);
    assert forall|i: int| 1 <= i < p2.len() implies adjacent(p2[i - 1], #[trigger] p2[i]) by {
        if i >= 2 {
            assert(adjacent(path[i - 2], path[i - 1]));
        }
    }
    if path.len() == 1 {
        assert(p2.drop_last() =~= seq![x]);
        assert(p2.last() == s);
        assert(path_cost(g, p2) == path_cost(g, seq![x]) + cost_at(g, s));
        assert(path_cost(g, seq![x]) == 0);
    } else {
        assert(is_path(g, path.drop_last(), s, path[path.len() - 2]));
        lemma_path_prepend(g, path.drop_last(), s, path[path.len() - 2], x);
        assert(p2.drop_last() =~= seq![x] + path.drop_last());
        assert(p2.last() == path.last());
        assert(path_cost(g, p2) == path_cost(g, seq![x] + path.drop_last()) + cost_at(
            g,
            path.last(),
        ));
    }
}

/// A duplicate-free sequence of in-bounds cells has at most one entry per
/// cell of the grid.
proof fn lemma_simple_path_len(g: Seq<Vec<u64>>, path: Seq<Position>)
    requires
        grid_wf(g),
        path.no_duplicates(),
        forall|i: int| 0 <= i < path.len() ==> in_bounds(g, #[trigger] path[i]),
    ensures
        path.len() <= g.len() * g[0]@.len(),
{
    let rows = g.len() as int;
    let cols = g[0]@.len() as int;
    let ids = path.map_values(|p: Position| p.0 * cols + p.1);
    assert forall|i: int, j: int| 0 <= i < j < ids.len() implies ids[i] != ids[j] by {
        let p = path[i];
        let q = path[j];
        assert(p != q);
        assert(p.0 < rows && p.1 < cols && q.0 < rows && q.1 < cols);
        assert(p.0 * cols + p.1 != q.0 * cols + q.1) by (nonlinear_arith)
            requires
                p != q,
                0 <= p.1 < cols,
                0 <= q.1 < cols,
                0 <= p.0,
                0 <= q.0,
        ;
    }
    assert(ids.no_duplicates());
    ids.unique_seq_to_set();
    assert forall|v: int| ids.to_set().contains(v) implies vstd::set_lib::set_int_range(
        0,
        rows * cols,
    ).contains(v) by {
        let i = choose|i: int| 0 <= i < ids.len() && ids[i] == v;
        let p = path[i];
        assert(v == p.0 * cols + p.1);
        assert(0 <= p.0 * cols + p.1 < rows * cols) by (nonlinear_arith)
            requires
                0 <= (p.0 as int) < rows,
                0 <= (p.1 as int) < cols,
        ;
    }
    vstd::set_lib::lemma_int_range(0, rows * cols);
    vstd::set_lib::lemma_len_subset(ids.to_set(), vstd::set_lib::set_int_range(0, rows * cols));
}

/// `|a - b|` for mathematical integers.
pub open spec fn abs_diff(a: int, b: int) -> int {
    if a >= b {
        a - b
    } else {
        b - a
    }
}

/// Manhattan distance between two cells.
pub open spec fn spec_manhattan(p: Position, q: Position) -> int {
    abs_diff(p.0 as int, q.0 as int) + abs_diff(p.1 as int, q.1 as int)
}

/// One 4-directional step changes the Manhattan distance to a fixed cell by
/// at most one.
proof fn lemma_manhattan_adjacent(p: Position, q: Position, e: Position)
    requires
        adjacent(p, q),
    ensures
        spec_manhattan(p, e) <= spec_manhattan(q, e) + 1,
{
}

/// Along a path, the Manhattan distance to a fixed cell changes by at most
/// one per step, so an earlier cell is at most the remaining step count
/// farther from `e` than a later cell.
proof fn lemma_manhattan_along_path(path: Seq<Position>, i: int, j: int, e: Position)
    requires
        0 <= i <= j < path.len(),
        forall|k: int| 1 <= k < path.len() ==> adjacent(path[k - 1], #[trigger] path[k]),
    ensures
        spec_manhattan(path[i], e) <= spec_manhattan(path[j], e) + (j - i),
    decreases j - i,
{
    if i < j {
        lemma_manhattan_adjacent(path[j - 1], path[j], e);
        lemma_manhattan_along_path(path, i, j - 1, e);
    }
}

/// Manhattan distance between two cells, the search's distance heuristic.
pub fn manhattan_distance(pos1: &Position, pos2: &Position) -> (d: u64)
    requires
        spec_manhattan(*pos1, *pos2) <= u64::MAX,
    ensures
        d == spec_manhattan(*pos1, *pos2),
{
    let dr: u64 = if pos1.0 >= pos2.0 {
        (pos1.0 - pos2.0) as u64
    } else {
        (pos2.0 - pos1.0) as u64
    };
    let dc: u64 = if pos1.1 >= pos2.1 {
        (pos1.1 - pos2.1) as u64
    } else {
        (pos2.1 - pos1.1) as u64
    };
    dr + dc
}

/// The in-bounds 4-neighbours of `pos` in a grid of `size.0` rows and
/// `size.1` columns, in the fixed emission order up, left, down, right:
/// each of the four candidate cells appears exactly when it lies in
/// bounds.
pub open spec fn spec_neighbours(pos: Position, size: Position) -> Seq<Position> {
    (if pos.0 >= 1 {
        seq![(((pos.0 - 1) as usize), pos.1)]
    } else {
        Seq::<Position>::empty()
    }) + (if pos.1 >= 1 {
        seq![(pos.0, ((pos.1 - 1) as usize))]
    } else {
        Seq::<Position>::empty()
    }) + (if pos.0 + 1 < size.0 {
        seq![(((pos.0 + 1) as usize), pos.1)]
    } else {
        Seq::<Position>::empty()
    }) + (if pos.1 + 1 < size.1 {
        seq![(pos.0, ((pos.1 + 1) as usize))]
    } else {
        Seq::<Position>::empty()
    })
}

/// The in-bounds 4-neighbours of `pos` in a grid of `size.0` rows and
/// `size.1` columns, in the fixed order up, left, down, right: exactly
/// `spec_neighbours`, so without duplicates and with at most four cells.
pub fn neighbours(pos: &Position, size: &Position) -> (r: Vec<Position>)
    requires
        size.0 >= 1,
        size.1 >= 1,
        pos.0 < size.0,
        pos.1 < size.1,
    ensures
        r@ == spec_neighbours(*pos, *size),
        r@.no_duplicates(),
        r@.len() <= 4,
        forall|q: Position| #[trigger]
            r@.contains(q) <==> (adjacent(*pos, q) && q.0 < size.0 && q.1 < size.1),
{
    let (i, j) = *pos;
    let (rows, cols) = *size;
    let mut res: Vec<Position> = Vec::new();
    if i >= 1 {
        res.push((i - 1, j));
    }
    if j >= 1 {
        res.push((i, j - 1));
    }
    if i < rows - 1 {
        res.push((i + 1, j));
    }
    if j < cols - 1 {
        res.push((i, j + 1));
    }
    proof {
        assert forall|q: Position|
            (adjacent(*pos, q) && q.0 < size.0 && q.1 < size.1) implies #[trigger] res@.contains(
            q,
        ) by {
            if q.0 + 1 == i {
                assert(res@[0] == q);
            } else if q.1 + 1 == j {
                let k: int = if i >= 1 {
                    1
                } else {
                    0
                };
                assert(res@[k] == q);
            } else if q.0 == i + 1 {
                let k: int = if (j as int) < cols - 1 {
                    res@.len() - 2
                } else {
                    res@.len() - 1
                };
                assert(res@[k] == q);
            } else {
                assert(q.1 == j + 1);
                assert(res@[res@.len() - 1] == q);
            }
        }
        assert(res@ =~= spec_neighbours(*pos, *size));
        assert forall|a: int, b: int| 0 <= a < b < res@.len() implies res@[a] != res@[b] by {
            assert(adjacent(*pos, res@[a]) && adjacent(*pos, res@[b]));
        }
    }
    res
}

// ---------------------------------------------------------------------------
// Search state.
//
// The search keeps, for every cell, whether it has been reached, whether it
// is in the open set (the frontier), the best known cost from the start
// (the g-score), the priority (f-score: g-score plus Manhattan heuristic),
// and the predecessor on the best known path. Ghost state keeps the set of
// settled cells, an update timestamp per cell, and for every reached cell a
// duplicate-free witness path realising its g-score.
/// `v` is a `rows` by `cols` table.
pub(crate) open spec fn shape2<T>(v: Seq<Vec<T>>, rows: int, cols: int) -> bool {
    v.len() == rows && forall|i: int| 0 <= i < rows ==> (#[trigger] v[i]@).len() == cols
}

/// The entry of table `v` at cell `p`.
pub(crate) open spec fn at2<T>(v: Seq<Vec<T>>, p: Position) -> T {
    v[p.0 as int]@[p.1 as int]
}

/// The witness path recorded for a reached cell `p`: a duplicate-free path
/// from `start` to `p` whose cost is exactly `p`'s g-score, and whose every
/// prefix costs at least the g-score of the cell it stops at.
spec fn wit_ok(
    g: Seq<Vec<u64>>,
    start: Position,
    p: Position,
    w: Seq<Position>,
    re: Seq<Vec<bool>>,
    gs: Seq<Vec<u128>>,
) -> bool {
    &&& is_path(g, w, start, p)
    &&& w.no_duplicates()
    &&& path_cost(g, w) == at2(gs, p) as int
    &&& forall|i: int| 0 <= i < w.len() ==> at2(re, #[trigger] w[i])
    &&& forall|i: int|
        0 <= i < w.len() ==> path_cost(g, w.take(i + 1)) >= at2(gs, #[trigger] w[i]) as int
}

/// The predecessor record of a reached non-start cell `p`: an adjacent
/// reached cell through which `p`'s g-score was set. The pair
/// (g-score, timestamp) strictly decreases from `p` to its predecessor,
/// which makes the predecessor chains acyclic.
spec fn parent_ok(
    g: Seq<Vec<u64>>,
    p: Position,
    pa: Seq<Vec<Position>>,
    re: Seq<Vec<bool>>,
    gs: Seq<Vec<u128>>,
    stamp: Map<Position, nat>,
) -> bool {
    let q = at2(pa, p);
    &&& in_bounds(g, q)
    &&& at2(re, q)
    &&& adjacent(q, p)
    &&& at2(gs, q) as int + cost_at(g, p) <= at2(gs, p) as int
    &&& ((at2(gs, q) as int) < (at2(gs, p) as int)) || (at2(gs, q) == at2(gs, p) && stamp[q]
        < stamp[p])
}

/// Settled cells are relaxed: each in-bounds neighbour of a settled cell is
/// reached, with a g-score no worse than stepping from the settled cell.
spec fn closed_ok(
    g: Seq<Vec<u64>>,
    re: Seq<Vec<bool>>,
    gs: Seq<Vec<u128>>,
    ss: Set<Position>,
) -> bool {
    forall|p: Position, q: Position|
        #[trigger] ss.contains(p) && in_bounds(g, q) && #[trigger] adjacent(p, q) ==> at2(re, q)
            && at2(gs, q) as int <= at2(gs, p) as int + cost_at(g, q)
}

/// The main invariant of the search loop, except the relaxedness of settled
/// cells (which is restored only after a popped cell's neighbours have all
/// been processed).
spec fn search_inv_core(
    g: Seq<Vec<u64>>,
    start: Position,
    end: Position,
    re: Seq<Vec<bool>>,
    op: Seq<Vec<bool>>,
    gs: Seq<Vec<u128>>,
    fs: Seq<Vec<u128>>,
    pa: Seq<Vec<Position>>,
    ss: Set<Position>,
    stamp: Map<Position, nat>,
    wit: Map<Position, Seq<Position>>,
    tick: nat,
) -> bool {
    let rows = g.len() as int;
    let cols = g[0]@.len() as int;
    &&& grid_wf(g)
    &&& in_bounds(g, start)
    &&& in_bounds(g, end)
    &&& shape2(re, rows, cols)
    &&& shape2(op, rows, cols)
    &&& shape2(gs, rows, cols)
    &&& shape2(fs, rows, cols)
    &&& shape2(pa, rows, cols)
    // The settled set holds reached, closed, in-bounds cells.
    &&& forall|p: Position| #[trigger] ss.contains(p) ==> in_bounds(g, p) && at2(re, p) && !at2(op, p)
    // Open cells are reached; reached unsettled cells are open.
    &&& forall|p: Position| in_bounds(g, p) && #[trigger] at2(op, p) ==> at2(re, p)
    &&& forall|p: Position|
        in_bounds(g, p) && #[trigger] at2(re, p) && !ss.contains(p) ==> at2(op, p)
    // The start is reached at cost zero.
    &&& at2(re, start)
    &&& at2(gs, start) == 0
    // Reached g-scores are bounded, and f-scores are g plus the heuristic.
    &&& forall|p: Position|
        in_bounds(g, p) && #[trigger] at2(re, p) ==> at2(gs, p) as int <= cost_bound(g) && at2(
            fs,
            p,
        ) as int == at2(gs, p) as int + spec_manhattan(p, end)
    // Every reached cell has a witness path and a timestamp below the clock.
    &&& forall|p: Position|
        in_bounds(g, p) && #[trigger] at2(re, p) ==> wit_ok(g, start, p, wit[p], re, gs) && stamp[p]
            < tick
    // Every reached non-start cell has a predecessor record.
    &&& forall|p: Position|
        in_bounds(g, p) && #[trigger] at2(re, p) && p != start ==> parent_ok(
            g,
            p,
            pa,
            re,
            gs,
            stamp,
        )
    // With all costs at least one, no path undercuts a settled cell's
    // g-score.
    &&& (costs_ge_1(g) ==> forall|p: Position, pi: Seq<Position>|
        ss.contains(p) && #[trigger] is_path(g, pi, start, p) ==> path_cost(g, pi) >= at2(
            gs,
            p,
        ) as int)
    // The end cell is never settled: the search returns when it pops it.
    &&& !ss.contains(end)
}

/// The main invariant of the search loop, holding between iterations.
spec fn search_inv(
    g: Seq<Vec<u64>>,
    start: Position,
    end: Position,
    re: Seq<Vec<bool>>,
    op: Seq<Vec<bool>>,
    gs: Seq<Vec<u128>>,
    fs: Seq<Vec<u128>>,
    pa: Seq<Vec<Position>>,
    ss: Set<Position>,
    stamp: Map<Position, nat>,
    wit: Map<Position, Seq<Position>>,
    tick: nat,
) -> bool {
    &&& search_inv_core(g, start, end, re, op, gs, fs, pa, ss, stamp, wit, tick)
    &&& closed_ok(g, re, gs, ss)
}

// ---------------------------------------------------------------------------
// Termination measure: the sum over all cells of the cell's g-score (or a
// value above every possible g-score, where the cell is unreached) only
// ever decreases; while it is unchanged, the open set only shrinks.
/// Sum of `w(j)` over `0 <= j < c`.
spec fn sum_row(w: spec_fn(int) -> int, c: int) -> int
    decreases c,
{
    if c <= 0 {
        0
    } else {
        sum_row(w, c - 1) + w(c - 1)
    }
}

/// Sum of `w(i, j)` over `0 <= i < r`, `0 <= j < cols`.
spec fn sum_grid(w: spec_fn(int, int) -> int, r: int, cols: int) -> int
    decreases r,
{
    if r <= 0 {
        0
    } else {
        sum_grid(w, r - 1, cols) + sum_row(|j: int| w(r - 1, j), cols)
    }
}

proof fn lemma_sum_row_le(w1: spec_fn(int) -> int, w2: spec_fn(int) -> int, c: int)
    requires
        forall|j: int| 0 <= j < c ==> #[trigger] w2(j) <= w1(j),
    ensures
        sum_row(w2, c) <= sum_row(w1, c),
    decreases c,
{
    if c > 0 {
        lemma_sum_row_le(w1, w2, c - 1);
    }
}

proof fn lemma_sum_row_lt(w1: spec_fn(int) -> int, w2: spec_fn(int) -> int, c: int, tj: int)
    requires
        forall|j: int| 0 <= j < c ==> #[trigger] w2(j) <= w1(j),
        0 <= tj < c,
        w2(tj) < w1(tj),
    ensures
        sum_row(w2, c) < sum_row(w1, c),
    decreases c,
{
    if tj == c - 1 {
        lemma_sum_row_le(w1, w2, c - 1);
    } else {
        lemma_sum_row_lt(w1, w2, c - 1, tj);
    }
}

proof fn lemma_sum_grid_le(w1: spec_fn(int, int) -> int, w2: spec_fn(int, int) -> int, r: int, cols: int)
    requires
        forall|i: int, j: int| 0 <= i < r && 0 <= j < cols ==> #[trigger] w2(i, j) <= w1(i, j),
    ensures
        sum_grid(w2, r, cols) <= sum_grid(w1, r, cols),
    decreases r,
{
    if r > 0 {
        lemma_sum_grid_le(w1, w2, r - 1, cols);
        lemma_sum_row_le(|j: int| w1(r - 1, j), |j: int| w2(r - 1, j), cols);
    }
}

proof fn lemma_sum_grid_lt(
    w1: spec_fn(int, int) -> int,
    w2: spec_fn(int, int) -> int,
    r: int,
    cols: int,
    ti: int,
    tj: int,
)
    requires
        forall|i: int, j: int| 0 <= i < r && 0 <= j < cols ==> #[trigger] w2(i, j) <= w1(i, j),
        0 <= ti < r,
        0 <= tj < cols,
        w2(ti, tj) < w1(ti, tj),
    ensures
        sum_grid(w2, r, cols) < sum_grid(w1, r, cols),
    decreases r,
{
    if ti == r - 1 {
        lemma_sum_grid_le(w1, w2, r - 1, cols);
        lemma_sum_row_lt(|j: int| w1(r - 1, j), |j: int| w2(r - 1, j), cols, tj);
    } else {
        lemma_sum_grid_lt(w1, w2, r - 1, cols, ti, tj);
        lemma_sum_row_le(|j: int| w1(r - 1, j), |j: int| w2(r - 1, j), cols);
    }
}

proof fn lemma_sum_row_nonneg(w: spec_fn(int) -> int, c: int)
    requires
        forall|j: int| 0 <= j < c ==> #[trigger] w(j) >= 0,
    ensures
        sum_row(w, c) >= 0,
    decreases c,
{
    if c > 0 {
        lemma_sum_row_nonneg(w, c - 1);
    }
}

proof fn lemma_sum_grid_nonneg(w: spec_fn(int, int) -> int, r: int, cols: int)
    requires
        forall|i: int, j: int| 0 <= i < r && 0 <= j < cols ==> #[trigger] w(i, j) >= 0,
    ensures
        sum_grid(w, r, cols) >= 0,
    decreases r,
{
    if r > 0 {
        lemma_sum_grid_nonneg(w, r - 1, cols);
        lemma_sum_row_nonneg(|j: int| w(r - 1, j), cols);
    }
}

/// The weight of one cell in the termination potential.
spec fn pot_weight(g: Seq<Vec<u64>>, re: Seq<Vec<bool>>, gs: Seq<Vec<u128>>) -> spec_fn(
    int,
    int,
) -> int {
    |i: int, j: int|
        if re[i]@[j] {
            gs[i]@[j] as int
        } else {
            cost_bound(g) + 1
        }
}

/// The termination potential of the search state.
spec fn search_pot(g: Seq<Vec<u64>>, re: Seq<Vec<bool>>, gs: Seq<Vec<u128>>) -> int {
    sum_grid(pot_weight(g, re, gs), g.len() as int, g[0]@.len() as int)
}

/// The weight of one cell in the open-set count.
spec fn open_weight(op: Seq<Vec<bool>>) -> spec_fn(int, int) -> int {
    |i: int, j: int|
        if op[i]@[j] {
            1
        } else {
            0
        }
}

/// How many cells are open.
spec fn open_cnt(g: Seq<Vec<u64>>, op: Seq<Vec<bool>>) -> int {
    sum_grid(open_weight(op), g.len() as int, g[0]@.len() as int)
}

/// Arithmetic bounds that keep every score computed by the search inside
/// `u128`.
proof fn lemma_grid_bounds(g: Seq<Vec<u64>>)
    requires
        grid_wf(g),
        g.len() * g[0]@.len() <= usize::MAX,
    ensures
        g.len() * g[0]@.len() >= 1,
        cost_bound(g) >= 0,
        cost_bound(g) + (u64::MAX as int) <= (u64::MAX as int) * (u64::MAX as int),
        (u64::MAX as int) * (u64::MAX as int) + (u64::MAX as int) < u128::MAX as int,
        usize::MAX <= u64::MAX,
        forall|p: Position, e: Position|
            in_bounds(g, p) && in_bounds(g, e) ==> #[trigger] spec_manhattan(p, e) <= usize::MAX
                - 1,
{
    let rows = g.len() as int;
    let cols = g[0]@.len() as int;
    let m = u64::MAX as int;
    assert(rows * cols >= 1) by (nonlinear_arith)
        requires
            rows >= 1,
            cols >= 1,
    ;
    assert(usize::MAX <= u64::MAX);
    assert(rows * cols * m <= m * m) by (nonlinear_arith)
        requires
            1 <= rows * cols <= usize::MAX as int,
            usize::MAX as int <= m,
            m >= 0,
    ;
    assert(cost_bound(g) + m == rows * cols * m) by (nonlinear_arith)
        requires
            cost_bound(g) == (rows * cols - 1) * m,
    ;
    let mm = u128::MAX as int;
    assert(m == 18446744073709551615);
    assert(mm == 340282366920938463463374607431768211455);
    assert(m * m + m < mm) by (nonlinear_arith)
        requires
            m == 18446744073709551615,
            mm == 340282366920938463463374607431768211455,
    ;
    assert(rows + cols <= rows * cols + 1) by (nonlinear_arith)
        requires
            rows >= 1,
            cols >= 1,
    ;
    assert forall|p: Position, e: Position|
        in_bounds(g, p) && in_bounds(g, e) implies #[trigger] spec_manhattan(p, e) <= usize::MAX
        - 1 by {
        assert(abs_diff(p.0 as int, e.0 as int) <= rows - 1);
        assert(abs_diff(p.1 as int, e.1 as int) <= cols - 1);
    }
}

/// Writes `x` at cell `(i, j)` of a table.
pub(crate) fn set2<T>(v: &mut Vec<Vec<T>>, i: usize, j: usize, x: T)
    requires
        i < old(v)@.len(),
        j < old(v)@[i as int]@.len(),
    ensures
        final(v)@.len() == old(v)@.len(),
        forall|a: int| 0 <= a < final(v)@.len() && a != i ==> final(v)@[a] == old(v)@[a],
        final(v)@[i as int]@ == old(v)@[i as int]@.update(j as int, x),
        at2(final(v)@, (i, j)) == x,
        forall|p: Position|
            p.0 < final(v)@.len() && p.1 < final(v)@[p.0 as int]@.len() && (p.0 != i || p.1
                != j) ==> at2(final(v)@, p) == at2(old(v)@, p),
{
    let row = &mut v[i];
    row[j] = x;
    proof {
        assert forall|p: Position|
            p.0 < v@.len() && p.1 < v@[p.0 as int]@.len() && (p.0 != i || p.1 != j) implies at2(
            v@,
            p,
        ) == at2(old(v)@, p) by {
            if p.0 == i {
                assert(v@[p.0 as int]@[p.1 as int] == old(v)@[p.0 as int]@[p.1 as int]);
            }
        }
    }
}

/// The first index of `pi` holding an unsettled cell, scanning from `k`.
proof fn lemma_first_unsettled(ss: Set<Position>, pi: Seq<Position>, k: int) -> (i: int)
    requires
        0 <= k < pi.len(),
        !ss.contains(pi[pi.len() - 1]),
        forall|j: int| 0 <= j < k ==> ss.contains(#[trigger] pi[j]),
    ensures
        k <= i < pi.len(),
        !ss.contains(pi[i]),
        forall|j: int| 0 <= j < i ==> ss.contains(#[trigger] pi[j]),
    decreases pi.len() - k,
{
    if !ss.contains(pi[k]) {
        k
    } else {
        lemma_first_unsettled(ss, pi, k + 1)
    }
}

/// The heart of the optimality argument: when the open cell `cur` with the
/// least f-score is popped and every cost is at least one, no path from the
/// start undercuts `cur`'s g-score.
proof fn lemma_pop_optimal(
    g: Seq<Vec<u64>>,
    start: Position,
    end: Position,
    re: Seq<Vec<bool>>,
    op: Seq<Vec<bool>>,
    gs: Seq<Vec<u128>>,
    fs: Seq<Vec<u128>>,
    pa: Seq<Vec<Position>>,
    ss: Set<Position>,
    stamp: Map<Position, nat>,
    wit: Map<Position, Seq<Position>>,
    tick: nat,
    cur: Position,
)
    requires
        search_inv(g, start, end, re, op, gs, fs, pa, ss, stamp, wit, tick),
        costs_ge_1(g),
        in_bounds(g, cur),
        at2(op, cur),
        forall|q: Position|
            in_bounds(g, q) && #[trigger] at2(op, q) ==> at2(fs, cur) <= at2(fs, q),
    ensures
        forall|pi: Seq<Position>|
            #[trigger] is_path(g, pi, start, cur) ==> path_cost(g, pi) >= at2(gs, cur) as int,
{
    assert forall|pi: Seq<Position>| #[trigger] is_path(g, pi, start, cur) implies path_cost(
        g,
        pi,
    ) >= at2(gs, cur) as int by {
        let n = pi.len();
        assert(pi[n - 1] == cur);
        assert(!ss.contains(cur));
        let i = lemma_first_unsettled(ss, pi, 0);
        let y = pi[i];
        assert(in_bounds(g, y));
        // The g-score of the first unsettled cell is at most the cost of
        // the prefix of `pi` that reaches it.
        if i == 0 {
            assert(y == start);
            assert(path_cost(g, pi.take(1)) >= 0) by {
                lemma_path_cost_nonneg(g, pi.take(1));
            }
        } else {
            let x = pi[i - 1];
            assert(ss.contains(x));
            assert(adjacent(x, y));
            assert(at2(re, y));
            assert(at2(gs, y) as int <= at2(gs, x) as int + cost_at(g, y));
            lemma_path_prefix(g, pi, start, cur, i);
            assert(is_path(g, pi.take(i), start, x));
            assert(path_cost(g, pi.take(i)) >= at2(gs, x) as int);
            lemma_path_cost_take_step(g, pi, i);
        }
        assert(at2(re, y) && at2(gs, y) as int <= path_cost(g, pi.take(i + 1)));
        // `y` is open, so `cur`'s f-score is no larger than `y`'s.
        assert(at2(op, y));
        assert(at2(fs, cur) <= at2(fs, y));
        assert(at2(fs, cur) as int == at2(gs, cur) as int + spec_manhattan(cur, end));
        assert(at2(fs, y) as int == at2(gs, y) as int + spec_manhattan(y, end));
        // The heuristic is consistent along the rest of `pi`, which costs at
        // least one per step.
        lemma_manhattan_along_path(pi, i, n - 1, end);
        lemma_path_cost_suffix_ge_steps(g, pi, i + 1);
    }
}

/// When the open set empties without the end having been settled, no path
/// from the start to the end exists at all.
proof fn lemma_no_open_no_path(
    g: Seq<Vec<u64>>,
    start: Position,
    end: Position,
    re: Seq<Vec<bool>>,
    op: Seq<Vec<bool>>,
    gs: Seq<Vec<u128>>,
    fs: Seq<Vec<u128>>,
    pa: Seq<Vec<Position>>,
    ss: Set<Position>,
    stamp: Map<Position, nat>,
    wit: Map<Position, Seq<Position>>,
    tick: nat,
)
    requires
        search_inv(g, start, end, re, op, gs, fs, pa, ss, stamp, wit, tick),
        forall|p: Position| in_bounds(g, p) ==> !(#[trigger] at2(op, p)),
    ensures
        forall|pi: Seq<Position>| !is_path(g, pi, start, end),
{
    assert forall|pi: Seq<Position>| !is_path(g, pi, start, end) by {
        if is_path(g, pi, start, end) {
            lemma_settled_along(g, start, end, re, op, gs, fs, pa, ss, stamp, wit, tick, pi, pi.len() - 1);
            assert(ss.contains(end));
        }
    }
}

/// With no open cell left, every cell along a path from the start is
/// settled, by induction along the path.
proof fn lemma_settled_along(
    g: Seq<Vec<u64>>,
    start: Position,
    end: Position,
    re: Seq<Vec<bool>>,
    op: Seq<Vec<bool>>,
    gs: Seq<Vec<u128>>,
    fs: Seq<Vec<u128>>,
    pa: Seq<Vec<Position>>,
    ss: Set<Position>,
    stamp: Map<Position, nat>,
    wit: Map<Position, Seq<Position>>,
    tick: nat,
    pi: Seq<Position>,
    k: int,
)
    requires
        search_inv(g, start, end, re, op, gs, fs, pa, ss, stamp, wit, tick),
        forall|p: Position| in_bounds(g, p) ==> !(#[trigger] at2(op, p)),
        is_path(g, pi, start, end),
        0 <= k < pi.len(),
    ensures
        ss.contains(pi[k]),
    decreases k,
{
    if k == 0 {
        assert(at2(re, start));
        assert(!at2(op, start));
    } else {
        lemma_settled_along(g, start, end, re, op, gs, fs, pa, ss, stamp, wit, tick, pi, k - 1);
        assert(adjacent(pi[k - 1], pi[k]));
        assert(at2(re, pi[k]));
    }
}

/// A `rows` by `cols` table with every entry `v`.
pub(crate) fn filled_grid<T: Copy>(rows: usize, cols: usize, v: T) -> (r: Vec<Vec<T>>)
    requires
        rows >= 1,
        cols >= 1,
    ensures
        shape2(r@, rows as int, cols as int),
        forall|i: int, j: int| 0 <= i < rows && 0 <= j < cols ==> r@[i]@[j] == v,
{
    let mut out: Vec<Vec<T>> = Vec::new();
    let mut i: usize = 0;
    while i < rows
        invariant
            i <= rows,
            out@.len() == i,
            forall|a: int| 0 <= a < i ==> (#[trigger] out@[a]@).len() == cols,
            forall|a: int, b: int| 0 <= a < i && 0 <= b < cols ==> out@[a]@[b] == v,
        decreases rows - i,
    {
        let mut row: Vec<T> = Vec::new();
        let mut j: usize = 0;
        while j < cols
            invariant
                j <= cols,
                row@.len() == j,
                forall|b: int| 0 <= b < j ==> row@[b] == v,
            decreases cols - j,
        {
            row.push(v);
            j += 1;
        }
        out.push(row);
        i += 1;
    }
    out
}

/// The open cell with the least f-score, scanning cells in row-major order
/// and keeping the first minimum, so that ties break deterministically.
/// Returns `None` when the open set is empty.
fn select_min_open(op: &Vec<Vec<bool>>, fs: &Vec<Vec<u128>>, rows: usize, cols: usize) -> (r:
    Option<Position>)
    requires
        rows >= 1,
        cols >= 1,
        shape2(op@, rows as int, cols as int),
        shape2(fs@, rows as int, cols as int),
    ensures
        match r {
            Option::None => forall|p: Position|
                p.0 < rows && p.1 < cols ==> !(#[trigger] at2(op@, p)),
            Option::Some(p) => p.0 < rows && p.1 < cols && at2(op@, p) && forall|q: Position|
                q.0 < rows && q.1 < cols && #[trigger] at2(op@, q) ==> at2(fs@, p) <= at2(fs@, q),
        },
{
    let mut best: Option<Position> = None;
    let mut bestf: u128 = 0;
    let mut i: usize = 0;
    while i < rows
        invariant
            i <= rows,
            rows >= 1,
            cols >= 1,
            shape2(op@, rows as int, cols as int),
            shape2(fs@, rows as int, cols as int),
            match best {
                Option::None => forall|p: Position|
                    p.0 < i && p.1 < cols ==> !(#[trigger] at2(op@, p)),
                Option::Some(b) => b.0 < rows && b.1 < cols && at2(op@, b) && bestf == at2(fs@, b)
                    && forall|q: Position|
                    q.0 < i && q.1 < cols && #[trigger] at2(op@, q) ==> bestf <= at2(fs@, q),
            },
        decreases rows - i,
    {
        let mut j: usize = 0;
        while j < cols
            invariant
                i < rows,
                j <= cols,
                rows >= 1,
                cols >= 1,
                shape2(op@, rows as int, cols as int),
                shape2(fs@, rows as int, cols as int),
                match best {
                    Option::None => forall|p: Position|
                        (p.0 < i || (p.0 == i && p.1 < j)) && p.1 < cols ==> !(#[trigger] at2(
                            op@,
                            p,
                        )),
                    Option::Some(b) => b.0 < rows && b.1 < cols && at2(op@, b) && bestf == at2(
                        fs@,
                        b,
                    ) && forall|q: Position|
                        (q.0 < i || (q.0 == i && q.1 < j)) && q.1 < cols && #[trigger] at2(
                            op@,
                            q,
                        ) ==> bestf <= at2(fs@, q),
                },
            decreases cols - j,
        {
            if op[i][j] {
                let f = fs[i][j];
                match best {
                    Option::None => {
                        best = Some((i, j));
                        bestf = f;
                    },
                    Option::Some(_) => {
                        if f < bestf {
                            best = Some((i, j));
                            bestf = f;
                        }
                    },
                }
            }
            j += 1;
        }
        i += 1;
    }
    best
}

/// Reverses a vector of cells.
fn reversed_positions(v: &Vec<Position>) -> (r: Vec<Position>)
    ensures
        r@ == v@.reverse(),
{
    let n = v.len();
    let mut r: Vec<Position> = Vec::new();
    let mut i: usize = 0;
    while i < n
        invariant
            i <= n,
            n == v@.len(),
            r@.len() == i,
            forall|k: int| 0 <= k < i ==> r@[k] == v@[n - 1 - k],
        decreases n - i,
    {
        r.push(v[n - 1 - i]);
        i += 1;
    }
    proof {
        assert(r@ =~= v@.reverse());
    }
    r
}

/// Walks the predecessor records back from `current`, collecting the cells
/// from `current` back to `start` inclusive, in that order. The collected
/// cells, reversed, are a path from `start` to `current` that costs no more
/// than `current`'s g-score.
fn reconstruct_path(
    gsc: &Vec<Vec<u128>>,
    par: &Vec<Vec<Position>>,
    current: &Position,
    start: &Position,
    Ghost(g): Ghost<Seq<Vec<u64>>>,
    Ghost(re): Ghost<Seq<Vec<bool>>>,
    Ghost(stamp): Ghost<Map<Position, nat>>,
) -> (v: Vec<Position>)
    requires
        grid_wf(g),
        shape2(gsc@, g.len() as int, g[0]@.len() as int),
        shape2(par@, g.len() as int, g[0]@.len() as int),
        shape2(re, g.len() as int, g[0]@.len() as int),
        in_bounds(g, *current),
        at2(re, *current),
        in_bounds(g, *start),
        at2(re, *start),
        at2(gsc@, *start) == 0,
        forall|p: Position|
            in_bounds(g, p) && #[trigger] at2(re, p) && p != *start ==> parent_ok(
                g,
                p,
                par@,
                re,
                gsc@,
                stamp,
            ),
    ensures
        v@.len() >= 1,
        v@[0] == *current,
        v@[v@.len() - 1] == *start,
        is_path(g, v@.reverse(), *start, *current),
        path_cost(g, v@.reverse()) <= at2(gsc@, *current) as int,
{
    let mut t: Position = *current;
    let mut v: Vec<Position> = Vec::new();
    while t.0 != start.0 || t.1 != start.1
        invariant
            grid_wf(g),
            shape2(gsc@, g.len() as int, g[0]@.len() as int),
            shape2(par@, g.len() as int, g[0]@.len() as int),
            shape2(re, g.len() as int, g[0]@.len() as int),
            in_bounds(g, t),
            at2(re, t),
            in_bounds(g, *start),
            at2(re, *start),
            at2(gsc@, *start) == 0,
            forall|p: Position|
                in_bounds(g, p) && #[trigger] at2(re, p) && p != *start ==> parent_ok(
                    g,
                    p,
                    par@,
                    re,
                    gsc@,
                    stamp,
                ),
            v@.len() >= 1 ==> v@[0] == *current,
            v@.len() == 0 ==> t == *current,
            is_path(g, v@.push(t).reverse(), t, *current),
            path_cost(g, v@.push(t).reverse()) + (at2(gsc@, t) as int) <= at2(
                gsc@,
                *current,
            ) as int,
        decreases at2(gsc@, t) as int, stamp[t],
    {
        let ghost old_t = t;
        let ghost old_v = v@;
        v.push(t);
        let p = par[t.0][t.1];
        proof {
            assert(t != *start);
            assert(parent_ok(g, t, par@, re, gsc@, stamp));
            let prev = v@.push(p).reverse();
            let curr = old_v.push(old_t).reverse();
            assert(v@ == old_v.push(old_t));
            assert(prev =~= seq![p] + curr);
            lemma_path_prepend(g, curr, old_t, *current, p);
        }
        t = p;
    }
    proof {
        assert(t == *start);
    }
    v.push(t);
    proof {
        assert(v@[v@.len() - 1] == *start);
        assert(v@[0] == *current);
        assert(v@.reverse()[v@.len() - 1] == v@[0]);
    }
    v
}

/// The relaxedness of settled cells, excepting the cell `cur` whose
/// neighbours are still being processed.
spec fn closed_except(
    g: Seq<Vec<u64>>,
    re: Seq<Vec<bool>>,
    gs: Seq<Vec<u128>>,
    ss: Set<Position>,
    cur: Position,
) -> bool {
    forall|p: Position, q: Position|
        #[trigger] ss.contains(p) && p != cur && in_bounds(g, q) && #[trigger] adjacent(p, q)
            ==> at2(re, q) && at2(gs, q) as int <= at2(gs, p) as int + cost_at(g, q)
}

/// The first `k` neighbours in `nbrs` are relaxed with respect to `cur`.
spec fn relaxed_upto(
    g: Seq<Vec<u64>>,
    re: Seq<Vec<bool>>,
    gs: Seq<Vec<u128>>,
    cur: Position,
    nbrs: Seq<Position>,
    k: int,
) -> bool {
    forall|j: int|
        0 <= j < k ==> at2(re, #[trigger] nbrs[j]) && at2(gs, nbrs[j]) as int <= at2(
            gs,
            cur,
        ) as int + cost_at(g, nbrs[j])
}

/// Popping the minimal open cell: marking it settled keeps the whole
/// invariant except full relaxedness, which its own pair is excepted from.
proof fn lemma_insert_settled(
    g: Seq<Vec<u64>>,
    start: Position,
    end: Position,
    re: Seq<Vec<bool>>,
    op0: Seq<Vec<bool>>,
    op1: Seq<Vec<bool>>,
    gs: Seq<Vec<u128>>,
    fs: Seq<Vec<u128>>,
    pa: Seq<Vec<Position>>,
    ss0: Set<Position>,
    ss1: Set<Position>,
    stamp: Map<Position, nat>,
    wit: Map<Position, Seq<Position>>,
    tick: nat,
    cur: Position,
)
    requires
        search_inv(g, start, end, re, op0, gs, fs, pa, ss0, stamp, wit, tick),
        in_bounds(g, cur),
        at2(op0, cur),
        cur != end,
        shape2(op1, g.len() as int, g[0]@.len() as int),
        !at2(op1, cur),
        forall|p: Position| in_bounds(g, p) && p != cur ==> at2(op1, p) == at2(op0, p),
        ss1 == ss0.insert(cur),
        costs_ge_1(g) ==> forall|pi: Seq<Position>|
            #[trigger] is_path(g, pi, start, cur) ==> path_cost(g, pi) >= at2(gs, cur) as int,
    ensures
        search_inv_core(g, start, end, re, op1, gs, fs, pa, ss1, stamp, wit, tick),
        closed_except(g, re, gs, ss1, cur),
        ss1.contains(cur),
        at2(re, cur),
{
    assert(!ss0.contains(cur));
    assert(at2(re, cur));
    assert forall|p: Position| #[trigger] ss1.contains(p) implies in_bounds(g, p) && at2(re, p)
        && !at2(op1, p) by {
        if p != cur {
            assert(ss0.contains(p));
        }
    }
    assert forall|p: Position|
        in_bounds(g, p) && #[trigger] at2(re, p) && !ss1.contains(p) implies at2(op1, p) by {
        assert(!ss0.contains(p));
        assert(p != cur);
        assert(at2(op0, p));
    }
    if costs_ge_1(g) {
        assert forall|p: Position, pi: Seq<Position>|
            ss1.contains(p) && #[trigger] is_path(g, pi, start, p) implies path_cost(g, pi) >= at2(
            gs,
            p,
        ) as int by {
            if p != cur {
                assert(ss0.contains(p));
            }
        }
    }
}

/// An improving relaxation builds a new duplicate-free witness path for the
/// improved cell, and its cost stays under the grid-wide bound.
proof fn lemma_relax_witness(
    g: Seq<Vec<u64>>,
    start: Position,
    end: Position,
    re0: Seq<Vec<bool>>,
    op0: Seq<Vec<bool>>,
    gs0: Seq<Vec<u128>>,
    fs0: Seq<Vec<u128>>,
    pa0: Seq<Vec<Position>>,
    ss0: Set<Position>,
    stamp0: Map<Position, nat>,
    wit0: Map<Position, Seq<Position>>,
    tick0: nat,
    cur: Position,
    q: Position,
    t: int,
)
    requires
        search_inv_core(g, start, end, re0, op0, gs0, fs0, pa0, ss0, stamp0, wit0, tick0),
        g.len() * g[0]@.len() <= usize::MAX,
        in_bounds(g, cur),
        at2(re0, cur),
        in_bounds(g, q),
        adjacent(cur, q),
        q != cur,
        t == at2(gs0, cur) as int + cost_at(g, q),
        !at2(re0, q) || t < at2(gs0, q) as int,
    ensures
        q != start,
        !wit0[cur].contains(q),
        is_path(g, wit0[cur].push(q), start, q),
        wit0[cur].push(q).no_duplicates(),
        path_cost(g, wit0[cur].push(q)) == t,
        0 <= t <= cost_bound(g),
{
    let wc = wit0[cur];
    let wq = wc.push(q);
    assert(wit_ok(g, start, cur, wc, re0, gs0));
    if q == start {
        assert(at2(re0, start));
        assert(at2(gs0, start) == 0);
        assert(false);
    }
    if wc.contains(q) {
        let idx = choose|idx: int| 0 <= idx < wc.len() && wc[idx] == q;
        assert(at2(re0, wc[idx]));
        assert(path_cost(g, wc.take(idx + 1)) >= at2(gs0, wc[idx]) as int);
        lemma_path_cost_take_le(g, wc, idx + 1);
        assert(false);
    }
    lemma_path_push(g, wc, start, cur, q);
    assert forall|a: int, b: int| 0 <= a < b < wq.len() implies wq[a] != wq[b] by {
        if b == wc.len() {
            if wq[a] == q {
                assert(wc[a] == q);
                assert(wc.contains(q));
            }
        }
    }
    assert(wq.no_duplicates());
    lemma_simple_path_len(g, wq);
    lemma_path_cost_le_len(g, wq);
    assert((wq.len() - 1) * (u64::MAX as int) <= (g.len() * g[0]@.len() - 1) * (
    u64::MAX as int)) by (nonlinear_arith)
        requires
            1 <= wq.len() <= g.len() * g[0]@.len(),
    ;
    lemma_path_cost_nonneg(g, wq);
}

/// The shape of one improving relaxation step: the tables after it agree
/// with the tables before it everywhere but at `q`, which is reached, open,
/// and holds the new scores and predecessor.
spec fn relax_shape(
    g: Seq<Vec<u64>>,
    re0: Seq<Vec<bool>>,
    op0: Seq<Vec<bool>>,
    gs0: Seq<Vec<u128>>,
    fs0: Seq<Vec<u128>>,
    pa0: Seq<Vec<Position>>,
    re1: Seq<Vec<bool>>,
    op1: Seq<Vec<bool>>,
    gs1: Seq<Vec<u128>>,
    fs1: Seq<Vec<u128>>,
    pa1: Seq<Vec<Position>>,
    cur: Position,
    q: Position,
    t: u128,
    hq: u128,
) -> bool {
    let rows = g.len() as int;
    let cols = g[0]@.len() as int;
    &&& shape2(re1, rows, cols)
    &&& shape2(op1, rows, cols)
    &&& shape2(gs1, rows, cols)
    &&& shape2(fs1, rows, cols)
    &&& shape2(pa1, rows, cols)
    &&& at2(re1, q) == true
    &&& at2(op1, q) == true
    &&& at2(gs1, q) == t
    &&& at2(fs1, q) as int == t + hq
    &&& at2(pa1, q) == cur
    &&& forall|p: Position|
        in_bounds(g, p) && p != q ==> at2(re1, p) == at2(re0, p) && at2(op1, p) == at2(op0, p)
            && at2(gs1, p) == at2(gs0, p) && at2(fs1, p) == at2(fs0, p) && at2(pa1, p) == at2(
            pa0,
            p,
        )
}

/// After an improving relaxation, every reached cell still has its witness
/// path and a timestamp below the advanced clock.
proof fn lemma_relax_wit(
    g: Seq<Vec<u64>>,
    start: Position,
    end: Position,
    re0: Seq<Vec<bool>>,
    op0: Seq<Vec<bool>>,
    gs0: Seq<Vec<u128>>,
    fs0: Seq<Vec<u128>>,
    pa0: Seq<Vec<Position>>,
    re1: Seq<Vec<bool>>,
    op1: Seq<Vec<bool>>,
    gs1: Seq<Vec<u128>>,
    fs1: Seq<Vec<u128>>,
    pa1: Seq<Vec<Position>>,
    ss0: Set<Position>,
    stamp0: Map<Position, nat>,
    stamp1: Map<Position, nat>,
    wit0: Map<Position, Seq<Position>>,
    wit1: Map<Position, Seq<Position>>,
    tick0: nat,
    tick1: nat,
    cur: Position,
    q: Position,
    t: u128,
    hq: u128,
)
    requires
        search_inv_core(g, start, end, re0, op0, gs0, fs0, pa0, ss0, stamp0, wit0, tick0),
        g.len() * g[0]@.len() <= usize::MAX,
        in_bounds(g, cur),
        at2(re0, cur),
        in_bounds(g, q),
        adjacent(cur, q),
        q != cur,
        t as int == at2(gs0, cur) as int + cost_at(g, q),
        !at2(re0, q) || (t as int) < at2(gs0, q) as int,
        relax_shape(g, re0, op0, gs0, fs0, pa0, re1, op1, gs1, fs1, pa1, cur, q, t, hq),
        stamp1 == stamp0.insert(q, tick0),
        wit1 == wit0.insert(q, wit0[cur].push(q)),
        tick1 == tick0 + 1,
    ensures
        forall|p: Position|
            in_bounds(g, p) && #[trigger] at2(re1, p) ==> wit_ok(g, start, p, wit1[p], re1, gs1)
                && stamp1[p] < tick1,
{
    lemma_relax_witness(
        g,
        start,
        end,
        re0,
        op0,
        gs0,
        fs0,
        pa0,
        ss0,
        stamp0,
        wit0,
        tick0,
        cur,
        q,
        t as int,
    );
    let wc = wit0[cur];
    let wq = wc.push(q);
    assert(wq.take(wq.len() as int) =~= wq);
    assert forall|i: int| 0 <= i < wq.len() implies at2(re1, #[trigger] wq[i]) && path_cost(
        g,
        wq.take(i + 1),
    ) >= at2(gs1, wq[i]) as int by {
        if i < wc.len() {
            assert(wq.take(i + 1) =~= wc.take(i + 1));
            assert(at2(re0, wc[i]));
            assert(path_cost(g, wc.take(i + 1)) >= at2(gs0, wc[i]) as int);
            assert(wc[i] != q);
            if wc[i] == q {
                assert(wc.contains(q));
            }
        }
    }
    assert(wit_ok(g, start, q, wit1[q], re1, gs1));
    assert forall|p: Position|
        in_bounds(g, p) && #[trigger] at2(re1, p) && p != q implies wit_ok(
        g,
        start,
        p,
        wit1[p],
        re1,
        gs1,
    ) && stamp1[p] < tick1 by {
        assert(at2(re0, p));
        assert(wit_ok(g, start, p, wit0[p], re0, gs0));
        assert(stamp0[p] < tick0);
        let w = wit0[p];
        assert(wit1[p] == w);
        assert forall|i: int| 0 <= i < w.len() implies at2(re1, #[trigger] w[i]) && path_cost(
            g,
            w.take(i + 1),
        ) >= at2(gs1, w[i]) as int by {
            assert(at2(re0, w[i]));
            assert(path_cost(g, w.take(i + 1)) >= at2(gs0, w[i]) as int);
            if w[i] == q {
                assert((t as int) < at2(gs0, q) as int);
            }
        }
    }
}

/// After an improving relaxation, every reached non-start cell still has a
/// sound predecessor record.
proof fn lemma_relax_parent(
    g: Seq<Vec<u64>>,
    start: Position,
    end: Position,
    re0: Seq<Vec<bool>>,
    op0: Seq<Vec<bool>>,
    gs0: Seq<Vec<u128>>,
    fs0: Seq<Vec<u128>>,
    pa0: Seq<Vec<Position>>,
    re1: Seq<Vec<bool>>,
    op1: Seq<Vec<bool>>,
    gs1: Seq<Vec<u128>>,
    fs1: Seq<Vec<u128>>,
    pa1: Seq<Vec<Position>>,
    ss0: Set<Position>,
    stamp0: Map<Position, nat>,
    stamp1: Map<Position, nat>,
    wit0: Map<Position, Seq<Position>>,
    tick0: nat,
    cur: Position,
    q: Position,
    t: u128,
    hq: u128,
)
    requires
        search_inv_core(g, start, end, re0, op0, gs0, fs0, pa0, ss0, stamp0, wit0, tick0),
        in_bounds(g, cur),
        at2(re0, cur),
        in_bounds(g, q),
        adjacent(cur, q),
        q != cur,
        q != start,
        t as int == at2(gs0, cur) as int + cost_at(g, q),
        !at2(re0, q) || (t as int) < at2(gs0, q) as int,
        relax_shape(g, re0, op0, gs0, fs0, pa0, re1, op1, gs1, fs1, pa1, cur, q, t, hq),
        stamp1 == stamp0.insert(q, tick0),
    ensures
        forall|p: Position|
            in_bounds(g, p) && #[trigger] at2(re1, p) && p != start ==> parent_ok(
                g,
                p,
                pa1,
                re1,
                gs1,
                stamp1,
            ),
{
    assert(parent_ok(g, q, pa1, re1, gs1, stamp1)) by {
        assert(at2(gs1, cur) == at2(gs0, cur));
        assert(stamp1[cur] == stamp0[cur]);
        assert(stamp0[cur] < tick0);
        assert(stamp1[q] == tick0);
    }
    assert forall|p: Position|
        in_bounds(g, p) && #[trigger] at2(re1, p) && p != start && p != q implies parent_ok(
        g,
        p,
        pa1,
        re1,
        gs1,
        stamp1,
    ) by {
        assert(at2(re0, p));
        assert(parent_ok(g, p, pa0, re0, gs0, stamp0));
        let w = at2(pa0, p);
        assert(at2(pa1, p) == w);
        if w == q {
            assert(at2(re0, q));
            assert((t as int) < at2(gs0, q) as int);
        } else {
            assert(stamp1[w] == stamp0[w] && stamp1[p] == stamp0[p]);
        }
    }
}

/// An improving relaxation strictly shrinks the termination potential.
proof fn lemma_relax_pot(
    g: Seq<Vec<u64>>,
    re0: Seq<Vec<bool>>,
    gs0: Seq<Vec<u128>>,
    re1: Seq<Vec<bool>>,
    gs1: Seq<Vec<u128>>,
    cur: Position,
    q: Position,
    t: u128,
)
    requires
        grid_wf(g),
        g.len() <= usize::MAX,
        g[0]@.len() <= usize::MAX,
        in_bounds(g, q),
        0 <= t as int <= cost_bound(g),
        !at2(re0, q) || (t as int) < at2(gs0, q) as int,
        at2(re1, q) == true,
        at2(gs1, q) == t,
        forall|p: Position|
            in_bounds(g, p) && p != q ==> at2(re1, p) == at2(re0, p) && at2(gs1, p) == at2(gs0, p),
    ensures
        search_pot(g, re1, gs1) < search_pot(g, re0, gs0),
{
    let rows = g.len() as int;
    let cols = g[0]@.len() as int;
    let w1 = pot_weight(g, re0, gs0);
    let w2 = pot_weight(g, re1, gs1);
    assert forall|i: int, j: int| 0 <= i < rows && 0 <= j < cols implies #[trigger] w2(i, j) <= w1(
        i,
        j,
    ) by {
        let p = (i as usize, j as usize);
        assert(p.0 as int == i && p.1 as int == j);
        assert(in_bounds(g, p));
        if p == q {
            assert(w2(i, j) == t as int);
        } else {
            assert(at2(re1, p) == at2(re0, p) && at2(gs1, p) == at2(gs0, p));
        }
    }
    assert(w2(q.0 as int, q.1 as int) < w1(q.0 as int, q.1 as int));
    lemma_sum_grid_lt(w1, w2, rows, cols, q.0 as int, q.1 as int);
}

/// An improving relaxation of `q` from the settled cell `cur` preserves the
/// search invariant, with `cur`'s own relaxedness still excepted, and
/// strictly shrinks the termination potential.
proof fn lemma_relax_improve(
    g: Seq<Vec<u64>>,
    start: Position,
    end: Position,
    re0: Seq<Vec<bool>>,
    op0: Seq<Vec<bool>>,
    gs0: Seq<Vec<u128>>,
    fs0: Seq<Vec<u128>>,
    pa0: Seq<Vec<Position>>,
    re1: Seq<Vec<bool>>,
    op1: Seq<Vec<bool>>,
    gs1: Seq<Vec<u128>>,
    fs1: Seq<Vec<u128>>,
    pa1: Seq<Vec<Position>>,
    ss0: Set<Position>,
    ss1: Set<Position>,
    stamp0: Map<Position, nat>,
    stamp1: Map<Position, nat>,
    wit0: Map<Position, Seq<Position>>,
    wit1: Map<Position, Seq<Position>>,
    tick0: nat,
    tick1: nat,
    cur: Position,
    q: Position,
    t: u128,
    hq: u128,
)
    requires
        search_inv_core(g, start, end, re0, op0, gs0, fs0, pa0, ss0, stamp0, wit0, tick0),
        closed_except(g, re0, gs0, ss0, cur),
        g.len() <= usize::MAX,
        g[0]@.len() <= usize::MAX,
        g.len() * g[0]@.len() <= usize::MAX,
        ss0.contains(cur),
        cur != end,
        in_bounds(g, q),
        adjacent(cur, q),
        q != cur,
        t as int == at2(gs0, cur) as int + cost_at(g, q),
        !at2(re0, q) || (t as int) < at2(gs0, q) as int,
        hq == spec_manhattan(q, end),
        relax_shape(g, re0, op0, gs0, fs0, pa0, re1, op1, gs1, fs1, pa1, cur, q, t, hq),
        ss1 == ss0.remove(q),
        stamp1 == stamp0.insert(q, tick0),
        wit1 == wit0.insert(q, wit0[cur].push(q)),
        tick1 == tick0 + 1,
    ensures
        search_inv_core(g, start, end, re1, op1, gs1, fs1, pa1, ss1, stamp1, wit1, tick1),
        closed_except(g, re1, gs1, ss1, cur),
        ss1.contains(cur),
        at2(gs1, cur) == at2(gs0, cur),
        forall|x: Position|
            in_bounds(g, x) && #[trigger] at2(re0, x) ==> at2(gs1, x) as int <= at2(gs0, x) as int,
        search_pot(g, re1, gs1) < search_pot(g, re0, gs0),
{
    assert(at2(re0, cur));
    lemma_relax_witness(
        g,
        start,
        end,
        re0,
        op0,
        gs0,
        fs0,
        pa0,
        ss0,
        stamp0,
        wit0,
        tick0,
        cur,
        q,
        t as int,
    );
    lemma_relax_wit(
        g,
        start,
        end,
        re0,
        op0,
        gs0,
        fs0,
        pa0,
        re1,
        op1,
        gs1,
        fs1,
        pa1,
        ss0,
        stamp0,
        stamp1,
        wit0,
        wit1,
        tick0,
        tick1,
        cur,
        q,
        t,
        hq,
    );
    lemma_relax_parent(
        g,
        start,
        end,
        re0,
        op0,
        gs0,
        fs0,
        pa0,
        re1,
        op1,
        gs1,
        fs1,
        pa1,
        ss0,
        stamp0,
        stamp1,
        wit0,
        tick0,
        cur,
        q,
        t,
        hq,
    );
    lemma_relax_pot(g, re0, gs0, re1, gs1, cur, q, t);
    // g-scores never rise at cells that were reached.
    assert forall|x: Position| in_bounds(g, x) && #[trigger] at2(re0, x) implies at2(
        gs1,
        x,
    ) as int <= at2(gs0, x) as int by {
        if x == q {
            assert((t as int) < at2(gs0, q) as int);
        }
    }
    // Flag clauses.
    assert forall|p: Position| #[trigger] ss1.contains(p) implies in_bounds(g, p) && at2(re1, p)
        && !at2(op1, p) by {
        assert(ss0.contains(p));
        assert(p != q);
    }
    assert forall|p: Position|
        in_bounds(g, p) && #[trigger] at2(re1, p) && !ss1.contains(p) implies at2(op1, p) by {
        if p != q {
            assert(at2(re0, p));
            assert(!ss0.contains(p));
        }
    }
    // Optimality of settled cells carries over.
    if costs_ge_1(g) {
        assert forall|p: Position, pi: Seq<Position>|
            ss1.contains(p) && #[trigger] is_path(g, pi, start, p) implies path_cost(g, pi) >= at2(
            gs1,
            p,
        ) as int by {
            assert(ss0.contains(p) && p != q);
        }
    }
    // Relaxedness of other settled cells carries over.
    assert forall|p: Position, q2: Position|
        #[trigger] ss1.contains(p) && p != cur && in_bounds(g, q2) && #[trigger] adjacent(
            p,
            q2,
        ) implies at2(re1, q2) && at2(gs1, q2) as int <= at2(gs1, p) as int + cost_at(g, q2) by {
        assert(ss0.contains(p));
        assert(p != q);
        assert(at2(re0, q2));
        assert(at2(gs0, q2) as int <= at2(gs0, p) as int + cost_at(g, q2));
    }
}

/// Once every neighbour of the popped cell is relaxed, the full invariant
/// holds again.
proof fn lemma_iteration_end(
    g: Seq<Vec<u64>>,
    start: Position,
    end: Position,
    re: Seq<Vec<bool>>,
    op: Seq<Vec<bool>>,
    gs: Seq<Vec<u128>>,
    fs: Seq<Vec<u128>>,
    pa: Seq<Vec<Position>>,
    ss: Set<Position>,
    stamp: Map<Position, nat>,
    wit: Map<Position, Seq<Position>>,
    tick: nat,
    cur: Position,
    nbrs: Seq<Position>,
)
    requires
        search_inv_core(g, start, end, re, op, gs, fs, pa, ss, stamp, wit, tick),
        closed_except(g, re, gs, ss, cur),
        relaxed_upto(g, re, gs, cur, nbrs, nbrs.len() as int),
        forall|q: Position| #[trigger]
            nbrs.contains(q) <==> (adjacent(cur, q) && q.0 < g.len() && q.1 < g[0]@.len()),
    ensures
        search_inv(g, start, end, re, op, gs, fs, pa, ss, stamp, wit, tick),
{
    assert forall|p: Position, q2: Position|
        #[trigger] ss.contains(p) && in_bounds(g, q2) && #[trigger] adjacent(p, q2) implies at2(
        re,
        q2,
    ) && at2(gs, q2) as int <= at2(gs, p) as int + cost_at(g, q2) by {
        if p == cur {
            assert(nbrs.contains(q2));
            let j = choose|j: int| 0 <= j < nbrs.len() && nbrs[j] == q2;
            assert(at2(re, nbrs[j]));
        }
    }
}

/// Both components of the loop measure are non-negative.
proof fn lemma_measures_nonneg(
    g: Seq<Vec<u64>>,
    re: Seq<Vec<bool>>,
    gs: Seq<Vec<u128>>,
    op: Seq<Vec<bool>>,
)
    requires
        grid_wf(g),
        g.len() <= usize::MAX,
        g[0]@.len() <= usize::MAX,
        g.len() * g[0]@.len() <= usize::MAX,
    ensures
        search_pot(g, re, gs) >= 0,
        open_cnt(g, op) >= 0,
{
    let rows = g.len() as int;
    let cols = g[0]@.len() as int;
    lemma_grid_bounds(g);
    let wp = pot_weight(g, re, gs);
    assert forall|i: int, j: int| 0 <= i < rows && 0 <= j < cols implies #[trigger] wp(i, j)
        >= 0 by {
        assert(cost_bound(g) >= 0);
    }
    lemma_sum_grid_nonneg(wp, rows, cols);
    let wo = open_weight(op);
    assert(forall|i: int, j: int| 0 <= i < rows && 0 <= j < cols ==> #[trigger] wo(i, j) >= 0);
    lemma_sum_grid_nonneg(wo, rows, cols);
}

/// Closing one open cell strictly shrinks the open-set count.
proof fn lemma_pop_count(
    g: Seq<Vec<u64>>,
    op0: Seq<Vec<bool>>,
    op1: Seq<Vec<bool>>,
    cur: Position,
)
    requires
        grid_wf(g),
        g.len() <= usize::MAX,
        g[0]@.len() <= usize::MAX,
        in_bounds(g, cur),
        at2(op0, cur),
        !at2(op1, cur),
        forall|p: Position| in_bounds(g, p) && p != cur ==> at2(op1, p) == at2(op0, p),
    ensures
        open_cnt(g, op1) < open_cnt(g, op0),
{
    let rows = g.len() as int;
    let cols = g[0]@.len() as int;
    let w1 = open_weight(op0);
    let w2 = open_weight(op1);
    assert forall|i: int, j: int| 0 <= i < rows && 0 <= j < cols implies #[trigger] w2(i, j) <= w1(
        i,
        j,
    ) by {
        let p = (i as usize, j as usize);
        assert(p.0 as int == i && p.1 as int == j);
        assert(in_bounds(g, p));
        if p != cur {
            assert(at2(op1, p) == at2(op0, p));
        }
    }
    assert(w2(cur.0 as int, cur.1 as int) < w1(cur.0 as int, cur.1 as int));
    lemma_sum_grid_lt(w1, w2, rows, cols, cur.0 as int, cur.1 as int);
}

/// Instantiates the score-bound clause of the invariant at one cell.
proof fn lemma_core_gf(
    g: Seq<Vec<u64>>,
    start: Position,
    end: Position,
    re: Seq<Vec<bool>>,
    op: Seq<Vec<bool>>,
    gs: Seq<Vec<u128>>,
    fs: Seq<Vec<u128>>,
    pa: Seq<Vec<Position>>,
    ss: Set<Position>,
    stamp: Map<Position, nat>,
    wit: Map<Position, Seq<Position>>,
    tick: nat,
    p: Position,
)
    requires
        search_inv_core(g, start, end, re, op, gs, fs, pa, ss, stamp, wit, tick),
        in_bounds(g, p),
        at2(re, p),
    ensures
        at2(gs, p) as int <= cost_bound(g),
        at2(fs, p) as int == at2(gs, p) as int + spec_manhattan(p, end),
{
}

/// Best-first search for a path from `start` to `end` over the cost grid
/// `map`, guided by the Manhattan distance heuristic. Frontier ties break
/// deterministically: the open cell earliest in row-major order wins.
///
/// Returns a path from `start` to `end` inclusive, or `None` exactly when no
/// path exists. When every cost in the grid is at least one, the heuristic
/// is consistent and the returned path is one of least total cost.
#[verifier::rlimit(60)]
#[verifier::spinoff_prover]
pub fn astar(start: Position, end: Position, map: &Vec<Vec<u64>>) -> (r: Option<Vec<Position>>)
    requires
        grid_wf(map@),
        in_bounds(map@, start),
        in_bounds(map@, end),
        map@.len() * map@[0]@.len() <= usize::MAX,
    ensures
        match r {
            Option::None => forall|pi: Seq<Position>| !is_path(map@, pi, start, end),
            Option::Some(p) => {
                &&& is_path(map@, p@, start, end)
                &&& path_cost(map@, p@) <= cost_bound(map@)
                &&& (costs_ge_1(map@) ==> forall|pi: Seq<Position>|
                    #[trigger] is_path(map@, pi, start, end) ==> path_cost(map@, pi) >= path_cost(
                        map@,
                        p@,
                    ))
                &&& (start == end ==> p@ == seq![start])
            },
        },
{
    let ghost g = map@;
    let rows = map.len();
    let cols = map[0].len();
    if start.0 == end.0 && start.1 == end.1 {
        let mut v: Vec<Position> = Vec::new();
        v.push(start);
        proof {
            assert(start == end);
            assert(v@ =~= seq![start]);
            assert(is_path(g, v@, start, end));
            lemma_grid_bounds(g);
            assert forall|pi: Seq<Position>| #[trigger] is_path(g, pi, start, end) implies
            path_cost(g, pi) >= path_cost(g, v@) by {
                lemma_path_cost_nonneg(g, pi);
            }
        }
        return Some(v);
    }
    let mut re: Vec<Vec<bool>> = filled_grid(rows, cols, false);
    let mut op: Vec<Vec<bool>> = filled_grid(rows, cols, false);
    let mut gs: Vec<Vec<u128>> = filled_grid(rows, cols, 0u128);
    let mut fs: Vec<Vec<u128>> = filled_grid(rows, cols, 0u128);
    let mut pa: Vec<Vec<Position>> = filled_grid(rows, cols, (0usize, 0usize));
    set2(&mut re, start.0, start.1, true);
    set2(&mut op, start.0, start.1, true);
    proof {
        lemma_grid_bounds(g);
    }
    let h0 = manhattan_distance(&start, &end);
    set2(&mut fs, start.0, start.1, h0 as u128);
    let ghost mut ss: Set<Position> = Set::empty();
    let ghost mut stamp: Map<Position, nat> = Map::<Position, nat>::empty().insert(start, 0nat);
    let ghost mut wit: Map<Position, Seq<Position>> = Map::<Position, Seq<Position>>::empty().insert(
        start,
        seq![start],
    );
    let ghost mut tick: nat = 1nat;
    proof {
        assert(is_path(g, seq![start], start, start));
        assert(seq![start].no_duplicates());
        assert(seq![start].take(1) =~= seq![start]);
        assert(wit_ok(g, start, start, wit[start], re@, gs@));
        assert(search_inv(g, start, end, re@, op@, gs@, fs@, pa@, ss, stamp, wit, tick));
    }
    loop
        invariant
            g == map@,
            rows == g.len(),
            cols == g[0]@.len(),
            rows * cols <= usize::MAX,
            start != end,
            search_inv(g, start, end, re@, op@, gs@, fs@, pa@, ss, stamp, wit, tick),
        ensures
            search_inv(g, start, end, re@, op@, gs@, fs@, pa@, ss, stamp, wit, tick),
            forall|p: Position| in_bounds(g, p) ==> !(#[trigger] at2(op@, p)),
        decreases search_pot(g, re@, gs@), open_cnt(g, op@),
    {
        let sel = select_min_open(&op, &fs, rows, cols);
        let cur: Position;
        match sel {
            Option::None => {
                break;
            },
            Option::Some(c) => {
                cur = c;
            },
        }
        proof {
            assert(in_bounds(g, cur));
            assert(at2(op@, cur));
            if costs_ge_1(g) {
                lemma_pop_optimal(
                    g,
                    start,
                    end,
                    re@,
                    op@,
                    gs@,
                    fs@,
                    pa@,
                    ss,
                    stamp,
                    wit,
                    tick,
                    cur,
                );
            }
        }
        if cur.0 == end.0 && cur.1 == end.1 {
            proof {
                assert(cur == end);
            }
            let back = reconstruct_path(&gs, &pa, &cur, &start, Ghost(g), Ghost(re@), Ghost(stamp));
            let path = reversed_positions(&back);
            proof {
                assert(path@ == back@.reverse());
                assert(is_path(g, path@, start, end));
                assert(path_cost(g, path@) <= at2(gs@, end) as int);
                assert(at2(gs@, end) as int <= cost_bound(g));
                if costs_ge_1(g) {
                    assert(path_cost(g, path@) >= at2(gs@, end) as int);
                    assert forall|pi: Seq<Position>| #[trigger] is_path(g, pi, start, end) implies
                    path_cost(g, pi) >= path_cost(g, path@) by {
                        assert(path_cost(g, pi) >= at2(gs@, end) as int);
                    }
                }
            }
            return Some(path);
        }
        let ghost pot_entry = search_pot(g, re@, gs@);
        let ghost cnt_entry = open_cnt(g, op@);
        let ghost op_entry = op@;
        let ghost ss_before = ss;
        set2(&mut op, cur.0, cur.1, false);
        let ghost op_after_pop = op@;
        proof {
            assert(cur != end);
            ss = ss.insert(cur);
            lemma_insert_settled(
                g,
                start,
                end,
                re@,
                op_entry,
                op@,
                gs@,
                fs@,
                pa@,
                ss_before,
                ss,
                stamp,
                wit,
                tick,
                cur,
            );
        }
        let nbrs = neighbours(&cur, &(rows, cols));
        let gcur = gs[cur.0][cur.1];
        let mut k: usize = 0;
        while k < nbrs.len()
            invariant
                g == map@,
                rows == g.len(),
                cols == g[0]@.len(),
                rows * cols <= usize::MAX,
                start != end,
                k <= nbrs@.len(),
                in_bounds(g, cur),
                ss.contains(cur),
                at2(re@, cur),
                cur != end,
                gcur == at2(gs@, cur),
                forall|q: Position| #[trigger]
                    nbrs@.contains(q) <==> (adjacent(cur, q) && q.0 < rows && q.1 < cols),
                search_inv_core(g, start, end, re@, op@, gs@, fs@, pa@, ss, stamp, wit, tick),
                closed_except(g, re@, gs@, ss, cur),
                relaxed_upto(g, re@, gs@, cur, nbrs@, k as int),
                search_pot(g, re@, gs@) <= pot_entry,
                search_pot(g, re@, gs@) == pot_entry ==> op@ == op_after_pop,
            decreases nbrs@.len() - k,
        {
            let q = nbrs[k];
            proof {
                assert(nbrs@[k as int] == q);
                assert(nbrs@.contains(q));
                assert(adjacent(cur, q) && q.0 < rows && q.1 < cols);
                assert(in_bounds(g, q));
                assert(q != cur);
                lemma_grid_bounds(g);
                lemma_core_gf(g, start, end, re@, op@, gs@, fs@, pa@, ss, stamp, wit, tick, cur);
                assert(at2(gs@, cur) as int <= cost_bound(g));
            }
            let cq: u64 = map[q.0][q.1];
            let t: u128 = gcur + (cq as u128);
            let improve: bool = !re[q.0][q.1] || t < gs[q.0][q.1];
            if improve {
                let ghost re0 = re@;
                let ghost op0 = op@;
                let ghost gs0 = gs@;
                let ghost fs0 = fs@;
                let ghost pa0 = pa@;
                let ghost ss0 = ss;
                let ghost stamp0 = stamp;
                let ghost wit0 = wit;
                let ghost tick0 = tick;
                proof {
                    lemma_relax_witness(
                        g,
                        start,
                        end,
                        re0,
                        op0,
                        gs0,
                        fs0,
                        pa0,
                        ss0,
                        stamp0,
                        wit0,
                        tick0,
                        cur,
                        q,
                        t as int,
                    );
                }
                set2(&mut pa, q.0, q.1, cur);
                set2(&mut gs, q.0, q.1, t);
                let hq = manhattan_distance(&q, &end);
                set2(&mut fs, q.0, q.1, t + (hq as u128));
                set2(&mut re, q.0, q.1, true);
                set2(&mut op, q.0, q.1, true);
                proof {
                    ss = ss.remove(q);
                    stamp = stamp.insert(q, tick);
                    wit = wit.insert(q, wit0[cur].push(q));
                    tick = tick + 1;
                    assert(relax_shape(g, re0, op0, gs0, fs0, pa0, re@, op@, gs@, fs@, pa@, cur, q, t, hq as u128)) by {
                        assert forall|p: Position| in_bounds(g, p) && p != q implies at2(re@, p)
                            == at2(re0, p) && at2(op@, p) == at2(op0, p) && at2(gs@, p) == at2(
                            gs0,
                            p,
                        ) && at2(fs@, p) == at2(fs0, p) && at2(pa@, p) == at2(pa0, p) by {
                        }
                    }
                    lemma_relax_improve(
                        g,
                        start,
                        end,
                        re0,
                        op0,
                        gs0,
                        fs0,
                        pa0,
                        re@,
                        op@,
                        gs@,
                        fs@,
                        pa@,
                        ss0,
                        ss,
                        stamp0,
                        stamp,
                        wit0,
                        wit,
                        tick0,
                        tick,
                        cur,
                        q,
                        t,
                        hq as u128,
                    );
                    assert(search_pot(g, re@, gs@) < pot_entry);
                    assert forall|j: int|
                        0 <= j < k + 1 implies at2(re@, #[trigger] nbrs@[j]) && at2(
                        gs@,
                        nbrs@[j],
                    ) as int <= at2(gs@, cur) as int + cost_at(g, nbrs@[j]) by {
                        assert(nbrs@.contains(nbrs@[j]));
                        assert(in_bounds(g, nbrs@[j]));
                        if j < k {
                            assert(at2(re0, nbrs@[j]));
                            assert(at2(gs0, nbrs@[j]) as int <= at2(gs0, cur) as int + cost_at(
                                g,
                                nbrs@[j],
                            ));
                            if nbrs@[j] == q {
                                assert(at2(re@, q));
                                assert(at2(gs@, q) == t);
                            } else {
                                assert(at2(re@, nbrs@[j]) == at2(re0, nbrs@[j]));
                                assert(at2(gs@, nbrs@[j]) == at2(gs0, nbrs@[j]));
                            }
                        } else {
                            assert(nbrs@[j] == q);
                            assert(at2(re@, q));
                            assert(at2(gs@, q) == t);
                        }
                    }
                }
            } else {
                proof {
                    assert(at2(re@, q));
                    assert(at2(gs@, q) as int <= at2(gs@, cur) as int + cost_at(g, q));
                    assert forall|j: int|
                        0 <= j < k + 1 implies at2(re@, #[trigger] nbrs@[j]) && at2(
                        gs@,
                        nbrs@[j],
                    ) as int <= at2(gs@, cur) as int + cost_at(g, nbrs@[j]) by {
                        if j == k {
                            assert(nbrs@[j] == q);
                        }
                    }
                }
            }
            k += 1;
        }
        proof {
            lemma_iteration_end(
                g,
                start,
                end,
                re@,
                op@,
                gs@,
                fs@,
                pa@,
                ss,
                stamp,
                wit,
                tick,
                cur,
                nbrs@,
            );
            lemma_measures_nonneg(g, re@, gs@, op@);
            if search_pot(g, re@, gs@) == pot_entry {
                assert(op@ == op_after_pop);
                lemma_pop_count(g, op_entry, op_after_pop, cur);
                assert(open_cnt(g, op@) < cnt_entry);
            }
        }
    }
    proof {
        lemma_no_open_no_path(g, start, end, re@, op@, gs@, fs@, pa@, ss, stamp, wit, tick);
    }
    None
}

/// Searches `grid` for a cheapest path from `start` to `end`.
///
/// On success the result holds the path, running from `start` to `end`
/// inclusive, and its total cost: the sum of the entry costs of every cell
/// on the path except the start. `None` is returned exactly when no path
/// exists. When every cost in the grid is at least one, no path between the
/// two cells costs less than the returned total.
#[verifier::rlimit(60)]
#[verifier::spinoff_prover]
pub fn find_path(grid: &Vec<Vec<u64>>, start: Position, end: Position) -> (r: Option<
    (Vec<Position>, u128),
>)
    requires
        grid_wf(grid@),
        in_bounds(grid@, start),
        in_bounds(grid@, end),
        grid@.len() * grid@[0]@.len() <= usize::MAX,
    ensures
        match r {
            Option::None => forall|pi: Seq<Position>| !is_path(grid@, pi, start, end),
            Option::Some((p, c)) => {
                &&& is_path(grid@, p@, start, end)
                &&& p@[0] == start
                &&& p@[p@.len() - 1] == end
                &&& (forall|i: int| 1 <= i < p@.len() ==> adjacent(p@[i - 1], #[trigger] p@[i]))
                &&& c as int == path_cost(grid@, p@)
                &&& (costs_ge_1(grid@) ==> forall|pi: Seq<Position>|
                    #[trigger] is_path(grid@, pi, start, end) ==> path_cost(grid@, pi) >= c as int)
                &&& (start == end ==> p@ == seq![start] && c == 0)
            },
        },
{
    let ghost g = grid@;
    match astar(start, end, grid) {
        Option::None => None,
        Option::Some(path) => {
            let mut total: u128 = 0;
            let mut i: usize = 1;
            proof {
                lemma_grid_bounds(g);
                assert(path@.take(1) =~= seq![path@[0]]);
            }
            while i < path.len()
                invariant
                    g == grid@,
                    grid_wf(g),
                    g.len() * g[0]@.len() <= usize::MAX,
                    is_path(g, path@, start, end),
                    path_cost(g, path@) <= cost_bound(g),
                    1 <= i <= path@.len(),
                    total as int == path_cost(g, path@.take(i as int)),
                decreases path@.len() - i,
            {
                proof {
                    lemma_grid_bounds(g);
                    lemma_path_cost_take_step(g, path@, i as int);
                    lemma_path_cost_take_le(g, path@, i as int + 1);
                    lemma_path_cost_nonneg(g, path@.take(i as int));
                    assert(in_bounds(g, path@[i as int]));
                }
                let p_i = path[i];
                total = total + (grid[p_i.0][p_i.1] as u128);
                i += 1;
            }
            proof {
                assert(path@.take(path@.len() as int) =~= path@);
            }
            Some((path, total))
        },
    }
}

/// Why a search request was rejected before any search began.
#[derive(Debug, Clone, Copy, PartialEq, Eq)]
pub enum SearchError {
    /// The grid has no rows, an empty first row, rows of unequal length, or
    /// more cells than the address space can index.
    InvalidShape,
    /// The start or the end cell lies outside the grid.
    InvalidCoordinates,
}

/// Whether `grid` is rectangular, non-empty, and small enough for every
/// cell to be indexed.
pub fn grid_is_valid(grid: &Vec<Vec<u64>>) -> (b: bool)
    ensures
        b == (grid_wf(grid@) && grid@.len() * grid@[0]@.len() <= usize::MAX),
{
    let rows = grid.len();
    if rows == 0 {
        return false;
    }
    let cols = grid[0].len();
    if cols == 0 {
        return false;
    }
    let mut i: usize = 1;
    while i < rows
        invariant
            rows == grid@.len(),
            cols == grid@[0]@.len(),
            1 <= i <= rows,
            forall|a: int| 0 <= a < i ==> (#[trigger] grid@[a]@).len() == cols,
        decreases rows - i,
    {
        if grid[i].len() != cols {
            return false;
        }
        i += 1;
    }
    match rows.checked_mul(cols) {
        Option::Some(_) => true,
        Option::None => false,
    }
}

/// Validates the grid and the coordinates, then searches. A malformed grid
/// and out-of-bounds cells are rejected as errors; an exhausted search is
/// not an error but a successful `Ok(None)`.
pub fn try_find_path(grid: &Vec<Vec<u64>>, start: Position, end: Position) -> (r: Result<
    Option<(Vec<Position>, u128)>,
    SearchError,
>)
    ensures
        match r {
            Result::Err(e) => {
                ||| (e == SearchError::InvalidShape && !(grid_wf(grid@) && grid@.len()
                    * grid@[0]@.len() <= usize::MAX))
                ||| (e == SearchError::InvalidCoordinates && grid_wf(grid@) && grid@.len()
                    * grid@[0]@.len() <= usize::MAX && !(in_bounds(grid@, start) && in_bounds(
                    grid@,
                    end,
                )))
            },
            Result::Ok(o) => {
                &&& grid_wf(grid@)
                &&& in_bounds(grid@, start)
                &&& in_bounds(grid@, end)
                &&& match o {
                    Option::None => forall|pi: Seq<Position>| !is_path(grid@, pi, start, end),
                    Option::Some((p, c)) => {
                        &&& is_path(grid@, p@, start, end)
                        &&& c as int == path_cost(grid@, p@)
                        &&& (costs_ge_1(grid@) ==> forall|pi: Seq<Position>|
                            #[trigger] is_path(grid@, pi, start, end) ==> path_cost(grid@, pi) >= c as int)
                        &&& (start == end ==> p@ == seq![start] && c == 0)
                    },
                }
            },
        },
{
    if !grid_is_valid(grid) {
        return Err(SearchError::InvalidShape);
    }
    if !(start.0 < grid.len() && start.1 < grid[0].len() && end.0 < grid.len() && end.1
        < grid[0].len()) {
        return Err(SearchError::InvalidCoordinates);
    }
    Ok(find_path(grid, start, end))
}

/// The total cost of a cheapest path is unique: any two results that are
/// both cheapest paths between the same two cells of the same grid carry
/// the same total cost, so repeating a search can change the path only
/// among ties, never the cost.
pub proof fn lemma_total_cost_unique(
    g: Seq<Vec<u64>>,
    start: Position,
    end: Position,
    p1: Seq<Position>,
    c1: int,
    p2: Seq<Position>,
    c2: int,
)
    requires
        is_path(g, p1, start, end),
        c1 == path_cost(g, p1),
        forall|pi: Seq<Position>| #[trigger] is_path(g, pi, start, end) ==> path_cost(g, pi) >= c1,
        is_path(g, p2, start, end),
        c2 == path_cost(g, p2),
        forall|pi: Seq<Position>| #[trigger] is_path(g, pi, start, end) ==> path_cost(g, pi) >= c2,
    ensures
        c1 == c2,
{
}

/// The straight staircase walk from `s` to `e`: first along the rows, then
/// along the columns.
spec fn stair(s: Position, e: Position) -> Seq<Position>
    decreases spec_manhattan(s, e),
{
    if spec_manhattan(s, e) <= 0 {
        seq![s]
    } else if s.0 < e.0 {
        seq![s] + stair(((s.0 + 1) as usize, s.1), e)
    } else if s.0 > e.0 {
        seq![s] + stair(((s.0 - 1) as usize, s.1), e)
    } else if s.1 < e.1 {
        seq![s] + stair((s.0, (s.1 + 1) as usize), e)
    } else {
        seq![s] + stair((s.0, (s.1 - 1) as usize), e)
    }
}

/// The staircase walk is a path of exactly Manhattan-distance many steps.
proof fn lemma_stair(g: Seq<Vec<u64>>, s: Position, e: Position)
    requires
        grid_wf(g),
        in_bounds(g, s),
        in_bounds(g, e),
    ensures
        is_path(g, stair(s, e), s, e),
        stair(s, e).len() == spec_manhattan(s, e) + 1,
        (forall|q: Position| in_bounds(g, q) ==> #[trigger] cost_at(g, q) == 1) ==> path_cost(
            g,
            stair(s, e),
        ) == spec_manhattan(s, e),
    decreases spec_manhattan(s, e),
{
    if spec_manhattan(s, e) <= 0 {
        assert(s == e);
    } else {
        let s2: Position = if s.0 < e.0 {
            (((s.0 + 1) as usize), s.1)
        } else if s.0 > e.0 {
            (((s.0 - 1) as usize), s.1)
        } else if s.1 < e.1 {
            (s.0, ((s.1 + 1) as usize))
        } else {
            (s.0, ((s.1 - 1) as usize))
        };
        assert(in_bounds(g, s2));
        assert(adjacent(s, s2));
        assert(spec_manhattan(s2, e) == spec_manhattan(s, e) - 1);
        lemma_stair(g, s2, e);
        lemma_path_prepend(g, stair(s2, e), s2, e, s);
        assert(stair(s, e) == seq![s] + stair(s2, e));
        assert(stair(s2, e)[0] == s2);
        assert(cost_at(g, s2) >= 0);
    }
}

/// On a grid whose every cell costs one, a cheapest path's total cost is
/// exactly the Manhattan distance between its two endpoints, and the path
/// holds one more cell than its cost.
pub proof fn lemma_unit_grid_cost(
    g: Seq<Vec<u64>>,
    start: Position,
    end: Position,
    p: Seq<Position>,
    c: int,
)
    requires
        grid_wf(g),
        in_bounds(g, start),
        in_bounds(g, end),
        forall|q: Position| in_bounds(g, q) ==> #[trigger] cost_at(g, q) == 1,
        is_path(g, p, start, end),
        c == path_cost(g, p),
        forall|pi: Seq<Position>| #[trigger] is_path(g, pi, start, end) ==> path_cost(g, pi) >= c,
    ensures
        c == spec_manhattan(start, end),
        p.len() == c + 1,
{
    assert(costs_ge_1(g));
    // No path beats the straight staircase walk, whose cost is the
    // Manhattan distance.
    lemma_stair(g, start, end);
    assert(path_cost(g, stair(start, end)) == spec_manhattan(start, end));
    assert(c <= spec_manhattan(start, end));
    // Any path takes at least Manhattan-distance many unit-cost steps.
    assert(p.take(1) =~= seq![start]);
    lemma_path_cost_suffix_ge_steps(g, p, 1);
    lemma_manhattan_along_path(p, 0, p.len() - 1, end);
    assert(spec_manhattan(start, end) <= p.len() - 1);
    // On a unit grid a path costs exactly its step count.
    lemma_unit_cost_is_steps(g, p);
    assert(c == p.len() - 1);
}

/// On a unit-cost grid, a path's cost is its number of steps.
proof fn lemma_unit_cost_is_steps(g: Seq<Vec<u64>>, p: Seq<Position>)
    requires
        p.len() >= 1,
        forall|i: int| 0 <= i < p.len() ==> in_bounds(g, #[trigger] p[i]),
        forall|q: Position| in_bounds(g, q) ==> #[trigger] cost_at(g, q) == 1,
    ensures
        path_cost(g, p) == p.len() - 1,
    decreases p.len(),
{
    if p.len() > 1 {
        lemma_unit_cost_is_steps(g, p.drop_last());
    }
}

} // verus!
