//! Building the cavern risk grid that the pathfinder searches: a digit per
//! cell, and the five-fold tiling whose risks wrap around past nine.

use vstd::prelude::*;
use crate::parse::{char_digit, is_digit};

verus! {

/// A risk that grew past nine wraps back to one.
pub open spec fn risk_wrap(v: int) -> int {
    if v <= 9 {
        v
    } else {
        v % 10 + 1
    }
}

/// Reads one line of single-digit risks.
pub fn parse_digit_row(line: &str) -> (r: Vec<u64>)
    requires
        forall|i: int| 0 <= i < line@.len() ==> is_digit(#[trigger] line@[i]),
    ensures
        r@.len() == line@.len(),
        forall|i: int| 0 <= i < r@.len() ==> #[trigger] r@[i] == char_digit(line@[i]),
{
    let n = line.unicode_len();
    let mut r: Vec<u64> = Vec::new();
    let mut i: usize = 0;
    while i < n
        invariant
            n == line@.len(),
            i <= n,
            r@.len() == i,
            forall|k: int| 0 <= k < line@.len() ==> is_digit(#[trigger] line@[k]),
            forall|k: int| 0 <= k < i ==> #[trigger] r@[k] == char_digit(line@[k]),
        decreases n - i,
    {
        let c = line.get_char(i);
        proof {
            assert(is_digit(line@[i as int]));
        }
        r.push(((c as u32) - 48) as u64);
        i += 1;
    }
    r
}

/// Reads a rectangle of single-digit risks, one line per row.
pub fn parse_digit_grid(lines: &Vec<String>) -> (r: Vec<Vec<u64>>)
    requires
        forall|i: int, j: int|
            0 <= i < lines@.len() && 0 <= j < lines@[i]@.len() ==> is_digit(
                #[trigger] lines@[i]@[j],
            ),
    ensures
        r@.len() == lines@.len(),
        forall|i: int| 0 <= i < r@.len() ==> (#[trigger] r@[i]@).len() == lines@[i]@.len(),
        forall|i: int, j: int|
            0 <= i < r@.len() && 0 <= j < r@[i]@.len() ==> #[trigger] r@[i]@[j] == char_digit(
                lines@[i]@[j],
            ),
{
    let mut r: Vec<Vec<u64>> = Vec::new();
    let mut i: usize = 0;
    while i < lines.len()
        invariant
            i <= lines@.len(),
            r@.len() == i,
            forall|a: int, b: int|
                0 <= a < lines@.len() && 0 <= b < lines@[a]@.len() ==> is_digit(
                    #[trigger] lines@[a]@[b],
                ),
            forall|a: int| 0 <= a < i ==> (#[trigger] r@[a]@).len() == lines@[a]@.len(),
            forall|a: int, b: int|
                0 <= a < i && 0 <= b < r@[a]@.len() ==> #[trigger] r@[a]@[b] == char_digit(
                    lines@[a]@[b],
                ),
        decreases lines@.len() - i,
    {
        let row = parse_digit_row(lines[i].as_str());
        r.push(row);
        i += 1;
    }
    r
}

/// Tiles the cavern five by five: the copy `i` rows down and `j` tiles
/// right raises every risk by `i + j`, wrapping past nine back to one.
pub fn expand_grid(grid: &Vec<Vec<u64>>, rows: usize, cols: usize) -> (r: Vec<Vec<u64>>)
    requires
        grid@.len() == rows,
        rows >= 1,
        cols >= 1,
        rows * 5 <= usize::MAX,
        cols * 5 <= usize::MAX,
        forall|a: int| 0 <= a < rows ==> (#[trigger] grid@[a]@).len() == cols,
        forall|a: int, b: int| 0 <= a < rows && 0 <= b < cols ==> #[trigger] grid@[a]@[b] <= 9,
    ensures
        r@.len() == 5 * rows,
        forall|a: int| 0 <= a < r@.len() ==> (#[trigger] r@[a]@).len() == 5 * cols,
        forall|i: int, a: int, j: int, b: int|
            0 <= i < 5 && 0 <= a < rows && 0 <= j < 5 && 0 <= b < cols ==> #[trigger] r@[i * rows
                + a]@[j * cols + b] == risk_wrap(grid@[a]@[b] + i + j),
{
    let mut out: Vec<Vec<u64>> = Vec::new();
    let mut i: usize = 0;
    while i < 5
        invariant
            grid@.len() == rows,
            rows >= 1,
            cols >= 1,
            rows * 5 <= usize::MAX,
            cols * 5 <= usize::MAX,
            forall|a: int| 0 <= a < rows ==> (#[trigger] grid@[a]@).len() == cols,
            forall|a: int, b: int| 0 <= a < rows && 0 <= b < cols ==> #[trigger] grid@[a]@[b] <= 9,
            i <= 5,
            out@.len() == i * rows,
            forall|a: int| 0 <= a < out@.len() ==> (#[trigger] out@[a]@).len() == 5 * cols,
            forall|i0: int, a: int, j: int, b: int|
                0 <= i0 < i && 0 <= a < rows && 0 <= j < 5 && 0 <= b < cols ==> #[trigger] out@[i0
                    * rows + a]@[j * cols + b] == risk_wrap(grid@[a]@[b] + i0 + j),
        decreases 5 - i,
    {
        proof {
            assert forall|i0: int, x: int, j0: int, y: int|
                0 <= i0 < 5 && 0 <= x < rows && 0 <= j0 < 5 && 0 <= y < cols && i0 * rows + x
                    < out@.len() implies #[trigger] out@[i0 * rows + x]@[j0 * cols + y]
                == risk_wrap(grid@[x]@[y] + i0 + j0) by {
                assert(i0 < i) by (nonlinear_arith)
                    requires
                        i0 * rows + x < (i as int) * (rows as int),
                        0 <= x < rows as int,
                        0 <= i0,
                        rows as int >= 1,
                ;
            }
        }
        let mut a: usize = 0;
        while a < rows
            invariant
                grid@.len() == rows,
                rows >= 1,
                cols >= 1,
                rows * 5 <= usize::MAX,
                cols * 5 <= usize::MAX,
                forall|x: int| 0 <= x < rows ==> (#[trigger] grid@[x]@).len() == cols,
                forall|x: int, y: int|
                    0 <= x < rows && 0 <= y < cols ==> #[trigger] grid@[x]@[y] <= 9,
                i < 5,
                a <= rows,
                out@.len() == i * rows + a,
                forall|x: int| 0 <= x < out@.len() ==> (#[trigger] out@[x]@).len() == 5 * cols,
                forall|i0: int, x: int, j: int, y: int|
                    0 <= i0 < 5 && 0 <= x < rows && 0 <= j < 5 && 0 <= y < cols && i0 * rows + x
                        < out@.len() ==> #[trigger] out@[i0 * rows + x]@[j * cols + y] == risk_wrap(
                        grid@[x]@[y] + i0 + j,
                    ),
            decreases rows - a,
        {
            let mut row: Vec<u64> = Vec::new();
            let mut j: usize = 0;
            while j < 5
                invariant
                    grid@.len() == rows,
                    rows >= 1,
                    cols >= 1,
                    cols * 5 <= usize::MAX,
                    forall|x: int| 0 <= x < rows ==> (#[trigger] grid@[x]@).len() == cols,
                    forall|x: int, y: int|
                        0 <= x < rows && 0 <= y < cols ==> #[trigger] grid@[x]@[y] <= 9,
                    i < 5,
                    a < rows,
                    j <= 5,
                    row@.len() == j * cols,
                    forall|j0: int, y: int|
                        0 <= j0 < j && 0 <= y < cols ==> #[trigger] row@[j0 * cols + y]
                            == risk_wrap(grid@[a as int]@[y] + i + j0),
                decreases 5 - j,
            {
                let mut b: usize = 0;
                while b < cols
                    invariant
                        grid@.len() == rows,
                        rows >= 1,
                        cols >= 1,
                        cols * 5 <= usize::MAX,
                        forall|x: int| 0 <= x < rows ==> (#[trigger] grid@[x]@).len() == cols,
                        forall|x: int, y: int|
                            0 <= x < rows && 0 <= y < cols ==> #[trigger] grid@[x]@[y] <= 9,
                        i < 5,
                        a < rows,
                        j < 5,
                        b <= cols,
                        row@.len() == j * cols + b,
                        forall|j0: int, y: int|
                            0 <= j0 < j && 0 <= y < cols ==> #[trigger] row@[j0 * cols + y]
                                == risk_wrap(grid@[a as int]@[y] + i + j0),
                        forall|y: int|
                            0 <= y < b ==> #[trigger] row@[j * cols + y] == risk_wrap(
                                grid@[a as int]@[y] + i + j,
                            ),
                    decreases cols - b,
                {
                    let e: u64 = grid[a][b] + (i as u64) + (j as u64);
                    let v: u64 = if e <= 9 {
                        e
                    } else {
                        e % 10 + 1
                    };
                    row.push(v);
                    proof {
                        assert forall|j0: int, y: int|
                            0 <= j0 < j && 0 <= y < cols implies #[trigger] row@[j0 * cols + y]
                            == risk_wrap(grid@[a as int]@[y] + i + j0) by {
                            assert(j0 * cols + y < (j as int) * (cols as int)) by (nonlinear_arith)
                                requires
                                    0 <= j0 < j as int,
                                    0 <= y < cols as int,
                            ;
                        }
                    }
                    b += 1;
                }
                proof {
                    assert((j as int + 1) * (cols as int) == (j as int) * (cols as int) + (
                    cols as int)) by (nonlinear_arith);
                    assert forall|j0: int, y: int|
                        0 <= j0 < j + 1 && 0 <= y < cols implies #[trigger] row@[j0 * cols + y]
                        == risk_wrap(grid@[a as int]@[y] + i + j0) by {
                        assert(j0 * cols <= (j as int) * (cols as int)) by (nonlinear_arith)
                            requires
                                0 <= j0 <= j as int,
                                cols as int >= 0,
                        ;
                    }
                }
                j += 1;
            }
            out.push(row);
            proof {
                assert forall|i0: int, x: int, j0: int, y: int|
                    0 <= i0 < 5 && 0 <= x < rows && 0 <= j0 < 5 && 0 <= y < cols && i0 * rows + x
                        < out@.len() implies #[trigger] out@[i0 * rows + x]@[j0 * cols + y]
                    == risk_wrap(grid@[x]@[y] + i0 + j0) by {
                    if i0 * rows + x == out@.len() - 1 {
                        assert(i0 == i && x == a) by (nonlinear_arith)
                            requires
                                i0 * rows + x == (i as int) * (rows as int) + (a as int),
                                0 <= x < rows,
                                0 <= a < rows,
                                0 <= i0,
                                0 <= i as int,
                        ;
                    }
                }
            }
            a += 1;
        }
        proof {
            assert((i as int + 1) * (rows as int) == (i as int) * (rows as int) + (
            rows as int)) by (nonlinear_arith);
            assert forall|i0: int, x: int, j0: int, y: int|
                0 <= i0 < i + 1 && 0 <= x < rows && 0 <= j0 < 5 && 0 <= y < cols implies
                #[trigger] out@[i0 * rows + x]@[j0 * cols + y] == risk_wrap(
                grid@[x]@[y] + i0 + j0,
            ) by {
                assert(i0 * rows + x < out@.len()) by (nonlinear_arith)
                    requires
                        0 <= i0 <= i as int,
                        0 <= x < rows as int,
                        out@.len() == (i as int) * (rows as int) + (rows as int),
                ;
            }
        }
        i += 1;
    }
    proof {
        assert forall|i0: int, x: int, j: int, y: int|
            0 <= i0 < 5 && 0 <= x < rows && 0 <= j < 5 && 0 <= y < cols implies #[trigger] out@[i0
            * rows + x]@[j * cols + y] == risk_wrap(grid@[x]@[y] + i0 + j) by {
            assert(i0 * rows + x < 5 * rows) by (nonlinear_arith)
                requires
                    0 <= i0 < 5,
                    0 <= x < rows,
            ;
        }
    }
    out
}

} // verus!
