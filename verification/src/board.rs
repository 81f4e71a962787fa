//! A bingo board: a five-by-five square of numbers, marked one number at a
//! time, that wins when a full row or column is marked.

use vstd::prelude::*;
use crate::pathfinder::{filled_grid, set2};

verus! {

/// Bingo numbers are small; this bound keeps every score computation far
/// from overflow.
pub open spec fn number_in_range(n: i64) -> bool {
    -0x10000000 <= n <= 0x10000000
}

/// The sum of the unmarked numbers of one row, over its first `c` cells.
pub open spec fn row_unmarked_sum(nums: Seq<i64>, marked: Seq<bool>, c: int) -> int
    decreases c,
{
    if c <= 0 {
        0
    } else {
        row_unmarked_sum(nums, marked, c - 1) + (if !marked[c - 1] {
            nums[c - 1] as int
        } else {
            0
        })
    }
}

/// The sum of the unmarked numbers of the first `r` rows.
pub open spec fn unmarked_sum(nums: Seq<Vec<i64>>, marked: Seq<Vec<bool>>, r: int) -> int
    decreases r,
{
    if r <= 0 {
        0
    } else {
        unmarked_sum(nums, marked, r - 1) + row_unmarked_sum(nums[r - 1]@, marked[r - 1]@, 5)
    }
}

/// A row sum of in-range numbers stays within `c` times the number bound.
proof fn lemma_row_sum_bound(nums: Seq<i64>, marked: Seq<bool>, c: int)
    requires
        nums.len() == 5,
        forall|j: int| 0 <= j < 5 ==> number_in_range(#[trigger] nums[j]),
        0 <= c <= 5,
    ensures
        -0x10000000 * c <= row_unmarked_sum(nums, marked, c) <= 0x10000000 * c,
    decreases c,
{
    if c > 0 {
        lemma_row_sum_bound(nums, marked, c - 1);
    }
}

/// A board sum of in-range numbers stays within the cell count times the
/// number bound.
proof fn lemma_sum_bound(nums: Seq<Vec<i64>>, marked: Seq<Vec<bool>>, r: int)
    requires
        nums.len() == 5,
        forall|i: int| 0 <= i < 5 ==> (#[trigger] nums[i]@).len() == 5,
        forall|i: int, j: int| 0 <= i < 5 && 0 <= j < 5 ==> number_in_range(#[trigger] nums[i]@[j]),
        0 <= r <= 5,
    ensures
        -0x50000000 * r <= unmarked_sum(nums, marked, r) <= 0x50000000 * r,
    decreases r,
{
    if r > 0 {
        lemma_sum_bound(nums, marked, r - 1);
        lemma_row_sum_bound(nums[r - 1]@, marked[r - 1]@, 5);
    }
}

/// Every cell of row `i` is marked.
pub open spec fn row_all_marked(m: Seq<Vec<bool>>, i: int) -> bool {
    forall|j: int| 0 <= j < 5 ==> #[trigger] m[i]@[j]
}

/// Every cell of column `j` is marked.
pub open spec fn col_all_marked(m: Seq<Vec<bool>>, j: int) -> bool {
    forall|i: int| 0 <= i < 5 ==> #[trigger] m[i]@[j]
}

/// Some full row or full column is marked.
pub open spec fn has_win(m: Seq<Vec<bool>>) -> bool {
    (exists|i: int| 0 <= i < 5 && #[trigger] row_all_marked(m, i)) || (exists|j: int|
        0 <= j < 5 && #[trigger] col_all_marked(m, j))
}

/// A board that keeps its numbers, which of them have been marked, and the
/// number marked last, from which a winning score is computed.
#[derive(Debug)]
pub struct Board {
    pub numbers: Vec<Vec<i64>>,
    pub marked: Vec<Vec<bool>>,
    pub last_number: Option<i64>,
}

impl Board {
    /// A board is a five-by-five square of small numbers with a mark per
    /// cell.
    pub open spec fn wf(self) -> bool {
        &&& self.numbers@.len() == 5
        &&& forall|i: int| 0 <= i < 5 ==> (#[trigger] self.numbers@[i]@).len() == 5
        &&& self.marked@.len() == 5
        &&& forall|i: int| 0 <= i < 5 ==> (#[trigger] self.marked@[i]@).len() == 5
        &&& forall|i: int, j: int|
            0 <= i < 5 && 0 <= j < 5 ==> number_in_range(#[trigger] self.numbers@[i]@[j])
        &&& (self.last_number matches Option::Some(l) ==> number_in_range(l))
    }

    /// A fresh board over the given numbers, with nothing marked and no
    /// number played yet.
    pub fn new(numbers: Vec<Vec<i64>>) -> (b: Self)
        requires
            numbers@.len() == 5,
            forall|i: int| 0 <= i < 5 ==> (#[trigger] numbers@[i]@).len() == 5,
            forall|i: int, j: int|
                0 <= i < 5 && 0 <= j < 5 ==> number_in_range(#[trigger] numbers@[i]@[j]),
        ensures
            b.wf(),
            b.numbers@ == numbers@,
            forall|i: int, j: int| 0 <= i < 5 && 0 <= j < 5 ==> !(#[trigger] b.marked@[i]@[j]),
            b.last_number is None,
    {
        Self { numbers, marked: filled_grid(5, 5, false), last_number: None }
    }

    /// The board's score: the sum of its unmarked numbers times the number
    /// marked last, or `None` when no number has been played.
    pub fn score(&self) -> (r: Option<i64>)
        requires
            self.wf(),
        ensures
            match r {
                Option::None => self.last_number is None,
                Option::Some(v) => self.last_number matches Option::Some(l) && v as int
                    == unmarked_sum(self.numbers@, self.marked@, 5) * l,
            },
    {
        match self.last_number {
            Option::None => None,
            Option::Some(last) => {
                let mut sum: i64 = 0;
                let mut i: usize = 0;
                while i < 5
                    invariant
                        self.wf(),
                        i <= 5,
                        sum as int == unmarked_sum(self.numbers@, self.marked@, i as int),
                    decreases 5 - i,
                {
                    let mut j: usize = 0;
                    while j < 5
                        invariant
                            self.wf(),
                            i < 5,
                            j <= 5,
                            sum as int == unmarked_sum(self.numbers@, self.marked@, i as int)
                                + row_unmarked_sum(
                                self.numbers@[i as int]@,
                                self.marked@[i as int]@,
                                j as int,
                            ),
                        decreases 5 - j,
                    {
                        proof {
                            lemma_sum_bound(self.numbers@, self.marked@, i as int);
                            lemma_row_sum_bound(
                                self.numbers@[i as int]@,
                                self.marked@[i as int]@,
                                j as int,
                            );
                        }
                        if !self.marked[i][j] {
                            sum = sum + self.numbers[i][j];
                        }
                        j += 1;
                    }
                    i += 1;
                }
                proof {
                    lemma_sum_bound(self.numbers@, self.marked@, 5);
                    assert(-0x1900000000000000 <= (sum as int) * (last as int)
                        <= 0x1900000000000000) by (nonlinear_arith)
                        requires
                            -0x190000000 <= sum as int <= 0x190000000,
                            -0x10000000 <= last as int <= 0x10000000,
                    ;
                }
                Some(sum * last)
            },
        }
    }

    /// Whether every cell of row `i` is marked.
    fn row_won(&self, i: usize) -> (b: bool)
        requires
            self.wf(),
            i < 5,
        ensures
            b == row_all_marked(self.marked@, i as int),
    {
        let mut j: usize = 0;
        while j < 5
            invariant
                self.wf(),
                i < 5,
                j <= 5,
                forall|a: int| 0 <= a < j ==> #[trigger] self.marked@[i as int]@[a],
            decreases 5 - j,
        {
            if !self.marked[i][j] {
                return false;
            }
            j += 1;
        }
        true
    }

    /// Whether every cell of column `j` is marked.
    fn col_won(&self, j: usize) -> (b: bool)
        requires
            self.wf(),
            j < 5,
        ensures
            b == col_all_marked(self.marked@, j as int),
    {
        let mut i: usize = 0;
        while i < 5
            invariant
                self.wf(),
                j < 5,
                i <= 5,
                forall|a: int| 0 <= a < i ==> #[trigger] self.marked@[a]@[j as int],
            decreases 5 - i,
        {
            if !self.marked[i][j] {
                return false;
            }
            i += 1;
        }
        true
    }

    /// Whether the board has won: some full row or full column is marked.
    pub fn check_win(&self) -> (b: bool)
        requires
            self.wf(),
        ensures
            b == has_win(self.marked@),
    {
        let mut i: usize = 0;
        while i < 5
            invariant
                self.wf(),
                i <= 5,
                forall|a: int| 0 <= a < i ==> !(#[trigger] row_all_marked(self.marked@, a)),
            decreases 5 - i,
        {
            if self.row_won(i) {
                return true;
            }
            i += 1;
        }
        let mut j: usize = 0;
        while j < 5
            invariant
                self.wf(),
                j <= 5,
                forall|a: int| 0 <= a < j ==> !(#[trigger] col_all_marked(self.marked@, a)),
                forall|a: int| 0 <= a < 5 ==> !(#[trigger] row_all_marked(self.marked@, a)),
            decreases 5 - j,
        {
            if self.col_won(j) {
                return true;
            }
            j += 1;
        }
        false
    }

    /// Marks the first cell holding `number`, scanning rows first, and
    /// records the number as the last one played. Returns whether the
    /// number was found; an absent number changes nothing.
    pub fn mark_number(&mut self, number: i64) -> (found: bool)
        requires
            old(self).wf(),
        ensures
            final(self).wf(),
            final(self).numbers@ == old(self).numbers@,
            found == exists|i: int, j: int|
                0 <= i < 5 && 0 <= j < 5 && #[trigger] old(self).numbers@[i]@[j] == number,
            !found ==> *final(self) == *old(self),
            found ==> final(self).last_number == Option::Some(number),
            forall|i: int, j: int|
                0 <= i < 5 && 0 <= j < 5 && #[trigger] old(self).numbers@[i]@[j] == number && (
                forall|a: int, b: int|
                    0 <= a < 5 && 0 <= b < 5 && (a < i || (a == i && b < j))
                        ==> #[trigger] old(self).numbers@[a]@[b] != number) ==> final(self).marked@[i]@
                == old(self).marked@[i]@.update(j, true) && (forall|a: int|
                0 <= a < 5 && a != i ==> #[trigger] final(self).marked@[a]@ == old(
                    self,
                ).marked@[a]@),
    {
        let mut i: usize = 0;
        while i < 5
            invariant
                self.wf(),
                *self == *old(self),
                i <= 5,
                forall|a: int, b: int|
                    0 <= a < i && 0 <= b < 5 ==> #[trigger] self.numbers@[a]@[b] != number,
            decreases 5 - i,
        {
            let mut j: usize = 0;
            while j < 5
                invariant
                    self.wf(),
                    *self == *old(self),
                    i < 5,
                    j <= 5,
                    forall|a: int, b: int|
                        0 <= a < i && 0 <= b < 5 ==> #[trigger] self.numbers@[a]@[b] != number,
                    forall|b: int|
                        0 <= b < j ==> #[trigger] self.numbers@[i as int]@[b] != number,
                decreases 5 - j,
            {
                if self.numbers[i][j] == number {
                    set2(&mut self.marked, i, j, true);
                    self.last_number = Some(number);
                    return true;
                }
                j += 1;
            }
            i += 1;
        }
        false
    }
}

} // verus!
