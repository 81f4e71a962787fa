//! Folding a field of dots: a fold command names an axis, and every dot on
//! the far side of the fold line mirrors across it.

use vstd::prelude::*;
use crate::parse::{all_digits, digits_value, parse_digits_range, starts_with_word};

verus! {

/// The axis a fold line runs across.
#[derive(Debug, Clone, Copy, PartialEq, Eq)]
pub enum Axis {
    /// The line `x = v`: dots fold leftward.
    Horizontal,
    /// The line `y = v`: dots fold upward.
    Vertical,
}

/// A dot on the transparent sheet.
#[derive(Debug, Clone, Copy, PartialEq, Eq, Structural, Hash)]
pub struct Point {
    pub x: usize,
    pub y: usize,
}

impl Point {
    /// Mirrors the dot across the fold line `v` on the given axis. A dot
    /// on the near side, or on the line itself, stays put.
    pub fn flip(&mut self, v: usize, axis: Axis)
        requires
            old(self).x > v && axis == Axis::Horizontal ==> old(self).x <= 2 * v,
            old(self).y > v && axis == Axis::Vertical ==> old(self).y <= 2 * v,
        ensures
            final(self).x == (if axis == Axis::Horizontal && old(self).x > v {
                2 * v - old(self).x
            } else {
                old(self).x as int
            }),
            final(self).y == (if axis == Axis::Vertical && old(self).y > v {
                2 * v - old(self).y
            } else {
                old(self).y as int
            }),
    {
        match axis {
            Axis::Horizontal => {
                if self.x > v {
                    self.x = v - (self.x - v);
                }
            },
            Axis::Vertical => {
                if self.y > v {
                    self.y = v - (self.y - v);
                }
            },
        }
    }
}

/// The character that names an axis in a fold command.
pub open spec fn axis_char(a: Axis) -> char {
    match a {
        Axis::Horizontal => 'x',
        Axis::Vertical => 'y',
    }
}

/// `s` is the fold command along the given axis at `v`: the words
/// `fold along `, the axis letter, `=`, and the decimal digits of `v`.
pub open spec fn fold_matches(s: Seq<char>, a: Axis, v: int) -> bool {
    &&& s.len() > 13
    &&& s.take(11) == "fold along "@
    &&& s[11] == axis_char(a)
    &&& s[12] == '='
    &&& all_digits(s.skip(13))
    &&& digits_value(s.skip(13)) == v
}

/// Decodes a fold command into its line coordinate and its axis.
pub fn decode_command(s: &str) -> (r: (usize, Axis))
    requires
        exists|a: Axis, v: int| #[trigger] fold_matches(s@, a, v),
        forall|a: Axis, v: int|
            #[trigger] fold_matches(s@, a, v) ==> v <= usize::MAX && v <= i64::MAX,
    ensures
        fold_matches(s@, r.1, r.0 as int),
{
    proof {
        reveal_strlit("fold along ");
        reveal_strlit("x");
    }
    let ghost (a0, v0): (Axis, int) = choose|a: Axis, v: int| #[trigger] fold_matches(s@, a, v);
    let n = s.unicode_len();
    if !starts_with_word(s, "fold along ") {
        proof {
            assert(false);
        }
    }
    let axis = if s.get_char(11) == 'x' {
        Axis::Horizontal
    } else {
        Axis::Vertical
    };
    proof {
        assert(s@[11] == axis_char(a0));
        assert(axis == a0);
        assert(s@.skip(13) =~= s@.subrange(13, s@.len() as int));
        assert(v0 <= usize::MAX && v0 <= i64::MAX);
    }
    let v = parse_digits_range(s, 13, n);
    proof {
        assert(v as int == v0);
    }
    (v as usize, axis)
}

} // verus!
