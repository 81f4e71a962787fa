//! Lines of hydrothermal vents, read from arrow notation
//! (`x1,y1 -> x2,y2`), walked point by point along their direction.

use vstd::prelude::*;
use crate::parse::{all_digits, digits_value, find_char, parse_digits_range, word_at};

verus! {

/// A point on the vent field.
#[derive(Debug, Clone, Copy, PartialEq, Eq, Structural, Hash)]
pub struct Point {
    pub x: i64,
    pub y: i64,
}

/// The sign of `b - a`: one step from `a` toward `b`.
pub open spec fn spec_sign_toward(a: int, b: int) -> int {
    if a == b {
        0
    } else if a > b {
        -1
    } else {
        1
    }
}

/// The unit step from `p` toward `q`, per coordinate.
pub open spec fn spec_direction(p: Point, q: Point) -> Point {
    Point {
        x: spec_sign_toward(p.x as int, q.x as int) as i64,
        y: spec_sign_toward(p.y as int, q.y as int) as i64,
    }
}

/// A point that represents one step in the direction from `p` to `q`.
pub fn get_direction(p: &Point, q: &Point) -> (r: Point)
    ensures
        r == spec_direction(*p, *q),
{
    let x: i64 = if p.x == q.x {
        0
    } else if p.x > q.x {
        -1
    } else {
        1
    };
    let y: i64 = if p.y == q.y {
        0
    } else if p.y > q.y {
        -1
    } else {
        1
    };
    Point { x, y }
}

/// `s` splits at positions `n1`, `n2`, `n3` into four digit runs joined
/// by `,` and ` -> `, denoting the four coordinates in order.
pub open spec fn arrow_matches_at(
    s: Seq<char>,
    n1: int,
    n2: int,
    n3: int,
    x1: int,
    y1: int,
    x2: int,
    y2: int,
) -> bool {
    &&& 0 < n1 < n2 < n3 < s.len()
    &&& s[n1] == ','
    &&& s.subrange(n2, n2 + 4) == " -> "@
    &&& s[n3] == ','
    &&& n2 + 4 < n3
    &&& all_digits(s.take(n1))
    &&& all_digits(s.subrange(n1 + 1, n2))
    &&& all_digits(s.subrange(n2 + 4, n3))
    &&& all_digits(s.skip(n3 + 1))
    &&& digits_value(s.take(n1)) == x1
    &&& digits_value(s.subrange(n1 + 1, n2)) == y1
    &&& digits_value(s.subrange(n2 + 4, n3)) == x2
    &&& digits_value(s.skip(n3 + 1)) == y2
}

/// `s` is the arrow notation for the segment from `(x1, y1)` to
/// `(x2, y2)`.
pub open spec fn arrow_matches(s: Seq<char>, x1: int, y1: int, x2: int, y2: int) -> bool {
    exists|n1: int, n2: int, n3: int| #[trigger] arrow_matches_at(s, n1, n2, n3, x1, y1, x2, y2)
}

/// A straight segment between two points, with its unit step direction.
#[derive(Debug, Clone, Copy)]
pub struct Line {
    pub p: Point,
    pub q: Point,
    pub direction: Point,
}

impl Line {
    /// A line's direction is the unit step from its first toward its
    /// second endpoint.
    pub open spec fn wf(self) -> bool {
        self.direction == spec_direction(self.p, self.q)
    }

    /// The line runs horizontally, vertically, or on a 45-degree diagonal,
    /// so that walking from `p` one step at a time arrives at `q`.
    pub open spec fn aligned(self) -> bool {
        ||| self.p.x == self.q.x
        ||| self.p.y == self.q.y
        ||| (self.q.x - self.p.x == self.q.y - self.p.y)
        ||| (self.q.x - self.p.x == -((self.q.y as int) - (self.p.y as int)))
    }

    /// Reads a line from arrow notation.
    pub fn from_arrow(s: &str) -> (r: Self)
        requires
            exists|x1: int, y1: int, x2: int, y2: int|
                #[trigger] arrow_matches(s@, x1, y1, x2, y2),
            forall|x1: int, y1: int, x2: int, y2: int|
                #[trigger] arrow_matches(s@, x1, y1, x2, y2) ==> x1 <= i64::MAX && y1 <= i64::MAX
                    && x2 <= i64::MAX && y2 <= i64::MAX,
        ensures
            r.wf(),
            arrow_matches(s@, r.p.x as int, r.p.y as int, r.q.x as int, r.q.y as int),
    {
        proof {
            reveal_strlit(" -> ");
        }
        let ghost (vx1, vy1, vx2, vy2): (int, int, int, int) = choose|
            x1: int,
            y1: int,
            x2: int,
            y2: int,
        | #[trigger] arrow_matches(s@, x1, y1, x2, y2);
        proof {
            assert(arrow_matches(s@, vx1, vy1, vx2, vy2));
        }
        let ghost (m1, m2, m3): (int, int, int) = choose|n1: int, n2: int, n3: int|
            #[trigger] arrow_matches_at(s@, n1, n2, n3, vx1, vy1, vx2, vy2);
        proof {
            assert(arrow_matches_at(s@, m1, m2, m3, vx1, vy1, vx2, vy2));
        }
        let n = s.unicode_len();
        let c1 = match find_char(s, 0, ',') {
            Option::Some(i) => i,
            Option::None => {
                proof {
                    assert(s@[m1] == ',');
                    assert(false);
                }
                0
            },
        };
        proof {
            // The first comma closes the first digit run.
            if c1 < m1 {
                assert(s@.take(m1)[c1 as int] == s@[c1 as int]);
                assert(crate::parse::is_digit(s@.take(m1)[c1 as int]));
                assert(false);
            }
            if c1 > m1 {
                assert(s@[m1] == ',');
                assert(false);
            }
            assert(c1 == m1);
        }
        let sp = match find_char(s, c1 + 1, ' ') {
            Option::Some(i) => i,
            Option::None => {
                proof {
                    assert(s@.subrange(m2, m2 + 4)[0] == s@[m2]);
                    assert(s@.subrange(m2, m2 + 4)[0] == ' ');
                    assert(false);
                }
                0
            },
        };
        proof {
            // The first space after the comma opens the arrow.
            assert(s@.subrange(m2, m2 + 4)[0] == s@[m2]);
            assert(s@[m2] == ' ');
            if sp < m2 {
                assert(s@.subrange(m1 + 1, m2)[sp - m1 - 1] == s@[sp as int]);
                assert(crate::parse::is_digit(s@[sp as int]));
                assert(false);
            }
            if sp > m2 {
                assert(false);
            }
            assert(sp == m2);
        }
        if !word_at(s, sp, " -> ") {
            proof {
                assert(s@.subrange(sp as int, sp as int + 4) == " -> "@);
                assert(" -> "@.len() == 4);
                assert(false);
            }
        }
        let c2 = match find_char(s, sp + 4, ',') {
            Option::Some(i) => i,
            Option::None => {
                proof {
                    assert(s@[m3] == ',');
                    assert(false);
                }
                0
            },
        };
        proof {
            if c2 < m3 {
                assert(s@.subrange(m2 + 4, m3)[c2 - m2 - 4] == s@[c2 as int]);
                assert(crate::parse::is_digit(s@[c2 as int]));
                assert(false);
            }
            if c2 > m3 {
                assert(s@[m3] == ',');
                assert(false);
            }
            assert(c2 == m3);
            assert(s@.take(m1) =~= s@.subrange(0, m1));
            assert(s@.skip(m3 + 1) =~= s@.subrange(m3 + 1, s@.len() as int));
        }
        let x1 = parse_digits_range(s, 0, c1);
        let y1 = parse_digits_range(s, c1 + 1, sp);
        let x2 = parse_digits_range(s, sp + 4, c2);
        let y2 = parse_digits_range(s, c2 + 1, n);
        let p = Point { x: x1, y: y1 };
        let q = Point { x: x2, y: y2 };
        let direction = get_direction(&p, &q);
        proof {
            assert(arrow_matches_at(
                s@,
                m1,
                m2,
                m3,
                x1 as int,
                y1 as int,
                x2 as int,
                y2 as int,
            ));
            assert(arrow_matches(s@, x1 as int, y1 as int, x2 as int, y2 as int));
        }
        Self { p, q, direction }
    }

    /// Every point of the line, from `p` to `q` inclusive, stepping by the
    /// line's direction.
    pub fn all_points(&self) -> (r: Vec<Point>)
        requires
            self.wf(),
            self.aligned(),
        ensures
            r@.len() >= 1,
            r@[0] == self.p,
            r@[r@.len() - 1] == self.q,
            forall|k: int|
                1 <= k < r@.len() ==> (#[trigger] r@[k]).x == r@[k - 1].x + self.direction.x
                    && r@[k].y == r@[k - 1].y + self.direction.y,
            self.p == self.q ==> r@.len() == 1,
    {
        let mut t = self.p;
        let mut points: Vec<Point> = Vec::new();
        while t.x != self.q.x || t.y != self.q.y
            invariant
                self.wf(),
                self.aligned(),
                points@.len() >= 1 ==> points@[0] == self.p,
                points@.len() == 0 ==> t == self.p,
                forall|k: int|
                    1 <= k < points@.len() ==> (#[trigger] points@[k]).x == points@[k - 1].x
                        + self.direction.x && points@[k].y == points@[k - 1].y + self.direction.y,
                points@.len() >= 1 ==> t.x == points@[points@.len() - 1].x + self.direction.x
                    && t.y == points@[points@.len() - 1].y + self.direction.y,
                self.direction.x == 1 ==> self.p.x <= t.x <= self.q.x,
                self.direction.x == -1 ==> self.q.x <= t.x <= self.p.x,
                self.direction.x == 0 ==> t.x == self.q.x,
                self.direction.y == 1 ==> self.p.y <= t.y <= self.q.y,
                self.direction.y == -1 ==> self.q.y <= t.y <= self.p.y,
                self.direction.y == 0 ==> t.y == self.q.y,
                self.direction.x != 0 && self.direction.y != 0 ==> spec_abs(
                    self.q.x - t.x,
                ) == spec_abs(self.q.y - t.y),
                self.p == self.q ==> t == self.p && points@.len() == 0,
            decreases spec_abs(self.q.x - t.x) + spec_abs(self.q.y - t.y),
        {
            points.push(t);
            proof {
                if self.direction.x != 0 && self.direction.y != 0 && (t.x == self.q.x || t.y
                    == self.q.y) {
                    assert(false);
                }
            }
            t = Point { x: t.x + self.direction.x, y: t.y + self.direction.y };
        }
        points.push(self.q);
        proof {
            if points@.len() > 1 {
                assert(points@[points@.len() - 1] == self.q);
            }
        }
        points
    }
}

/// `|a|` for mathematical integers.
pub open spec fn spec_abs(a: int) -> int {
    if a >= 0 {
        a
    } else {
        -a
    }
}

} // verus!
