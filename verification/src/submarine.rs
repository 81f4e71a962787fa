//! The submarine that follows a course of textual commands: `forward N`,
//! `down N`, `up N`, in the plain and in the aimed reading.

use vstd::prelude::*;
use crate::parse::{all_digits, digits_value, parse_digits_range, starts_with_word};

verus! {

/// The direction word of a course command.
#[derive(Debug, Clone, Copy, PartialEq, Eq)]
pub enum Direction {
    Forward,
    Down,
    Up,
}

/// The word that names a direction.
pub open spec fn dir_word(d: Direction) -> Seq<char> {
    match d {
        Direction::Forward => "forward"@,
        Direction::Down => "down"@,
        Direction::Up => "up"@,
    }
}

/// `s` is the command with direction `d` and distance `n`: the direction
/// word, one space, and the decimal digits of `n`.
pub open spec fn command_matches(s: Seq<char>, d: Direction, n: int) -> bool {
    let w = dir_word(d);
    &&& s.len() > w.len() + 1
    &&& s.take(w.len() as int) == w
    &&& s[w.len() as int] == ' '
    &&& all_digits(s.skip(w.len() as int + 1))
    &&& digits_value(s.skip(w.len() as int + 1)) == n
}

/// A command decodes one way only: the direction words start with three
/// different letters, and a digit run denotes one number.
proof fn lemma_command_unique(s: Seq<char>, d1: Direction, n1: int, d2: Direction, n2: int)
    requires
        command_matches(s, d1, n1),
        command_matches(s, d2, n2),
    ensures
        d1 == d2,
        n1 == n2,
{
    reveal_strlit("forward");
    reveal_strlit("down");
    reveal_strlit("up");
    assert(s.take(dir_word(d1).len() as int)[0] == s[0]);
    assert(s.take(dir_word(d2).len() as int)[0] == s[0]);
    assert(dir_word(d1)[0] == dir_word(d2)[0]);
    assert(d1 == d2);
}

/// A submarine's position: `x` runs forward, `y` grows with depth, and
/// `aim` tilts what `forward` does in the aimed reading.
pub struct Submarine {
    pub x: isize,
    pub y: isize,
    pub aim: isize,
}

impl Submarine {
    /// A submarine at the given position and aim.
    pub fn new(x: isize, y: isize, aim: isize) -> (s: Self)
        ensures
            s.x == x && s.y == y && s.aim == aim,
    {
        Self { x, y, aim }
    }

    /// Decodes a command into its direction and its distance.
    pub fn decode_command(command: &str) -> (r: (Direction, isize))
        requires
            exists|d: Direction, n: int| #[trigger] command_matches(command@, d, n),
            forall|d: Direction, n: int| #[trigger] command_matches(command@, d, n) ==> n
                <= isize::MAX,
        ensures
            command_matches(command@, r.0, r.1 as int),
            r.1 >= 0,
    {
        let ghost s = command@;
        proof {
            reveal_strlit("forward");
            reveal_strlit("down");
            reveal_strlit("up");
        }
        let n = command.unicode_len();
        let wlen: usize;
        let dir: Direction;
        if starts_with_word(command, "forward") {
            wlen = 7;
            dir = Direction::Forward;
        } else if starts_with_word(command, "down") {
            wlen = 4;
            dir = Direction::Down;
        } else {
            wlen = 2;
            dir = Direction::Up;
            proof {
                let (da, na): (Direction, int) = choose|d: Direction, n: int|
                    #[trigger] command_matches(s, d, n);
                if da != Direction::Up {
                    assert(s.take(dir_word(da).len() as int) == dir_word(da));
                    assert(false);
                }
            }
        }
        proof {
            let (da, na): (Direction, int) = choose|d: Direction, n: int|
                #[trigger] command_matches(s, d, n);
            if da != dir {
                assert(s.take(dir_word(da).len() as int) == dir_word(da));
                assert(s.take(dir_word(dir).len() as int)[0] == s[0]);
                assert(s.take(dir_word(da).len() as int)[0] == s[0]);
                assert(false);
            }
            assert(command_matches(s, dir, na));
            assert(s.len() > wlen + 1);
        }
        let v = parse_digits_range(command, wlen + 1, n);
        proof {
            let (da, na): (Direction, int) = choose|d: Direction, n: int|
                #[trigger] command_matches(s, d, n);
            assert(s.skip(wlen as int + 1) =~= s.subrange(wlen as int + 1, s.len() as int));
            assert(v as int == na);
        }
        (dir, v as isize)
    }

    /// Follows one command in the plain reading: `forward` moves ahead,
    /// `down` and `up` change the depth.
    pub fn update(&mut self, command: &str)
        requires
            exists|d: Direction, n: int| #[trigger] command_matches(command@, d, n),
            forall|d: Direction, n: int| #[trigger] command_matches(command@, d, n) ==> n
                <= isize::MAX && match d {
                Direction::Forward => isize::MIN <= old(self).x + n <= isize::MAX,
                Direction::Down => isize::MIN <= old(self).y + n <= isize::MAX,
                Direction::Up => isize::MIN <= old(self).y - n <= isize::MAX,
            },
        ensures
            forall|d: Direction, n: int| #[trigger] command_matches(command@, d, n) ==> match d {
                Direction::Forward => final(self).x == old(self).x + n && final(self).y == old(
                    self,
                ).y && final(self).aim == old(self).aim,
                Direction::Down => final(self).y == old(self).y + n && final(self).x == old(
                    self,
                ).x && final(self).aim == old(self).aim,
                Direction::Up => final(self).y == old(self).y - n && final(self).x == old(self).x
                    && final(self).aim == old(self).aim,
            },
    {
        let (dir, distance) = Submarine::decode_command(command);
        match dir {
            Direction::Forward => {
                self.x = self.x + distance;
            },
            Direction::Down => {
                self.y = self.y + distance;
            },
            Direction::Up => {
                self.y = self.y - distance;
            },
        }
        proof {
            assert forall|d: Direction, n: int|
                #[trigger] command_matches(command@, d, n) implies d == dir && n
                == distance as int by {
                lemma_command_unique(command@, d, n, dir, distance as int);
            }
        }
    }

    /// Follows one command in the aimed reading: `down` and `up` change the
    /// aim, and `forward` moves ahead and dives by aim times the distance.
    pub fn update_aimed(&mut self, command: &str)
        requires
            exists|d: Direction, n: int| #[trigger] command_matches(command@, d, n),
            forall|d: Direction, n: int| #[trigger] command_matches(command@, d, n) ==> n
                <= isize::MAX && match d {
                Direction::Forward => isize::MIN <= old(self).x + n <= isize::MAX && isize::MIN
                    <= old(self).aim * n <= isize::MAX && isize::MIN <= old(self).y + old(self).aim
                    * n <= isize::MAX,
                Direction::Down => isize::MIN <= old(self).aim + n <= isize::MAX,
                Direction::Up => isize::MIN <= old(self).aim - n <= isize::MAX,
            },
        ensures
            forall|d: Direction, n: int| #[trigger] command_matches(command@, d, n) ==> match d {
                Direction::Forward => final(self).x == old(self).x + n && final(self).y == old(
                    self,
                ).y + old(self).aim * n && final(self).aim == old(self).aim,
                Direction::Down => final(self).aim == old(self).aim + n && final(self).x == old(
                    self,
                ).x && final(self).y == old(self).y,
                Direction::Up => final(self).aim == old(self).aim - n && final(self).x == old(
                    self,
                ).x && final(self).y == old(self).y,
            },
    {
        let (dir, distance) = Submarine::decode_command(command);
        match dir {
            Direction::Forward => {
                self.x = self.x + distance;
                self.y = self.y + self.aim * distance;
            },
            Direction::Down => {
                self.aim = self.aim + distance;
            },
            Direction::Up => {
                self.aim = self.aim - distance;
            },
        }
        proof {
            assert forall|d: Direction, n: int|
                #[trigger] command_matches(command@, d, n) implies d == dir && n
                == distance as int by {
                lemma_command_unique(command@, d, n, dir, distance as int);
            }
        }
    }

    /// The current position, as `(x, y)`.
    pub fn pos(&self) -> (r: (isize, isize))
        ensures
            r == (self.x, self.y),
    {
        (self.x, self.y)
    }
}

impl Default for Submarine {
    /// A submarine at the origin with a level aim.
    fn default() -> (s: Self)
        ensures
            s.x == 0 && s.y == 0 && s.aim == 0,
    {
        Self { x: 0, y: 0, aim: 0 }
    }
}

} // verus!
