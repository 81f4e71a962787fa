//! Small helpers shared by the puzzle solutions: locating a day's data
//! file, and wrap-around arithmetic on closed integer ranges.

use vstd::prelude::*;

verus! {

/// The decimal digit character for `d`.
pub open spec fn spec_digit_char(d: nat) -> char {
    if d == 0 {
        '0'
    } else if d == 1 {
        '1'
    } else if d == 2 {
        '2'
    } else if d == 3 {
        '3'
    } else if d == 4 {
        '4'
    } else if d == 5 {
        '5'
    } else if d == 6 {
        '6'
    } else if d == 7 {
        '7'
    } else if d == 8 {
        '8'
    } else {
        '9'
    }
}

/// The decimal digits of `n`, most significant first.
pub open spec fn spec_decimal(n: nat) -> Seq<char>
    decreases n,
{
    if n < 10 {
        seq![spec_digit_char(n)]
    } else {
        spec_decimal(n / 10).push(spec_digit_char(n % 10))
    }
}

/// The relative path of the data file for a day: the example file when
/// `example` is set, the full input otherwise.
pub open spec fn spec_challenge_path(n: nat, example: bool) -> Seq<char> {
    "resources/day"@ + spec_decimal(n) + (if example {
        "example.txt"@
    } else {
        ".txt"@
    })
}

/// The one-character string for a decimal digit.
fn digit_str(d: u32) -> (r: &'static str)
    requires
        d < 10,
    ensures
        r@ == seq![spec_digit_char(d as nat)],
{
    proof {
        reveal_strlit("0");
        reveal_strlit("1");
        reveal_strlit("2");
        reveal_strlit("3");
        reveal_strlit("4");
        reveal_strlit("5");
        reveal_strlit("6");
        reveal_strlit("7");
        reveal_strlit("8");
        reveal_strlit("9");
    }
    match d {
        0 => "0",
        1 => "1",
        2 => "2",
        3 => "3",
        4 => "4",
        5 => "5",
        6 => "6",
        7 => "7",
        8 => "8",
        _ => "9",
    }
}

/// Renders `n` in decimal.
fn decimal_string(n: u32) -> (r: String)
    ensures
        r@ == spec_decimal(n as nat),
    decreases n,
{
    if n < 10 {
        String::from_str(digit_str(n))
    } else {
        let mut s = decimal_string(n / 10);
        s.append(digit_str(n % 10));
        s
    }
}

/// The relative path of the data file for the given day, under the
/// `resources` directory: `dayNexample.txt` for the example data, `dayN.txt`
/// for the full input. Reading the file is the caller's business.
pub fn read_challenge_data(challenge_number: u32, example: bool) -> (r: String)
    ensures
        r@ == spec_challenge_path(challenge_number as nat, example),
{
    let mut s = String::from_str("resources/day");
    let digits = decimal_string(challenge_number);
    s.append(digits.as_str());
    if example {
        s.append("example.txt");
    } else {
        s.append(".txt");
    }
    s
}

/// The remainder of truncated division by a positive `d`, as Rust's `%`
/// computes it on signed integers: the sign follows the dividend.
pub open spec fn trunc_rem(x: int, d: int) -> int {
    if x >= 0 {
        x % d
    } else {
        -((-x) % d)
    }
}

/// Wraps `x` into the closed range `[a, b]` by remainder arithmetic, the
/// way the puzzle solutions use it: the remainder of `x - a` by the range
/// length is added to `a`, and one more when `x` is negative.
pub fn wrap(x: i64, a: i64, b: i64) -> (r: i64)
    requires
        a < b,
        (b as int) - (a as int) + 1 <= i64::MAX,
        i64::MIN <= (x as int) - (a as int) <= i64::MAX,
        2 * (a as int) - (b as int) >= i64::MIN,
        b < i64::MAX,
    ensures
        r as int == (a as int) + trunc_rem((x as int) - (a as int), (b as int) - (a as int) + 1) + (
        if x < 0 {
            1int
        } else {
            0int
        }),
{
    let range = b - a + 1;
    let res = (x - a) % range;
    if x < 0 {
        a + res + 1
    } else {
        a + res
    }
}

} // verus!
