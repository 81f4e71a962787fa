//! Verified parsing of decimal numbers out of text, shared by the puzzle
//! input decoders.

use vstd::prelude::*;

verus! {

/// Whether `c` is a decimal digit.
pub open spec fn is_digit(c: char) -> bool {
    '0' <= c && c <= '9'
}

/// The value of a digit character.
pub open spec fn char_digit(c: char) -> int {
    c as int - 48
}

/// A non-empty run of decimal digits.
pub open spec fn all_digits(s: Seq<char>) -> bool {
    s.len() >= 1 && forall|i: int| 0 <= i < s.len() ==> is_digit(#[trigger] s[i])
}

/// The number a run of decimal digits denotes.
pub open spec fn digits_value(s: Seq<char>) -> int
    decreases s.len(),
{
    if s.len() == 0 {
        0
    } else {
        digits_value(s.drop_last()) * 10 + char_digit(s.last())
    }
}

/// Digit runs denote non-negative numbers, and prefixes denote no more
/// than the whole run.
pub proof fn lemma_digits_take_le(s: Seq<char>, k: int)
    requires
        forall|i: int| 0 <= i < s.len() ==> is_digit(#[trigger] s[i]),
        0 <= k <= s.len(),
    ensures
        0 <= digits_value(s.take(k)),
        digits_value(s.take(k)) <= digits_value(s),
    decreases s.len() - k,
{
    if k == s.len() {
        assert(s.take(k) =~= s);
        lemma_digits_nonneg(s);
    } else {
        lemma_digits_take_le(s, k + 1);
        assert(s.take(k + 1).drop_last() =~= s.take(k));
        assert(s.take(k + 1).last() == s[k]);
        lemma_digits_nonneg(s.take(k));
        assert(digits_value(s.take(k)) * 10 + char_digit(s[k]) >= digits_value(s.take(k)))
            by (nonlinear_arith)
            requires
                digits_value(s.take(k)) >= 0,
                char_digit(s[k]) >= 0,
        ;
    }
}

/// A run of digits denotes a non-negative number.
pub proof fn lemma_digits_nonneg(s: Seq<char>)
    requires
        forall|i: int| 0 <= i < s.len() ==> is_digit(#[trigger] s[i]),
    ensures
        digits_value(s) >= 0,
    decreases s.len(),
{
    if s.len() > 0 {
        lemma_digits_nonneg(s.drop_last());
        assert(digits_value(s.drop_last()) * 10 >= 0) by (nonlinear_arith)
            requires
                digits_value(s.drop_last()) >= 0,
        ;
    }
}

/// Reads the number denoted by the digits of `s` between `from` inclusive
/// and `to` exclusive.
pub fn parse_digits_range(s: &str, from: usize, to: usize) -> (v: i64)
    requires
        from < to <= s@.len(),
        all_digits(s@.subrange(from as int, to as int)),
        digits_value(s@.subrange(from as int, to as int)) <= i64::MAX,
    ensures
        0 <= v,
        v as int == digits_value(s@.subrange(from as int, to as int)),
{
    let ghost whole = s@.subrange(from as int, to as int);
    let mut v: i64 = 0;
    let mut i: usize = from;
    while i < to
        invariant
            from <= i <= to <= s@.len(),
            whole == s@.subrange(from as int, to as int),
            all_digits(whole),
            digits_value(whole) <= i64::MAX,
            0 <= v,
            v as int == digits_value(whole.take(i - from)),
        decreases to - i,
    {
        let c = s.get_char(i);
        proof {
            assert(whole[i - from] == s@[i as int]);
            assert(is_digit(c));
            lemma_digits_take_le(whole, i - from + 1);
            assert(whole.take(i - from + 1).drop_last() =~= whole.take(i - from));
            assert(whole.take(i - from + 1).last() == whole[i - from]);
        }
        let d = (c as u32) - 48;
        v = v * 10 + (d as i64);
        i += 1;
    }
    proof {
        assert(whole.take(to - from) =~= whole);
    }
    v
}

/// The position of the first `sep` in `s` at or after `from`, if any.
pub fn find_char(s: &str, from: usize, sep: char) -> (r: Option<usize>)
    requires
        from <= s@.len(),
    ensures
        match r {
            Option::Some(i) => from <= i < s@.len() && s@[i as int] == sep && forall|j: int|
                from <= j < i ==> s@[j] != sep,
            Option::None => forall|j: int| from <= j < s@.len() ==> s@[j] != sep,
        },
{
    let n = s.unicode_len();
    let mut i: usize = from;
    while i < n
        invariant
            n == s@.len(),
            from <= i <= n,
            forall|j: int| from <= j < i ==> s@[j] != sep,
        decreases n - i,
    {
        if s.get_char(i) == sep {
            return Some(i);
        }
        i += 1;
    }
    None
}

/// Whether `w` occurs in `s` starting exactly at `pos`.
pub fn word_at(s: &str, pos: usize, w: &str) -> (b: bool)
    requires
        pos <= s@.len(),
    ensures
        b == (pos + w@.len() <= s@.len() && s@.subrange(pos as int, pos + w@.len() as int) == w@),
{
    let nw = w.unicode_len();
    let ns = s.unicode_len();
    if ns - pos < nw {
        return false;
    }
    let mut i: usize = 0;
    while i < nw
        invariant
            nw == w@.len(),
            ns == s@.len(),
            pos + nw <= ns,
            i <= nw,
            forall|j: int| 0 <= j < i ==> s@[pos + j] == w@[j],
        decreases nw - i,
    {
        if s.get_char(pos + i) != w.get_char(i) {
            proof {
                assert(s@.subrange(pos as int, pos + w@.len() as int)[i as int] != w@[i as int]);
            }
            return false;
        }
        i += 1;
    }
    proof {
        assert(s@.subrange(pos as int, pos + w@.len() as int) =~= w@);
    }
    true
}

/// Whether `s` begins with `w`, character for character.
pub fn starts_with_word(s: &str, w: &str) -> (b: bool)
    ensures
        b == (s@.len() >= w@.len() && s@.take(w@.len() as int) == w@),
{
    let nw = w.unicode_len();
    let ns = s.unicode_len();
    if ns < nw {
        proof {
            assert(!(s@.len() >= w@.len()));
        }
        return false;
    }
    let mut i: usize = 0;
    while i < nw
        invariant
            nw == w@.len(),
            ns == s@.len(),
            ns >= nw,
            i <= nw,
            forall|j: int| 0 <= j < i ==> s@[j] == w@[j],
        decreases nw - i,
    {
        if s.get_char(i) != w.get_char(i) {
            proof {
                assert(s@.take(w@.len() as int)[i as int] != w@[i as int]);
            }
            return false;
        }
        i += 1;
    }
    proof {
        assert(s@.take(w@.len() as int) =~= w@);
    }
    true
}

} // verus!
