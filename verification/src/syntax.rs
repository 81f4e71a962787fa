//! Scoring for bracket syntax checking: points for the first illegal
//! closer of a corrupted line, and the rolling score that completes an
//! unclosed line.

use vstd::prelude::*;

verus! {

/// The points a closing character scores when it is found to be illegal.
pub open spec fn spec_illegal_points(c: char) -> Option<i64> {
    if c == ')' {
        Some(3)
    } else if c == ']' {
        Some(57)
    } else if c == '}' {
        Some(1197)
    } else if c == '>' {
        Some(25137)
    } else {
        None
    }
}

/// The points an opening character scores during autocompletion.
pub open spec fn spec_autocomplete_points(c: char) -> Option<i64> {
    if c == '(' {
        Some(1)
    } else if c == '[' {
        Some(2)
    } else if c == '{' {
        Some(3)
    } else if c == '<' {
        Some(4)
    } else {
        None
    }
}

/// The score of a closing character, or `None` for any other character.
pub fn score_illegal(c: char) -> (r: Option<i64>)
    ensures
        r == spec_illegal_points(c),
{
    match c {
        ')' => Some(3),
        ']' => Some(57),
        '}' => Some(1197),
        '>' => Some(25137),
        _ => None,
    }
}

/// The score of `close` when it wrongly closes `open`: its illegal points
/// when the pair does not match, `None` when it matches or when `close` is
/// no closing character.
pub fn match_illegal(open: char, close: char) -> (r: Option<i64>)
    ensures
        r == (if (close == ')' && open != '(') || (close == ']' && open != '[') || (close == '}'
            && open != '{') || (close == '>' && open != '<') {
            spec_illegal_points(close)
        } else {
            Option::<i64>::None
        }),
{
    match (open, close) {
        (_, ')') if open != '(' => Some(3),
        (_, ']') if open != '[' => Some(57),
        (_, '}') if open != '{' => Some(1197),
        (_, '>') if open != '<' => Some(25137),
        _ => None,
    }
}

/// The autocomplete score of an opening character, or `None` for any other
/// character.
pub fn score_autocomplete(c: char) -> (r: Option<i64>)
    ensures
        r == spec_autocomplete_points(c),
{
    match c {
        '(' => Some(1),
        '[' => Some(2),
        '{' => Some(3),
        '<' => Some(4),
        _ => None,
    }
}

/// Whether `c` opens a bracket pair.
pub fn is_opening(c: char) -> (b: bool)
    ensures
        b == (c == '(' || c == '[' || c == '{' || c == '<'),
{
    c == '(' || c == '[' || c == '{' || c == '<'
}

/// The autocomplete points of one opener, as a number.
pub open spec fn opener_points(c: char) -> int {
    match spec_autocomplete_points(c) {
        Some(v) => v as int,
        None => 0,
    }
}

/// The total score of completing a stack of unclosed openers: the openers
/// are closed from the last to the first, and each closure multiplies the
/// running score by five and adds its own points.
pub open spec fn spec_stack_score(s: Seq<char>) -> int
    decreases s.len(),
{
    if s.len() == 0 {
        0
    } else {
        5 * spec_stack_score(s.skip(1)) + opener_points(s[0])
    }
}

/// The score never shrinks as more openers are left on the stack.
proof fn lemma_stack_score_suffix(s: Seq<char>, k: int)
    requires
        0 <= k <= s.len(),
    ensures
        0 <= spec_stack_score(s.skip(k)),
        spec_stack_score(s.skip(k)) <= spec_stack_score(s),
    decreases k,
{
    if k == 0 {
        assert(s.skip(0) =~= s);
        lemma_stack_score_nonneg(s);
    } else {
        lemma_stack_score_suffix(s, k - 1);
        let tail = s.skip(k - 1);
        assert(tail.skip(1) =~= s.skip(k));
        lemma_stack_score_nonneg(tail.skip(1));
        assert(5 * spec_stack_score(tail.skip(1)) >= spec_stack_score(tail.skip(1)))
            by (nonlinear_arith)
            requires
                spec_stack_score(tail.skip(1)) >= 0,
        ;
        assert(opener_points(tail[0]) >= 0);
    }
}

/// Stack scores are non-negative.
proof fn lemma_stack_score_nonneg(s: Seq<char>)
    ensures
        spec_stack_score(s) >= 0,
    decreases s.len(),
{
    if s.len() > 0 {
        lemma_stack_score_nonneg(s.skip(1));
        assert(5 * spec_stack_score(s.skip(1)) >= 0) by (nonlinear_arith)
            requires
                spec_stack_score(s.skip(1)) >= 0,
        ;
    }
}

/// Folds a stack of unclosed openers into its autocomplete score, closing
/// from the last opener back to the first.
pub fn autocomplete_points(stack: &Vec<char>) -> (r: u64)
    requires
        forall|i: int|
            0 <= i < stack@.len() ==> spec_autocomplete_points(#[trigger] stack@[i]) is Some,
        spec_stack_score(stack@) <= u64::MAX,
    ensures
        r as int == spec_stack_score(stack@),
{
    let mut t: u64 = 0;
    let mut i: usize = stack.len();
    while i > 0
        invariant
            i <= stack@.len(),
            forall|k: int|
                0 <= k < stack@.len() ==> spec_autocomplete_points(#[trigger] stack@[k]) is Some,
            spec_stack_score(stack@) <= u64::MAX,
            t as int == spec_stack_score(stack@.skip(i as int)),
        decreases i,
    {
        proof {
            lemma_stack_score_suffix(stack@, i as int - 1);
            assert(stack@.skip(i as int - 1).skip(1) =~= stack@.skip(i as int));
            assert(stack@.skip(i as int - 1)[0] == stack@[i as int - 1]);
        }
        let c = stack[i - 1];
        let v: u64 = match score_autocomplete(c) {
            Option::Some(v) => v as u64,
            Option::None => 0,
        };
        t = 5 * t + v;
        i -= 1;
    }
    proof {
        assert(stack@.skip(0) =~= stack@);
    }
    t
}

} // verus!
