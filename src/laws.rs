//! Properties that hold of every parser, and of `digits` and `map`.
use crate::combinators::{applied, Mapped};
use crate::common::{is_remainder_of, outcome_of, DenialReason, ParsingResult};
use crate::parsers::{
    digits_outcome, digits_value, is_digit, leading_digits, lemma_leading_digits, Parser,
};
use vstd::prelude::*;

verus! {

/// On success, the codepoints that a parser consumed followed by the
/// remainder it returned give back the input exactly, and the remainder is
/// never longer than the input.
pub proof fn consumption_invariant<'a, T, P: Parser<T>>(
    p: &P,
    input: &'a str,
    r: Result<ParsingResult<'a, T>, DenialReason>,
)
    requires
        p.well_formed(),
        outcome_of(r) == p.outcome(input@),
    ensures
        r matches Ok(pr) ==> {
            &&& pr.rest@.len() <= input@.len()
            &&& is_remainder_of(pr.rest@, input@)
        },
{
    p.lemma_outcome_is_remainder(input@);
}

/// When the input starts with a run of exactly `k` ASCII digits, `digits`
/// consumes exactly those `k` codepoints whenever it succeeds, and it
/// succeeds whenever the run is non-empty and its number fits in an `i32`.
pub proof fn digits_maximal_munch(s: Seq<char>, k: int)
    requires
        0 <= k <= s.len(),
        forall|i: int| 0 <= i < k ==> is_digit(#[trigger] s[i]),
        k == s.len() || !is_digit(s[k]),
    ensures
        digits_outcome(s) matches Some((_, rest)) ==> rest == s.skip(k),
        k > 0 && digits_value(s.take(k)) <= i32::MAX ==> digits_outcome(s) == Some(
            (digits_value(s.take(k)) as i32, s.skip(k)),
        ),
{
    lemma_leading_digits(s);
    let n = leading_digits(s) as int;
    if n < k {
        assert(is_digit(s[n]));
    }
    if k < n {
        assert(is_digit(s[k]));
    }
}

/// `map` is transparent: it fails exactly where the wrapped parser fails,
/// and on success it keeps the wrapped parser's remainder and carries the
/// value that `f` returns on the wrapped parser's value.
pub proof fn map_is_transparent<T, S, P: Parser<T>, F: Fn(T) -> S>(
    m: Mapped<P, F, T>,
    input: Seq<char>,
)
    requires
        m.well_formed(),
    ensures
        m.outcome(input) is None <==> m.inner.outcome(input) is None,
        m.inner.outcome(input) matches Some((v, rest)) ==> m.outcome(input) == Some(
            (applied(m.f, v), rest),
        ),
{
}

/// Running a parser twice on the same input gives structurally equal
/// outcomes: no hidden state affects the result.
pub proof fn parse_is_repeatable<'a, T, P: Parser<T>>(
    p: &P,
    input: &'a str,
    r1: Result<ParsingResult<'a, T>, DenialReason>,
    r2: Result<ParsingResult<'a, T>, DenialReason>,
)
    requires
        p.well_formed(),
        outcome_of(r1) == p.outcome(input@),
        outcome_of(r2) == p.outcome(input@),
    ensures
        r1 is Ok <==> r2 is Ok,
        outcome_of(r1) == outcome_of(r2),
{
}

} // verus!
