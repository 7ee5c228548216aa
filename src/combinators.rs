//! Combinators: parsers built from another parser.
use crate::common::{DenialReason, ParsingResult};
use crate::parsers::{lemma_skip_is_remainder, Parser};
use crate::text::is_white_space;
use core::marker::PhantomData;
use vstd::prelude::*;
use vstd::std_specs::iter::IteratorSpec;

verus! {

/// The number of Unicode whitespace codepoints at the start of `s`.
pub open spec fn leading_white_space(s: Seq<char>) -> nat
    decreases s.len(),
{
    if s.len() > 0 && is_white_space(s[0]) {
        1 + leading_white_space(s.skip(1))
    } else {
        0
    }
}

/// `s` without its leading run of Unicode whitespace.
pub open spec fn trim_start(s: Seq<char>) -> Seq<char> {
    s.skip(leading_white_space(s) as int)
}

/// The leading whitespace run of `s` is all whitespace and ends at a
/// non-whitespace codepoint or at the end of `s`.
pub proof fn lemma_leading_white_space(s: Seq<char>)
    ensures
        leading_white_space(s) <= s.len(),
        forall|i: int| 0 <= i < leading_white_space(s) ==> is_white_space(#[trigger] s[i]),
        leading_white_space(s) < s.len() ==> !is_white_space(s[leading_white_space(s) as int]),
    decreases s.len(),
{
    if s.len() > 0 && is_white_space(s[0]) {
        lemma_leading_white_space(s.skip(1));
        assert forall|i: int| 0 <= i < leading_white_space(s) implies is_white_space(
            #[trigger] s[i],
        ) by {
            if i > 0 {
                assert(s[i] == s.skip(1)[i - 1]);
            }
        }
    }
}

/// A parser that skips leading whitespace, then runs `inner` on the rest.
pub struct Lexeme<P> {
    pub inner: P,
}

/// The parser that discards any leading run of Unicode whitespace from its
/// input and then delegates to `parser`. Whitespace after the token is left
/// in the remainder.
pub fn lexeme<T, P: Parser<T>>(parser: P) -> (r: Lexeme<P>)
    ensures
        r.inner == parser,
{
    Lexeme { inner: parser }
}

impl<T, P: Parser<T>> Parser<T> for Lexeme<P> {
    open spec fn well_formed(&self) -> bool {
        self.inner.well_formed()
    }

    open spec fn outcome(&self, input: Seq<char>) -> Option<(T, Seq<char>)> {
        self.inner.outcome(trim_start(input))
    }

    proof fn lemma_outcome_is_remainder(&self, input: Seq<char>) {
        let trimmed = trim_start(input);
        lemma_leading_white_space(input);
        lemma_skip_is_remainder(input, leading_white_space(input) as int);
        self.inner.lemma_outcome_is_remainder(trimmed);
        if let Some((_, rest)) = self.inner.outcome(trimmed) {
            let k = input.len() - trimmed.len();
            let j = trimmed.len() - rest.len();
            assert(input.take(input.len() - rest.len()) =~= input.take(k) + trimmed.take(j));
            assert(input =~= input.take(input.len() - rest.len()) + rest);
        }
    }

    fn parse<'a>(&self, input: &'a str) -> (r: Result<ParsingResult<'a, T>, DenialReason>) {
        proof {
            lemma_leading_white_space(input@);
        }
        let mut chars = input.chars();
        let ghost mut count: int = 0;
        loop
            invariant
                chars.remaining() == input@.skip(count),
                0 <= count <= leading_white_space(input@),
                leading_white_space(input@) <= input@.len(),
                forall|i: int|
                    0 <= i < leading_white_space(input@) ==> is_white_space(#[trigger] input@[i]),
                leading_white_space(input@) < input@.len() ==> !is_white_space(
                    input@[leading_white_space(input@) as int],
                ),
                self.inner.well_formed(),
            decreases input@.len() - count,
        {
            let rest = chars.as_str();
            match chars.next() {
                Some(c) if c.is_whitespace() => {
                    assert(c == input@[count]);
                    assert(input@.skip(count).skip(1) =~= input@.skip(count + 1));
                    proof {
                        count = count + 1;
                    }
                },
                _ => {
                    assert(count == leading_white_space(input@));
                    return self.inner.parse(rest);
                },
            }
        }
    }
}

/// The value that `f` returns on `v`.
pub open spec fn applied<T, S, F: Fn(T) -> S>(f: F, v: T) -> S {
    choose|w: S| call_ensures(f, (v,), w)
}

/// `f` may be called on every value and returns one value for each: a total
/// function without hidden state.
pub open spec fn is_total_function<T, S, F: Fn(T) -> S>(f: F) -> bool {
    &&& forall|v: T| #[trigger] call_requires(f, (v,))
    &&& forall|v: T, a: S, b: S|
        #[trigger] call_ensures(f, (v,), a) && #[trigger] call_ensures(f, (v,), b) ==> a == b
}

/// A parser that runs `inner` and transforms its value with `f`.
pub struct Mapped<P, F, T> {
    pub inner: P,
    pub f: F,
    pub input_value: PhantomData<T>,
}

/// The parser that runs `parser` and, on success, applies `f` to the value
/// and keeps the remainder; a denial passes through unchanged.
pub fn map<T, S, P: Parser<T>, F: Fn(T) -> S>(parser: P, f: F) -> (r: Mapped<P, F, T>)
    ensures
        r.inner == parser,
        r.f == f,
{
    Mapped { inner: parser, f, input_value: PhantomData }
}

impl<T, S, P: Parser<T>, F: Fn(T) -> S> Parser<S> for Mapped<P, F, T> {
    open spec fn well_formed(&self) -> bool {
        self.inner.well_formed() && is_total_function(self.f)
    }

    open spec fn outcome(&self, input: Seq<char>) -> Option<(S, Seq<char>)> {
        match self.inner.outcome(input) {
            Some((v, rest)) => Some((applied(self.f, v), rest)),
            None => None,
        }
    }

    proof fn lemma_outcome_is_remainder(&self, input: Seq<char>) {
        self.inner.lemma_outcome_is_remainder(input);
    }

    fn parse<'a>(&self, input: &'a str) -> (r: Result<ParsingResult<'a, S>, DenialReason>) {
        match self.inner.parse(input) {
            Ok(p) => {
                let ghost v = p.first;
                let w = (self.f)(p.first);
                assert(call_ensures(self.f, (v,), applied(self.f, v)));
                Ok(ParsingResult { first: w, rest: p.rest })
            },
            Err(e) => Err(e),
        }
    }
}

} // verus!
