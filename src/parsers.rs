//! The parser abstraction and the primitive parsers.
use crate::common::{is_remainder_of, outcome_of, DenialReason, ParsingResult};
use vstd::prelude::*;
use vstd::std_specs::iter::IteratorSpec;

verus! {

/// Anything that turns a text into a parse outcome, as a pure function of the
/// text and of its own configuration.
pub trait Parser<T> {
    /// The configuration is usable: calling `parse` is allowed on every input.
    spec fn well_formed(&self) -> bool;

    /// What the parser yields on the given codepoints: the value and the
    /// remainder on success, `None` on denial.
    spec fn outcome(&self, input: Seq<char>) -> Option<(T, Seq<char>)>;

    /// Success leaves a remainder of the input: some prefix of it has been
    /// consumed, and nothing is invented, dropped or reordered.
    proof fn lemma_outcome_is_remainder(&self, input: Seq<char>)
        requires
            self.well_formed(),
        ensures
            self.outcome(input) matches Some((_, rest)) ==> is_remainder_of(rest, input),
    ;

    /// Run the parser. Never panics: a mismatch is reported as `Deny`.
    fn parse<'a>(&self, input: &'a str) -> (r: Result<ParsingResult<'a, T>, DenialReason>)
        requires
            self.well_formed(),
        ensures
            outcome_of(r) == self.outcome(input@),
    ;
}

/// An ASCII decimal digit, `0` to `9`.
pub open spec fn is_digit(c: char) -> bool {
    '0' <= c && c <= '9'
}

/// The numeric value of an ASCII digit.
pub open spec fn digit_value(c: char) -> int {
    c as int - '0' as int
}

/// What `single_digit` yields: the value of a leading ASCII digit and every
/// codepoint after it.
pub open spec fn single_digit_outcome(s: Seq<char>) -> Option<(i32, Seq<char>)> {
    if s.len() > 0 && is_digit(s[0]) {
        Some((digit_value(s[0]) as i32, s.drop_first()))
    } else {
        None
    }
}

/// Parses the first codepoint of `s` as a base-10 digit.
pub fn single_digit<'a>(s: &'a str) -> (r: Result<ParsingResult<'a, i32>, DenialReason>)
    ensures
        outcome_of(r) == single_digit_outcome(s@),
{
    let mut chars = s.chars();
    match chars.next() {
        Some(c) => {
            if '0' <= c && c <= '9' {
                Ok(ParsingResult { first: (c as u32 - '0' as u32) as i32, rest: chars.as_str() })
            } else {
                Err(DenialReason::Deny)
            }
        },
        None => Err(DenialReason::Deny),
    }
}

/// The number of ASCII digits at the start of `s`.
pub open spec fn leading_digits(s: Seq<char>) -> nat
    decreases s.len(),
{
    if s.len() > 0 && is_digit(s[0]) {
        1 + leading_digits(s.skip(1))
    } else {
        0
    }
}

/// The base-10 number written by a sequence of ASCII digits, leading zeros
/// included.
pub open spec fn digits_value(s: Seq<char>) -> int
    decreases s.len(),
{
    if s.len() == 0 {
        0
    } else {
        10 * digits_value(s.drop_last()) + digit_value(s.last())
    }
}

/// What `digits` yields: the number written by the longest run of ASCII
/// digits at the start of `s`, and every codepoint after that run. The run
/// must be non-empty and its number must fit in an `i32`.
pub open spec fn digits_outcome(s: Seq<char>) -> Option<(i32, Seq<char>)> {
    let k = leading_digits(s) as int;
    let v = digits_value(s.take(k));
    if k > 0 && v <= i32::MAX {
        Some((v as i32, s.skip(k)))
    } else {
        None
    }
}

/// The leading digit run of `s` is all digits and ends at a non-digit or at
/// the end of `s`.
pub proof fn lemma_leading_digits(s: Seq<char>)
    ensures
        leading_digits(s) <= s.len(),
        forall|i: int| 0 <= i < leading_digits(s) ==> is_digit(#[trigger] s[i]),
        leading_digits(s) < s.len() ==> !is_digit(s[leading_digits(s) as int]),
    decreases s.len(),
{
    if s.len() > 0 && is_digit(s[0]) {
        lemma_leading_digits(s.skip(1));
        assert forall|i: int| 0 <= i < leading_digits(s) implies is_digit(#[trigger] s[i]) by {
            if i > 0 {
                assert(s[i] == s.skip(1)[i - 1]);
            }
        }
    }
}

/// A longer prefix of a digit sequence never writes a smaller number.
pub proof fn lemma_digits_value_grows(s: Seq<char>, m: int, n: int)
    requires
        0 <= m <= n <= s.len(),
        forall|i: int| 0 <= i < n ==> is_digit(#[trigger] s[i]),
    ensures
        0 <= digits_value(s.take(m)) <= digits_value(s.take(n)),
    decreases n,
{
    if n > 0 {
        assert(s.take(n).drop_last() =~= s.take(n - 1));
        if m < n {
            lemma_digits_value_grows(s, m, n - 1);
        } else {
            lemma_digits_value_grows(s, n - 1, n - 1);
        }
    }
}

/// Parses the longest run of ASCII digits at the start of `s` as a base-10
/// number.
pub fn digits<'a>(s: &'a str) -> (r: Result<ParsingResult<'a, i32>, DenialReason>)
    ensures
        outcome_of(r) == digits_outcome(s@),
{
    proof {
        lemma_leading_digits(s@);
    }
    let mut chars = s.chars();
    let mut value: i32 = 0;
    let mut seen: bool = false;
    let ghost mut count: int = 0;
    loop
        invariant
            chars.remaining() == s@.skip(count),
            0 <= count <= leading_digits(s@),
            seen == (count > 0),
            value == digits_value(s@.take(count)),
            leading_digits(s@) <= s@.len(),
            forall|i: int| 0 <= i < leading_digits(s@) ==> is_digit(#[trigger] s@[i]),
            leading_digits(s@) < s@.len() ==> !is_digit(s@[leading_digits(s@) as int]),
        decreases s@.len() - count,
    {
        let rest = chars.as_str();
        match chars.next() {
            Some(c) if '0' <= c && c <= '9' => {
                assert(c == s@[count]);
                assert(s@.take(count + 1).drop_last() =~= s@.take(count));
                assert(s@.skip(count).skip(1) =~= s@.skip(count + 1));
                let d = (c as u32 - '0' as u32) as i32;
                let next = match value.checked_mul(10) {
                    Some(m) => m.checked_add(d),
                    None => None,
                };
                match next {
                    Some(v) => {
                        value = v;
                        seen = true;
                        proof {
                            count = count + 1;
                        }
                    },
                    None => {
                        proof {
                            lemma_digits_value_grows(s@, count + 1, leading_digits(s@) as int);
                        }
                        return Err(DenialReason::Deny);
                    },
                }
            },
            _ => {
                assert(count == leading_digits(s@));
                if !seen {
                    return Err(DenialReason::Deny);
                }
                return Ok(ParsingResult { first: value, rest });
            },
        }
    }
}

/// Dropping the first `k` codepoints leaves a remainder of the input.
pub proof fn lemma_skip_is_remainder(s: Seq<char>, k: int)
    requires
        0 <= k <= s.len(),
    ensures
        is_remainder_of(s.skip(k), s),
{
    assert(s.take(k) + s.skip(k) =~= s);
}

/// What `character(c)` yields: unit when the first codepoint is exactly `c`,
/// and every codepoint after it.
pub open spec fn character_outcome(c: char, s: Seq<char>) -> Option<((), Seq<char>)> {
    if s.len() > 0 && s[0] == c {
        Some(((), s.skip(1)))
    } else {
        None
    }
}

/// What `string(lit)` yields: unit when `s` starts with `lit`, codepoint for
/// codepoint, and every codepoint after that prefix.
pub open spec fn literal_outcome(lit: Seq<char>, s: Seq<char>) -> Option<((), Seq<char>)> {
    if lit.len() <= s.len() && s.take(lit.len() as int) == lit {
        Some(((), s.skip(lit.len() as int)))
    } else {
        None
    }
}

/// The parser of `single_digit`.
pub struct SingleDigit;

impl Parser<i32> for SingleDigit {
    open spec fn well_formed(&self) -> bool {
        true
    }

    open spec fn outcome(&self, input: Seq<char>) -> Option<(i32, Seq<char>)> {
        single_digit_outcome(input)
    }

    proof fn lemma_outcome_is_remainder(&self, input: Seq<char>) {
        if input.len() > 0 {
            lemma_skip_is_remainder(input, 1);
            assert(input.drop_first() == input.skip(1));
        }
    }

    fn parse<'a>(&self, input: &'a str) -> (r: Result<ParsingResult<'a, i32>, DenialReason>) {
        single_digit(input)
    }
}

/// The parser of `digits`.
pub struct Digits;

impl Parser<i32> for Digits {
    open spec fn well_formed(&self) -> bool {
        true
    }

    open spec fn outcome(&self, input: Seq<char>) -> Option<(i32, Seq<char>)> {
        digits_outcome(input)
    }

    proof fn lemma_outcome_is_remainder(&self, input: Seq<char>) {
        lemma_leading_digits(input);
        lemma_skip_is_remainder(input, leading_digits(input) as int);
    }

    fn parse<'a>(&self, input: &'a str) -> (r: Result<ParsingResult<'a, i32>, DenialReason>) {
        digits(input)
    }
}

/// A parser that accepts exactly one given codepoint.
pub struct Character {
    pub target: char,
}

/// The parser that accepts exactly the codepoint `c` at the start of its
/// input: no case folding, no normalisation.
pub fn character(c: char) -> (r: Character)
    ensures
        r.target == c,
{
    Character { target: c }
}

impl Parser<()> for Character {
    open spec fn well_formed(&self) -> bool {
        true
    }

    open spec fn outcome(&self, input: Seq<char>) -> Option<((), Seq<char>)> {
        character_outcome(self.target, input)
    }

    proof fn lemma_outcome_is_remainder(&self, input: Seq<char>) {
        if input.len() > 0 {
            lemma_skip_is_remainder(input, 1);
        }
    }

    fn parse<'a>(&self, input: &'a str) -> (r: Result<ParsingResult<'a, ()>, DenialReason>) {
        let mut chars = input.chars();
        match chars.next() {
            Some(c) => {
                if c == self.target {
                    Ok(ParsingResult { first: (), rest: chars.as_str() })
                } else {
                    Err(DenialReason::Deny)
                }
            },
            None => Err(DenialReason::Deny),
        }
    }
}

/// A parser that accepts exactly one given literal text.
pub struct Literal<'b> {
    pub criteria: &'b str,
}

/// The parser that accepts the literal `criteria` as an exact prefix of its
/// input and consumes that prefix once. The empty literal always succeeds
/// and consumes nothing.
pub fn string<'b>(criteria: &'b str) -> (r: Literal<'b>)
    ensures
        r.criteria == criteria,
{
    Literal { criteria }
}

impl<'b> Parser<()> for Literal<'b> {
    open spec fn well_formed(&self) -> bool {
        true
    }

    open spec fn outcome(&self, input: Seq<char>) -> Option<((), Seq<char>)> {
        literal_outcome(self.criteria@, input)
    }

    proof fn lemma_outcome_is_remainder(&self, input: Seq<char>) {
        if self.criteria@.len() <= input.len() {
            lemma_skip_is_remainder(input, self.criteria@.len() as int);
        }
    }

    fn parse<'a>(&self, input: &'a str) -> (r: Result<ParsingResult<'a, ()>, DenialReason>) {
        let lit = self.criteria;
        let mut wanted = lit.chars();
        let mut chars = input.chars();
        let ghost mut i: int = 0;
        loop
            invariant
                lit == self.criteria,
                0 <= i <= lit@.len(),
                i <= input@.len(),
                wanted.remaining() == lit@.skip(i),
                chars.remaining() == input@.skip(i),
                input@.take(i) == lit@.take(i),
            decreases lit@.len() - i,
        {
            match wanted.next() {
                None => {
                    assert(lit@.skip(i).len() == 0);
                    assert(lit@.take(i) =~= lit@);
                    return Ok(ParsingResult { first: (), rest: chars.as_str() });
                },
                Some(w) => {
                    match chars.next() {
                        Some(c) => {
                            if c != w {
                                proof {
                                    assert(w == lit@[i] && c == input@[i]);
                                    if lit@.len() <= input@.len() {
                                        assert(input@.take(lit@.len() as int)[i] == c);
                                    }
                                }
                                return Err(DenialReason::Deny);
                            }
                            proof {
                                assert(input@.take(i + 1) =~= input@.take(i).push(c));
                                assert(lit@.take(i + 1) =~= lit@.take(i).push(w));
                                assert(lit@.skip(i).skip(1) =~= lit@.skip(i + 1));
                                assert(input@.skip(i).skip(1) =~= input@.skip(i + 1));
                                i = i + 1;
                            }
                        },
                        None => {
                            return Err(DenialReason::Deny);
                        },
                    }
                },
            }
        }
    }
}

} // verus!
