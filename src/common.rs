//! The outcome of running a parser on some input.
use vstd::prelude::*;

verus! {

/// Why a parser rejected its input. There is a single reason: the text at
/// the current position is not what the parser requires.
#[derive(Debug, PartialEq, Eq, Structural)]
pub enum DenialReason {
    Deny,
}

/// A successful parse: the value produced and the unconsumed remainder of
/// the input, which borrows from the same text that was parsed.
#[derive(Debug, PartialEq)]
pub struct ParsingResult<'a, T> {
    pub first: T,
    pub rest: &'a str,
}

impl<'a, T> View for ParsingResult<'a, T> {
    type V = (T, Seq<char>);

    open spec fn view(&self) -> (T, Seq<char>) {
        (self.first, self.rest@)
    }
}

/// The abstract meaning of an outcome: the value and the remaining codepoints
/// on success, nothing on denial.
pub open spec fn outcome_of<'a, T>(r: Result<ParsingResult<'a, T>, DenialReason>) -> Option<(T, Seq<char>)> {
    match r {
        Ok(p) => Some(p@),
        Err(_) => None,
    }
}

/// `rest` is what is left of `input` once some prefix of it has been
/// consumed: that prefix followed by `rest` gives back `input` exactly.
pub open spec fn is_remainder_of(rest: Seq<char>, input: Seq<char>) -> bool {
    &&& rest.len() <= input.len()
    &&& input == input.take(input.len() - rest.len()) + rest
}

} // verus!
