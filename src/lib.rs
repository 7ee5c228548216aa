//! A small parser-combinator toolkit over text addressed by codepoint.
//!
//! Primitive parsers recognise one digit, a run of digits, one exact
//! character or one exact literal; the combinators skip leading whitespace
//! or transform a parsed value. Every parser is a pure function of its input
//! and hands back the unconsumed remainder as a view into the same text.
pub mod combinators;
pub mod common;
pub mod laws;
pub mod parsers;
pub mod text;

pub use combinators::{lexeme, Lexeme, Mapped};
pub use common::{DenialReason, ParsingResult};
pub use parsers::{
    character, digits, single_digit, string, Character, Digits, Literal, Parser, SingleDigit,
};
