//! What the parsers use of std's character handling.
use std::str::Chars;
use vstd::prelude::*;
use vstd::std_specs::iter::IteratorSpec;

verus! {

/// Whether a codepoint has the Unicode `White_Space` property.
pub uninterp spec fn is_white_space(c: char) -> bool;

/// Relies on `char::is_whitespace`: true exactly for the codepoints with the
/// Unicode `White_Space` property, a fixed table.
pub assume_specification[ char::is_whitespace ](c: char) -> (r: bool)
    ensures
        r == is_white_space(c),
;

/// Relies on `Chars::as_str`: the codepoints that the iterator has not yet
/// yielded, as a slice of the text it walks.
pub assume_specification<'a>[ Chars::<'a>::as_str ](chars: &Chars<'a>) -> (r: &'a str)
    ensures
        r@ == chars.remaining(),
;

} // verus!
