use parser_kit::{character, digits, single_digit, string, Parser, ParsingResult, DenialReason};

#[test]
fn digit_true() {
    assert_eq!(
        single_digit("123"),
        Ok(ParsingResult {
            first: 1,
            rest: "23"
        })
    );
    assert_eq!(
        single_digit("2Abcd"),
        Ok(ParsingResult {
            first: 2,
            rest: "Abcd"
        })
    );
    assert_eq!(single_digit("9"), Ok(ParsingResult { first: 9, rest: "" }));
    assert_eq!(single_digit("0"), Ok(ParsingResult { first: 0, rest: "" }));
    assert_eq!(
        single_digit("85"),
        Ok(ParsingResult {
            first: 8,
            rest: "5"
        })
    );
    assert_eq!(
        single_digit("5漢字"),
        Ok(ParsingResult {
            first: 5,
            rest: "漢字"
        })
    );
    assert_eq!(
        single_digit("4\u{1f363}"),
        Ok(ParsingResult {
            first: 4,
            rest: "\u{1f363}"
        })
    );
}

#[test]
fn digit_false() {
    assert!(single_digit("abcd").is_err());
    assert!(single_digit("A").is_err());
    assert!(single_digit("").is_err());
    assert!(single_digit("        123").is_err());
    assert!(single_digit("abc123").is_err());
    assert!(single_digit("漢字").is_err());
    assert!(single_digit("\u{1f363}").is_err());
    assert!(single_digit("f").is_err());
    assert!(single_digit("IV").is_err());
}

#[test]
fn character_a() {
    let parser = character('A');
    assert_eq!(
        parser.parse("Abcd"),
        Ok(ParsingResult {
            first: (),
            rest: "bcd"
        })
    );
    assert_eq!(
        parser.parse("A"),
        Ok(ParsingResult {
            first: (),
            rest: ""
        })
    );
    assert!(parser.parse("Banana").is_err());
    assert!(parser.parse("abcd").is_err());
    assert!(parser.parse("BBBBa").is_err());
    assert!(parser.parse("        A").is_err());
    assert!(parser.parse("").is_err());
}

#[test]
fn character_kanji() {
    let parser = character('令');
    assert_eq!(
        parser.parse("令和"),
        Ok(ParsingResult {
            first: (),
            rest: "和"
        })
    );
    assert_eq!(
        parser.parse("令"),
        Ok(ParsingResult {
            first: (),
            rest: ""
        })
    );
    assert!(parser.parse("平成").is_err());
    assert!(parser.parse("         令").is_err());
    assert!(parser.parse("").is_err());
}

#[test]
fn character_emoji() {
    let parser = character('\u{1f363}');
    assert_eq!(
        parser.parse("\u{1f363}寿司"),
        Ok(ParsingResult {
            first: (),
            rest: "寿司"
        })
    );
    assert_eq!(
        parser.parse("\u{1f363}"),
        Ok(ParsingResult {
            first: (),
            rest: ""
        })
    );
    assert!(parser.parse("\u{1f364}エビフライ").is_err());
}

#[test]
fn digits_true() {
    assert_eq!(
        digits("123"),
        Ok(ParsingResult {
            first: 123,
            rest: ""
        })
    );
    assert_eq!(
        digits("456abc"),
        Ok(ParsingResult {
            first: 456,
            rest: "abc"
        })
    );
    assert_eq!(digits("7"), Ok(ParsingResult { first: 7, rest: "" }));
    assert_eq!(
        digits("12ab3"),
        Ok(ParsingResult {
            first: 12,
            rest: "ab3"
        })
    );
    assert_eq!(
        digits("12.3"),
        Ok(ParsingResult {
            first: 12,
            rest: ".3"
        })
    );
    assert_eq!(
        digits("0x12ff"),
        Ok(ParsingResult {
            first: 0,
            rest: "x12ff"
        })
    );
    assert_eq!(
        digits("010"),
        Ok(ParsingResult {
            first: 10,
            rest: ""
        })
    );
}

#[test]
fn digits_false() {
    assert!(digits("-123").is_err());
    assert!(digits("EF01").is_err());
    assert!(digits("IV").is_err());
    assert!(digits("五").is_err());
    assert!(digits("      123").is_err());
    assert!(digits("").is_err());
    assert!(digits("abc").is_err());
}

#[test]
fn string_true() {
    let parser = string("abc");

    assert_eq!(
        parser.parse("abc"),
        Ok(ParsingResult {
            first: (),
            rest: ""
        })
    );
    assert_eq!(
        parser.parse("abcdef"),
        Ok(ParsingResult {
            first: (),
            rest: "def"
        })
    );
    assert_eq!(
        parser.parse("abcabc"),
        Ok(ParsingResult {
            first: (),
            rest: "abc"
        })
    );
}

#[test]
fn string_false() {
    let parser = string("abc");

    assert!(parser.parse("ABC").is_err());
    assert!(parser.parse("  abc").is_err());
    assert!(parser.parse("foobar").is_err());
    assert!(parser.parse("defabc").is_err());
    assert!(parser.parse("").is_err());
}

#[test]
fn digit_consumes_one_codepoint_only() {
    assert_eq!(single_digit("123"), Ok(ParsingResult { first: 1, rest: "23" }));
    assert_eq!(single_digit("5漢字"), Ok(ParsingResult { first: 5, rest: "漢字" }));
    assert_eq!(single_digit("٣"), Err(DenialReason::Deny));
    assert_eq!(single_digit("+"), Err(DenialReason::Deny));
}

#[test]
fn digits_takes_longest_run() {
    assert_eq!(digits("12.3"), Ok(ParsingResult { first: 12, rest: ".3" }));
    assert_eq!(digits("9876543210"), Err(DenialReason::Deny));
    assert_eq!(digits("0042x"), Ok(ParsingResult { first: 42, rest: "x" }));
    assert_eq!(digits("12٣"), Ok(ParsingResult { first: 12, rest: "٣" }));
}

#[test]
fn digits_leading_zeros() {
    assert_eq!(digits("010"), Ok(ParsingResult { first: 10, rest: "" }));
    assert_eq!(digits("000"), Ok(ParsingResult { first: 0, rest: "" }));
}

#[test]
fn digits_at_i32_bounds() {
    assert_eq!(digits("2147483647"), Ok(ParsingResult { first: i32::MAX, rest: "" }));
    assert_eq!(digits("2147483648"), Err(DenialReason::Deny));
    assert_eq!(digits("02147483647!"), Ok(ParsingResult { first: i32::MAX, rest: "!" }));
    assert_eq!(digits("99999999999999999999"), Err(DenialReason::Deny));
}

#[test]
fn character_is_exact() {
    assert_eq!(character('A').parse("Abcd"), Ok(ParsingResult { first: (), rest: "bcd" }));
    assert_eq!(character('A').parse("abcd"), Err(DenialReason::Deny));
    assert_eq!(character('é').parse("e\u{301}"), Err(DenialReason::Deny));
}

#[test]
fn string_consumes_one_occurrence() {
    assert_eq!(string("abc").parse("abcabc"), Ok(ParsingResult { first: (), rest: "abc" }));
    assert_eq!(string("abc").parse("ab"), Err(DenialReason::Deny));
    assert_eq!(string("寿司").parse("寿司!"), Ok(ParsingResult { first: (), rest: "!" }));
}

#[test]
fn string_empty_literal_consumes_nothing() {
    assert_eq!(string("").parse("abc"), Ok(ParsingResult { first: (), rest: "abc" }));
    assert_eq!(string("").parse(""), Ok(ParsingResult { first: (), rest: "" }));
}

#[test]
fn remainder_reassembles_input() {
    let inputs = ["123abc", "5漢字", "abcdef", "A", "0"];
    for input in inputs {
        if let Ok(r) = digits(input) {
            assert!(input.ends_with(r.rest));
            assert!(r.rest.len() <= input.len());
        }
        if let Ok(r) = single_digit(input) {
            assert!(input.ends_with(r.rest));
        }
        if let Ok(r) = string("abc").parse(input) {
            assert_eq!(format!("abc{}", r.rest), input);
        }
        if let Ok(r) = character('A').parse(input) {
            assert_eq!(format!("A{}", r.rest), input);
        }
    }
}
