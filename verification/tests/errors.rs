use simple_toml_parser::formatting::{format_toml, try_format_toml, FormatOptions};
use simple_toml_parser::{parse_toml, parse_toml_with_options, try_parse_toml_with_options, value, TOMLParseError, TOMLParseErrorReason, TOMLParseOptions};

fn parse_error(source: &str) -> TOMLParseError {
    parse_toml_with_options(source, TOMLParseOptions::default(), |_, _, _| false).expect_err("invalid document")
}

fn value_error(source: &str) -> TOMLParseError {
    value::parse_toml_with_options(source, TOMLParseOptions::default(), |_, _, _| false).expect_err("invalid value")
}

fn error(at: usize, reason: TOMLParseErrorReason) -> TOMLParseError {
    TOMLParseError { at, reason }
}

#[test]
fn error_expected_key_at_line_start() {
    assert_eq!(parse_error("=1\n"), error(0, TOMLParseErrorReason::ExpectedKey));
    assert_eq!(parse_error("a = 1\n=2\n"), error(6, TOMLParseErrorReason::ExpectedKey));
}

#[test]
fn error_invalid_key() {
    assert_eq!(parse_error("[]\n"), error(1, TOMLParseErrorReason::InvalidKey));
}

#[test]
fn error_offsets_are_bytes() {
    // "é" takes two bytes.
    assert_eq!(parse_error("# \u{e9}\n=1\n"), error(5, TOMLParseErrorReason::ExpectedKey));
}

#[test]
fn value_errors_inside_a_document_are_skipped() {
    let mut seen = Vec::new();
    let result = parse_toml_with_options("a = ?\nb = 2\n", TOMLParseOptions::default(), |keys, _, _| {
        seen.push(keys.to_vec());
        false
    });
    assert_eq!(result, Ok(()));
    assert_eq!(seen.len(), 1);
}

#[test]
fn error_expected_key_in_inline_table() {
    assert_eq!(value_error("{ 1 }"), error(2, TOMLParseErrorReason::ExpectedKey));
}

#[test]
fn error_expected_value() {
    assert_eq!(value_error("?"), error(0, TOMLParseErrorReason::ExpectedValue));
}

#[test]
fn error_expected_equal() {
    assert_eq!(value_error("{ b c }"), error(4, TOMLParseErrorReason::ExpectedEqual));
    assert_eq!(value_error("{ b "), error(4, TOMLParseErrorReason::ExpectedEqual));
}

#[test]
fn error_expected_boolean() {
    assert_eq!(value_error("tru3"), error(3, TOMLParseErrorReason::ExpectedBoolean));
    assert_eq!(value_error("tr"), error(2, TOMLParseErrorReason::ExpectedBoolean));
}

#[test]
fn error_expected_quote() {
    assert_eq!(value_error("\"abc"), error(4, TOMLParseErrorReason::ExpectedQuote));
}

#[test]
fn error_expected_end_of_multiline_comment() {
    assert_eq!(value_error("//* x"), error(5, TOMLParseErrorReason::ExpectedEndOfMultilineComment));
}

#[test]
fn error_expected_bracket() {
    assert_eq!(value_error("[1, "), error(4, TOMLParseErrorReason::ExpectedBracket));
    assert_eq!(value_error("{"), error(1, TOMLParseErrorReason::ExpectedBracket));
}

#[test]
fn error_expected_end_of_value() {
    assert_eq!(value_error("[1 2]"), error(3, TOMLParseErrorReason::ExpectedEndOfValue));
}

#[test]
fn unicode_whitespace_and_letters() {
    assert!(parse_toml_with_options("\u{2003}a = 1\n", TOMLParseOptions::default(), |_, _, _| false).is_ok());
    assert!(parse_toml_with_options("\u{e9} = 1\n", TOMLParseOptions::default(), |_, _, _| false).is_ok());
    assert_eq!(parse_error("\u{b7}a = 1\n"), error(0, TOMLParseErrorReason::ExpectedKey));
}

#[test]
fn format_error_is_parse_error() {
    for source in ["=1\n", "= 1\n", "[]\n", "a = 1\n=2\n", "abc"] {
        let parsed = parse_toml_with_options(source, TOMLParseOptions { yield_comments: true }, |_, _, _| false);
        let formatted = format_toml(source, &FormatOptions::default());
        assert_eq!(formatted, Err(parsed.expect_err("invalid document")));
    }
}

#[test]
fn parse_toml_visits_every_value() {
    let mut seen = 0;
    let result = parse_toml("a = 1\nb = [2, 3]\n# c\n", |_, _| seen += 1);
    assert!(result.is_ok());
    assert_eq!(seen, 3);
    assert_eq!(parse_toml("=1\n", |_, _| {}), Err(error(0, TOMLParseErrorReason::ExpectedKey)));
}

#[test]
fn value_parse_stops_where_asked() {
    let result = value::parse_toml_with_options("1, 2", TOMLParseOptions::default(), |_, _, _| true);
    assert_eq!(result, Ok(Some(1)));
    let result = value::parse_toml_with_options("\"ab\" ", TOMLParseOptions::default(), |_, _, _| true);
    assert_eq!(result, Ok(Some(4)));
    let mut seen = 0;
    let result = value::parse_toml_with_options("[1, 2]", TOMLParseOptions::default(), |_, _, _| {
        seen += 1;
        false
    });
    assert_eq!(result, Ok(None));
    assert_eq!(seen, 2);
}

#[test]
fn error_message() {
    assert_eq!(error(12, TOMLParseErrorReason::ExpectedKey).message(), "TOMLParseError: ExpectedKey at 12");
    assert_eq!(error(0, TOMLParseErrorReason::InvalidKey).message(), "TOMLParseError: InvalidKey at 0");
    assert_eq!(
        error(1234567, TOMLParseErrorReason::ExpectedEndOfMultilineComment).message(),
        "TOMLParseError: ExpectedEndOfMultilineComment at 1234567"
    );
}

#[test]
fn unhandled_constructs_are_reported() {
    assert_eq!(try_parse_toml_with_options("[[a]\n", TOMLParseOptions::default(), |_, _, _| false), None);
    assert_eq!(
        try_parse_toml_with_options("abc", TOMLParseOptions::default(), |_, _, _| false),
        Some(Err(error(3, TOMLParseErrorReason::ExpectedEqual)))
    );
    assert_eq!(try_parse_toml_with_options("a = 1\n", TOMLParseOptions::default(), |_, _, _| false), Some(Ok(())));
    assert_eq!(
        try_parse_toml_with_options("=1\n", TOMLParseOptions::default(), |_, _, _| false),
        Some(Err(error(0, TOMLParseErrorReason::ExpectedKey)))
    );
    assert_eq!(value::try_parse_toml_with_options("]", TOMLParseOptions::default(), |_, _, _| false), None);
    assert_eq!(value::try_parse_toml_with_options("1, 2", TOMLParseOptions::default(), |_, _, _| true), Some(Ok(Some(1))));
    assert!(try_format_toml("[[a]\n", &FormatOptions::default()).is_none());
    assert_eq!(
        try_format_toml("abc", &FormatOptions::default()),
        Some(Err(error(3, TOMLParseErrorReason::ExpectedEqual)))
    );
}

#[test]
fn format_error_example() {
    assert_eq!(format_toml("= 1\n", &FormatOptions::default()), Err(error(0, TOMLParseErrorReason::ExpectedKey)));
}
