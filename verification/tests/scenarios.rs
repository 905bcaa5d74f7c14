use simple_toml_parser::utilities::{get_comment_kind, CommentPosition};
use simple_toml_parser::{
    parse_toml, parse_toml_with_options, value, RootTOMLValue, TOMLKey, TOMLParseError, TOMLParseErrorReason,
    TOMLParseOptions,
};

/// One value handed to a callback: its keys, whether it sits in an array or
/// inline table, and the value as text.
#[derive(Debug, Clone, PartialEq)]
struct Seen {
    keys: Vec<String>,
    in_value: bool,
    value: String,
}

fn key_names(keys: &[TOMLKey<'_>]) -> Vec<String> {
    keys.iter()
        .map(|key| match key {
            TOMLKey::Slice(s) => s.to_string(),
            TOMLKey::Index(i) => format!("#{i}"),
        })
        .collect()
}

fn value_text(value: &RootTOMLValue<'_>) -> String {
    match value {
        RootTOMLValue::String(s) if s.is_literal() => format!("Literal({})", s.raw()),
        RootTOMLValue::String(s) => format!("String({})", s.raw()),
        RootTOMLValue::Number(n) => format!("Number({})", n.raw()),
        RootTOMLValue::Boolean(b) => format!("Boolean({b})"),
        RootTOMLValue::Comment(c) => format!("Comment({c})"),
        RootTOMLValue::EmptyArray => "EmptyArray".to_string(),
        RootTOMLValue::EmptyInlineTable => "EmptyInlineTable".to_string(),
    }
}

fn seen(keys: &[&str], in_value: bool, value: &str) -> Seen {
    Seen { keys: keys.iter().map(|k| k.to_string()).collect(), in_value, value: value.to_string() }
}

fn document(source: &str, yield_comments: bool) -> (Result<(), TOMLParseError>, Vec<Seen>) {
    let mut out = Vec::new();
    let result = parse_toml_with_options(source, TOMLParseOptions { yield_comments }, |keys, context, value| {
        out.push(Seen { keys: key_names(keys), in_value: context.in_value, value: value_text(&value) });
        false
    });
    (result, out)
}

fn single_value(source: &str) -> (Result<Option<usize>, TOMLParseError>, Vec<Seen>) {
    let mut out = Vec::new();
    let result = value::parse_toml_with_options(source, TOMLParseOptions::default(), |keys, context, value| {
        out.push(Seen { keys: key_names(keys), in_value: context.in_value, value: value_text(&value) });
        false
    });
    (result, out)
}

fn plain(source: &str) -> (Result<(), TOMLParseError>, Vec<(Vec<String>, String)>) {
    let mut out = Vec::new();
    let result = parse_toml(source, |keys, value| out.push((key_names(keys), value_text(&value))));
    (result, out)
}

fn pair(keys: &[&str], value: &str) -> (Vec<String>, String) {
    (keys.iter().map(|k| k.to_string()).collect(), value.to_string())
}

#[test]
fn empty_multiline_basic_string() {
    assert_eq!(single_value("\"\"\"\"\"\""), (Ok(None), vec![seen(&[], false, "String()")]));
    assert_eq!(document("a = \"\"\"\"\"\"\n", false), (Ok(()), vec![seen(&["a"], false, "String()")]));
    assert_eq!(document("a = ''''''\n", false), (Ok(()), vec![seen(&["a"], false, "Literal()")]));
}

#[test]
fn multiline_string_with_non_ascii_text() {
    assert_eq!(document("a = \"\"\"\u{e9}t\u{e9}\"\"\"\n", false), (Ok(()), vec![seen(&["a"], false, "String(\u{e9}t\u{e9})")]));
}

#[test]
fn true_answer_stops_on_every_value() {
    let sources = [
        "a = []\nb = 1\n",
        "a = {}\nb = 1\n",
        "a = [ # c\n 1 ]\nb = 2\n",
        "a = [[1], 2]\nb = { c = {}, d = [] }\n",
        "# top\na = { x = 1 } # after\n",
    ];
    for source in sources {
        let (_, all) = document(source, true);
        for k in 1..=all.len() {
            let mut calls = 0;
            let result = parse_toml_with_options(source, TOMLParseOptions { yield_comments: true }, |_, _, _| {
                calls += 1;
                calls == k
            });
            assert_eq!(result, Ok(()), "{source:?}, stop at {k}");
            assert_eq!(calls, k, "{source:?}, stop at {k}");
        }
    }
}

#[test]
fn value_parse_stops_at_the_empty_value() {
    let mut calls = 0;
    let result = value::parse_toml_with_options("[[], 1]", TOMLParseOptions::default(), |_, _, _| {
        calls += 1;
        true
    });
    assert_eq!(calls, 1);
    assert_eq!(result, Ok(Some(3)));
    let mut calls = 0;
    let result = value::parse_toml_with_options("{}", TOMLParseOptions::default(), |_, _, _| {
        calls += 1;
        true
    });
    assert_eq!(calls, 1);
    assert_eq!(result, Ok(Some(2)));
}

#[test]
fn in_value_ends_with_the_inline_table() {
    assert_eq!(
        document("a = {}\nb = 1\n", false),
        (Ok(()), vec![seen(&["a"], true, "EmptyInlineTable"), seen(&["b"], false, "Number(1)")])
    );
    assert_eq!(
        document("a = { c = {} }\nb = 1\n", false),
        (Ok(()), vec![seen(&["a", "c"], true, "EmptyInlineTable"), seen(&["b"], false, "Number(1)")])
    );
    assert_eq!(
        document("a = [1]\nb = 2\n", false),
        (Ok(()), vec![seen(&["a", "#0"], true, "Number(1)"), seen(&["b"], false, "Number(2)")])
    );
}

#[test]
fn every_key_of_an_inline_table_is_in_value() {
    assert_eq!(
        document("t = { a = 1, b = { c = 2 }, d = {}, e = 3 }\nf = 4\n", false),
        (
            Ok(()),
            vec![
                seen(&["t", "a"], true, "Number(1)"),
                seen(&["t", "b", "c"], true, "Number(2)"),
                seen(&["t", "d"], true, "EmptyInlineTable"),
                seen(&["t", "e"], true, "Number(3)"),
                seen(&["f"], false, "Number(4)"),
            ]
        )
    );
}

#[test]
fn dotted_keys_in_inline_tables() {
    assert_eq!(
        single_value("{ type.name = \"pug\", age = 78 }"),
        (Ok(None), vec![seen(&["type", "name"], true, "String(pug)"), seen(&["age"], true, "Number(78)")])
    );
    assert_eq!(
        document("dog = { type.name = \"pug\", age = 78 }\n", false),
        (
            Ok(()),
            vec![seen(&["dog", "type", "name"], true, "String(pug)"), seen(&["dog", "age"], true, "Number(78)")]
        )
    );
}

#[test]
fn backslash_escape_decodes_to_one_backslash() {
    let mut decoded = Vec::new();
    let result = parse_toml_with_options("a = \"a\\\\b\"\nb = \"\\b\\f\\\\\\\\\"\n", TOMLParseOptions::default(), |_, _, value| {
        if let RootTOMLValue::String(s) = value {
            decoded.push(s.value());
        }
        false
    });
    assert_eq!(result, Ok(()));
    assert_eq!(decoded, vec!["a\\b".to_string(), "\u{8}\u{c}\\\\".to_string()]);
}

#[test]
fn first_line_comment_before_a_blank_line_is_standalone() {
    assert_eq!(get_comment_kind("# header\n\nkey = 1\n", 2), CommentPosition::Standalone);
    assert_eq!(get_comment_kind("  # header\n\nkey = 1\n", 4), CommentPosition::Standalone);
    assert_eq!(get_comment_kind("# header\nkey = 1\n", 2), CommentPosition::AnnotatingNext);
}

#[test]
fn bare_key_without_equal_is_an_error() {
    assert_eq!(
        document("abc\n", false),
        (Err(TOMLParseError { at: 4, reason: TOMLParseErrorReason::ExpectedEqual }), vec![])
    );
    assert_eq!(
        document("abc", false),
        (Err(TOMLParseError { at: 3, reason: TOMLParseErrorReason::ExpectedEqual }), vec![])
    );
}

#[test]
fn parse_toml_hands_out_each_value() {
    assert_eq!(plain("title = \"TOML Example\"\n"), (Ok(()), vec![pair(&["title"], "String(TOML Example)")]));
    assert_eq!(
        plain("a = false\nb = true\n"),
        (Ok(()), vec![pair(&["a"], "Boolean(false)"), pair(&["b"], "Boolean(true)")])
    );
    assert_eq!(
        plain("name = \"Orange\"\nphysical.color = \"orange\"\nphysical.shape = \"round\"\nsite.\"google.com\" = true\n"),
        (
            Ok(()),
            vec![
                pair(&["name"], "String(Orange)"),
                pair(&["physical", "color"], "String(orange)"),
                pair(&["physical", "shape"], "String(round)"),
                pair(&["site", "google.com"], "Boolean(true)"),
            ]
        )
    );
    assert_eq!(
        plain("fruit.name = \"banana\"     # this is best practice\nfruit. color = \"yellow\"    # same as fruit.color\nfruit . flavor = \"banana\"   # same as fruit.flavor\n"),
        (
            Ok(()),
            vec![
                pair(&["fruit", "name"], "String(banana)"),
                pair(&["fruit", "color"], "String(yellow)"),
                pair(&["fruit", "flavor"], "String(banana)"),
            ]
        )
    );
}

#[test]
fn parse_toml_empty_key_calls_nothing() {
    let source = "= \"no key name\"  # INVALID\n\"\" = \"blank\"     # VALID but discouraged\n'' = 'blank'     # VALID but discouraged\n";
    assert_eq!(plain(source), (Err(TOMLParseError { at: 0, reason: TOMLParseErrorReason::ExpectedKey }), vec![]));
}

#[test]
fn string_without_backslash_decodes_to_its_raw_text() {
    let mut pairs = Vec::new();
    let result = parse_toml_with_options("a = \"plain text\"\nb = \"\"\"two\nlines\"\"\"\n", TOMLParseOptions::default(), |_, _, value| {
        if let RootTOMLValue::String(s) = value {
            pairs.push((s.raw().to_string(), s.value()));
        }
        false
    });
    assert_eq!(result, Ok(()));
    assert_eq!(
        pairs,
        vec![("plain text".to_string(), "plain text".to_string()), ("two\nlines".to_string(), "two\nlines".to_string())]
    );
}

#[test]
fn comments_are_only_added() {
    let source = "# top\na = [ # inside\n 1, 2 ] # after\n[t] # header\nb = { c = 3 }\n# end";
    let (with_result, with_comments) = document(source, true);
    let (without_result, without) = document(source, false);
    assert_eq!(with_result, without_result);
    assert!(with_comments.iter().any(|s| s.value.starts_with("Comment(")));
    let filtered: Vec<Seen> = with_comments.into_iter().filter(|s| !s.value.starts_with("Comment(")).collect();
    assert_eq!(filtered, without);
}

#[test]
fn errors_lie_within_the_input() {
    for source in ["abc", "[t", "=1", "a = 1\n\u{e9}\u{e9}", "[a.\"b]"] {
        let (result, _) = document(source, true);
        let error = result.expect_err(source);
        assert!(error.at <= source.len(), "{source:?}: {error:?}");
    }
    for source in ["\"x", "[1, ", "tru", "//* c", "{", "{ \u{e9}", "[1 2]"] {
        let (result, _) = single_value(source);
        let error = result.expect_err(source);
        assert!(error.at <= source.len(), "{source:?}: {error:?}");
    }
}

#[test]
fn multiline_string_stop_offset_is_after_the_first_closing_quote() {
    let result = value::parse_toml_with_options("\"\"\"ab\"\"\" x", TOMLParseOptions::default(), |_, _, _| true);
    assert_eq!(result, Ok(Some(6)));
    let result = value::parse_toml_with_options("'''\u{e9}''' x", TOMLParseOptions::default(), |_, _, _| true);
    assert_eq!(result, Ok(Some(6)));
    let result = value::parse_toml_with_options("\"ab\" x", TOMLParseOptions::default(), |_, _, _| true);
    assert_eq!(result, Ok(Some(4)));
}

#[test]
fn stopping_at_a_value_hands_out_the_values_before_it() {
    let source = "a = [1, [2], {}]\n[t]\nb = { c = 'x', d = [] } # note\ne = \"\"\"y\"\"\"\n";
    let (full_result, full) = document(source, true);
    assert_eq!(full_result, Ok(()));
    for k in 1..=full.len() + 2 {
        let mut out = Vec::new();
        let result = parse_toml_with_options(source, TOMLParseOptions { yield_comments: true }, |keys, context, value| {
            out.push(Seen { keys: key_names(keys), in_value: context.in_value, value: value_text(&value) });
            out.len() == k
        });
        assert_eq!(result, Ok(()));
        assert_eq!(out, full[..k.min(full.len())].to_vec(), "stop at {k}");
    }
}

#[test]
fn whitespace_at_line_start_matches_std() {
    for u in 0u32..0x3100 {
        let Some(c) = char::from_u32(u) else { continue };
        if c.is_alphabetic() || c == '[' || c == '#' {
            continue;
        }
        let source = format!("{c}a = 1\n");
        let (result, _) = document(&source, false);
        assert_eq!(result.is_ok(), c.is_whitespace(), "U+{u:04X}");
    }
}
