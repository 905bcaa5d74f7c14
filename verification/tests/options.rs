use simple_toml_parser::formatting::{
    format_toml, is_alphanumeric_string, try_format_toml, FormatOptions, KeyIndentation, ValueIndentation,
};
use simple_toml_parser::{parse_toml_with_options, RootTOMLValue, TOMLParseOptions};

fn format_with(source: &str, options: &FormatOptions) -> String {
    format_toml(source, options).expect("valid document")
}

#[test]
fn default_options() {
    let options = FormatOptions::default();
    assert!(matches!(options.indentation, KeyIndentation::Unaligned));
    assert!(!options.prefix_indent_keys);
    assert_eq!(options.value_indentation.as_ref(), "\t");
    assert!(!options.use_crlf);
    assert_eq!(ValueIndentation::default().as_ref(), "\t");
    assert_eq!(ValueIndentation::from("  ").as_ref(), "  ");
}

#[test]
fn align_whole_document() {
    let options = FormatOptions { indentation: KeyIndentation::WholeDocument, ..FormatOptions::default() };
    assert_eq!(format_with("a = 1\nlong = 2\n", &options), "a    = 1\nlong = 2\n");
}

#[test]
fn align_each_section() {
    let options = FormatOptions { indentation: KeyIndentation::Section, ..FormatOptions::default() };
    assert_eq!(
        format_with("[x]\na = 1\nbb = 2\n[y]\nccc = 3\n", &options),
        "[x]\na  = 1\nbb = 2\n\n[y]\nccc = 3\n"
    );
}

#[test]
fn align_counts_bytes_of_dotted_keys() {
    let options = FormatOptions { indentation: KeyIndentation::WholeDocument, ..FormatOptions::default() };
    assert_eq!(format_with("a.b = 1\n\u{e9} = 2\n", &options), "a.b = 1\n\u{e9}  = 2\n");
}

#[test]
fn align_wider_than_padding_is_not_handled() {
    let options = FormatOptions { indentation: KeyIndentation::WholeDocument, ..FormatOptions::default() };
    let source = "abcdefghijklmnopqrstu = 1\n";
    assert!(try_format_toml(source, &options).is_none());
    assert!(try_format_toml(source, &FormatOptions::default()).is_some());
}

#[test]
fn prefix_indent_keys() {
    let options = FormatOptions { prefix_indent_keys: true, ..FormatOptions::default() };
    assert_eq!(format_with("[x]\na = 1\n", &options), "[x]\n\ta = 1\n");
}

#[test]
fn crlf_line_breaks() {
    let options = FormatOptions { use_crlf: true, ..FormatOptions::default() };
    assert_eq!(format_with("a = 1\nb = 2\n", &options), "a = 1\r\nb = 2\r\n");
}

#[test]
fn custom_value_indentation() {
    let options = FormatOptions { value_indentation: ValueIndentation::from("  "), ..FormatOptions::default() };
    assert_eq!(format_with("a = [1, 2, 3]\n", &options), "a = [\n  1,\n  2,\n  3\n]\n");
}

#[test]
fn short_arrays_stay_on_one_line() {
    assert_eq!(format_with("a = [1,2]\n", &FormatOptions::default()), "a = [1, 2]\n");
}

#[test]
fn quoted_keys() {
    assert_eq!(format_with("[x.\"a b\"]\nk = 1\n", &FormatOptions::default()), "[x.'a b']\nk = 1\n");
    assert!(is_alphanumeric_string("\u{e9}1-_"));
    assert!(!is_alphanumeric_string("a b"));
    assert!(is_alphanumeric_string(""));
}

#[test]
fn empty_values() {
    assert_eq!(format_with("a = []\nb = {}\n", &FormatOptions::default()), "a = []\nb = {}\n");
}

#[test]
fn booleans_and_literal_strings() {
    assert_eq!(
        format_with("a=true\nb=false\nc='x\\y'\n", &FormatOptions::default()),
        "a = true\nb = false\nc = 'x\\y'\n"
    );
}

#[test]
fn escapes_are_decoded_when_written() {
    assert_eq!(format_with("a = \"\\u0041!\"\n", &FormatOptions::default()), "a = \"A!\"\n");
}

#[test]
fn format_ends_with_newline() {
    assert_eq!(format_with("a = 1", &FormatOptions::default()), "a = 1\n");
    assert_eq!(format_with("", &FormatOptions::default()), "\n");
}

#[test]
fn formatting_is_stable_on_its_output() {
    let sources = [
        "key1=\"hi\"\n\nkey2 =  \"value\"\n",
        "[table1]\n\nkey1 = 1\n[table2]\nkey2 = 2\n",
        "a = [[1, 2, 3], [4, 5,6]]\n",
        "array_inline_table = [{a = 1}, { b = 2, c = 3, d = 4 }]\n",
        "[table]\nkey1 = \"hi\" # comment here\n\n# comment about key2\nkey2 = \"test\"\n",
        "[[a]]\nx = 1\n[[a]]\nx = 2\n",
    ];
    for source in sources {
        let once = format_with(source, &FormatOptions::default());
        let twice = format_with(&once, &FormatOptions::default());
        assert_eq!(once, twice);
    }
}

#[test]
fn keys_agree_with_context() {
    let source = "[t]\na.b = [1, { c = [2, 3] }]\nd = { e = { f = 4 } }\n";
    let mut seen = 0;
    let result = parse_toml_with_options(source, TOMLParseOptions { yield_comments: true }, |keys, context, _| {
        let counted = context.table_keys as usize + context.specifier_keys as usize + context.value_keys.len();
        assert_eq!(counted, keys.len());
        assert!(context.value_keys.iter().all(|size| *size == 1));
        seen += 1;
        false
    });
    assert!(result.is_ok());
    assert_eq!(seen, 4);
}

#[test]
fn comments_only_when_asked() {
    let source = "# top\na = [1, # inner\n2]\n";
    let mut comments = 0;
    let result = parse_toml_with_options(source, TOMLParseOptions { yield_comments: false }, |_, _, value| {
        if let RootTOMLValue::Comment(_) = value {
            comments += 1;
        }
        false
    });
    assert!(result.is_ok());
    assert_eq!(comments, 0);

    let mut comments = 0;
    let result = parse_toml_with_options(source, TOMLParseOptions { yield_comments: true }, |_, _, value| {
        if let RootTOMLValue::Comment(_) = value {
            comments += 1;
        }
        false
    });
    assert!(result.is_ok());
    assert_eq!(comments, 2);
}

#[test]
fn formatted_text_keeps_values_in_order() {
    let source = "a = [1, 'x',\n  \"y\\u0041!\"]\nb = { c = true, d = [] }\n[t]\ne = -2.5 # note\n";
    let formatted = format_with(source, &FormatOptions::default());
    let mut from = 0;
    for piece in ["1", "'x'", "\"yA!\"", "true", "[]", "-2.5"] {
        let at = formatted[from..].find(piece).expect("value text in the output") + from;
        from = at + piece.len();
    }
}
