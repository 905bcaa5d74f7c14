use simple_toml_parser::utilities::{get_comment_kind, CommentPosition, KeyChain, Partition};
use simple_toml_parser::{parse_toml_with_options, RootTOMLValue, TOMLKey, TOMLKeyContext, TOMLParseOptions};

fn first_string(source: &str) -> (String, String, bool) {
    let mut found: Option<(String, String, bool)> = None;
    let result = parse_toml_with_options(source, TOMLParseOptions { yield_comments: false }, |_, _, value| {
        if let RootTOMLValue::String(s) = value {
            found = Some((s.raw().to_owned(), s.value(), s.is_literal()));
            return true;
        }
        false
    });
    assert!(result.is_ok());
    found.expect("a string value")
}

#[test]
fn key_chain_levels() {
    let mut chain = KeyChain::new();
    assert!(chain.keys.is_empty());
    chain.push_table_key(TOMLKey::Slice("t"));
    chain.push_specifier_key(TOMLKey::Slice("a"));
    chain.push_value_key(TOMLKey::Index(0));
    assert_eq!(chain.keys, vec![TOMLKey::Slice("t"), TOMLKey::Slice("a"), TOMLKey::Index(0)]);
    assert_eq!(chain.context.table_keys, 1);
    assert_eq!(chain.context.specifier_keys, 1);
    assert_eq!(chain.context.value_keys, vec![1]);
    assert!(chain.in_value());

    chain.pop_whole_slice_key();
    assert_eq!(chain.keys, vec![TOMLKey::Slice("t"), TOMLKey::Slice("a")]);
    assert!(!chain.in_value());

    // Popping at the specifier level drops every specifier key.
    chain.push_specifier_key(TOMLKey::Slice("b"));
    chain.pop_whole_slice_key();
    assert_eq!(chain.keys, vec![TOMLKey::Slice("t")]);
    assert_eq!(chain.context.specifier_keys, 0);

    chain.clear();
    assert!(chain.keys.is_empty());
    assert_eq!(chain.context.table_keys, 0);
}

#[test]
fn pop_undoes_value_push() {
    let mut chain = KeyChain::new();
    chain.push_specifier_key(TOMLKey::Slice("a"));
    chain.push_value_key(TOMLKey::Index(3));
    let keys = chain.keys.clone();
    let context = chain.context.clone();

    chain.push_value_key(TOMLKey::Index(0));
    chain.pop_whole_slice_key();
    assert_eq!(chain.keys, keys);
    assert_eq!(chain.context, context);

    chain.push_value_key(TOMLKey::Slice("x"));
    chain.pop_whole_slice_key();
    assert_eq!(chain.keys, keys);
    assert_eq!(chain.context, context);
}

#[test]
fn split_keys_parts() {
    let keys = [TOMLKey::Slice("t"), TOMLKey::Slice("a"), TOMLKey::Slice("b"), TOMLKey::Index(2), TOMLKey::Slice("c")];
    let context = TOMLKeyContext { table_keys: 1, specifier_keys: 2, value_keys: vec![1, 1], in_value: true, comment_after_value: false };
    let (table, specifier, value) = context.split_keys(&keys);
    assert_eq!(table, &keys[..1]);
    assert_eq!(specifier, &keys[1..3]);
    assert_eq!(value.raw(), &keys[3..]);
    let mut iter = value.iter();
    assert_eq!(iter.next(), Some(&keys[3..4]));
    assert_eq!(iter.next(), Some(&keys[4..5]));
    assert_eq!(iter.next(), None);
}

#[test]
fn partition_chunks() {
    let items = [1, 2, 3, 4];
    let points = [1u8, 3];
    let partition = Partition::new(&items, &points);
    assert_eq!(partition.raw(), &items);
    let mut iter = partition.iter();
    // The n-th chunk takes the n-th size.
    assert_eq!(iter.next(), Some(&items[0..1]));
    assert_eq!(iter.next(), Some(&items[1..4]));
    assert_eq!(iter.next(), None);
}

#[test]
fn partition_chunks_by_index() {
    let items = [1, 2, 3];
    let points = [2u8, 1];
    let partition = Partition::new(&items, &points);
    let mut iter = partition.iter();
    assert_eq!(iter.next(), Some(&items[0..2]));
    assert_eq!(iter.next(), Some(&items[2..3]));
    assert_eq!(iter.next(), None);
}

#[test]
fn matches_names() {
    assert!(simple_toml_parser::utilities::matches(&["a", "b"], &[TOMLKey::Slice("a"), TOMLKey::Slice("b")]));
    assert!(!simple_toml_parser::utilities::matches(&["a", "b"], &[TOMLKey::Slice("a"), TOMLKey::Slice("c")]));
    assert!(!simple_toml_parser::utilities::matches(&["a"], &[TOMLKey::Slice("a"), TOMLKey::Slice("b")]));
    assert!(!simple_toml_parser::utilities::matches(&["0"], &[TOMLKey::Index(0)]));
    assert!(simple_toml_parser::utilities::matches(&[], &[]));
}

#[test]
fn same_variant_keys() {
    assert!(TOMLKey::Slice("a").same_variant(&TOMLKey::Slice("b")));
    assert!(TOMLKey::Index(1).same_variant(&TOMLKey::Index(1)));
    assert!(!TOMLKey::Index(1).same_variant(&TOMLKey::Index(2)));
    assert!(!TOMLKey::Slice("a").same_variant(&TOMLKey::Index(0)));
}

#[test]
fn comment_kind_at_end() {
    let source = "x = 1\na = 1 # c\n";
    assert_eq!(get_comment_kind(source, 14), CommentPosition::AtEnd);
    // A comment alone on the first line, before a blank line, stands alone.
    assert_eq!(get_comment_kind("# c\n\na = 1\n", 2), CommentPosition::Standalone);
}

#[test]
fn comment_kind_annotating_next() {
    let source = "x = 1\n# c\na = 1\n";
    assert_eq!(get_comment_kind(source, 8), CommentPosition::AnnotatingNext);
    assert_eq!(get_comment_kind("x = 1\n# c", 8), CommentPosition::AnnotatingNext);
}

#[test]
fn comment_kind_standalone() {
    let source = "x = 1\n# c\n\na = 1\n";
    assert_eq!(get_comment_kind(source, 8), CommentPosition::Standalone);
}

#[test]
fn string_value_escapes() {
    let (raw, value, literal) = first_string("a = \"x\\ny\\tz\\r!\"\n");
    assert_eq!(raw, "x\\ny\\tz\\r!");
    assert_eq!(value, "x\ny\tz\r!");
    assert!(!literal);

    let (_, value, _) = first_string("a = \"say \\\"hi\\\"\"\n");
    assert_eq!(value, "say \"hi\"");

    let (_, value, _) = first_string("a = \"\\u0041\\u00e9!\"\n");
    assert_eq!(value, "A\u{e9}!");
}

#[test]
fn string_value_unicode_not_a_scalar() {
    // A surrogate is no char: the escape stays as written.
    let (_, value, _) = first_string("a = \"\\uD800!\"\n");
    assert_eq!(value, "\\uD800!");
}

#[test]
fn literal_string_value() {
    let (raw, value, literal) = first_string("a = 'x\\ny'\n");
    assert_eq!(raw, "x\\ny");
    assert_eq!(value, "x\\ny");
    assert!(literal);
}

#[test]
fn number_raw() {
    let mut found = String::new();
    let result = parse_toml_with_options("a = -12.5e3\n", TOMLParseOptions::default(), |_, _, value| {
        if let RootTOMLValue::Number(n) = value {
            found = n.raw().to_owned();
        }
        false
    });
    assert!(result.is_ok());
    assert_eq!(found, "-12.5e3");
}

#[test]
fn debug_texts() {
    let mut texts = Vec::new();
    let source = "a = 'x\\y'\nb = \"tab\\there\"\nc = 8000\n";
    let result = parse_toml_with_options(source, TOMLParseOptions::default(), |_, _, value| {
        match value {
            RootTOMLValue::String(s) => texts.push(s.debug_text()),
            RootTOMLValue::Number(n) => texts.push(n.debug_text()),
            _ => {}
        }
        false
    });
    assert!(result.is_ok());
    assert_eq!(texts, vec!["'x\\y'".to_owned(), "\"tab\\\\there\"".to_owned(), "8000".to_owned()]);
}

#[test]
fn string_value_undecoded_escape_copies_text_again() {
    // An escape that is not decoded leaves the copying where it was, so the
    // text since the last decoded escape is copied once more.
    let (_, value, _) = first_string("a = \"a\\qb\"\n");
    assert_eq!(value, "aa\\qb");
    let (_, value, _) = first_string("a = \"x\\n y\\q\"\n");
    assert_eq!(value, "x\n y y\\q");
    let (_, value, _) = first_string("a = \"x\\u12\"\n");
    assert_eq!(value, "xx\\u12");
}
