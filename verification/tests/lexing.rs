use simple_toml_parser::{parse_toml_with_options, RootTOMLValue, TOMLKey, TOMLKeyContext, TOMLParseOptions};

fn keys_text(keys: &[TOMLKey<'_>]) -> String {
    let mut out = String::new();
    let mut first = false;
    for key in keys {
        if first {
            out.push('.');
        }
        match key {
            TOMLKey::Slice(item) => out.push_str(&format!("{item:?}")),
            TOMLKey::Index(item) => out.push_str(&format!("{item:?}")),
        }
        first = true;
    }
    out
}

fn line(keys: &[TOMLKey<'_>], context: &TOMLKeyContext, value: RootTOMLValue<'_>) -> String {
    let mut out = String::new();
    let (table_keys, specifier_keys, object_keys) = context.split_keys(keys);
    if !table_keys.is_empty() {
        out.push('[');
        out.push_str(&keys_text(table_keys));
        out.push_str("] ");
    }
    if !specifier_keys.is_empty() {
        out.push_str(&keys_text(specifier_keys));
    }
    let mut iter = object_keys.iter();
    while let Some(chunk) = iter.next() {
        out.push_str(" {");
        out.push_str(&keys_text(chunk));
        out.push('}');
    }
    out.push_str(" => ");
    match value {
        RootTOMLValue::String(s) => {
            if s.is_literal() {
                let escaped = s.raw().replace('\t', "\\t").replace('\n', "\\n").replace('\r', "\\r");
                out.push_str(&format!("String('{escaped}')"));
            } else {
                out.push_str(&format!("String({:?})", s.value()));
            }
        }
        RootTOMLValue::Number(n) => out.push_str(&format!("Number({})", n.raw())),
        RootTOMLValue::Boolean(b) => out.push_str(&format!("Boolean({b})")),
        RootTOMLValue::Comment(c) => out.push_str(&format!("Comment({c:?})")),
        RootTOMLValue::EmptyArray => out.push_str("EmptyArray"),
        RootTOMLValue::EmptyInlineTable => out.push_str("EmptyInlineTable"),
    }
    out
}

fn lines(source: &str, yield_comments: bool) -> Vec<String> {
    let mut out = Vec::new();
    let result = parse_toml_with_options(source, TOMLParseOptions { yield_comments }, |keys, context, value| {
        out.push(line(keys, context, value));
        false
    });
    if let Err(error) = result {
        out.push(format!("Error: {error:?}"));
    }
    out
}

#[test]
fn title() {
    assert_eq!(lines("title = \"TOML Example\"\n", false), vec![r#""title" => String("TOML Example")"#]);
}

#[test]
fn table() {
    assert_eq!(
        lines("[owner]\nname = \"Tom Preston-Werner\"\n", false),
        vec![r#"["owner"] "name" => String("Tom Preston-Werner")"#]
    );
}

#[test]
fn booleans() {
    assert_eq!(lines("a = false\nb = true\n", false), vec![r#""a" => Boolean(false)"#, r#""b" => Boolean(true)"#]);
}

#[test]
fn arrays() {
    let src = "enabled = true\nports = [8000, 8001, 8002]\ndata = [[\"delta\", \"phi\"], [3.14]]\n";
    assert_eq!(
        lines(src, false),
        vec![
            r#""enabled" => Boolean(true)"#,
            r#""ports" {0} => Number(8000)"#,
            r#""ports" {1} => Number(8001)"#,
            r#""ports" {2} => Number(8002)"#,
            r#""data" {0} {0} => String("delta")"#,
            r#""data" {0} {1} => String("phi")"#,
            r#""data" {1} {0} => Number(3.14)"#,
        ]
    );
}

#[test]
fn inline_tables() {
    assert_eq!(
        lines("temp_targets = { cpu = 79.5, case = 72.0 }\n", false),
        vec![r#""temp_targets" {"cpu"} => Number(79.5)"#, r#""temp_targets" {"case"} => Number(72.0)"#]
    );
}

#[test]
fn dotted_table_keys() {
    assert_eq!(
        lines("[servers.alpha]\nip = \"10.0.0.1\"\nrole = \"frontend\"\n", false),
        vec![
            r#"["servers"."alpha"] "ip" => String("10.0.0.1")"#,
            r#"["servers"."alpha"] "role" => String("frontend")"#,
        ]
    );
}

#[test]
fn empty_keys() {
    let src = "= \"no key name\"  # INVALID\n\"\" = \"blank\"     # VALID but discouraged\n'' = 'blank'     # VALID but discouraged\n";
    assert_eq!(lines(src, false), vec!["Error: TOMLParseError { at: 0, reason: ExpectedKey }"]);
}

#[test]
fn dotted_specifier_keys() {
    let src = "name = \"Orange\"\nphysical.color = \"orange\"\nphysical.shape = \"round\"\nsite.\"google.com\" = true\n";
    assert_eq!(
        lines(src, false),
        vec![
            r#""name" => String("Orange")"#,
            r#""physical"."color" => String("orange")"#,
            r#""physical"."shape" => String("round")"#,
            r#""site"."google.com" => Boolean(true)"#,
        ]
    );
}

#[test]
fn whitespace_in_keys() {
    let src = "fruit.name = \"banana\"     # this is best practice\nfruit. color = \"yellow\"    # same as fruit.color\nfruit . flavor = \"banana\"   # same as fruit.flavor\n";
    assert_eq!(
        lines(src, false),
        vec![
            r#""fruit"."name" => String("banana")"#,
            r#""fruit"."color" => String("yellow")"#,
            r#""fruit"."flavor" => String("banana")"#,
        ]
    );
}

#[test]
fn string_escapes() {
    let src = "str = \"I'm a string. \\\"You can quote me\\\". Name\\tJos\\u00E9\\nLocation\\tSF.\"\n";
    assert_eq!(
        lines(src, false),
        vec![r#""str" => String("I'm a string. \"You can quote me\". Name\tJosé\nLocation\tSF.")"#]
    );
}

#[test]
fn multiline_strings() {
    let src = "str = \"\"\"\nRoses are red\nViolets are blue\"\"\"\n";
    assert_eq!(lines(src, false), vec![r#""str" => String("Roses are red\nViolets are blue")"#]);
}

#[test]
fn multiline_strings_with_new_lines() {
    let src = "str1 = \"The quick brown fox jumps over the lazy dog.\"\n\nstr2 = \"\"\"\nThe quick brown \\\n\n\n\tfox jumps over \\\n\t\tthe lazy dog.\"\"\"\n\nstr3 = \"\"\"\\\n\tThe quick brown \\\n\t\tfox jumps over \\\n\t\t\tthe lazy dog.\\\n\t\t\"\"\"\n";
    assert_eq!(
        lines(src, false),
        vec![
            r#""str1" => String("The quick brown fox jumps over the lazy dog.")"#,
            r#""str2" => String("The quick brown fox jumps over the lazy dog.")"#,
            r#""str3" => String("The quick brown fox jumps over the lazy dog.")"#,
        ]
    );
}

#[test]
fn quotation_marks() {
    let src = "str4 = \"\"\"Here are two quotation marks: \"\". Simple enough.\"\"\"\n# str5 = \"\"\"Here are three quotation marks: \"\"\".\"\"\"  # INVALID\nstr5 = \"\"\"Here are three quotation marks: \"\"\\\".\"\"\"\nstr6 = \"\"\"Here are fifteen quotation marks: \"\"\\\"\"\"\\\"\"\"\\\"\"\"\\\"\"\"\\\".\"\"\"\n\n# \"This,\" she said, \"is just a pointless statement.\"\nstr7 = \"\"\"\"This,\" she said, \"is just a pointless statement.\"\"\"\"\n";
    assert_eq!(
        lines(src, false),
        vec![
            r#""str4" => String("Here are two quotation marks: \"\". Simple enough.")"#,
            r#""str5" => String("Here are three quotation marks: \"\"\".")"#,
            r#""str6" => String("Here are fifteen quotation marks: \"\"\"\"\"\"\"\"\"\"\"\"\"\"\".")"#,
            r#""str7" => String("\"This,\" she said, \"is just a pointless statement.\"")"#,
        ]
    );
}

#[test]
fn literal_strings() {
    let src = "winpath  = 'C:\\Users\\nodejs\\templates'\nwinpath2 = '\\\\ServerX\\admin$\\system32\\'\nquoted   = 'Tom \"Dubs\" Preston-Werner'\nregex    = '<\\i\\c*\\s*>'\n";
    assert_eq!(
        lines(src, false),
        vec![
            r#""winpath" => String('C:\Users\nodejs\templates')"#,
            r#""winpath2" => String('\\ServerX\admin$\system32\')"#,
            r#""quoted" => String('Tom "Dubs" Preston-Werner')"#,
            r#""regex" => String('<\i\c*\s*>')"#,
        ]
    );
}

#[test]
fn literal_multiline_strings() {
    let src = "str1 = '''I [dw]on't need \\d{2} apples'''\nstr2 = '''\nThe first newline is\ntrimmed in raw strings.\n All other whitespace\n\t is preserved.\n'''\n";
    assert_eq!(
        lines(src, false),
        vec![
            r#""str1" => String('I [dw]on't need \d{2} apples')"#,
            r#""str2" => String('The first newline is\ntrimmed in raw strings.\n All other whitespace\n\t is preserved.\n')"#,
        ]
    );
}

#[test]
fn nested_tables() {
    assert_eq!(
        lines("[dog.\"tater.man\"]\ntype.name = \"pug\"\n", false),
        vec![r#"["dog"."tater.man"] "type"."name" => String("pug")"#]
    );
}

#[test]
fn basic_comment() {
    assert_eq!(lines("# this is a comment\n", true), vec![r#" => Comment("this is a comment")"#]);
}

#[test]
fn comments_on_the_same_line() {
    let src = "x = 2 # this is a comment\n\narray = [\n\t3 # comment after\n]\n";
    assert_eq!(
        lines(src, true),
        vec![
            r#""x" => Number(2)"#,
            r#""x" => Comment("this is a comment")"#,
            r#""array" {0} => Number(3)"#,
            r#""array" {0} => Comment("comment after")"#,
        ]
    );
}

#[test]
fn arrays_of_tables() {
    assert_eq!(
        lines("[[a]]\nx = 1\n[[a]]\nx = 2\n", false),
        vec![r#"["a".0] "x" => Number(1)"#, r#"["a".1] "x" => Number(2)"#]
    );
}
