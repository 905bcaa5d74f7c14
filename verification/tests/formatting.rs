use simple_toml_parser::formatting::{format_toml, try_format_toml, FormatOptions, KeyIndentation, ValueIndentation};

fn format(source: &str) -> String {
    format_toml(source, &FormatOptions::default()).expect("valid document")
}

#[test]
fn format_keys() {
    assert_eq!(format("key1=\"hi\"\n\nkey2 =  \"value\"\n"), "key1 = \"hi\"\nkey2 = \"value\"\n");
}

#[test]
fn format_tables() {
    assert_eq!(
        format("[table1]\n\nkey1 = 1\n[table2]\nkey2 = 2\n"),
        "[table1]\nkey1 = 1\n\n[table2]\nkey2 = 2\n"
    );
}

#[test]
fn comments_retained() {
    let source = "[table]\nkey1 = \"hi\" # comment here\n\n# comment about key2\nkey2 = \"test\"\n\n# general comment\n\nkey3 = \"hi\"\n";
    assert_eq!(format(source), source);
}

#[test]
fn formatting_array_literals() {
    assert_eq!(format("a = [1, 2,\n3]\n"), "a = [\n\t1,\n\t2,\n\t3\n]\n");
}

#[test]
fn formatting_nested_array_literals() {
    assert_eq!(
        format("a = [[1, 2, 3], [4, 5,6]]\n"),
        "a = [\n\t[\n\t\t1,\n\t\t2,\n\t\t3\n\t],\n\t[\n\t\t4,\n\t\t5,\n\t\t6\n\t]\n]\n"
    );
}

#[test]
fn formatting_inline_table_literals() {
    let source = "it1 = { name = \"value\", \nversion = \"0.5.1\" }\nit2 = { name = \"x\", nested = {\n\ndata = \"12323\" }, version=\"1.6.2\" }\n";
    assert_eq!(
        format(source),
        "it1 = { name = \"value\", version = \"0.5.1\" }\nit2 = { name = \"x\", nested = { data = \"12323\" }, version = \"1.6.2\" }\n"
    );
}

#[test]
fn inline_table_of_arrays() {
    let source = "inline_table_array = { a = [1], b = [2, 3, 4], c = [5] }\n";
    assert_eq!(format(source), source);
}

#[test]
fn array_of_inline_tables() {
    assert_eq!(
        format("array_inline_table = [{a = 1}, { b = 2, c = 3, d = 4 }]\n"),
        "array_inline_table = [\n\t{ a = 1 },\n\t{ b = 2, c = 3, d = 4 }\n]\n"
    );
}

#[test]
fn deeply_nested_array() {
    assert_eq!(
        format("aaaaa = [[[[[1]]]]]\n"),
        "aaaaa = [\n\t[\n\t\t[\n\t\t\t[\n\t\t\t\t[1]\n\t\t\t]\n\t\t]\n\t]\n]\n"
    );
}

#[test]
fn deeply_nested_inline_table() {
    let source = "itititit = { a = { b = { c = { d = { e = 1 } } } } }\n";
    assert_eq!(format(source), source);
}

#[test]
fn comments_in_array() {
    assert_eq!(format("array = [1 # hi\n]\n"), "array = [\n\t1 # hi\n]\n");
}

#[test]
fn comments_in_inline_tables() {
    assert_eq!(format("it = { a = 1 # hi\n}\n"), "it = { a = 1 }\n");
}

#[test]
fn comments_after_table() {
    let source = "[table] # table things\na = 1\n";
    assert_eq!(format(source), source);
}

#[test]
fn discern_between_before_and_after() {
    let source = "array = [1 \n] \n\n# hi\n\na = [\n\t\"b\",\n\t# \"c\"\n]\n";
    assert_eq!(format(source), "array = [1]\n\n# hi\n\na = [\n\t\"b\"\n\t# \"c\"\n]\n");
}

#[test]
fn format_arrays_of_tables() {
    assert_eq!(format("[[a]]\nx = 1\n[[a]]\ny = 2\n"), "[[a]]\nx = 1\n\n[[a]]\ny = 2\n");
}

#[test]
fn format_same_key_after_new_header() {
    // Under a new table header the specifier is written again, even where it
    // is the same as the last value's.
    assert_eq!(format("[[a]]\nx = 1\n[[a]]\nx = 2\n"), "[[a]]\nx = 1\n\n[[a]]\nx = 2\n");
    assert_eq!(format("[t]\nx = 1\n[u]\nx = 2\n"), "[t]\nx = 1\n\n[u]\nx = 2\n");
    assert_eq!(format("[[a]]\nx = [1]\n[[a]]\nx = [2]\n"), "[[a]]\nx = [1]\n\n[[a]]\nx = [2]\n");
}

#[test]
fn leading_comments_keep_their_place() {
    assert_eq!(format("# header\n\nkey = 1\n"), "# header\n\nkey = 1\n");
    assert_eq!(format("# about key\nkey = 1\n"), "# about key\nkey = 1\n");
}
