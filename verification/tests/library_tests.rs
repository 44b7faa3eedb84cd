use jsonviewer::json::{
    escape_python_string, escape_string, quote_and_escape_string, unescape_stringified_json,
    JSONFormatOptions, JSONParseError, JSONParser, JSONProperty, JSONValue,
};
use jsonviewer::model::{
    filter_properties, flatten, parent_button_label, property_limit_note, truncate_chars,
    type_color_by_name, AppTab, DocumentModel, Node, PathSet, PropertyRow, TreeFill, FILL_CHUNK,
};
use jsonviewer::python::{parse_python_literal, ParseError};
use jsonviewer::settings::{Settings, SettingsForm};
use jsonviewer::util::{expand_header_text, utf16_count, value_dialog_texts, wide};

fn parse(text: &str) -> JSONValue {
    JSONParser::parse(text).unwrap()
}

fn parse_err(text: &str) -> JSONParseError {
    JSONParser::parse(text).unwrap_err()
}

fn loaded(text: &str) -> DocumentModel {
    let s = Settings::default();
    let mut m = DocumentModel::new(&s);
    m.raw_text = text.to_string();
    assert!(m.parse_and_build_tree(true, &s));
    m
}

// ---------------------------------------------------------------------
// Escaping and printing

#[test]
fn escape_string_escapes_quotes_slashes_and_controls() {
    assert_eq!(escape_string("a\"b/\u{1}", true), "\"a\\\"b\\/\\u0001\"");
    assert_eq!(escape_string("x/y\t", false), "\"x/y\\t\"");
    assert_eq!(quote_and_escape_string("\\\n\r\u{8}\u{c}", false), "\"\\\\\\n\\r\\b\\f\"");
}

#[test]
fn python_strings_use_single_quotes() {
    assert_eq!(escape_python_string("it's\n"), "'it\\'s\\n'");
    assert_eq!(escape_python_string("\u{1}\\"), "'\\x01\\\\'");
}

#[test]
fn format_with_tabs_and_four_spaces() {
    let v = parse("{\"a\":[1,2]}");
    assert_eq!(v.format(-1, false, false), "{\n\t\"a\": [\n\t\t1,\n\t\t2\n\t]\n}");
    let w = parse("[true,null]");
    assert_eq!(w.format(4, false, false), "[\n    true,\n    null\n]");
    assert_eq!(parse("[]").format(2, false, false), "[]");
    assert_eq!(parse("{}").format(2, false, false), "{}");
}

#[test]
fn format_with_options_sorts_keys() {
    let v = parse("{\"b\":{\"d\":1,\"c\":2},\"a\":\"/\"}");
    let o = JSONFormatOptions::new(2, true, true);
    assert_eq!(
        v.format_with_options(&o),
        "{\n  \"a\": \"\\/\",\n  \"b\": {\n    \"c\": 2,\n    \"d\": 1\n  }\n}"
    );
    let d = JSONFormatOptions::default();
    assert_eq!(d.indent_spaces, 2);
    assert!(!d.sort_keys);
}

#[test]
fn python_object_rendering() {
    let v = parse("{\"a\": [true, null, \"x\"], \"b\": false}");
    assert_eq!(
        v.to_python_object(2),
        "{\n  'a': [\n    True,\n    None,\n    'x'\n  ],\n  'b': False\n}"
    );
}

#[test]
fn stringify_quotes_the_compact_form() {
    let v = parse("{\"a\": \"/\"}");
    assert_eq!(v.stringify(false), "\"{\\\"a\\\":\\\"/\\\"}\"");
    assert_eq!(v.stringify(true), "\"{\\\"a\\\":\\\"\\/\\\"}\"");
}

#[test]
fn value_helpers() {
    let v = parse("{\"a\": [1, 2], \"b\": \"s\"}");
    assert_eq!(v.kind_name(), "object");
    assert!(v.is_container());
    assert_eq!(v.child_count(), 2);
    assert_eq!(v.summary(), "Object {2}");
    assert_eq!(parse("[1,2,3]").summary(), "Array [3]");
    assert_eq!(parse("\"q\"").summary(), "\"q\"");
    assert_eq!(parse("12.50").summary(), "12.50");
    assert_eq!(parse("null").kind_name(), "null");
    assert!(!parse("true").is_container());
    let p = JSONProperty::new("k".to_string(), JSONValue::Null);
    assert_eq!(p.key, "k");
    let c = v.clone();
    assert_eq!(c.minify(false), v.minify(false));
}

// ---------------------------------------------------------------------
// Parsing JSON

#[test]
fn parser_accepts_comments_identifiers_and_trailing_commas() {
    let v = parse("// c\n{a: 1, 'b': [2, /* x */ 3,],}");
    assert_eq!(v.minify(false), "{\"a\":1,\"b\":[2,3]}");
}

#[test]
fn parser_keeps_raw_numbers_and_decodes_escapes() {
    let v = parse("[1.50, -0e+5, \"\\u00e9\\n\", \"\\ud800\"]");
    assert_eq!(v.minify(false), "[1.50,-0e+5,\"é\\n\",\"?\"]");
}

#[test]
fn parser_error_messages_and_positions() {
    let e = parse_err("");
    assert_eq!((e.message.as_str(), e.line, e.column), ("Empty JSON input", 1, 1));
    let e = parse_err("[1,");
    assert_eq!((e.message.as_str(), e.line, e.column), ("Unterminated array: missing ']'", 1, 1));
    let e = parse_err("{\"a\" 1}");
    assert_eq!((e.message.as_str(), e.line, e.column), ("Expected ':' after key 'a'", 1, 6));
    let e = parse_err("[1 2]");
    assert_eq!((e.message.as_str(), e.line, e.column), ("Expected ',' or ']' in array", 1, 4));
    let e = parse_err("{\"a\":1 \"b\":2}");
    assert_eq!((e.message.as_str(), e.line, e.column), ("Expected ',' or '}' in object", 1, 8));
    let e = parse_err("{1:2}");
    assert_eq!((e.message.as_str(), e.line, e.column), ("Expected string key in object", 1, 2));
    let e = parse_err("{\"a\":1");
    assert_eq!((e.message.as_str(), e.line, e.column), ("Expected ',' or '}' in object", 1, 7));
    let e = parse_err("{\"a\":1,");
    assert_eq!((e.message.as_str(), e.line, e.column), ("Unclosed object, expected key or '}'", 1, 1));
    let e = parse_err("\"abc");
    assert_eq!((e.message.as_str(), e.line, e.column), ("Unterminated string", 1, 1));
    let e = parse_err("\"a\nb\"");
    assert_eq!((e.message.as_str(), e.line, e.column), ("Unescaped newline in string literal", 1, 3));
    let e = parse_err("[1]\n x");
    assert_eq!(
        (e.message.as_str(), e.line, e.column),
        ("Unexpected character after valid JSON: 'x'", 2, 2)
    );
    let e = parse_err("@");
    assert_eq!(
        (e.message.as_str(), e.line, e.column),
        ("Unexpected character '@' when expecting value", 1, 1)
    );
    let e = parse_err("[");
    assert_eq!((e.message.as_str(), e.line, e.column), ("Unterminated array: missing ']'", 1, 1));
    let e = parse_err("tru");
    assert_eq!((e.message.as_str(), e.line, e.column), ("Invalid boolean literal", 1, 1));
    let e = parse_err("nul");
    assert_eq!((e.message.as_str(), e.line, e.column), ("Invalid null literal", 1, 1));
    let e = parse_err("-");
    assert_eq!((e.message.as_str(), e.line, e.column), ("Invalid number", 1, 1));
    let e = parse_err("1e");
    assert_eq!((e.message.as_str(), e.line, e.column), ("Failed to parse number '1e'", 1, 1));
    let e = parse_err("\"\\u12\"");
    assert_eq!((e.message.as_str(), e.line, e.column), ("Invalid unicode escape in string", 1, 1));
    // An escape error is reported where its string starts, on its own line.
    let e = parse_err("[\n\"\\uZZZZ\"]");
    assert_eq!((e.message.as_str(), e.line, e.column), ("Invalid unicode escape in string", 2, 1));
    let e = parse_err("{\"a\":\n  \"x\\");
    assert_eq!((e.message.as_str(), e.line, e.column), ("Unterminated string", 2, 3));
    let e = parse_err("\"é\" x");
    assert_eq!(e.column, 6);
    let e = parse_err("[1] é");
    assert_eq!(e.message, "Unexpected character after valid JSON: 'Ã'");
    assert_eq!(JSONParseError::new("m".to_string(), 2, 3).describe(), "m at line 2, column 3");
}

// ---------------------------------------------------------------------
// Round trips

#[test]
fn minified_text_parses_back() {
    let text = "{\"k\": [1, 2.5e3, {\"n\": null}], \"s\": \"a\\\"b\\\\c/\\u0001é\", \"t\": true}";
    let v = parse(text);
    let again = parse(&v.minify(true));
    assert_eq!(again.minify(false), v.minify(false));
}

#[test]
fn pretty_text_parses_back() {
    let v = parse("{\"k\": [1, [], {}], \"s\": \"x\\ty\"}");
    for indent in [-1, 0, 2, 4] {
        let again = parse(&v.format(indent, false, true));
        assert_eq!(again.minify(false), v.minify(false));
    }
}

#[test]
fn stringified_text_unescapes_to_pretty_json() {
    let v = parse("{\"a\": [1, \"x/y\"]}");
    assert_eq!(unescape_stringified_json(&v.stringify(true)), v.format(2, false, false));
}

#[test]
fn unescape_handles_plain_text_and_unicode() {
    assert_eq!(unescape_stringified_json("  'hello\\nworld'  "), "hello\nworld");
    assert_eq!(unescape_stringified_json("\\u00e9\\uZZ"), "é\\uZ");
    assert_eq!(unescape_stringified_json(""), "");
    assert_eq!(unescape_stringified_json("\"{\\\"a\\\":1}\""), "{\n  \"a\": 1\n}");
}

// ---------------------------------------------------------------------
// Python literals

#[test]
fn python_literal_forms() {
    let v = parse_python_literal("data = {'k': (1_000, -2.5e3), \"q\": '''a'b''', 'r': r'x', n: nan, m: none}").unwrap();
    assert_eq!(
        v.minify(false),
        "{\"k\":[1000,-2.5e3],\"q\":\"a'b\",\"r\":\"x\",\"n\":null,\"m\":null}"
    );
    let w = parse_python_literal("# note\n[abc, False, 'caf\\u00e9', '\\uZZZZ', 'a\\tb']").unwrap();
    assert_eq!(w.minify(false), "[\"abc\",false,\"café\",\"\\\\uZZZZ\",\"a\\tb\"]");
    let u = parse_python_literal("{ключ: 1}").unwrap();
    assert_eq!(u.minify(false), "{\"ключ\":1}");
    let t = parse_python_literal("[1, 2] trailing").unwrap();
    assert_eq!(t.minify(false), "[1,2]");
}

#[test]
fn python_literal_errors() {
    assert_eq!(parse_python_literal("   ").unwrap_err(), ParseError::UnexpectedEOF);
    assert_eq!(parse_python_literal("[1, 2").unwrap_err(), ParseError::UnmatchedBracket(']', 5));
    assert_eq!(parse_python_literal("{1: 2}").unwrap_err(), ParseError::InvalidKey(1));
    assert_eq!(parse_python_literal("{'a' 1}").unwrap_err(), ParseError::ExpectedColon(5));
    assert_eq!(parse_python_literal("[1 2]").unwrap_err(), ParseError::UnexpectedCharacter('2', 3));
    assert_eq!(parse_python_literal("[1.2.x]").unwrap_err(), ParseError::UnexpectedCharacter('x', 5));
    assert_eq!(parse_python_literal("'abc").unwrap_err(), ParseError::UnexpectedEOF);
    assert_eq!(
        ParseError::UnexpectedCharacter('2', 3).describe(),
        "Unexpected character '2' at character offset 3."
    );
    assert_eq!(ParseError::InvalidKey(1).describe(), "Expected dictionary key string or identifier at offset 1.");
    assert_eq!(ParseError::ExpectedColon(5).describe(), "Expected ':' after dictionary key at offset 5.");
    assert_eq!(ParseError::UnmatchedBracket(']', 5).describe(), "Unmatched bracket ']' at offset 5.");
    assert_eq!(ParseError::UnexpectedEOF.describe(), "Unexpected end of input while parsing Python literal.");
}

#[test]
fn python_rendering_reads_back() {
    let v = parse("{\"a\": [1, -2.5, \"it's\"], \"b\": {\"c\": null, \"d\": true}}");
    let back = parse_python_literal(&v.to_python_object(4)).unwrap();
    assert_eq!(back.minify(false), v.minify(false));
}

// ---------------------------------------------------------------------
// Settings and small helpers

#[test]
fn settings_defaults_clamping_and_labels() {
    let mut s = Settings::default();
    assert_eq!(s.indent_spaces, 2);
    assert_eq!(s.default_tab, "Text");
    assert_eq!(s.font_size, 13);
    assert_eq!(s.indent_label(), "2 Spaces (Default)");
    s.indent_spaces = 3;
    s.default_tab = "Foo".to_string();
    s.font_size = 30;
    let c = s.clamped();
    assert_eq!((c.indent_spaces, c.default_tab.as_str(), c.font_size), (2, "Text", 24));
    s.indent_spaces = -1;
    s.default_tab = "Split".to_string();
    s.font_size = 3;
    let c = s.clamped();
    assert_eq!((c.indent_spaces, c.default_tab.as_str(), c.font_size), (-1, "Split", 9));
    assert_eq!(c.indent_label(), "Tabs");
    s.indent_spaces = 4;
    assert_eq!(s.indent_label(), "4 Spaces");
    s.reset_to_defaults();
    assert_eq!(s.indent_spaces, 2);
    assert!(s.escape_slashes_in_stringify);
}

#[test]
fn truncation_and_tabs() {
    assert_eq!(truncate_chars("héllo", 2), "hé…");
    assert_eq!(truncate_chars("abc", 3), "abc");
    assert_eq!(truncate_chars("", 0), "");
    assert_eq!(AppTab::from_settings("Viewer"), AppTab::Viewer);
    assert_eq!(AppTab::from_settings("Split"), AppTab::Split);
    assert_eq!(AppTab::from_settings("viewer"), AppTab::Text);
}

#[test]
fn utf16_helpers() {
    assert_eq!(wide("a😀"), vec![0x61, 0xD83D, 0xDE00, 0]);
    assert_eq!(wide(""), vec![0]);
    assert_eq!(expand_header_text("key", "a😀"), ("key • 3 chars".to_string(), 3));
    let long_key = "k".repeat(45);
    let (h, n) = expand_header_text(&long_key, "");
    assert_eq!(h, format!("{}… • 0 chars", "k".repeat(40)));
    assert_eq!(n, 0);
}

#[test]
fn path_set_operations() {
    let mut p = PathSet::new();
    assert!(!p.contains("$"));
    p.insert("$".to_string());
    p.insert("$.a".to_string());
    p.insert("$".to_string());
    assert!(p.contains("$") && p.contains("$.a"));
    p.remove("$");
    assert!(!p.contains("$") && p.contains("$.a"));
    p.clear();
    assert!(!p.contains("$.a"));
}

// ---------------------------------------------------------------------
// Nodes

#[test]
fn tree_nodes_paths_and_texts() {
    let v = parse("{\"a\": [1, \"x\"], \"b\": {\"c\": null}, \"t\": true}");
    let root = Node::build_tree(&v, "JSON");
    assert_eq!(root.id(), "$");
    assert_eq!(root.tree_label(), "JSON {3}");
    let a = &root.children[0];
    assert_eq!(a.path, "$.a");
    assert_eq!(a.children[1].path, "$.a[1]");
    assert_eq!(a.children[1].key, "1");
    assert_eq!(a.display_text(), "a [2]");
    assert_eq!(a.value_string(), "[2 items]");
    assert_eq!(a.type_badge(), "[2]");
    assert_eq!(a.children[1].display_text(), "1 : \"x\"");
    assert_eq!(a.children[1].tree_label(), "1 : \"x\"");
    assert_eq!(a.children[1].type_badge(), "str");
    assert!(a.children[1].is_leaf());
    assert!(a.is_container());
    let b = &root.children[1];
    assert_eq!(b.value_string(), "{1 properties}");
    assert_eq!(b.children[0].display_text(), "c : null");
    assert_eq!(b.formatted_value_string(), "{\n  \"c\": null\n}");
    assert_eq!(root.children[2].display_text(), "t : true");
    assert_eq!(root.children[2].type_badge(), "bool");
    let copy = root.clone();
    assert_eq!(copy.children[0].children[1].path, "$.a[1]");
}

#[test]
fn short_values_cut_long_and_multiline_strings() {
    let long = "a".repeat(200);
    let v = parse(&format!("{{\"s\": \"{}\", \"m\": \"ab\\r\\ncd\", \"l\": \"{}\"}}", long, "b".repeat(46)));
    let root = Node::build_tree(&v, "JSON");
    assert_eq!(root.children[0].value_string_short(), format!("\"{}…\" (200 chars)", "a".repeat(80)));
    assert_eq!(root.children[1].value_string_short(), "\"ab\"… (6 chars)");
    assert!(root.children[1].is_long_text());
    assert!(root.children[2].is_long_text());
    assert!(!root.children[0].children.iter().any(|c| c.is_long_text()));
    let label = root.children[0].tree_label();
    assert_eq!(label.chars().count(), 161);
    assert!(label.ends_with('…'));
}

#[test]
fn flatten_lists_every_node_in_pre_order() {
    let v = parse("{\"a\": [1], \"b\": 2}");
    let root = Node::build_tree(&v, "JSON");
    let rows = flatten(&root);
    let paths: Vec<&str> = rows.iter().map(|r| r.path.as_str()).collect();
    assert_eq!(paths, vec!["$", "$.a", "$.a[0]", "$.b"]);
    assert_eq!(rows[2].depth, 2);
    assert_eq!(rows[1].label, "a [1]");
    assert!(rows[1].is_container && !rows[3].is_container);
}

// ---------------------------------------------------------------------
// The document

#[test]
fn metrics_count_utf16_units_and_lines() {
    let mut m = loaded("[1]");
    m.raw_text = "a😀\nb".to_string();
    m.mark_edited();
    assert!(m.is_dirty);
    assert_eq!((m.character_count, m.line_count), (5, 2));
    assert_eq!(m.metrics_text(), "2 lines, 5 characters");
    m.raw_text.clear();
    m.update_metrics();
    assert_eq!((m.character_count, m.line_count), (0, 1));
}

#[test]
fn status_text_reports_errors() {
    let s = Settings::default();
    let mut m = loaded("[1]");
    assert_eq!(m.status_text(), "Valid JSON");
    m.raw_text = "[1, @]".to_string();
    assert!(!m.parse_and_build_tree(false, &s));
    assert_eq!(
        m.status_text(),
        "Error: Unexpected character '@' when expecting value (Line 1, Col 5)"
    );
    assert_eq!(
        m.error_message,
        "JSON error: Invalid JSON variable\n\nUnexpected character '@' when expecting value at line 1, col 5"
    );
    m.clear();
    assert_eq!(m.status_text(), "Ready");
    assert!(m.root.is_none() && m.visible_tree_rows.is_empty());
    m.raw_text = "   ".to_string();
    assert!(!m.parse_and_build_tree(false, &s));
    assert_eq!(m.error_message, "JSON error: Please enter JSON code in the Text tab first.");
}

#[test]
fn reading_python_and_stringified_text() {
    let s = Settings::default();
    let mut m = loaded("{'a': True}");
    assert_eq!(m.raw_text, "{\n  \"a\": true\n}");
    m.raw_text = "\"{\\\"k\\\": [1]}\"".to_string();
    assert!(m.parse_and_build_tree(true, &s));
    assert_eq!(m.json_value.as_ref().unwrap().minify(false), "{\"k\":[1]}");
    m.raw_text = "\"[2]\"".to_string();
    assert!(m.parse_and_build_tree(true, &s));
    assert_eq!(m.json_value.as_ref().unwrap().minify(false), "[2]");
}

#[test]
fn transformations() {
    let s = Settings::default();
    let mut m = loaded("{\"a\": [1, 2], \"u\": \"x/y\"}");
    assert!(m.minify(&s).is_ok());
    assert_eq!(m.raw_text, "{\"a\":[1,2],\"u\":\"x\\/y\"}");
    m.stringify(&s);
    assert_eq!(m.raw_text, "\"{\\\"a\\\":[1,2],\\\"u\\\":\\\"x\\/y\\\"}\"");
    m.unescape(&s);
    assert_eq!(m.raw_text, "{\n  \"a\": [\n    1,\n    2\n  ],\n  \"u\": \"x/y\"\n}");
    assert!(m.json_to_python(&s).is_ok());
    assert_eq!(m.raw_text, "{\n  'a': [\n    1,\n    2\n  ],\n  'u': 'x/y'\n}");
    assert!(m.python_to_json(&s).is_ok());
    assert_eq!(m.raw_text, "{\n  \"a\": [\n    1,\n    2\n  ],\n  \"u\": \"x/y\"\n}");
    m.raw_text = "@".to_string();
    assert_eq!(
        m.minify(&s).unwrap_err(),
        "Invalid JSON (Unexpected character '@' when expecting value at line 1, col 1)"
    );
    assert!(m.beautify(&s).is_ok());
    assert_eq!(m.raw_text, "\"\"");
    m.raw_text = "{".to_string();
    assert_eq!(
        m.beautify(&s).unwrap_err(),
        "Invalid JSON or Python Object (Unclosed object, expected key or '}' at line 1, col 1)"
    );
    m.raw_text = "{1: 2}".to_string();
    assert_eq!(
        m.python_to_json(&s).unwrap_err(),
        "Invalid Python dictionary syntax (Expected dictionary key string or identifier at offset 1.)"
    );
    m.raw_text = "plain".to_string();
    m.stringify(&s);
    assert_eq!(m.raw_text, "\"plain\"");
    m.raw_text = "  ".to_string();
    assert!(m.beautify(&s).is_ok());
    assert_eq!(m.raw_text, "  ");
}

#[test]
fn beautify_unwraps_strings_holding_json() {
    let s = Settings::default();
    let mut m = loaded("\"{'a': 1}\"");
    assert!(m.beautify(&s).is_ok());
    assert_eq!(m.raw_text, "{\n  \"a\": 1\n}");
}

#[test]
fn copies_in_every_format() {
    let s = Settings::default();
    let m = loaded("{\"b\": \"/\", \"a\": 1}");
    assert_eq!(m.copy_text(), "{\"b\": \"/\", \"a\": 1}");
    assert_eq!(m.copy_beautified(&s), "{\n  \"b\": \"/\",\n  \"a\": 1\n}");
    assert_eq!(m.copy_minified(), "{\"b\":\"/\",\"a\":1}");
    assert_eq!(m.copy_stringified(&s), "\"{\\\"b\\\":\\\"\\/\\\",\\\"a\\\":1}\"");
    assert_eq!(m.copy_python(&s), "{\n  'b': '/',\n  'a': 1\n}");
    let mut e = loaded("[1]");
    e.clear();
    e.raw_text = "{".to_string();
    assert_eq!(e.copy_beautified(&s), "{");
    assert_eq!(e.copy_stringified(&s), "\"{\"");
}

#[test]
fn pasting_converts_python_and_formats_long_lines() {
    let s = Settings::default();
    let mut m = loaded("[1]");
    assert_eq!(m.paste("{'a': None}", &s), "converted-python");
    assert_eq!(m.raw_text, "{\n  \"a\": null\n}");
    assert_eq!(m.paste("[2]", &s), "pasted");
    assert_eq!(m.raw_text, "[2]");
    let long = format!("[\"{}\"]", "x".repeat(8001));
    assert_eq!(m.paste(&long, &s), "pasted");
    assert!(m.raw_text.starts_with("[\n  \""));
    m.load_text(long.clone(), &s);
    assert!(m.raw_text.starts_with("[\n  \""));
    m.load_text("[3]".to_string(), &s);
    assert_eq!(m.raw_text, "[3]");
}

#[test]
fn subtree_expansion_and_leaf_toggles() {
    let mut m = loaded("{\"a\": {\"b\": {\"c\": [1]}}, \"d\": 2}");
    m.expand_subtree("$.a");
    assert!(m.expanded_nodes.contains("$.a") && m.expanded_nodes.contains("$.a.b"));
    assert!(m.expanded_nodes.contains("$.a.b.c"));
    assert_eq!(m.visible_tree_rows.len(), 6);
    m.collapse_subtree("$.a.b");
    assert!(!m.expanded_nodes.contains("$.a.b") && !m.expanded_nodes.contains("$.a.b.c"));
    assert!(m.expanded_nodes.contains("$.a"));
    assert_eq!(m.visible_tree_rows.len(), 4);
    m.toggle_expand_leaf("$.d");
    assert!(m.visible_tree_rows.iter().any(|r| r.path == "$.d" && r.is_leaf_expanded));
    m.toggle_expand_leaf("$.d");
    assert!(!m.expanded_leaf_nodes.contains("$.d"));
    m.toggle_expand("$.a");
    m.toggle_expand("$.a");
    assert!(m.expanded_nodes.contains("$.a"));
}

#[test]
fn collapse_after_expand_takes_back_the_subtree() {
    let mut m = loaded("{\"a\": {\"b\": {\"c\": [1]}}, \"d\": [2]}");
    // Root expanded on load; expand "$.d" by hand so it lies outside the subtree.
    m.toggle_expand("$.d");
    assert!(m.expanded_nodes.contains("$") && m.expanded_nodes.contains("$.d"));
    m.expand_subtree("$.a");
    assert!(m.expanded_nodes.contains("$.a.b.c"));
    m.collapse_subtree("$.a");
    assert!(m.expanded_nodes.contains("$") && m.expanded_nodes.contains("$.d"));
    assert!(!m.expanded_nodes.contains("$.a"));
    assert!(!m.expanded_nodes.contains("$.a.b") && !m.expanded_nodes.contains("$.a.b.c"));
}

#[test]
fn search_ignores_case_beyond_ascii() {
    let s = Settings::default();
    let mut m = loaded("{\"Name\": \"ÉCOLE\", \"x\": \"École\", \"y\": 1}");
    m.search_query = "école".to_string();
    m.search_start(&s);
    assert_eq!(m.search_results, vec!["$.Name".to_string(), "$.x".to_string()]);
    m.search_query = "NAME".to_string();
    m.search_start(&s);
    assert_eq!(m.search_results, vec!["$.Name".to_string()]);
}

#[test]
fn unescape_after_stringify_gives_two_space_text() {
    let mut s = Settings::default();
    s.indent_spaces = 4;
    let mut m = loaded("{\"a\": [1, \"x/y\"], \"b\": {}}");
    m.stringify(&s);
    assert!(m.raw_text.starts_with('"'));
    m.unescape(&s);
    let v = parse("{\"a\": [1, \"x/y\"], \"b\": {}}");
    assert_eq!(m.raw_text, v.format(2, false, false));
    assert!(m.parse_error.is_none());
    assert_eq!(m.json_value.as_ref().unwrap().minify(false), v.minify(false));
}

#[test]
fn minified_parsed_text_has_no_line_break() {
    let v = parse("{\n  \"a\": \"line\\nbreak\\r\",\n  \"b\": [1.5e3, -2]\n}");
    let t = v.minify(false);
    assert!(!t.contains('\n') && !t.contains('\r'));
    assert_eq!(JSONParser::parse(&t).unwrap().minify(false), t);
    let f = v.format(4, true, false);
    assert_eq!(JSONParser::parse(&f).unwrap().format(4, true, false), f);
}

#[test]
fn tree_queries_and_navigation() {
    let mut m = loaded("{\"a\": {\"b\": [true]}}");
    let (anc, found) = m.find_with_ancestors("$.a.b[0]").unwrap();
    assert!(found);
    assert_eq!(anc, vec!["$".to_string(), "$.a".to_string(), "$.a.b".to_string()]);
    assert!(m.find_with_ancestors("$.zz").is_none());
    assert_eq!(m.find_node("$.a.b").unwrap().key, "b");
    m.selected_path = Some("$.a.b[0]".to_string());
    assert_eq!(m.parent_of_selected(), Some(("$.a.b".to_string(), "b".to_string())));
    let (parent, rows) = m.properties_for_selected();
    assert_eq!(parent, Some(("$.a.b".to_string(), "b".to_string())));
    assert_eq!(rows.len(), 1);
    assert_eq!((rows[0].name.as_str(), rows[0].value.as_str(), rows[0].typ.as_str()), ("0", "true", "boolean"));
    m.navigate_to_property("$.a.b[0]");
    assert!(m.expanded_nodes.contains("$.a.b"));
    assert_eq!(m.requested_scroll_path.as_deref(), Some("$.a.b[0]"));
    m.selected_path = Some("$".to_string());
    assert!(m.parent_of_selected().is_none());
    m.selected_path = Some("$.nothing".to_string());
    let (p, r) = m.properties_for_selected();
    assert!(p.is_none() && r.is_empty());
}

#[test]
fn search_is_case_insensitive_and_cycles() {
    let s = Settings::default();
    let mut m = loaded("{\"x\": \"ANN\", \"y\": \"Ärger\", \"z\": [\"ann\"]}");
    m.search_query = "  ann ".to_string();
    m.search_start(&s);
    assert_eq!(m.search_results, vec!["$.x".to_string(), "$.z[0]".to_string()]);
    assert_eq!(m.search_status, "1 of 2 matches");
    assert!(m.visible_tree_rows.iter().any(|r| r.path == "$.x" && r.is_match));
    m.search_next(&s);
    assert_eq!(m.search_status, "2 of 2 matches");
    m.search_next(&s);
    assert_eq!(m.current_search_index, 0);
    m.search_previous(&s);
    assert_eq!(m.current_search_index, 1);
    assert_eq!(m.selected_path.as_deref(), Some("$.z[0]"));
    m.search_query = "ÄRGER".to_string();
    m.search_start(&s);
    assert_eq!(m.search_results, vec!["$.y".to_string()]);
    m.search_query = "nothing-here".to_string();
    m.search_start(&s);
    assert_eq!(m.search_status, "Phrase not found!");
    m.clear_search();
    assert!(m.search_results.is_empty() && m.search_status.is_empty());
}

#[test]
fn search_reads_the_text_when_there_is_no_tree() {
    let s = Settings::default();
    let mut m = loaded("[1]");
    m.clear();
    m.raw_text = "{\"k\": \"v\"}".to_string();
    m.search_query = "v".to_string();
    m.search_start(&s);
    assert!(m.root.is_some());
    assert_eq!(m.search_results, vec!["$.k".to_string()]);
    m.clear();
    m.raw_text = "@".to_string();
    m.search_query = "v".to_string();
    m.search_start(&s);
    assert_eq!(m.search_status, "Phrase not found!");
}

#[test]
fn new_document_shows_the_sample() {
    let mut s = Settings::default();
    s.default_tab = "Viewer".to_string();
    let m = DocumentModel::new(&s);
    assert_eq!(m.active_tab, AppTab::Viewer);
    assert!(!m.is_dirty);
    assert_eq!(m.selected_path.as_deref(), Some("$"));
    assert!(m.raw_text.starts_with("{\n  \"title\": \"JSON Viewer macOS\""));
    assert_eq!(m.visible_tree_rows.len(), 10);
}

#[test]
fn zoom_steps_within_limits() {
    let mut s = Settings::default();
    s.zoom(1);
    assert_eq!(s.font_size, 14);
    s.font_size = 24;
    s.zoom(1);
    assert_eq!(s.font_size, 24);
    s.zoom(-1);
    assert_eq!(s.font_size, 23);
    s.font_size = 9;
    s.zoom(-1);
    assert_eq!(s.font_size, 9);
    s.zoom(0);
    assert_eq!(s.font_size, 12);
    assert_eq!(s.indent_spaces, 2);
}

#[test]
fn long_text_panel_follows_selection() {
    let long = "x".repeat(50);
    let mut m = loaded(&format!("{{\"a\": \"{}\", \"b\": \"short\", \"c\": \"two\\nlines\"}}", long));
    m.active_tab = AppTab::Viewer;
    m.selected_path = Some("$.a".to_string());
    assert_eq!(m.selected_long_text(), Some(("a".to_string(), long.clone())));
    let here = Some("$.a".to_string());
    assert!(m.expand_should_show(true, &here));
    assert!(!m.expand_should_show(false, &here));
    assert!(!m.expand_should_show(true, &Some("$.c".to_string())));
    assert!(!m.expand_should_show(true, &None));
    m.selected_path = Some("$.b".to_string());
    assert_eq!(m.selected_long_text(), None);
    m.selected_path = Some("$.c".to_string());
    assert_eq!(m.selected_long_text(), Some(("c".to_string(), "two\nlines".to_string())));
    m.selected_path = Some("$".to_string());
    assert_eq!(m.selected_long_text(), None);
    m.selected_path = Some("$.a".to_string());
    m.active_tab = AppTab::Text;
    assert!(!m.expand_should_show(true, &here));
}

#[test]
fn previous_undoes_next_and_containers_expand() {
    let s = Settings::default();
    let mut m = loaded("{\"box\": {\"inner\": 1}, \"list\": [\"box\", 2], \"other\": \"box\"}");
    m.collapse_all();
    m.search_query = "box".to_string();
    m.search_start(&s);
    assert_eq!(m.search_results[0], "$.box");
    assert!(m.expanded_nodes.contains("$.box"));
    assert!(m.visible_tree_rows.iter().any(|r| r.path == "$.box.inner"));
    let start = m.current_search_index;
    let selected = m.selected_path.clone();
    m.search_next(&s);
    assert_ne!(m.selected_path, selected);
    m.search_previous(&s);
    assert_eq!(m.current_search_index, start);
    assert_eq!(m.selected_path, selected);
}

#[test]
fn zoom_in_then_out_restores_size() {
    let mut s = Settings::default();
    s.font_size = 17;
    s.zoom(1);
    s.zoom(-1);
    assert_eq!(s.font_size, 17);
}

#[test]
fn tree_row_labels_colours_and_copies() {
    assert_eq!(type_color_by_name("str"), (90, 160, 255));
    assert_eq!(type_color_by_name("number"), (90, 205, 125));
    assert_eq!(type_color_by_name("bool"), (235, 195, 75));
    assert_eq!(type_color_by_name("null"), (235, 90, 90));
    assert_eq!(type_color_by_name("object"), (185, 130, 255));
    assert_eq!(type_color_by_name("array"), (140, 140, 255));
    assert_eq!(type_color_by_name("other"), (170, 170, 170));
    let long = "y".repeat(46);
    let m = loaded(&format!("{{\"k\": \"{}\", \"n\": 5, \"o\": {{\"p\": 1}}, \"e\": {{}}}}", long));
    let rows = &m.visible_tree_rows;
    let k = rows.iter().find(|r| r.path == "$.k").unwrap();
    assert!(k.has_text_toggle());
    assert_eq!(k.copy_value(), long);
    assert_eq!(k.badge_color(), type_color_by_name(k.kind_name));
    let n = rows.iter().find(|r| r.path == "$.n").unwrap();
    assert!(!n.has_text_toggle());
    assert_eq!(n.label_text(), "n : 5");
    assert_eq!(n.copy_value(), "5");
    let o = rows.iter().find(|r| r.path == "$.o").unwrap();
    assert_eq!(o.label_text(), "o");
    let e = rows.iter().find(|r| r.path == "$.e").unwrap();
    assert_eq!(e.label_text(), "e : {0 properties}");
}

#[test]
fn copy_commands_and_labels() {
    let s = Settings::default();
    let m = loaded("{\"a\": {\"b\": [1, \"x\"]}}");
    let (t, l) = m.copy_for("minified", &s);
    assert_eq!((t.as_str(), l), ("{\"a\":{\"b\":[1,\"x\"]}}", "Copied Minified JSON!"));
    let (t, l) = m.copy_for("python", &s);
    assert_eq!(l, "Copied Python Dictionary!");
    assert!(t.starts_with("{\n  'a': {"));
    assert_eq!(m.copy_for("stringified", &s).1, "Copied Stringified JSON!");
    assert_eq!(m.copy_for("beautified", &s).1, "Copied Beautified JSON!");
    assert_eq!(m.copy_for("raw", &s), (m.raw_text.clone(), "Copied Text!"));
    assert_eq!(m.node_copy("$.a.b", "key", &s), Some(("b".to_string(), "Copied Key!")));
    assert_eq!(m.node_copy("$.a.b", "path", &s), Some(("$.a.b".to_string(), "Copied JSON Path!")));
    assert_eq!(
        m.node_copy("$.a.b", "subtree", &s),
        Some(("[\n  1,\n  \"x\"\n]".to_string(), "Copied Subtree as JSON!"))
    );
    assert_eq!(
        m.node_copy("$.a.b", "python", &s),
        Some(("[\n  1,\n  'x'\n]".to_string(), "Copied Python Dictionary!"))
    );
    assert_eq!(m.node_copy("$.a.b[1]", "value", &s), Some(("x".to_string(), "Copied Value!")));
    assert_eq!(m.node_copy("$.zz", "key", &s), None);
}

#[test]
fn property_grid_filter_names_and_limits() {
    let mut m = loaded("{\"Alpha\": 1, \"beta\": \"GAMMA\", \"inner\": {\"deep\": true}}");
    m.selected_path = Some("$".to_string());
    let (_, rows) = m.properties_for_selected();
    assert_eq!(rows.len(), 3);
    let f = filter_properties(&rows, "ALP");
    assert_eq!(f.len(), 1);
    assert_eq!(f[0].name, "Alpha");
    assert_eq!(filter_properties(&rows, "gamma")[0].name, "beta");
    assert_eq!(filter_properties(&rows, "object")[0].name, "inner");
    assert_eq!(filter_properties(&rows, "").len(), 3);
    assert!(filter_properties(&rows, "zzz").is_empty());
    assert_eq!(property_limit_note(500), None);
    assert_eq!(
        property_limit_note(501).as_deref(),
        Some("Showing first 500 of 501 items. Use Filter to narrow down.")
    );
    assert_eq!(m.selected_name().as_deref(), Some("JSON (Root)"));
    m.selected_path = Some("$.inner.deep".to_string());
    assert_eq!(m.selected_name().as_deref(), Some("deep"));
    m.selected_path = None;
    assert_eq!(m.selected_name(), None);
    assert_eq!(parent_button_label("$", "JSON"), "← Root");
    assert_eq!(parent_button_label("$.inner", "inner"), "← Parent");
}

#[test]
fn zoom_brings_out_of_range_sizes_back() {
    let mut s = Settings::default();
    s.font_size = 5;
    s.zoom(1);
    assert_eq!(s.font_size, 9);
    s.font_size = 40;
    s.zoom(-1);
    assert_eq!(s.font_size, 24);
}

#[test]
fn tree_fill_places_rows_under_their_parents() {
    let m = loaded("{\"a\": {\"b\": 1}, \"c\": [2, [3]], \"d\": 4}");
    let rows = flatten(m.root.as_ref().unwrap());
    let paths: Vec<String> = rows.iter().map(|r| r.path.clone()).collect();
    let mut fill = TreeFill::new(rows);
    assert!(!fill.is_done());
    assert_eq!(fill.progress_text(), "Loading tree… 0 of 8 nodes");
    let placed = fill.step();
    assert!(fill.is_done());
    assert_eq!(fill.progress_text(), "Loading tree… 8 of 8 nodes");
    let parents: Vec<Option<&str>> =
        placed.iter().map(|(_, p)| p.map(|j| paths[j].as_str())).collect();
    assert_eq!(placed.iter().map(|(i, _)| *i).collect::<Vec<_>>(), (0..8).collect::<Vec<_>>());
    assert_eq!(
        parents,
        vec![None, Some("$"), Some("$.a"), Some("$"), Some("$.c"), Some("$.c"), Some("$.c[1]"), Some("$")]
    );
    assert_eq!(paths[6], "$.c[1][0]");
    assert!(fill.step().is_empty());
}

#[test]
fn tree_fill_works_in_slices() {
    let mut text = String::from("[");
    for i in 0..(FILL_CHUNK / 2 + 10) {
        if i > 0 {
            text.push(',');
        }
        text.push_str("[1]");
    }
    text.push(']');
    let m = loaded(&text);
    let rows = flatten(m.root.as_ref().unwrap());
    let total = rows.len();
    let mut fill = TreeFill::new(rows);
    let first = fill.step();
    assert_eq!(first.len(), FILL_CHUNK);
    let rest = fill.step();
    assert_eq!(first.len() + rest.len(), total);
    assert!(fill.is_done());
    let (last_index, last_parent) = rest[rest.len() - 1];
    assert_eq!(last_index, total - 1);
    assert_eq!(last_parent, Some(total - 2));
}

#[test]
fn settings_dialog_form_round_trip() {
    let mut s = Settings::default();
    s.indent_spaces = -1;
    s.default_tab = "Split".to_string();
    s.font_size = 17;
    let f = s.to_form();
    assert_eq!((f.indent_choice, f.tab_choice, f.font_text.as_str()), (2, 2, "17"));
    let mut t = Settings::default();
    t.apply_form(&f, Some(17));
    assert_eq!((t.indent_spaces, t.default_tab.as_str(), t.font_size), (-1, "Split", 17));
    let g = SettingsForm {
        indent_choice: 1,
        sort_keys: true,
        escape_slashes: false,
        auto_unwrap: false,
        wrap_lines: false,
        tab_choice: 7,
        font_text: "99".to_string(),
    };
    t.apply_form(&g, Some(99));
    assert_eq!((t.indent_spaces, t.default_tab.as_str(), t.font_size), (4, "Text", 24));
    assert!(t.sort_keys_alphabetically && !t.wrap_lines);
    t.apply_form(&g, None);
    assert_eq!(t.font_size, 24);
}

#[test]
fn value_window_texts() {
    let (title, count) = value_dialog_texts("key", "a😀b");
    assert_eq!(title, "Value — key");
    assert_eq!(count, "4 characters");
    let long_key = "k".repeat(61);
    let (title, _) = value_dialog_texts(&long_key, "");
    assert_eq!(title, format!("Value — {}…", "k".repeat(60)));
    assert_eq!(utf16_count("é😀"), 3);
}

#[test]
fn pasting_into_an_editor_and_copying_grid_rows() {
    let s = Settings::default();
    let (t, converted) = jsonviewer::model::document::editor_paste_text(" {'a': None} ", &s);
    assert!(converted);
    assert_eq!(t, "{\n  \"a\": null\n}");
    let (t, converted) = jsonviewer::model::document::editor_paste_text("[1, 2]", &s);
    assert!(!converted);
    assert_eq!(t, "[1, 2]");
    let (t, converted) = jsonviewer::model::document::editor_paste_text("{oops", &s);
    assert!(!converted);
    assert_eq!(t, "{oops");
    let mut m = loaded("{\"a\": 1, \"b\": \"x\", \"c\": true}");
    m.selected_path = Some("$".to_string());
    let (_, rows) = m.properties_for_selected();
    let text = jsonviewer::model::document::copy_grid_rows(&rows, &vec![2, 9, 0]);
    assert_eq!(text.as_deref(), Some("c: true\r\na: 1"));
    assert_eq!(jsonviewer::model::document::copy_grid_rows(&rows, &vec![7]), None);
}

#[test]
fn window_status_and_grid_cap() {
    let mut m = loaded("[1]");
    m.update_metrics();
    assert_eq!(m.window_status_text(None), "Valid JSON    |    1 lines, 3 characters");
    assert_eq!(
        m.window_status_text(Some(12345)),
        "Valid JSON    |    1 lines, 3 characters    |    grid shows first 10000 of 12345 properties"
    );
    let row = PropertyRow {
        name: "n".to_string(),
        value: "v".to_string(),
        typ: "string".to_string(),
        path: "$.n".to_string(),
        is_container: false,
    };
    let rows: Vec<PropertyRow> = (0..10001).map(|_| row.clone()).collect();
    let (kept, cut) = jsonviewer::model::tree::cap_grid_rows(rows);
    assert_eq!((kept.len(), cut), (10000, Some(10001)));
    let (kept, cut) = jsonviewer::model::tree::cap_grid_rows(vec![row.clone()]);
    assert_eq!((kept.len(), cut), (1, None));
}

#[test]
fn sorting_keys_is_stable_and_by_code_point() {
    let v = parse("{\"é\": 1, \"b\": 2, \"ab\": 3, \"a\": 4, \"b\": 5, \"Z\": 6}");
    assert_eq!(
        v.format(-1, true, false),
        "{\n\t\"Z\": 6,\n\t\"a\": 4,\n\t\"ab\": 3,\n\t\"b\": 2,\n\t\"b\": 5,\n\t\"é\": 1\n}"
    );
    let nested = parse("[{\"y\": {\"d\": 1, \"c\": 2}, \"x\": 0}]");
    let back = parse(&nested.format(4, true, false));
    assert_eq!(back.minify(false), "[{\"x\":0,\"y\":{\"c\":2,\"d\":1}}]");
}
