use foph_diff::escape::{csv_escape, html_escape, sanitize_json_string};
use foph_diff::text::{str_contains, str_eq};

#[test]
fn sanitize_escapes_raw_controls_inside_strings() {
    let input = "{\"a\": \"line\nbreak\tand\rreturn\"}";
    let out = sanitize_json_string(input);
    assert_eq!(out, "{\"a\": \"line\\nbreak\\tand\\rreturn\"}");
}

#[test]
fn sanitize_leaves_text_outside_strings_alone() {
    let input = "{\n  \"a\": 1\n}";
    assert_eq!(sanitize_json_string(input), input);
}

#[test]
fn sanitize_respects_existing_escapes() {
    let input = "{\"a\": \"already\\nescaped\"}";
    assert_eq!(sanitize_json_string(input), input);
}

#[test]
fn sanitize_drops_other_control_characters() {
    let input = "{\"a\": \"x\u{1}y\"}";
    assert_eq!(sanitize_json_string(input), "{\"a\": \"xy\"}");
}

#[test]
fn csv_escape_plain_field_unchanged() {
    assert_eq!(csv_escape("plain"), "plain");
}

#[test]
fn csv_escape_quotes_separators_and_doubles_quotes() {
    assert_eq!(csv_escape("a,b"), "\"a,b\"");
    assert_eq!(csv_escape("say \"hi\""), "\"say \"\"hi\"\"\"");
    assert_eq!(csv_escape("line\nbreak"), "\"line\nbreak\"");
}

#[test]
fn html_escape_entities() {
    assert_eq!(html_escape("a<b>&\"c\""), "a&lt;b&gt;&amp;&quot;c&quot;");
    assert_eq!(html_escape("plain"), "plain");
}

#[test]
fn contains_and_equality() {
    assert!(str_contains("extension/productPrice/v1", "productPrice"));
    assert!(!str_contains("extension/other", "productPrice"));
    assert!(str_eq("abc", "abc"));
    assert!(!str_eq("abc", "abd"));
}
