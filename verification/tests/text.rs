//! Text, JSON and what the parsers share.

use smg::json::{compact_text, JsonValue};
use smg::params::{python_json_to_string, same_param_value, spaced_text, ParamValue};
use smg::text::{
    contains_text, decimal_int_text, decimal_text, ends_with, find_text, join_texts, parse_i64,
    replace_text, same_ignoring_ascii_case, starts_with, trim_end_text, trim_start_text, trim_text,
    white_space,
};
use smg::tool::{ends_with_partial_token, find_tool, get_unstreamed_args, Function, Tool, ToolRecord};

#[test]
fn white_space_is_that_of_unicode() {
    for c in '\0'..=char::MAX {
        assert_eq!(white_space(c), c.is_whitespace(), "{c:?}");
    }
}

#[test]
fn texts_are_searched_by_characters() {
    assert_eq!(find_text("a｜b｜c", "｜c"), Some(3));
    assert_eq!(find_text("aaab", "ab"), Some(2));
    assert_eq!(find_text("abc", "d"), None);
    assert_eq!(find_text("abc", ""), Some(0));
    assert!(contains_text("abc", "bc"));
    assert!(!contains_text("abc", "cb"));
    assert!(starts_with("abc", "ab") && !starts_with("ab", "abc"));
    assert!(ends_with("abc", "bc") && !ends_with("bc", "abc"));
}

#[test]
fn texts_are_replaced_and_trimmed_as_usual() {
    for (s, pat, with) in [("aXbXX", "X", "--"), ("aaaa", "aa", "b"), ("abc", "x", "y"), ("", "x", "y")] {
        assert_eq!(replace_text(s, pat, with), s.replace(pat, with));
    }
    for s in ["  a b ", "\u{3000}x\u{a0}", "", " \t\n", "x"] {
        assert_eq!(trim_text(s), s.trim());
        assert_eq!(trim_start_text(s), s.trim_start());
        assert_eq!(trim_end_text(s), s.trim_end());
    }
    assert!(same_ignoring_ascii_case("NuLL", "null"));
    assert!(!same_ignoring_ascii_case("nul", "null"));
    let parts = vec!["a".to_string(), "".to_string(), "b".to_string()];
    assert_eq!(join_texts(&parts, ", "), "a, , b");
    assert_eq!(join_texts(&Vec::new(), ", "), "");
}

#[test]
fn integers_are_read_and_written_as_usual() {
    for s in [
        "0", "-0", "+5", "-", "+", "", "007", "12a", "1.5", " 1", "9223372036854775807",
        "9223372036854775808", "-9223372036854775808", "-9223372036854775809", "99999999999999999999999",
    ] {
        assert_eq!(parse_i64(s), s.parse::<i64>().ok(), "{s}");
    }
    for n in [0i64, 7, -7, 10, i64::MAX, i64::MIN] {
        assert_eq!(decimal_int_text(n), n.to_string());
    }
    assert_eq!(decimal_text(u64::MAX), u64::MAX.to_string());
}

#[test]
fn strings_are_escaped() {
    let text = |s: &str| compact_text(&JsonValue::Text(s.to_string()));
    assert_eq!(text("plain ｜ ü"), "\"plain ｜ ü\"");
    assert_eq!(text("\"\\/"), "\"\\\"\\\\/\"");
    assert_eq!(text("\u{8}\t\n\u{c}\r"), "\"\\b\\t\\n\\f\\r\"");
    assert_eq!(text("\u{0}\u{1}\u{1f}\u{7f}"), "\"\\u0000\\u0001\\u001f\u{7f}\"");
}

#[test]
fn values_are_printed_without_white_space() {
    let value = JsonValue::Object(vec![
        ("a".to_string(), JsonValue::Array(vec![JsonValue::Null, JsonValue::Bool(false)])),
        ("b".to_string(), JsonValue::Float("1.5".to_string())),
        ("c".to_string(), JsonValue::Object(vec![])),
    ]);
    assert_eq!(compact_text(&value), "{\"a\":[null,false],\"b\":1.5,\"c\":{}}");
    assert!(value.get("b").is_some());
    assert!(value.get("d").is_none());
    assert_eq!(value.get_text("a"), None);
}

#[test]
fn spaces_are_not_put_into_strings() {
    assert_eq!(spaced_text("{\"a,b:c\":[1,2],\"d\":\"\\\",:\"}"), "{\"a,b:c\": [1, 2], \"d\": \"\\\",:\"}");
    let params = vec![
        ("x:y".to_string(), ParamValue::Text("1,2".to_string())),
        ("z".to_string(), ParamValue::Nested("{\"k\":[1,2]}".to_string())),
        ("n".to_string(), ParamValue::Null),
        ("t".to_string(), ParamValue::Bool(true)),
    ];
    assert_eq!(
        python_json_to_string(&params),
        "{\"x:y\": \"1,2\", \"z\": {\"k\": [1, 2]}, \"n\": null, \"t\": true}"
    );
    assert_eq!(python_json_to_string(&Vec::new()), "{}");
}

#[test]
fn values_are_compared_as_json() {
    let nested = |s: &str| ParamValue::Nested(s.to_string());
    let number = |s: &str| ParamValue::Number(s.to_string());
    assert!(same_param_value(&nested("{\"a\":1,\"b\":2}"), &nested("{\"b\":2,\"a\":1}")));
    assert!(!same_param_value(&nested("[1,2]"), &nested("[2,1]")));
    assert!(same_param_value(&number("1"), &number("1")));
    assert!(!same_param_value(&number("1"), &number("1.0")));
    assert!(!same_param_value(&ParamValue::Null, &ParamValue::Bool(false)));
}

#[test]
fn beginnings_of_tokens_are_seen() {
    assert_eq!(ends_with_partial_token("text <to", "<tool>"), 3);
    assert_eq!(ends_with_partial_token("text <", "<tool>"), 1);
    assert_eq!(ends_with_partial_token("text <tool>", "<tool>"), 0);
    assert_eq!(ends_with_partial_token("text", "<tool>"), 0);
    assert_eq!(ends_with_partial_token("aa", "aaab"), 2);
}

#[test]
fn tools_are_found_by_name() {
    let tool = |name: &str| Tool {
        function: Function { name: name.to_string(), parameters: JsonValue::Null },
    };
    let tools = vec![tool("a"), tool("b"), tool("b")];
    assert_eq!(find_tool(&tools, "b"), Some(1));
    assert_eq!(find_tool(&tools, "c"), None);
}

#[test]
fn what_is_left_to_send() {
    let record = |s: &str| Some(ToolRecord { name: "f".to_string(), arguments: s.to_string() });
    let left = |records: Vec<Option<ToolRecord>>, streamed: Vec<&str>| {
        get_unstreamed_args(&records, &streamed.iter().map(|s| s.to_string()).collect())
            .map(|items| (items[0].tool_index, items[0].parameters.clone()))
    };
    assert_eq!(left(vec![record("{}"), record("{\"a\":1}")], vec!["{}", "{\"a\""]), Some((1, ":1}".to_string())));
    assert_eq!(left(vec![record("{}")], vec!["{}"]), None);
    assert_eq!(left(vec![record("{}")], vec!["["]), None);
    assert_eq!(left(vec![None], vec![""]), None);
    assert_eq!(left(vec![record("{}")], vec![]), None);
    assert_eq!(left(vec![], vec![]), None);
}
