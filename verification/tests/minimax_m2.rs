//! The MiniMax M2 format.

use smg::json::JsonValue;
use smg::minimax::MinimaxM2Parser;
use smg::params::{same_param_value, ParamValue};
use smg::pattern::Found;
use smg::tool::{Function, StreamingParseResult, Tool, ToolCallItem};

fn types(slice: &[&str]) -> Vec<String> {
    slice.iter().map(|s| (*s).to_string()).collect()
}

fn text(s: &str) -> ParamValue {
    ParamValue::Text(s.to_string())
}

fn number(s: &str) -> ParamValue {
    ParamValue::Number(s.to_string())
}

fn object(members: Vec<(&str, JsonValue)>) -> JsonValue {
    JsonValue::Object(members.into_iter().map(|(k, v)| (k.to_string(), v)).collect())
}

fn word(s: &str) -> JsonValue {
    JsonValue::Text(s.to_string())
}

fn tool(name: &str, properties: Vec<(&str, JsonValue)>) -> Tool {
    Tool {
        function: Function {
            name: name.to_string(),
            parameters: object(vec![("type", word("object")), ("properties", object(properties))]),
        },
    }
}

fn of_type(name: &str) -> JsonValue {
    object(vec![("type", word(name))])
}

fn is_float(value: &ParamValue) -> bool {
    match value {
        ParamValue::Number(n) => serde_json::from_str::<serde_json::Value>(n).unwrap().is_f64(),
        _ => false,
    }
}

#[test]
fn convert_with_schema_string_keeps_null_as_string() {
    let v = MinimaxM2Parser::convert_with_schema("null", &types(&["string"]));
    assert_eq!(v, text("null"));

    let v = MinimaxM2Parser::convert_with_schema("None", &types(&["string"]));
    assert_eq!(v, text("None"));

    let v = MinimaxM2Parser::convert_with_schema("nil", &types(&["string"]));
    assert_eq!(v, text("nil"));
}

#[test]
fn convert_with_schema_nullable_type_becomes_null() {
    let v = MinimaxM2Parser::convert_with_schema("null", &types(&["string", "null"]));
    assert_eq!(v, ParamValue::Null);

    let v = MinimaxM2Parser::convert_with_schema("None", &types(&["integer", "null"]));
    assert_eq!(v, ParamValue::Null);
}

#[test]
fn convert_with_schema_integer_still_parses_numbers() {
    let v = MinimaxM2Parser::convert_with_schema("42", &types(&["integer"]));
    assert_eq!(v, number("42"));
}

#[test]
fn convert_with_schema_boolean_still_works() {
    let v = MinimaxM2Parser::convert_with_schema("true", &types(&["boolean"]));
    assert_eq!(v, ParamValue::Bool(true));
    let v = MinimaxM2Parser::convert_with_schema("false", &types(&["boolean"]));
    assert_eq!(v, ParamValue::Bool(false));
}

#[test]
fn convert_with_schema_number_keeps_int_as_int() {
    let v = MinimaxM2Parser::convert_with_schema("85", &types(&["number"]));
    assert_eq!(v, number("85"));

    let v = MinimaxM2Parser::convert_with_schema("1.8", &types(&["number"]));
    assert!(is_float(&v), "1.8 should parse as float, got {v:?}");
    assert_eq!(v, number("1.8"));

    let v = MinimaxM2Parser::convert_with_schema("1267000000", &types(&["number"]));
    assert_eq!(v, number("1267000000"));

    let v = MinimaxM2Parser::convert_with_schema("1e5", &types(&["number"]));
    assert!(is_float(&v));
}

#[test]
fn parse_complete_arguments_use_spaces_like_python() {
    let parser = MinimaxM2Parser::new();
    let text = r#"<minimax:tool_call>
<invoke name="calculate_BMI">
<parameter name="weight_kg">85</parameter>
<parameter name="height_m">1.8</parameter>
</invoke>
</minimax:tool_call>"#;

    let (_, calls) = parser.parse_complete(text).unwrap();
    assert_eq!(calls.len(), 1);
    let args = &calls[0].function.arguments;
    assert!(args.contains(", "), "expected `, ` between items, got: {args}");
    assert!(args.contains(": "), "expected `: ` between keys and values, got: {args}");
    assert!(!args.contains("\":\""), "unexpected compact JSON: {args}");
    assert!(!args.contains(",\""), "unexpected compact JSON: {args}");
    assert_eq!(args, r#"{"weight_kg": 85, "height_m": 1.8}"#);
    assert_eq!(calls[0].function.name, "calculate_BMI");
}

#[test]
fn words_without_a_schema() {
    assert_eq!(MinimaxM2Parser::parse_value("true"), ParamValue::Bool(true));
    assert_eq!(MinimaxM2Parser::parse_value("True"), ParamValue::Bool(true));
    assert_eq!(MinimaxM2Parser::parse_value("False"), ParamValue::Bool(false));
    assert_eq!(MinimaxM2Parser::parse_value("None"), ParamValue::Null);
    assert_eq!(MinimaxM2Parser::parse_value("null"), ParamValue::Null);
    assert_eq!(MinimaxM2Parser::parse_value("NULL"), text("NULL"));
    assert_eq!(MinimaxM2Parser::parse_value("-7"), number("-7"));
    assert_eq!(MinimaxM2Parser::parse_value("+7"), number("7"));
    assert_eq!(MinimaxM2Parser::parse_value("1.50"), number("1.5"));
    assert_eq!(MinimaxM2Parser::parse_value("inf"), text("inf"));
    assert_eq!(MinimaxM2Parser::parse_value("NaN"), text("NaN"));
    assert_eq!(
        MinimaxM2Parser::parse_value("9223372036854775807"),
        number("9223372036854775807")
    );
    assert!(is_float(&MinimaxM2Parser::parse_value("9223372036854775808")));
    assert_eq!(MinimaxM2Parser::parse_value(" 7"), text(" 7"));
    assert_eq!(MinimaxM2Parser::parse_value(""), text(""));
}

#[test]
fn types_come_before_one_another() {
    let both = types(&["string", "integer"]);
    assert_eq!(MinimaxM2Parser::convert_with_schema("12", &both), number("12"));
    assert_eq!(MinimaxM2Parser::convert_with_schema("twelve", &both), text("twelve"));
    let upper = types(&["BOOLEAN"]);
    assert_eq!(MinimaxM2Parser::convert_with_schema(" YES ", &upper), ParamValue::Bool(true));
    assert_eq!(MinimaxM2Parser::convert_with_schema("off", &upper), ParamValue::Bool(false));
    assert_eq!(MinimaxM2Parser::convert_with_schema("perhaps", &upper), text("perhaps"));
    let nested = types(&["object"]);
    assert_eq!(
        MinimaxM2Parser::convert_with_schema("{\"b\": [1, 2], \"a\": null}", &nested),
        ParamValue::Nested("{\"b\":[1,2],\"a\":null}".to_string())
    );
    assert_eq!(MinimaxM2Parser::convert_with_schema("{oops", &nested), text("{oops"));
    assert_eq!(MinimaxM2Parser::convert_with_schema("1.0", &types(&["integer"])), number("1.0"));
}

#[test]
fn schema_types_are_collected() {
    let none = MinimaxM2Parser::extract_types_from_schema(&JsonValue::Null);
    assert_eq!(none, types(&["string"]));
    let empty = MinimaxM2Parser::extract_types_from_schema(&object(vec![]));
    assert_eq!(empty, types(&["string"]));
    let listed = object(vec![("type", JsonValue::Array(vec![word("string"), word("null")]))]);
    assert_eq!(MinimaxM2Parser::extract_types_from_schema(&listed), types(&["null", "string"]));
    let values = object(vec![(
        "enum",
        JsonValue::Array(vec![
            JsonValue::Integer("1".to_string()),
            JsonValue::Float("1.5".to_string()),
            JsonValue::Bool(true),
            word("x"),
        ]),
    )]);
    assert_eq!(
        MinimaxM2Parser::extract_types_from_schema(&values),
        types(&["boolean", "integer", "number", "string"])
    );
    let any = object(vec![(
        "anyOf",
        JsonValue::Array(vec![
            of_type("integer"),
            object(vec![("oneOf", JsonValue::Array(vec![of_type("array")]))]),
        ]),
    )]);
    assert_eq!(MinimaxM2Parser::extract_types_from_schema(&any), types(&["array", "integer"]));
}

#[test]
fn schema_of_a_parameter_is_found() {
    let tools = vec![tool("f", vec![("zip", of_type("string"))])];
    assert_eq!(MinimaxM2Parser::schema_types_for_param(&tools, "f", "zip"), types(&["string"]));
    assert!(MinimaxM2Parser::schema_types_for_param(&tools, "f", "other").is_empty());
    assert!(MinimaxM2Parser::schema_types_for_param(&tools, "g", "zip").is_empty());
}

#[test]
fn entities_are_decoded() {
    assert_eq!(
        MinimaxM2Parser::decode_xml_entities("&lt;a&gt; &amp; &quot;b&quot; &apos;c&apos;"),
        "<a> & \"b\" 'c'"
    );
    assert_eq!(MinimaxM2Parser::decode_xml_entities("plain"), "plain");
    assert_eq!(MinimaxM2Parser::decode_xml_entities("&amp;lt;"), "&lt;");
    assert_eq!(MinimaxM2Parser::decode_xml_entities("&amp;quot;"), "\"");
}

#[test]
fn declared_strings_stay_strings() {
    let tools = vec![tool("f", vec![("zip", of_type("string")), ("n", of_type("integer"))])];
    let parser = MinimaxM2Parser::new();
    let input = "Hi. <minimax:tool_call><invoke name=\" f \"><parameter name=\"zip\">01234</parameter>\
                 <parameter name=\"n\">7</parameter></invoke></minimax:tool_call> bye";
    let (before, calls) = parser.parse_complete_with_tools(input, &tools).unwrap();
    assert_eq!(before, "Hi. ");
    assert_eq!(calls.len(), 1);
    assert_eq!(calls[0].function.name, "f");
    assert_eq!(calls[0].function.arguments, "{\"zip\": \"01234\", \"n\": 7}");
    let (_, plain) = parser.parse_complete(input).unwrap();
    assert_eq!(plain[0].function.arguments, "{\"zip\": 1234, \"n\": 7}");
}

#[test]
fn several_invocations_in_one_block() {
    let parser = MinimaxM2Parser::new();
    let input = "<minimax:tool_call><invoke name=\"a\"></invoke><invoke name=\"b\">\
                 <parameter name=\"x\">1</parameter><parameter name=\"x\">2</parameter></invoke>\
                 </minimax:tool_call>";
    let (before, calls) = parser.parse_complete(input).unwrap();
    assert_eq!(before, "");
    assert_eq!(calls.len(), 2);
    assert_eq!(calls[0].function.arguments, "{}");
    assert_eq!(calls[1].function.arguments, "{\"x\": 2}");
}

#[test]
fn text_without_calls_is_given_back() {
    let parser = MinimaxM2Parser::new();
    for input in ["", "Just text.", "<minimax:tool_call> no call </minimax:tool_call>", "<minimax:tool_call>"] {
        let (given, calls) = parser.parse_complete(input).unwrap();
        assert_eq!(given, input);
        assert!(calls.is_empty());
    }
    assert!(parser.has_tool_markers("a <minimax:tool_call>"));
    assert!(!parser.has_tool_markers("a <minimax:tool_cal"));
}

#[test]
fn blocks_without_calls_are_passed_over() {
    let parser = MinimaxM2Parser::new();
    let empty = "<minimax:tool_call></minimax:tool_call>";
    let full = "<minimax:tool_call><invoke name=\"a\"></invoke></minimax:tool_call>";
    let input = [empty, " then ", full].concat();
    let (before, calls) = parser.parse_complete(&input).unwrap();
    assert_eq!(before, [empty, " then "].concat());
    assert_eq!(calls.len(), 1);
}

struct Collected {
    text: String,
    names: Vec<String>,
    args: Vec<String>,
}

fn collect(parser: &mut MinimaxM2Parser, chunks: &[&str], tools: &[Tool]) -> Collected {
    let mut all = Collected { text: String::new(), names: Vec::new(), args: Vec::new() };
    for chunk in chunks {
        let result: StreamingParseResult = parser.parse_incremental(chunk, tools).unwrap();
        all.text.push_str(&result.normal_text);
        for call in result.calls {
            if let Some(name) = call.name {
                assert_eq!(call.tool_index, all.names.len());
                all.names.push(name);
                all.args.push(String::new());
            }
            all.args[call.tool_index].push_str(&call.parameters);
        }
    }
    all
}

#[test]
fn a_stream_gives_text_names_and_arguments() {
    let tools = vec![tool("f", vec![("zip", of_type("string"))]), tool("g", vec![])];
    let mut parser = MinimaxM2Parser::new();
    let chunks = [
        "Hello <mini",
        "max:tool_call>",
        "<invoke name=\"f\"><parameter name=\"zip\">01234</parameter>",
        "<parameter name=\"n\">7</parameter></invoke>",
        "<invoke name=\"g\"></invoke>",
        "</minimax:tool_call>",
        " bye",
    ];
    let all = collect(&mut parser, &chunks, &tools);
    assert_eq!(all.text, "Hello  bye");
    assert_eq!(all.names, vec!["f", "g"]);
    assert_eq!(all.args[0], "{\"zip\": \"01234\", \"n\": 7}");
    assert_eq!(all.args[1], "");
    assert!(parser.get_unstreamed_tool_args().is_none());
}

#[test]
fn what_may_open_a_block_is_held_back() {
    let mut parser = MinimaxM2Parser::new();
    let first = parser.parse_incremental("a <minimax:", &[]).unwrap();
    assert_eq!(first.normal_text, "a ");
    let second = parser.parse_incremental("other", &[]).unwrap();
    assert_eq!(second.normal_text, "<minimax:other");
    assert!(second.calls.is_empty());
}

#[test]
fn an_unknown_function_is_text() {
    let mut parser = MinimaxM2Parser::new();
    let chunk = "x<minimax:tool_call><invoke name=\"h\"></invoke>";
    let result = parser.parse_incremental(chunk, &[tool("f", vec![])]).unwrap();
    assert_eq!(result.normal_text, "x<invoke name=\"h\"></invoke>");
    assert!(result.calls.is_empty());
}

#[test]
fn an_open_call_can_be_completed() {
    let tools = vec![tool("f", vec![])];
    let mut parser = MinimaxM2Parser::new();
    let chunk = "<minimax:tool_call><invoke name=\"f\"><parameter name=\"a\">1</parameter></invoke";
    let first = parser.parse_incremental(chunk, &tools).unwrap();
    assert!(first.calls.is_empty());
    let second = parser.parse_incremental(">", &tools).unwrap();
    let args: String = second.calls.iter().map(|c| c.parameters.as_str()).collect();
    assert_eq!(args, "{\"a\": 1}");
}

#[test]
fn a_nested_value_is_not_closed_twice() {
    let tools = vec![tool("f", vec![])];
    let mut parser = MinimaxM2Parser::new();
    let chunk = "<minimax:tool_call><invoke name=\"f\"><parameter name=\"a\">{\"b\": 1}</parameter></invoke>";
    let all = collect(&mut parser, &[chunk], &tools);
    assert_eq!(all.args[0], "{\"a\": {\"b\":1}");
    let rest = parser.get_unstreamed_tool_args().unwrap();
    assert_eq!(rest.len(), 1);
    assert_eq!(rest[0].tool_index, 0);
    assert_eq!(rest[0].parameters, "}");
}

#[test]
fn a_reset_parser_is_new() {
    let tools = vec![tool("f", vec![])];
    let mut parser = MinimaxM2Parser::default();
    parser.parse_incremental("<minimax:tool_call><invoke name=\"f\"></invoke>", &tools).unwrap();
    parser.reset();
    let result = parser.parse_incremental("plain", &tools).unwrap();
    assert_eq!(result.normal_text, "plain");
    assert!(result.calls.is_empty());
    assert!(parser.get_unstreamed_tool_args().is_none());
}

#[test]
fn tags_are_found_by_their_patterns() {
    let calls = MinimaxM2Parser::parse_tool_call_block("a<invoke  name=\"f g\">body</invoke>b", &[]);
    assert_eq!(calls.len(), 1);
    assert_eq!(calls[0].function.name, "f g");
    assert_eq!(calls[0].function.arguments, "{}");
    assert!(MinimaxM2Parser::parse_tool_call_block("<invoke name=\"\">x</invoke>", &[]).is_empty());
}

#[test]
fn lower_case_is_taken_of_other_letters_too() {
    let greek = types(&["ΣΤΡ", "INTEGER"]);
    assert_eq!(MinimaxM2Parser::convert_with_schema("5", &greek), number("5"));
    assert_eq!(MinimaxM2Parser::convert_with_schema("ON\u{a0}", &types(&["bool"])), ParamValue::Bool(true));
}

fn found(groups: &[&str]) -> Found {
    Found { before: String::new(), groups: groups.iter().map(|s| s.to_string()).collect() }
}

fn sent(items: &[ToolCallItem]) -> String {
    items.iter().map(|i| i.parameters.as_str()).collect()
}

#[test]
fn equal_values_are_not_sent_again() {
    let tools = vec![tool("f", vec![])];
    let mut parser = MinimaxM2Parser::new();
    let mut out = parser.parse_incremental("<minimax:tool_call>", &tools).unwrap();
    assert!(!parser.step_name(&mut out, &vec![], &tools));
    assert!(parser.step_name(&mut out, &vec![found(&["", " f ", ""])], &tools));
    assert_eq!(out.calls.len(), 1);
    assert_eq!(out.calls[0].name.as_deref(), Some("f"));
    let first = vec![found(&["", "a", "{\"x\": 1, \"y\": 2}"])];
    assert_eq!(sent(&parser.take_parameters(&first, &tools)), "{\"a\": {\"x\":1,\"y\":2}");
    let same = vec![found(&["", "a", "{\"y\": 2, \"x\": 1}"])];
    assert!(parser.take_parameters(&same, &tools).is_empty());
    let more = vec![found(&["", "a", "{\"x\": 1, \"y\": 2}"]), found(&["", "b", "&lt;"])];
    assert_eq!(sent(&parser.take_parameters(&more, &tools)), ", \"b\": \"<\"");
    let changed = vec![found(&["", "a", "3"]), found(&["", "b", "&lt;"])];
    assert!(parser.take_parameters(&changed, &tools).is_empty());
    assert!(parser.parse_and_stream_parameters("nothing", &tools).is_empty());
    assert!(!parser.end_call(&mut out, vec![]));
}

#[test]
fn matches_give_parameters() {
    let tools = vec![tool("f", vec![("zip", of_type("string"))])];
    let matches = vec![
        found(&["", " zip ", "01"]),
        found(&["", "n", "01"]),
        found(&["", "o", "[1, 2]"]),
        found(&["", "zip", "02"]),
    ];
    let whole = MinimaxM2Parser::params_from_matches(&matches, "f", &tools, false);
    assert_eq!(
        whole,
        vec![
            ("zip".to_string(), text("02")),
            ("n".to_string(), number("1")),
            ("o".to_string(), text("[1, 2]")),
        ]
    );
    let streaming = MinimaxM2Parser::params_from_matches(&matches, "f", &tools, true);
    assert_eq!(streaming[2].1, ParamValue::Nested("[1,2]".to_string()));
    let call = MinimaxM2Parser::call_from_params("f".to_string(), &whole);
    assert_eq!(call.function.arguments, "{\"zip\": \"02\", \"n\": 1, \"o\": \"[1, 2]\"}");
    let read = MinimaxM2Parser::parse_parameters("<parameter name=\"k\">v</parameter>", "f", &tools);
    assert_eq!(read, vec![("k".to_string(), text("v"))]);
}

#[test]
fn a_stream_sends_what_a_whole_text_has() {
    let tools = vec![tool("f", vec![("zip", of_type("string"))])];
    let input = "<minimax:tool_call><invoke name=\"f\"><parameter name=\"zip\">0, 1: \"2\"</parameter>\
                 <parameter name=\"b\">true</parameter><parameter name=\"c\">2.50</parameter></invoke>\
                 </minimax:tool_call>";
    let mut parser = MinimaxM2Parser::new();
    let (_, calls) = parser.parse_complete_with_tools(input, &tools).unwrap();
    let all = collect(&mut parser, &[input], &tools);
    assert_eq!(all.args[0], calls[0].function.arguments);
    assert_eq!(all.args[0], "{\"zip\": \"0, 1: \\\"2\\\"\", \"b\": true, \"c\": 2.5}");
}

#[test]
fn written_calls_are_read_back() {
    let tools = vec![tool("f", vec![("zip", of_type("string"))]), tool("g", vec![])];
    let input = "Well <b>\n<minimax:tool_call>\n<invoke name=\" f \">\n\
                 <parameter name=\" zip \">01 &lt;/x></parameter>\n<parameter name=\"n\">2</parameter>\n\
                 </invoke>\n<invoke name=\"g\">\n</invoke>\n</minimax:tool_call>\n\
                 <minimax:tool_call>\n<invoke name=\"h\">\n<parameter name=\"k\"></parameter>\n</invoke>\n\
                 </minimax:tool_call>\n bye </minimax:tool_call>";
    let (before, calls) = MinimaxM2Parser::new().parse_complete_with_tools(input, &tools).unwrap();
    assert_eq!(before, "Well <b>\n");
    let read: Vec<(&str, &str)> =
        calls.iter().map(|c| (c.function.name.as_str(), c.function.arguments.as_str())).collect();
    assert_eq!(
        read,
        vec![("f", "{\"zip\": \"01 </x>\", \"n\": 2}"), ("g", "{}"), ("h", "{\"k\": \"\"}")]
    );
}

#[test]
fn a_call_streams_however_it_is_cut() {
    let tools = vec![tool("f", vec![("zip", of_type("string"))])];
    let input = "<minimax:tool_call>\n<invoke name=\"f\">\n<parameter name=\"zip\">01</parameter>\n\
                 <parameter name=\"n\">2</parameter>\n</invoke>\n</minimax:tool_call>";
    for i in 0..input.len() {
        for j in (i..input.len()).step_by(41) {
            let mut parser = MinimaxM2Parser::new();
            let all = collect(&mut parser, &[&input[..i], &input[i..j], &input[j..]], &tools);
            assert_eq!(all.text, "");
            assert_eq!(all.names, vec!["f"]);
            assert_eq!(all.args[0], "{\"zip\": \"01\", \"n\": 2}");
        }
    }
}

#[test]
fn a_call_without_parameters_sends_its_name_alone() {
    let tools = vec![tool("f", vec![])];
    let mut parser = MinimaxM2Parser::new();
    let out = parser
        .parse_incremental("<minimax:tool_call><invoke name=\"f\"></invoke>", &tools)
        .unwrap();
    assert_eq!(out.calls.len(), 1);
    assert_eq!(out.calls[0].name.as_deref(), Some("f"));
}

#[test]
fn numbers_are_compared_as_they_are() {
    assert!(same_param_value(&number("0.9007199254740993"), &number("0.9007199254740993")));
    assert!(!same_param_value(&number("0.9007199254740993"), &number("0.9007199254740992")));
    assert!(same_param_value(&number("0.0"), &number("-0.0")));
    assert!(!same_param_value(&number("0"), &number("0.0")));
    assert!(!same_param_value(&number("1"), &text("1")));
    let nested = |s: &str| ParamValue::Nested(s.to_string());
    assert!(same_param_value(&nested("{\"a\":1,\"b\":2}"), &nested("{\"b\":2,\"a\":1}")));
    assert!(!same_param_value(&nested("[1]"), &nested("[2]")));
}

#[test]
fn parameters_are_sent_once() {
    let tools = vec![tool("f", vec![])];
    let mut parser = MinimaxM2Parser::new();
    let mut out = parser.parse_incremental("<minimax:tool_call>", &tools).unwrap();
    assert!(parser.step_name(&mut out, &vec![found(&["", "f", ""])], &tools));
    let body = "<parameter name=\"a\">1</parameter><parameter name=\"b\">[{\"x\": 0.1}]</parameter>";
    let first = parser.parse_and_stream_parameters(body, &tools);
    assert_eq!(first.len(), 1);
    assert_eq!(first[0].name, None);
    assert_eq!(first[0].tool_index, 0);
    assert_eq!(first[0].parameters, "{\"a\": 1, \"b\": [{\"x\":0.1}]");
    assert!(parser.parse_and_stream_parameters(body, &tools).is_empty());
    assert!(parser.parse_and_stream_parameters(body, &tools).is_empty());
}

#[test]
fn pieces_carry_the_numbers_of_their_calls() {
    let first = vec![tool("f", vec![]), tool("g", vec![])];
    let second = vec![tool("h", vec![])];
    let feeds = [
        ("a<minimax:tool_call><invoke name=\"f\"><parameter name=\"x\">1</parameter></invoke>", &first),
        ("<invoke name=\"g\"></invoke></minimax:tool_call> b ", &first),
        ("<minimax:tool_call><invoke name=\"h\"><parameter name=\"y\">{}</parameter></inv", &second),
        ("oke></minimax:tool_call>", &second),
    ];
    let mut parser = MinimaxM2Parser::new();
    let mut named = Vec::new();
    for (chunk, tools) in feeds {
        for item in parser.parse_incremental(chunk, tools).unwrap().calls {
            match item.name {
                Some(name) => {
                    assert_eq!(item.tool_index, named.len());
                    assert_eq!(item.parameters, "");
                    assert!(tools.iter().any(|t| t.function.name == name));
                    named.push(name);
                }
                None => {
                    assert_eq!(item.tool_index + 1, named.len());
                    assert_ne!(item.parameters, "");
                }
            }
        }
    }
    assert_eq!(named, vec!["f", "g", "h"]);
}

#[test]
fn numbers_are_printed_with_the_letters_of_numbers() {
    for (given, printed) in [("1e300", "1e+300"), ("-2.50", "-2.5"), ("1e-7", "1e-7"), ("+3", "3")] {
        match MinimaxM2Parser::parse_value(given) {
            ParamValue::Number(n) => {
                assert!(n.chars().all(|c| c.is_ascii_digit() || "+-.e".contains(c)));
                assert_eq!(n, printed);
            }
            other => panic!("{other:?}"),
        }
    }
    let v = MinimaxM2Parser::convert_with_schema("12.50", &types(&["object"]));
    assert_eq!(v, number("12.5"));
    let v = MinimaxM2Parser::convert_with_schema("\"a{b\"", &types(&["object"]));
    assert_eq!(v, text("a{b"));
}

#[test]
fn parameters_need_no_name_that_was_sent() {
    let tools = vec![tool("f", vec![])];
    let mut parser = MinimaxM2Parser::new();
    let call = "<minimax:tool_call><invoke name=\"f\"></invoke>";
    parser.parse_incremental(call, &tools).unwrap();
    let body = "<parameter name=\"a\">1</parameter>";
    let items = parser.parse_and_stream_parameters(body, &tools);
    assert_eq!(items.len(), 1);
    assert_eq!(items[0].tool_index, 1);
    assert_eq!(items[0].parameters, "{\"a\": 1");
    assert!(parser.parse_and_stream_parameters(body, &tools).is_empty());
}
