//! The DeepSeek V3.2 format.

use smg::deepseek::{arguments_from_matches, value_from_json, DeepSeek32Parser};
use smg::json::JsonValue;
use smg::params::ParamValue;
use smg::pattern::Found;
use smg::tool::{Function, Tool};

fn create_test_tools() -> Vec<Tool> {
    ["search", "get_weather", "translate", "process"]
        .iter()
        .map(|name| Tool {
            function: Function { name: name.to_string(), parameters: JsonValue::Object(vec![]) },
        })
        .collect()
}

#[test]
fn test_deepseek32_complete_single_tool() {
    let parser = DeepSeek32Parser::new();

    let input = [
        "Let me check that.\n\n",
        "<｜DSML｜function_calls>\n",
        "<｜DSML｜invoke name=\"get_weather\">\n",
        "<｜DSML｜parameter name=\"location\" string=\"true\">Tokyo</｜DSML｜parameter>\n",
        "<｜DSML｜parameter name=\"units\" string=\"true\">celsius</｜DSML｜parameter>\n",
        "</｜DSML｜invoke>\n",
        "</｜DSML｜function_calls>",
    ]
    .concat();

    let (normal_text, tools) = parser.parse_complete(&input).unwrap();
    assert_eq!(normal_text, "Let me check that.");
    assert_eq!(tools.len(), 1);
    assert_eq!(tools[0].function.name, "get_weather");

    let args: serde_json::Value = serde_json::from_str(&tools[0].function.arguments).unwrap();
    assert_eq!(args["location"], "Tokyo");
    assert_eq!(args["units"], "celsius");
}

#[test]
fn test_deepseek32_complete_multiple_tools() {
    let parser = DeepSeek32Parser::new();

    let input = [
        "<｜DSML｜function_calls>\n",
        "<｜DSML｜invoke name=\"search\">\n",
        "<｜DSML｜parameter name=\"query\" string=\"true\">rust programming</｜DSML｜parameter>\n",
        "</｜DSML｜invoke>\n",
        "<｜DSML｜invoke name=\"translate\">\n",
        "<｜DSML｜parameter name=\"text\" string=\"true\">Hello World</｜DSML｜parameter>\n",
        "<｜DSML｜parameter name=\"to\" string=\"true\">ja</｜DSML｜parameter>\n",
        "</｜DSML｜invoke>\n",
        "</｜DSML｜function_calls>",
    ]
    .concat();

    let (_normal_text, tools) = parser.parse_complete(&input).unwrap();
    assert_eq!(tools.len(), 2);
    assert_eq!(tools[0].function.name, "search");
    assert_eq!(tools[1].function.name, "translate");
}

#[test]
fn test_deepseek32_complete_direct_json() {
    let parser = DeepSeek32Parser::new();

    let input = [
        "<｜DSML｜function_calls>\n",
        "<｜DSML｜invoke name=\"get_weather\">\n",
        "{\"location\": \"Beijing\", \"date\": \"2024-01-16\"}\n",
        "</｜DSML｜invoke>\n",
        "</｜DSML｜function_calls>",
    ]
    .concat();

    let (_normal_text, tools) = parser.parse_complete(&input).unwrap();
    assert_eq!(tools.len(), 1);
    assert_eq!(tools[0].function.name, "get_weather");

    let args: serde_json::Value = serde_json::from_str(&tools[0].function.arguments).unwrap();
    assert_eq!(args["location"], "Beijing");
    assert_eq!(args["date"], "2024-01-16");
}

#[test]
fn test_deepseek32_complete_mixed_types() {
    let parser = DeepSeek32Parser::new();

    let input = [
        "<｜DSML｜function_calls>\n",
        "<｜DSML｜invoke name=\"process\">\n",
        "<｜DSML｜parameter name=\"text\" string=\"true\">hello</｜DSML｜parameter>\n",
        "<｜DSML｜parameter name=\"count\" string=\"false\">42</｜DSML｜parameter>\n",
        "<｜DSML｜parameter name=\"enabled\" string=\"false\">true</｜DSML｜parameter>\n",
        "</｜DSML｜invoke>\n",
        "</｜DSML｜function_calls>",
    ]
    .concat();

    let (_normal_text, tools) = parser.parse_complete(&input).unwrap();
    assert_eq!(tools.len(), 1);

    let args: serde_json::Value = serde_json::from_str(&tools[0].function.arguments).unwrap();
    assert_eq!(args["text"], "hello");
    assert_eq!(args["count"], 42);
    assert_eq!(args["enabled"], true);
}

#[test]
fn test_deepseek32_complete_nested_json_param() {
    let parser = DeepSeek32Parser::new();

    let input = [
        "<｜DSML｜function_calls>\n",
        "<｜DSML｜invoke name=\"process\">\n",
        "<｜DSML｜parameter name=\"data\" string=\"false\">{\"nested\": [1, 2, 3]}</｜DSML｜parameter>\n",
        "</｜DSML｜invoke>\n",
        "</｜DSML｜function_calls>",
    ]
    .concat();

    let (_normal_text, tools) = parser.parse_complete(&input).unwrap();
    assert_eq!(tools.len(), 1);

    let args: serde_json::Value = serde_json::from_str(&tools[0].function.arguments).unwrap();
    assert!(args["data"]["nested"].is_array());
}

#[test]
fn test_deepseek32_complete_malformed_skips() {
    let parser = DeepSeek32Parser::new();

    let input = [
        "<｜DSML｜function_calls>\n",
        "<｜DSML｜invoke name=\"search\">\n",
        "not valid at all\n",
        "</｜DSML｜invoke>\n",
        "<｜DSML｜invoke name=\"translate\">\n",
        "<｜DSML｜parameter name=\"text\" string=\"true\">hello</｜DSML｜parameter>\n",
        "<｜DSML｜parameter name=\"to\" string=\"true\">ja</｜DSML｜parameter>\n",
        "</｜DSML｜invoke>\n",
        "</｜DSML｜function_calls>",
    ]
    .concat();

    let (_normal_text, tools) = parser.parse_complete(&input).unwrap();
    assert!(!tools.is_empty());
    assert!(tools.iter().any(|t| t.function.name == "translate"));
}

#[test]
fn test_deepseek32_format_detection() {
    let parser = DeepSeek32Parser::new();

    assert!(parser.has_tool_markers("<｜DSML｜function_calls>"));
    assert!(parser.has_tool_markers("text with <｜DSML｜function_calls> marker"));

    assert!(!parser.has_tool_markers("<｜tool▁calls▁begin｜>"));
    assert!(!parser.has_tool_markers("[TOOL_CALLS]"));
    assert!(!parser.has_tool_markers("plain text"));
}

#[test]
fn test_deepseek32_no_tool_calls() {
    let parser = DeepSeek32Parser::new();

    let input = "Just a normal response.";
    let (normal_text, tools) = parser.parse_complete(input).unwrap();
    assert_eq!(normal_text, input);
    assert!(tools.is_empty());
}

#[test]
fn test_deepseek32_streaming_single_tool() {
    let tools = create_test_tools();
    let mut parser = DeepSeek32Parser::new();

    let chunks = vec![
        "<｜DSML｜function_calls>\n",
        "<｜DSML｜invoke name=\"get_weather\">\n",
        "<｜DSML｜parameter name=\"location\" string=\"true\">",
        "Beijing",
        "</｜DSML｜parameter>\n",
        "<｜DSML｜parameter name=\"units\" string=\"true\">",
        "celsius",
        "</｜DSML｜parameter>\n",
        "</｜DSML｜invoke>\n",
        "</｜DSML｜function_calls>",
    ];

    let mut found_name = false;
    let mut collected_args = String::new();

    for chunk in chunks {
        let result = parser.parse_incremental(chunk, &tools).unwrap();
        for call in result.calls {
            if let Some(name) = call.name {
                assert_eq!(name, "get_weather");
                found_name = true;
            }
            if !call.parameters.is_empty() {
                collected_args.push_str(&call.parameters);
            }
        }
    }

    assert!(found_name, "Should have found tool name during streaming");
    assert!(!collected_args.is_empty(), "Should have streamed arguments");
    assert_eq!(collected_args, "{\"location\":\"Beijing\",\"units\":\"celsius\"}");
}

#[test]
fn test_deepseek32_streaming_multiple_tools() {
    let tools = create_test_tools();
    let mut parser = DeepSeek32Parser::new();

    let chunks = vec![
        "<｜DSML｜function_calls>\n",
        "<｜DSML｜invoke name=\"search\">\n",
        "<｜DSML｜parameter name=\"query\" string=\"true\">rust</｜DSML｜parameter>\n",
        "</｜DSML｜invoke>\n",
        "<｜DSML｜invoke name=\"get_weather\">\n",
        "<｜DSML｜parameter name=\"location\" string=\"true\">Tokyo</｜DSML｜parameter>\n",
        "</｜DSML｜invoke>\n",
        "</｜DSML｜function_calls>",
    ];

    let mut tool_names: Vec<String> = Vec::new();

    for chunk in chunks {
        let result = parser.parse_incremental(chunk, &tools).unwrap();
        for call in result.calls {
            if let Some(name) = call.name {
                tool_names.push(name);
            }
        }
    }

    assert_eq!(tool_names, vec!["search", "get_weather"]);
}

#[test]
fn test_deepseek32_streaming_text_before_tools() {
    let tools = create_test_tools();
    let mut parser = DeepSeek32Parser::new();

    let chunks = vec![
        "Here is ",
        "the result\n\n",
        "<｜DSML｜function_calls>\n",
        "<｜DSML｜invoke name=\"search\">\n",
        "<｜DSML｜parameter name=\"query\" string=\"true\">test</｜DSML｜parameter>\n",
        "</｜DSML｜invoke>\n",
        "</｜DSML｜function_calls>",
    ];

    let mut normal_text = String::new();
    let mut found_tool = false;

    for chunk in chunks {
        let result = parser.parse_incremental(chunk, &tools).unwrap();
        normal_text.push_str(&result.normal_text);
        for call in result.calls {
            if call.name.is_some() {
                found_tool = true;
            }
        }
    }

    assert!(normal_text.contains("Here is the result"));
    assert!(found_tool);
    assert_eq!(normal_text, "Here is the result\n\n");
}

#[test]
fn test_deepseek32_streaming_end_tokens_stripped() {
    let tools = create_test_tools();
    let mut parser = DeepSeek32Parser::new();

    let result = parser.parse_incremental("</｜DSML｜function_calls>", &tools).unwrap();
    assert!(!result.normal_text.contains("</｜DSML｜function_calls>"));
    assert_eq!(result.normal_text, "");
}

#[test]
fn arguments_of_whole_bodies() {
    let parser = DeepSeek32Parser::new();
    let body = "<｜DSML｜parameter name=\"a\" string=\"true\"> x </｜DSML｜parameter>\
                <｜DSML｜parameter name=\"b\" string=\"false\"> [1, 2] </｜DSML｜parameter>\
                <｜DSML｜parameter name=\"c\" string=\"false\">nope</｜DSML｜parameter>";
    assert_eq!(
        parser.parse_parameters_from_dsml(body, false),
        "{\"a\":\" x \",\"b\":[1,2],\"c\":\"nope\"}"
    );
    assert_eq!(parser.parse_parameters_from_dsml("  {\"a\": 1}\n", false), "{\"a\": 1}");
    assert_eq!(parser.parse_parameters_from_dsml(" {\"a\": 1 ", false), "{\"a\": 1");
    assert_eq!(parser.parse_parameters_from_dsml("nothing", false), "{}");
}

#[test]
fn arguments_of_cut_bodies() {
    let parser = DeepSeek32Parser::new();
    let open = "<｜DSML｜parameter name=\"a\" string=\"true\">Bei";
    assert_eq!(parser.parse_parameters_from_dsml(open, true), "{\"a\":\"Bei\"}");
    assert_eq!(parser.parse_parameters_from_dsml(open, false), "{}");
    for cut in ["</", "</｜", "</｜DSML｜", "</｜DSML｜para", "</｜DSML｜invok", "</｜DSML｜parameter"] {
        let body = [open, " ", cut].concat();
        assert_eq!(parser.parse_parameters_from_dsml(&body, true), "{\"a\":\"Bei\"}");
    }
    assert_eq!(parser.parse_parameters_from_dsml("{\"a\": 1</｜DSML｜inv", true), "{\"a\": 1");
    let number = "<｜DSML｜parameter name=\"n\" string=\"false\">4";
    assert_eq!(parser.parse_parameters_from_dsml(number, true), "{\"n\":4}");
    let empty = "<｜DSML｜parameter name=\"n\" string=\"true\"> </";
    assert_eq!(parser.parse_parameters_from_dsml(empty, true), "{}");
}

#[test]
fn a_cut_parameter_follows_whole_ones() {
    let parser = DeepSeek32Parser::new();
    let whole = "<｜DSML｜parameter name=\"a\" string=\"true\">1</｜DSML｜parameter>\
                 <｜DSML｜parameter name=\"n\" string=\"false\">2</｜DSML｜parameter>\n";
    let body = [whole, "<｜DSML｜parameter name=\"b\" string=\"true\">2"].concat();
    assert_eq!(parser.parse_parameters_from_dsml(&body, true), "{\"a\":\"1\",\"n\":2,\"b\":\"2\"}");
    assert_eq!(parser.parse_parameters_from_dsml(&body, false), "{\"a\":\"1\",\"n\":2}");
    assert_eq!(parser.parse_parameters_from_dsml(whole, true), "{\"a\":\"1\",\"n\":2}");
    let again = [whole, "<｜DSML｜parameter name=\"a\" string=\"true\">3</｜DS"].concat();
    assert_eq!(parser.parse_parameters_from_dsml(&again, true), "{\"a\":\"1\",\"n\":2}");
}

#[test]
fn a_whole_parameter_comes_before_a_cut_one_of_its_name() {
    let found = Found {
        before: String::new(),
        groups: ["", "a", "true", "one"].iter().map(|s| s.to_string()).collect(),
    };
    let open = Found {
        before: String::new(),
        groups: ["", "a", "true", "two"].iter().map(|s| s.to_string()).collect(),
    };
    let other = Found {
        before: String::new(),
        groups: ["", "b", "false", "3"].iter().map(|s| s.to_string()).collect(),
    };
    assert_eq!(arguments_from_matches("", &vec![found], &vec![open], true), "{\"a\":\"one\"}");
    assert_eq!(arguments_from_matches("", &vec![], &vec![other], true), "{\"b\":3}");
}

#[test]
fn an_invocation_makes_a_call() {
    let parser = DeepSeek32Parser::default();
    let call = parser.parse_invoke(" f ", "{}");
    assert_eq!(call.function.name, "f");
    assert_eq!(call.function.arguments, "{}");
}

#[test]
fn a_block_without_invocations_is_text() {
    let parser = DeepSeek32Parser::new();
    let input = "a <｜DSML｜function_calls> b </｜DSML｜function_calls>";
    let (text, calls) = parser.parse_complete(input).unwrap();
    assert_eq!(text, input);
    assert!(calls.is_empty());
}

#[test]
fn closing_tags_that_are_cut_are_not_shown() {
    let mut parser = DeepSeek32Parser::new();
    let first = parser.parse_incremental("a </｜DSML｜func", &[]).unwrap();
    assert_eq!(first.normal_text, "a ");
    let second = parser.parse_incremental("tion_calls> b </｜DSML｜invoke> c", &[]).unwrap();
    assert_eq!(second.normal_text, " b  c");
}

#[test]
fn text_between_blocks_is_shown() {
    let tools = create_test_tools();
    let mut parser = DeepSeek32Parser::new();
    let block = "<｜DSML｜function_calls><｜DSML｜invoke name=\"search\">{\"q\": 1}</｜DSML｜invoke>\n</｜DSML｜function_calls>";
    let input = ["one ", block, " two ", block, " three"].concat();
    let result = parser.parse_incremental(&input, &tools).unwrap();
    assert_eq!(result.normal_text, "one  two  three");
    let args: Vec<&str> = result
        .calls
        .iter()
        .filter(|c| c.name.is_none())
        .map(|c| c.parameters.as_str())
        .collect();
    assert_eq!(args, vec!["{\"q\": 1}", "{\"q\": 1}"]);
    assert_eq!(result.calls[2].tool_index, 1);
}

#[test]
fn unknown_tools_are_passed_over() {
    let tools = create_test_tools();
    let mut parser = DeepSeek32Parser::new();
    let chunks = [
        "<｜DSML｜function_calls><｜DSML｜invoke name=\"other\">{}",
        "</｜DSML｜invoke><｜DSML｜invoke name=\"search\">{}</｜DSML｜invoke></｜DSML｜function_calls>!",
    ];
    let first = parser.parse_incremental(chunks[0], &tools).unwrap();
    assert!(first.calls.is_empty());
    let second = parser.parse_incremental(chunks[1], &tools).unwrap();
    assert_eq!(second.calls.len(), 2);
    assert_eq!(second.calls[0].name.as_deref(), Some("search"));
    assert_eq!(second.calls[1].parameters, "{}");
    assert_eq!(second.normal_text, "!");
}

#[test]
fn what_is_left_of_a_cut_call_can_be_had() {
    let tools = create_test_tools();
    let mut parser = DeepSeek32Parser::new();
    let chunk = "<｜DSML｜function_calls><｜DSML｜invoke name=\"search\">\
                 <｜DSML｜parameter name=\"a\" string=\"true\">x</｜DSML｜parameter>\
                 <｜DSML｜parameter name=\"b\" string=\"true\">y";
    let result = parser.parse_incremental(chunk, &tools).unwrap();
    assert_eq!(result.calls.len(), 2);
    assert_eq!(result.calls[1].parameters, "{\"a\":\"x\"");
    let rest = parser.get_unstreamed_tool_args().unwrap();
    assert_eq!(rest.len(), 1);
    assert_eq!(rest[0].tool_index, 0);
    assert_eq!(rest[0].parameters, ",\"b\":\"y\"}");
    parser.reset();
    let open = "<｜DSML｜function_calls><｜DSML｜invoke name=\"search\">\
                <｜DSML｜parameter name=\"b\" string=\"true\">y";
    parser.parse_incremental(open, &tools).unwrap();
    let cut = parser.get_unstreamed_tool_args().unwrap();
    assert_eq!(cut[0].parameters, "{\"b\":\"y\"}");
    parser.reset();
    assert!(parser.get_unstreamed_tool_args().is_none());
    let plain = parser.parse_incremental("plain", &tools).unwrap();
    assert_eq!(plain.normal_text, "plain");
}

#[test]
fn quotes_in_values_are_escaped() {
    let parser = DeepSeek32Parser::new();
    let body = "<｜DSML｜parameter name=\"a\" string=\"true\">say \"hi\"\n</｜DSML｜parameter>";
    assert_eq!(parser.parse_parameters_from_dsml(body, false), "{\"a\":\"say \\\"hi\\\"\\n\"}");
}

#[test]
fn declared_strings_are_kept() {
    let text = |s: &str| ParamValue::Text(s.to_string());
    assert_eq!(value_from_json("true", "1", Some(ParamValue::Number("1".to_string()))), text("1"));
    assert_eq!(value_from_json("false", "1", Some(ParamValue::Null)), ParamValue::Null);
    assert_eq!(value_from_json("false", "1", None), text("1"));
}

#[test]
fn written_dsml_calls_are_read_back() {
    let input = [
        "So \n ",
        "<｜DSML｜function_calls>\n",
        "<｜DSML｜invoke name=\" search \">\n",
        "<｜DSML｜parameter name=\"q\" string=\"true\"> 1 <2 </｜DSML｜parameter>\n",
        "<｜DSML｜parameter name=\"n\" string=\"false\"> 3 </｜DSML｜parameter>\n",
        "<｜DSML｜parameter name=\"x\" string=\"false\">no</｜DSML｜parameter>\n",
        "</｜DSML｜invoke>\n<｜DSML｜invoke name=\"process\">\n</｜DSML｜invoke>\n",
        "</｜DSML｜function_calls>\n",
        "<｜DSML｜function_calls>\n<｜DSML｜invoke name=\"other\">\n</｜DSML｜invoke>\n</｜DSML｜function_calls>\n",
        "bye",
    ]
    .concat();
    let (before, calls) = DeepSeek32Parser::new().parse_complete(&input).unwrap();
    assert_eq!(before, "So");
    let read: Vec<(&str, &str)> =
        calls.iter().map(|c| (c.function.name.as_str(), c.function.arguments.as_str())).collect();
    assert_eq!(
        read,
        vec![("search", "{\"q\":\" 1 <2 \",\"n\":3,\"x\":\"no\"}"), ("process", "{}"), ("other", "{}")]
    );
}

#[test]
fn a_dsml_call_streams_however_it_is_cut() {
    let tools = create_test_tools();
    let input = [
        "<｜DSML｜function_calls>\n<｜DSML｜invoke name=\"search\">\n",
        "<｜DSML｜parameter name=\"q\" string=\"true\">a\"b</｜DSML｜parameter>\n",
        "<｜DSML｜parameter name=\"n\" string=\"false\">3</｜DSML｜parameter>\n",
        "</｜DSML｜invoke>\n</｜DSML｜function_calls>",
    ]
    .concat();
    let (_, calls) = DeepSeek32Parser::new().parse_complete(&input).unwrap();
    let chars: Vec<char> = input.chars().collect();
    for i in (0..chars.len()).step_by(3) {
        for j in (i..chars.len()).step_by(61) {
            let mut parser = DeepSeek32Parser::new();
            let mut names = Vec::new();
            let mut args = String::new();
            for part in [&chars[..i], &chars[i..j], &chars[j..]] {
                let chunk: String = part.iter().collect();
                let out = parser.parse_incremental(&chunk, &tools).unwrap();
                for item in out.calls {
                    assert_eq!(item.tool_index, 0);
                    names.extend(item.name);
                    args.push_str(&item.parameters);
                }
            }
            assert_eq!(names, vec!["search".to_string()]);
            assert_eq!(args, calls[0].function.arguments);
        }
    }
}
