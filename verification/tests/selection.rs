//! The choice of parsers, and constrained output.

use smg::json::JsonValue;
use smg::selection::{
    check_reasoning_parser_availability, check_tool_parser_availability, create_reasoning_parser,
    create_tool_parser, extract_thinking_from_kwargs, fallback_lookup, get_reasoning_parser,
    get_tool_parser, has_constrained_output, parser_lookup, should_mark_reasoning_started,
    FunctionChoice, JsonSchemaFormat, ParserLookup, ResponseFormat, ThinkingKeyName, ThinkingToggle,
    ToolChoice, ToolChoiceValue, ToolReference,
};

fn object_schema() -> JsonValue {
    JsonValue::Object(vec![("type".to_string(), JsonValue::Text("object".to_string()))])
}

#[test]
fn no_tool_choice_no_response_format_is_unconstrained() {
    assert!(!has_constrained_output(None, None));
}

#[test]
fn tool_choice_auto_is_unconstrained() {
    let tc = ToolChoice::Value(ToolChoiceValue::Auto);
    assert!(!has_constrained_output(Some(&tc), None));
}

#[test]
fn tool_choice_none_is_unconstrained() {
    let tc = ToolChoice::Value(ToolChoiceValue::Never);
    assert!(!has_constrained_output(Some(&tc), None));
}

#[test]
fn tool_choice_required_is_constrained() {
    let tc = ToolChoice::Value(ToolChoiceValue::Required);
    assert!(has_constrained_output(Some(&tc), None));
}

#[test]
fn tool_choice_specific_function_is_constrained() {
    let tc = ToolChoice::Function {
        tool_type: "function".to_string(),
        function: FunctionChoice { name: "get_weather".to_string() },
    };
    assert!(has_constrained_output(Some(&tc), None));
}

#[test]
fn allowed_tools_required_is_constrained() {
    let tc = ToolChoice::AllowedTools {
        tool_type: "allowed_tools".to_string(),
        mode: "required".to_string(),
        tools: vec![ToolReference::Function { name: "search".to_string() }],
    };
    assert!(has_constrained_output(Some(&tc), None));
}

#[test]
fn allowed_tools_auto_is_unconstrained() {
    let tc = ToolChoice::AllowedTools {
        tool_type: "allowed_tools".to_string(),
        mode: "auto".to_string(),
        tools: vec![ToolReference::Function { name: "search".to_string() }],
    };
    assert!(!has_constrained_output(Some(&tc), None));
}

#[test]
fn response_format_text_is_unconstrained() {
    assert!(!has_constrained_output(None, Some(&ResponseFormat::Text)));
}

#[test]
fn response_format_json_object_is_constrained() {
    assert!(has_constrained_output(None, Some(&ResponseFormat::JsonObject)));
}

#[test]
fn response_format_json_schema_is_constrained() {
    let rf = ResponseFormat::JsonSchema {
        json_schema: JsonSchemaFormat {
            name: "feedback".to_string(),
            schema: object_schema(),
            strict: Some(true),
        },
    };
    assert!(has_constrained_output(None, Some(&rf)));
}

#[test]
fn tool_choice_auto_with_json_object_is_constrained() {
    let tc = ToolChoice::Value(ToolChoiceValue::Auto);
    assert!(has_constrained_output(Some(&tc), Some(&ResponseFormat::JsonObject)));
}

#[test]
fn tool_choice_auto_with_text_format_is_unconstrained() {
    let tc = ToolChoice::Value(ToolChoiceValue::Auto);
    assert!(!has_constrained_output(Some(&tc), Some(&ResponseFormat::Text)));
}

#[test]
fn tool_choice_required_with_json_schema_both_constrain() {
    let tc = ToolChoice::Value(ToolChoiceValue::Required);
    let rf = ResponseFormat::JsonSchema {
        json_schema: JsonSchemaFormat {
            name: "output".to_string(),
            schema: object_schema(),
            strict: None,
        },
    };
    assert!(has_constrained_output(Some(&tc), Some(&rf)));
}

#[test]
fn tool_choice_none_with_json_object_is_constrained_via_format() {
    let tc = ToolChoice::Value(ToolChoiceValue::Never);
    assert!(has_constrained_output(Some(&tc), Some(&ResponseFormat::JsonObject)));
}

#[test]
fn a_regular_expression_is_no_json() {
    let rf = ResponseFormat::Regex { pattern: "[a-z]+".to_string() };
    assert!(!has_constrained_output(None, Some(&rf)));
    let required = ToolChoice::Value(ToolChoiceValue::Required);
    assert!(has_constrained_output(Some(&required), Some(&rf)));
}

#[test]
fn wishes_are_followed_where_there_is_a_toggle() {
    for on in [true, false] {
        assert_eq!(should_mark_reasoning_started(Some(on), ThinkingToggle::DefaultOn), on);
        assert_eq!(should_mark_reasoning_started(Some(on), ThinkingToggle::DefaultOff), on);
        assert!(!should_mark_reasoning_started(Some(on), ThinkingToggle::Absent));
    }
    assert!(should_mark_reasoning_started(None, ThinkingToggle::DefaultOn));
    assert!(!should_mark_reasoning_started(None, ThinkingToggle::DefaultOff));
    assert!(!should_mark_reasoning_started(None, ThinkingToggle::Absent));
}

#[test]
fn only_the_keyword_of_the_template_is_looked_at() {
    let kwargs = vec![
        ("thinking".to_string(), JsonValue::Bool(true)),
        ("enable_thinking".to_string(), JsonValue::Text("true".to_string())),
    ];
    assert_eq!(extract_thinking_from_kwargs(Some(&kwargs), Some(ThinkingKeyName::Thinking)), Some(true));
    assert_eq!(extract_thinking_from_kwargs(Some(&kwargs), Some(ThinkingKeyName::EnableThinking)), None);
    assert_eq!(extract_thinking_from_kwargs(Some(&kwargs), None), None);
    assert_eq!(extract_thinking_from_kwargs(None, Some(ThinkingKeyName::Thinking)), None);
}

#[test]
fn configured_parsers_come_first() {
    assert_eq!(get_reasoning_parser(Some("r1"), Some(1), 2), 1);
    assert_eq!(get_reasoning_parser(Some("r1"), None, 2), 2);
    assert_eq!(get_reasoning_parser(None, None, 2), 2);
    assert_eq!(get_tool_parser(Some("json"), Some(1), 2), 1);
    assert_eq!(get_tool_parser(Some("json"), None, 2), 2);
    assert_eq!(create_reasoning_parser(Some("r1"), Some(1), None), Some(1));
    assert_eq!(create_reasoning_parser::<i32>(Some("r1"), None, None), None);
    assert_eq!(create_tool_parser(Some("json"), None, Some(2)), Some(2));
    assert_eq!(create_tool_parser(None, None, Some(2)), Some(2));
}

#[test]
fn availability_follows_the_configuration() {
    assert!(check_reasoning_parser_availability(Some("r1"), true, false));
    assert!(!check_reasoning_parser_availability(Some("r1"), false, true));
    assert!(check_reasoning_parser_availability(None, false, true));
    assert!(check_tool_parser_availability(Some("json"), true, false));
    assert!(!check_tool_parser_availability(None, true, false));
}

#[test]
fn lookups_name_the_parser_or_the_model() {
    assert_eq!(parser_lookup(Some("json"), "m"), ParserLookup::ByName("json".to_string()));
    assert_eq!(parser_lookup(None, "m"), ParserLookup::ByModel("m".to_string()));
    assert_eq!(fallback_lookup(Some("json"), "m", false), Some(ParserLookup::ByModel("m".to_string())));
    assert_eq!(fallback_lookup(Some("json"), "m", true), None);
    assert_eq!(fallback_lookup(None, "m", false), None);
}
