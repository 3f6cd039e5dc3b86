//! The history before the input of a request.

use smg::history::{
    append_current_input, approval_request_to_call_id, deserialize_upstream_input_items,
    deserialize_upstream_output_items_from_array, extract_mcp_approval_requests_from_array,
    extract_mcp_list_tools_labels, generate_id, id_from_bytes, mcp_call_output_to_upstream_items,
    mcp_item_id_to_prefixed_id, normalize_input_item, normalize_with_id, sanitize_input_for_upstream,
    upstream_input_items_from_value, upstream_output_items_from_value, ContentPart, InputItem, RawItem,
    RawItems, ResponseInput, SimpleContent,
};
use smg::json::JsonValue;
use smg::loader::{
    conversation_items, ChainReply, ConversationReply, HistoryAction, HistoryError, InputHistoryLoader,
    StoredItem, StoredResponse,
};

fn text(s: &str) -> JsonValue {
    JsonValue::Text(s.to_string())
}

fn object(members: Vec<(&str, JsonValue)>) -> JsonValue {
    JsonValue::Object(members.into_iter().map(|(k, v)| (k.to_string(), v)).collect())
}

fn simple(role: &str, s: &str) -> InputItem {
    InputItem::SimpleInputMessage {
        role: role.to_string(),
        content: SimpleContent::Text(s.to_string()),
    }
}

fn other(json: &str) -> InputItem {
    InputItem::Other { json: json.to_string() }
}

fn request(json: &str) -> InputItem {
    InputItem::McpApprovalRequest { json: json.to_string() }
}

fn answer(json: &str) -> InputItem {
    InputItem::McpApprovalResponse { json: json.to_string() }
}

fn message(id: &str, role: &str, s: &str) -> InputItem {
    InputItem::Message {
        id: id.to_string(),
        role: role.to_string(),
        content: vec![ContentPart::InputText { text: s.to_string() }],
        status: Some("completed".to_string()),
    }
}

fn id_of(item: &InputItem) -> String {
    match item {
        InputItem::Message { id, .. } => id.clone(),
        _ => panic!("no message: {item:?}"),
    }
}

fn raw(kind: &str, parsed: Option<InputItem>) -> RawItem {
    RawItem { value: object(vec![("type", text(kind))]), parsed }
}

fn mcp_call(id: &str) -> JsonValue {
    object(vec![
        ("type", text("mcp_call")),
        ("id", text(id)),
        ("name", text("look")),
        ("arguments", text("{\"a\":1}")),
        ("output", text("seen")),
    ])
}

#[test]
fn identifiers_are_random_digits_behind_a_prefix() {
    let id = generate_id("msg");
    assert_eq!(id.len(), 54);
    assert!(id.starts_with("msg_"));
    assert!(id[4..].chars().all(|c| c.is_ascii_digit() || ('a'..='f').contains(&c)));
    assert_ne!(id, generate_id("msg"));
    assert_eq!(id_from_bytes("x", &vec![0, 9, 10, 255, 0x1f]), "x_00090aff1f");
}

#[test]
fn short_messages_become_whole_ones() {
    let form = normalize_input_item(&simple("user", "hi"));
    let id = id_of(&form);
    assert_eq!(form, message(&id, "user", "hi"));
    assert!(id.starts_with("msg_"));
    let parts = InputItem::SimpleInputMessage {
        role: "assistant".to_string(),
        content: SimpleContent::Parts(vec![ContentPart::Other { json: "{}".to_string() }]),
    };
    let whole = normalize_with_id(&parts, "m1".to_string());
    assert_eq!(
        whole,
        InputItem::Message {
            id: "m1".to_string(),
            role: "assistant".to_string(),
            content: vec![ContentPart::Other { json: "{}".to_string() }],
            status: Some("completed".to_string()),
        }
    );
    assert_eq!(normalize_input_item(&form), form);
    assert_eq!(normalize_input_item(&other("{}")), other("{}"));
}

#[test]
fn approvals_are_not_sent_on() {
    let input = ResponseInput::Items(vec![
        other("1"),
        request("2"),
        simple("user", "three"),
        answer("4"),
        other("5"),
    ]);
    match sanitize_input_for_upstream(&input) {
        ResponseInput::Items(items) => {
            assert_eq!(items.len(), 3);
            assert_eq!(items[0], other("1"));
            assert_eq!(items[1], message(&id_of(&items[1]), "user", "three"));
            assert_eq!(items[2], other("5"));
        }
        ResponseInput::Text(t) => panic!("text: {t}"),
    }
    let plain = ResponseInput::Text("hello".to_string());
    assert_eq!(sanitize_input_for_upstream(&plain), plain);
}

#[test]
fn the_input_goes_behind_the_history() {
    let mut items = vec![other("1")];
    append_current_input(&mut items, &ResponseInput::Text("now".to_string()), "resp_7");
    assert_eq!(items, vec![other("1"), message("msg_u_resp_7", "user", "now")]);
    append_current_input(&mut items, &ResponseInput::Items(vec![simple("user", "x"), request("r")]), "s");
    assert_eq!(items.len(), 4);
    assert_eq!(items[2], message(&id_of(&items[2]), "user", "x"));
    assert_eq!(items[3], request("r"));
}

#[test]
fn identifiers_change_their_prefix() {
    assert_eq!(mcp_item_id_to_prefixed_id("mcp_12", "fc_"), "fc_12");
    assert_eq!(mcp_item_id_to_prefixed_id("mcpr_12", "fc_"), "fc_12");
    assert_eq!(mcp_item_id_to_prefixed_id("12", "fc_"), "fc_12");
    assert_eq!(approval_request_to_call_id("mcpr_12"), "call_12");
    assert_eq!(approval_request_to_call_id("mcp_12"), "call_12");
    assert_eq!(approval_request_to_call_id("12"), "call_12");
}

#[test]
fn a_call_of_an_mcp_tool_is_a_call_and_its_output() {
    let items = mcp_call_output_to_upstream_items(&mcp_call("mcp_9"));
    assert_eq!(
        items,
        vec![
            InputItem::FunctionToolCall {
                id: "fc_9".to_string(),
                call_id: "call_9".to_string(),
                name: "look".to_string(),
                arguments: "{\"a\":1}".to_string(),
                output: None,
                status: Some("completed".to_string()),
            },
            InputItem::FunctionCallOutput {
                id: None,
                call_id: "call_9".to_string(),
                output: "seen".to_string(),
                status: Some("completed".to_string()),
            },
        ]
    );
}

#[test]
fn outputs_that_are_no_text_are_json() {
    let call = |output: Option<JsonValue>| {
        let mut members = vec![
            ("id", text("mcp_9")),
            ("name", text("look")),
            ("arguments", text("{}")),
            ("approval_request_id", text("mcpr_4")),
        ];
        if let Some(value) = output {
            members.push(("output", value));
        }
        match &mcp_call_output_to_upstream_items(&object(members))[1] {
            InputItem::FunctionCallOutput { output, call_id, .. } => (call_id.clone(), output.clone()),
            item => panic!("no output: {item:?}"),
        }
    };
    assert_eq!(call(None), ("call_4".to_string(), "null".to_string()));
    assert_eq!(call(Some(JsonValue::Null)).1, "null");
    let nested = object(vec![("a", JsonValue::Array(vec![JsonValue::Bool(true), text("x\"y")]))]);
    assert_eq!(call(Some(nested)).1, "{\"a\":[true,\"x\\\"y\"]}");
    assert_eq!(call(Some(JsonValue::Integer("12".to_string()))).1, "12");
}

#[test]
fn calls_with_parts_missing_are_left_out() {
    for missing in ["id", "name", "arguments"] {
        let members: Vec<(&str, JsonValue)> =
            vec![("id", text("1")), ("name", text("n")), ("arguments", text("{}"))]
                .into_iter()
                .filter(|(k, _)| *k != missing)
                .collect();
        assert!(mcp_call_output_to_upstream_items(&object(members)).is_empty());
    }
}

#[test]
fn stored_items_are_sent_on_by_their_type() {
    assert!(upstream_input_items_from_value(&raw("x", None)).is_empty());
    assert!(upstream_input_items_from_value(&raw("x", Some(request("r")))).is_empty());
    assert_eq!(upstream_input_items_from_value(&raw("x", Some(other("o")))), vec![other("o")]);
    assert!(upstream_output_items_from_value(&raw("mcp_list_tools", Some(other("o")))).is_empty());
    assert!(upstream_output_items_from_value(&raw("mcp_approval_request", Some(request("r")))).is_empty());
    let call = RawItem { value: mcp_call("mcp_1"), parsed: None };
    assert_eq!(upstream_output_items_from_value(&call).len(), 2);
    assert_eq!(upstream_output_items_from_value(&raw("reasoning", Some(other("o")))), vec![other("o")]);
}

#[test]
fn stored_inputs_and_outputs_are_sent_on() {
    let from_text = deserialize_upstream_input_items(&RawItems::Text("hi".to_string()));
    assert_eq!(from_text, vec![message(&id_of(&from_text[0]), "user", "hi")]);
    assert!(deserialize_upstream_input_items(&RawItems::Other).is_empty());
    let array = RawItems::Array(vec![raw("x", Some(other("1"))), raw("x", None), raw("x", Some(other("2")))]);
    assert_eq!(deserialize_upstream_input_items(&array), vec![other("1"), other("2")]);
    assert_eq!(deserialize_upstream_output_items_from_array(&array), vec![other("1"), other("2")]);
    let none = RawItems::Text("hi".to_string());
    assert!(deserialize_upstream_output_items_from_array(&none).is_empty());
}

#[test]
fn labels_and_requests_are_picked_out() {
    let output = RawItems::Array(vec![
        RawItem {
            value: object(vec![("type", text("mcp_list_tools")), ("server_label", text("a"))]),
            parsed: None,
        },
        RawItem { value: object(vec![("type", text("mcp_list_tools"))]), parsed: None },
        RawItem {
            value: object(vec![("type", text("other")), ("server_label", text("b"))]),
            parsed: None,
        },
        raw("mcp_approval_request", Some(request("r"))),
        raw("mcp_approval_request", None),
    ]);
    assert_eq!(extract_mcp_list_tools_labels(&output), vec!["a"]);
    assert!(extract_mcp_list_tools_labels(&RawItems::Other).is_empty());
    assert_eq!(extract_mcp_approval_requests_from_array(&output), vec![request("r")]);
}

fn stored(kind: &str, parts: Option<Vec<ContentPart>>, item: Option<InputItem>) -> StoredItem {
    StoredItem {
        item_type: kind.to_string(),
        id: "i1".to_string(),
        role: None,
        status: None,
        parts,
        item,
    }
}

#[test]
fn items_of_a_conversation_are_sent_on_by_their_type() {
    let parts = || Some(vec![ContentPart::InputText { text: "hi".to_string() }]);
    let items = conversation_items(vec![
        stored("message", parts(), None),
        stored("message", None, Some(other("no"))),
        stored("function_call", None, Some(other("call"))),
        stored("function_call_output", parts(), Some(other("result"))),
        stored("function_call", None, None),
        stored("reasoning", parts(), Some(other("no"))),
        stored("strange", parts(), Some(other("no"))),
    ]);
    assert_eq!(
        items,
        vec![
            InputItem::Message {
                id: "i1".to_string(),
                role: "user".to_string(),
                content: parts().unwrap(),
                status: None,
            },
            other("call"),
            other("result"),
        ]
    );
}

fn chain() -> Vec<StoredResponse> {
    let labelled = |label: &str| RawItem {
        value: object(vec![("type", text("mcp_list_tools")), ("server_label", text(label))]),
        parsed: None,
    };
    vec![
        StoredResponse {
            input: RawItems::Array(vec![raw("x", Some(other("in1")))]),
            output: RawItems::Array(vec![labelled("a"), raw("x", Some(other("out1")))]),
        },
        StoredResponse {
            input: RawItems::Array(vec![raw("x", Some(other("in2")))]),
            output: RawItems::Array(vec![
                labelled("a"),
                labelled("b"),
                raw("mcp_approval_request", Some(request("r"))),
                raw("x", Some(other("out2"))),
            ]),
        },
    ]
}

#[test]
fn a_chain_goes_before_the_input() {
    let input = ResponseInput::Text("now".to_string());
    let mut loader = InputHistoryLoader::new(Some("resp_1".to_string()), None, input);
    assert_eq!(loader.first(), HistoryAction::LoadChain { response_id: "resp_1".to_string() });
    assert_eq!(loader.on_chain(ChainReply::Found(chain())), HistoryAction::Finish);
    let (history, input) = loader.finish();
    assert_eq!(history.previous_response_id.as_deref(), Some("resp_1"));
    assert_eq!(history.existing_mcp_list_tools_labels, vec!["a", "b"]);
    assert_eq!(history.prior_mcp_approval_requests, vec![request("r")]);
    assert_eq!(
        input,
        ResponseInput::Items(vec![
            other("in1"),
            other("out1"),
            other("in2"),
            other("out2"),
            message("msg_u_resp_1", "user", "now"),
        ])
    );
}

#[test]
fn a_chain_that_is_not_there_is_an_error() {
    let input = || ResponseInput::Text("now".to_string());
    let missing = HistoryAction::Fail(HistoryError {
        status: 400,
        code: "previous_response_not_found".to_string(),
        message: "Previous response with id 'resp_1' not found.".to_string(),
    });
    let mut loader = InputHistoryLoader::new(Some("resp_1".to_string()), None, input());
    assert_eq!(loader.on_chain(ChainReply::NotFound), missing);
    assert_eq!(loader.into_input(), input());
    let mut empty = InputHistoryLoader::new(Some("resp_1".to_string()), None, input());
    assert_eq!(empty.on_chain(ChainReply::Found(vec![])), missing);
    let mut failed = InputHistoryLoader::new(Some("resp_1".to_string()), None, input());
    assert_eq!(
        failed.on_chain(ChainReply::Failed("disk".to_string())),
        HistoryAction::Fail(HistoryError {
            status: 500,
            code: "load_previous_response_chain_failed".to_string(),
            message: "Failed to load previous response chain for resp_1: disk".to_string(),
        })
    );
}

#[test]
fn a_conversation_goes_before_the_input() {
    let input = ResponseInput::Text("now".to_string());
    let mut loader = InputHistoryLoader::new(None, Some("conv_1".to_string()), input);
    assert_eq!(loader.first(), HistoryAction::GetConversation { conversation_id: "conv_1".to_string() });
    assert_eq!(
        loader.on_conversation(ConversationReply::Found),
        HistoryAction::ListItems { conversation_id: "conv_1".to_string(), limit: 100 }
    );
    assert_eq!(
        loader.on_conversation(ConversationReply::Failed),
        HistoryAction::ListItems { conversation_id: "conv_1".to_string(), limit: 100 }
    );
    let items = vec![stored("function_call", None, Some(other("call")))];
    assert_eq!(loader.on_items(Some(items)), HistoryAction::Finish);
    let (history, input) = loader.finish();
    assert!(history.previous_response_id.is_none());
    assert!(history.existing_mcp_list_tools_labels.is_empty());
    assert_eq!(
        input,
        ResponseInput::Items(vec![other("call"), message("msg_u_conv_1", "user", "now")])
    );
}

#[test]
fn a_conversation_that_is_not_there_is_an_error() {
    let input = ResponseInput::Text("now".to_string());
    let loader = InputHistoryLoader::new(None, Some("conv_1".to_string()), input);
    assert_eq!(
        loader.on_conversation(ConversationReply::NotFound),
        HistoryAction::Fail(HistoryError {
            status: 404,
            code: "not_found".to_string(),
            message: "No conversation found with id 'conv_1'".to_string(),
        })
    );
}

#[test]
fn items_that_cannot_be_listed_leave_the_input() {
    let input = || ResponseInput::Text("now".to_string());
    let mut loader = InputHistoryLoader::new(None, Some("conv_1".to_string()), input());
    assert_eq!(loader.on_items(None), HistoryAction::Finish);
    assert_eq!(loader.finish().1, input());
}

#[test]
fn nothing_is_loaded_where_nothing_is_named() {
    let input = || ResponseInput::Items(vec![simple("user", "x")]);
    let loader = InputHistoryLoader::new(Some(String::new()), None, input());
    assert_eq!(loader.first(), HistoryAction::Finish);
    let (history, kept) = loader.finish();
    assert!(history.previous_response_id.is_none());
    assert_eq!(kept, input());
}

#[test]
fn a_copy_keeps_the_form_of_a_short_message() {
    for content in [
        SimpleContent::Text("hi".to_string()),
        SimpleContent::Parts(vec![ContentPart::InputText { text: "hi".to_string() }]),
    ] {
        assert_eq!(content.clone(), content);
        let item = InputItem::SimpleInputMessage { role: "user".to_string(), content };
        assert_eq!(item.clone(), item);
    }
}
