//! Which parsers a request is served with, and whether the model's output is constrained.

use vstd::prelude::*;
use vstd::string::*;

use crate::json::{find_member, JsonValue};
#[allow(unused_imports)]
use crate::json::{member, member_at};
use crate::text::same_text;

verus! {

// ---------------------------------------------------------------------------
// Thinking
// ---------------------------------------------------------------------------

/// Whether a chat template lets the user turn thinking on and off, and what it does by default.
#[derive(Debug, Clone, Copy, PartialEq, Eq, Structural)]
pub enum ThinkingToggle {
    /// The template has no such toggle.
    Absent,
    DefaultOn,
    DefaultOff,
}

/// The keyword under which a chat template takes the user's wish.
#[derive(Debug, Clone, Copy, PartialEq, Eq, Structural)]
pub enum ThinkingKeyName {
    EnableThinking,
    Thinking,
}

/// The keyword as it is written.
pub open spec fn key_text(key: ThinkingKeyName) -> Seq<char> {
    match key {
        ThinkingKeyName::EnableThinking => "enable_thinking"@,
        ThinkingKeyName::Thinking => "thinking"@,
    }
}

/// Whether thinking is on: never without a toggle, and else as the user wishes; where the user
/// has no wish, as the template does by default.
pub open spec fn thinking_on(user_thinking: Option<bool>, toggle: ThinkingToggle) -> bool {
    match toggle {
        ThinkingToggle::Absent => false,
        ThinkingToggle::DefaultOn => match user_thinking {
            Some(on) => on,
            None => true,
        },
        ThinkingToggle::DefaultOff => match user_thinking {
            Some(on) => on,
            None => false,
        },
    }
}

/// The truth value that `value` is, if it is one.
pub open spec fn as_bool(value: Option<JsonValue>) -> Option<bool> {
    match value {
        Some(JsonValue::Bool(b)) => Some(b),
        _ => None,
    }
}

/// The user's wish: the truth value under the keyword that the template takes.
pub open spec fn thinking_wish(
    kwargs: Option<Seq<(String, JsonValue)>>,
    key: Option<ThinkingKeyName>,
) -> Option<bool> {
    match (kwargs, key) {
        (Some(members), Some(k)) => as_bool(member(members, key_text(k))),
        _ => None,
    }
}

/// Whether thinking is on, by the template's toggle and the user's wish.
pub fn should_mark_reasoning_started(user_thinking: Option<bool>, toggle: ThinkingToggle) -> (r: bool)
    ensures
        r == thinking_on(user_thinking, toggle),
{
    match toggle {
        ThinkingToggle::Absent => false,
        ThinkingToggle::DefaultOn => match user_thinking {
            Some(on) => on,
            None => true,
        },
        ThinkingToggle::DefaultOff => match user_thinking {
            Some(on) => on,
            None => false,
        },
    }
}

/// The user's wish among the keywords of a request. Only the keyword that the template takes
/// is looked at.
pub fn extract_thinking_from_kwargs(
    kwargs: Option<&Vec<(String, JsonValue)>>,
    key_name: Option<ThinkingKeyName>,
) -> (r: Option<bool>)
    ensures
        r == thinking_wish(
            match kwargs {
                Some(members) => Some(members@),
                None => None,
            },
            key_name,
        ),
{
    let members: &Vec<(String, JsonValue)> = match kwargs {
        Some(members) => members,
        None => {
            return None;
        },
    };
    let value: Option<&JsonValue> = match key_name {
        Some(ThinkingKeyName::EnableThinking) => find_member(members, "enable_thinking"),
        Some(ThinkingKeyName::Thinking) => find_member(members, "thinking"),
        None => None,
    };
    match value {
        Some(JsonValue::Bool(b)) => Some(*b),
        _ => None,
    }
}

// ---------------------------------------------------------------------------
// Parsers
// ---------------------------------------------------------------------------

/// What a registry of parsers is asked for.
#[derive(Debug, PartialEq, Eq)]
pub enum ParserLookup {
    /// The parser of this name.
    ByName(String),
    /// The parser for this model.
    ByModel(String),
}

/// What a [`ParserLookup`] holds.
pub enum LookupView {
    ByName(Seq<char>),
    ByModel(Seq<char>),
}

impl View for ParserLookup {
    type V = LookupView;

    open spec fn view(&self) -> LookupView {
        match self {
            ParserLookup::ByName(name) => LookupView::ByName(name@),
            ParserLookup::ByModel(model) => LookupView::ByModel(model@),
        }
    }
}

/// What a registry is asked for first: the configured parser, or else the one for the model.
pub fn parser_lookup(configured_parser: Option<&str>, model: &str) -> (r: ParserLookup)
    ensures
        r@ == (match configured_parser {
            Some(name) => LookupView::ByName(name@),
            None => LookupView::ByModel(model@),
        }),
{
    match configured_parser {
        Some(name) => ParserLookup::ByName(name.to_owned()),
        None => ParserLookup::ByModel(model.to_owned()),
    }
}

/// What a registry is asked for next, where the first answer is `found`: the parser for the
/// model, where the configured one is not there; or else nothing.
pub fn fallback_lookup(configured_parser: Option<&str>, model: &str, found: bool) -> (r: Option<
    ParserLookup,
>)
    ensures
        r is Some <==> configured_parser is Some && !found,
        r matches Some(lookup) ==> lookup@ == LookupView::ByModel(model@),
{
    if configured_parser.is_some() && !found {
        Some(ParserLookup::ByModel(model.to_owned()))
    } else {
        None
    }
}

/// What is chosen of two: what the registry has under the configured name, if one is configured
/// and the registry has it; or else what it has for the model.
pub open spec fn chosen<P>(configured: bool, by_name: Option<P>, for_model: P) -> P {
    if configured && by_name is Some {
        by_name->0
    } else {
        for_model
    }
}

/// Whether there is a reasoning parser, where the registry says of the configured name and of
/// the model whether it has one.
pub fn check_reasoning_parser_availability(
    configured_parser: Option<&str>,
    has_parser: bool,
    has_parser_for_model: bool,
) -> (r: bool)
    ensures
        r == (if configured_parser is Some {
            has_parser
        } else {
            has_parser_for_model
        }),
{
    if configured_parser.is_some() {
        has_parser
    } else {
        has_parser_for_model
    }
}

/// Whether there is a tool parser, where the registry says of the configured name and of the
/// model whether it has one.
pub fn check_tool_parser_availability(
    configured_parser: Option<&str>,
    has_parser: bool,
    has_parser_for_model: bool,
) -> (r: bool)
    ensures
        r == (if configured_parser is Some {
            has_parser
        } else {
            has_parser_for_model
        }),
{
    if configured_parser.is_some() {
        has_parser
    } else {
        has_parser_for_model
    }
}

/// The shared reasoning parser of a request: the configured one, if the registry has it, or else
/// the one for the model.
pub fn get_reasoning_parser<P>(configured_parser: Option<&str>, by_name: Option<P>, for_model: P) -> (r: P)
    ensures
        r == chosen(configured_parser is Some, by_name, for_model),
{
    match (configured_parser, by_name) {
        (Some(_), Some(parser)) => parser,
        _ => for_model,
    }
}

/// A reasoning parser of the request's own: the configured one, if the registry has it, or else
/// the one for the model, if there is one.
pub fn create_reasoning_parser<P>(
    configured_parser: Option<&str>,
    by_name: Option<P>,
    for_model: Option<P>,
) -> (r: Option<P>)
    ensures
        r == chosen(
            configured_parser is Some,
            (match by_name {
                Some(parser) => Some(Some(parser)),
                None => None,
            }),
            for_model,
        ),
{
    match (configured_parser, by_name) {
        (Some(_), Some(parser)) => Some(parser),
        _ => for_model,
    }
}

/// The shared tool parser of a request: the configured one, if the registry has it, or else the
/// one for the model.
pub fn get_tool_parser<P>(configured_parser: Option<&str>, by_name: Option<P>, for_model: P) -> (r: P)
    ensures
        r == chosen(configured_parser is Some, by_name, for_model),
{
    match (configured_parser, by_name) {
        (Some(_), Some(parser)) => parser,
        _ => for_model,
    }
}

/// A tool parser of the request's own: the configured one, if the registry has it, or else the
/// one for the model, if there is one.
pub fn create_tool_parser<P>(
    configured_parser: Option<&str>,
    by_name: Option<P>,
    for_model: Option<P>,
) -> (r: Option<P>)
    ensures
        r == chosen(
            configured_parser is Some,
            (match by_name {
                Some(parser) => Some(Some(parser)),
                None => None,
            }),
            for_model,
        ),
{
    match (configured_parser, by_name) {
        (Some(_), Some(parser)) => Some(parser),
        _ => for_model,
    }
}

// ---------------------------------------------------------------------------
// Constrained output
// ---------------------------------------------------------------------------

/// How free the model is to call tools.
#[derive(Debug, Clone, Copy, PartialEq, Eq, Structural)]
pub enum ToolChoiceValue {
    Auto,
    Required,
    /// No tool may be called.
    Never,
}

/// The function that the model has to call.
#[derive(Debug, PartialEq, Eq)]
pub struct FunctionChoice {
    pub name: String,
}

/// A tool that the model may use.
#[derive(Debug, PartialEq, Eq)]
pub enum ToolReference {
    Function { name: String },
    /// A tool that is no function.
    Hosted { tool_type: String },
}

/// Which tools the model may or has to use.
#[derive(Debug, PartialEq, Eq)]
pub enum ToolChoice {
    Value(ToolChoiceValue),
    Function { tool_type: String, function: FunctionChoice },
    AllowedTools { tool_type: String, mode: String, tools: Vec<ToolReference> },
}

/// A JSON schema for the output.
#[derive(Debug)]
pub struct JsonSchemaFormat {
    pub name: String,
    pub schema: JsonValue,
    pub strict: Option<bool>,
}

/// The form that the output has to have.
#[derive(Debug)]
pub enum ResponseFormat {
    Text,
    JsonObject,
    JsonSchema { json_schema: JsonSchemaFormat },
    Regex { pattern: String },
}

/// The model has to call a tool.
pub open spec fn constrained_choice(choice: ToolChoice) -> bool {
    match choice {
        ToolChoice::Value(value) => value == ToolChoiceValue::Required,
        ToolChoice::Function { .. } => true,
        ToolChoice::AllowedTools { mode, .. } => mode@ == "required"@,
    }
}

/// The output has to be JSON.
pub open spec fn constrained_format(format: ResponseFormat) -> bool {
    format is JsonObject || format is JsonSchema
}

/// Whether the output is constrained to JSON, by the choice of tools or by its form. It is then
/// no free text, and is not to be searched for reasoning.
pub fn has_constrained_output(
    tool_choice: Option<&ToolChoice>,
    response_format: Option<&ResponseFormat>,
) -> (r: bool)
    ensures
        r == ((tool_choice matches Some(choice) && constrained_choice(*choice)) || (
        response_format matches Some(format) && constrained_format(*format))),
{
    let by_choice: bool = match tool_choice {
        Some(ToolChoice::Function { .. }) => true,
        Some(ToolChoice::Value(ToolChoiceValue::Required)) => true,
        Some(ToolChoice::AllowedTools { mode, .. }) => same_text(mode.as_str(), "required"),
        _ => false,
    };
    let by_format: bool = match response_format {
        Some(ResponseFormat::JsonObject) => true,
        Some(ResponseFormat::JsonSchema { .. }) => true,
        _ => false,
    };
    by_choice || by_format
}

// ---------------------------------------------------------------------------
// Laws
// ---------------------------------------------------------------------------

/// A wish of the user is followed by every template that has a toggle, and by no other; without
/// a wish the two kinds of template differ.
pub proof fn law_wish_followed(on: bool)
    ensures
        thinking_on(Some(on), ThinkingToggle::DefaultOn) == on,
        thinking_on(Some(on), ThinkingToggle::DefaultOff) == on,
        !thinking_on(Some(on), ThinkingToggle::Absent),
        thinking_on(None, ThinkingToggle::DefaultOn),
        !thinking_on(None, ThinkingToggle::DefaultOff),
        !thinking_on(None, ThinkingToggle::Absent),
{
}

/// Only the keyword that the template takes matters: requests that agree on it give the same
/// wish, whatever they hold under other keywords, and so under the keyword of another template.
pub proof fn law_other_keys_ignored(
    first: Seq<(String, JsonValue)>,
    second: Seq<(String, JsonValue)>,
    key: ThinkingKeyName,
)
    requires
        member(first, key_text(key)) == member(second, key_text(key)),
    ensures
        thinking_wish(Some(first), Some(key)) == thinking_wish(Some(second), Some(key)),
{
}

/// A configured parser that the registry has is the one that is used, and one that it does not
/// have gives way to the parser for the model.
pub proof fn law_configured_first<P>(parser: P, for_model: P)
    ensures
        chosen(true, Some(parser), for_model) == parser,
        chosen(true, None, for_model) == for_model,
        chosen(false, Some(parser), for_model) == for_model,
{
}

/// The user's wish is the truth value under the keyword that the template takes, as it is written
/// there; any other value there is no wish, and neither is anything where the template takes no
/// keyword.
pub proof fn law_wish_read(members: Seq<(String, JsonValue)>, k: int, key: ThinkingKeyName)
    requires
        0 <= k < members.len(),
        key == ThinkingKeyName::EnableThinking ==> members[k].0@ == "enable_thinking"@,
        key == ThinkingKeyName::Thinking ==> members[k].0@ == "thinking"@,
        forall|j: int| 0 <= j < k ==> (#[trigger] members[j]).0@ != members[k].0@,
    ensures
        members[k].1 matches JsonValue::Bool(b) ==> thinking_wish(Some(members), Some(key)) == Some(b),
        !(members[k].1 is Bool) ==> thinking_wish(Some(members), Some(key)) is None,
        thinking_wish(Some(members), None) is None,
        thinking_wish(None, Some(key)) is None,
{
    let name = members[k].0@;
    assert(member_at(members, name, k));
    let i = choose|i: int| member_at(members, name, i);
    assert(i == k) by {
        if i < k {
            assert(members[i].0@ != name);
        }
        if k < i {
            assert(members[k].0@ != name);
        }
    }
}

/// The output is constrained where the model has to call a tool: where a call is required, where a
/// function is named, and where one of some tools is required; and nowhere else by the choice.
pub proof fn law_constrained_choice(choice: ToolChoice)
    ensures
        choice is Function ==> constrained_choice(choice),
        choice == ToolChoice::Value(ToolChoiceValue::Required) ==> constrained_choice(choice),
        choice == ToolChoice::Value(ToolChoiceValue::Auto) ==> !constrained_choice(choice),
        choice == ToolChoice::Value(ToolChoiceValue::Never) ==> !constrained_choice(choice),
        choice matches ToolChoice::AllowedTools { mode, .. } ==> (constrained_choice(choice) <==> mode@
            == "required"@),
{
}

/// The output is constrained where it has to be a JSON object or follow a JSON schema; a plain
/// text is not, nor is one that follows a pattern.
pub proof fn law_constrained_format(format: ResponseFormat)
    ensures
        format is JsonObject ==> constrained_format(format),
        format is JsonSchema ==> constrained_format(format),
        format is Text ==> !constrained_format(format),
        format is Regex ==> !constrained_format(format),
{
}

} // verus!
