//! The MiniMax M2 format of tool calls.
//!
//! `<minimax:tool_call><invoke name="func"><parameter name="key">value</parameter></invoke></minimax:tool_call>`
//!
//! One block may hold several invocations.

use vstd::prelude::*;
use vstd::string::*;

use crate::params::{
    json_from_str, member_texts, python_json_to_string, same_params, set_param, find_param, Params,
    ParamValue,
};
#[allow(unused_imports)]
use crate::params::{
    distinct_names, has_name, json_value, members_of, params_view, python_object_text, same_values,
    with_value, ParamView,
};
use crate::pattern::{find_tags, Found, Tag};
#[allow(unused_imports)]
use crate::pattern::{founds_view, tag_matches, FoundView};
#[allow(unused_imports)]
use crate::schema::{param_schema, plain_value, schema_types, schema_value};
use crate::text::{
    concat2, contains_text, ends_with, find_text, join_texts, replace_text, skip_text, starts_with,
    take_text, trim_text,
};
#[allow(unused_imports)]
use crate::text::{contains, find, joined, replace_all, texts, trim};
use crate::tool::{
    ensure_capacity, ends_with_partial_token, find_tool, get_unstreamed_args, FunctionCall,
    ParserResult, StreamingParseResult, Tool, ToolCall, ToolCallItem, ToolRecord,
};
#[allow(unused_imports)]
use crate::tool::{
    calls_view, fragment_items, grown, has_tool, items_view, lemma_grown, lemma_grown_name,
    lemma_grown_none, lemma_sent_fragment, name_item, names_known, nothing, padded, partial_token_len,
    record_view, records_view, unstreamed_args, CallView, ItemView, StreamView,
};

verus! {

/// The tag that opens a block.
pub const BLOCK_START: &'static str = "<minimax:tool_call>";

/// The tag that closes a block.
pub const BLOCK_END: &'static str = "</minimax:tool_call>";

/// The tag that closes an invocation.
pub const INVOKE_END: &'static str = "</invoke>";

/// What the tag that opens an invocation begins with.
pub const INVOKE_START: &'static str = "<invoke";

/// A parser of the MiniMax M2 format.
#[derive(Debug)]
pub struct MinimaxM2Parser {
    /// What came in and is not used up.
    pub(crate) buffer: String,
    /// The calls that came in, as far as their parameters are known.
    pub(crate) prev_tool_call_arr: Vec<Option<ToolRecord>>,
    /// The number of the call that is coming in; none before the first.
    pub(crate) current_tool_id: Option<usize>,
    /// What was sent of the arguments of each call.
    pub(crate) streamed_args_for_tool: Vec<String>,
    pub(crate) current_function_name: String,
    pub(crate) current_parameters: Params,
    pub(crate) in_tool_call: bool,
    pub(crate) function_name_sent: bool,
    pub(crate) waiting_for_tool_call_end: bool,
}

/// What a [`MinimaxM2Parser`] holds.
#[verifier::ext_equal]
pub struct MinimaxState {
    pub buffer: Seq<char>,
    pub records: Seq<Option<CallView>>,
    pub tool: Option<nat>,
    pub streamed: Seq<Seq<char>>,
    pub function_name: Seq<char>,
    pub parameters: Seq<(Seq<char>, ParamView)>,
    pub in_tool_call: bool,
    pub name_sent: bool,
    pub waiting: bool,
}

impl View for MinimaxM2Parser {
    type V = MinimaxState;

    closed spec fn view(&self) -> MinimaxState {
        MinimaxState {
            buffer: self.buffer@,
            records: records_view(self.prev_tool_call_arr@),
            tool: match self.current_tool_id {
                Some(id) => Some(id as nat),
                None => None,
            },
            streamed: texts(self.streamed_args_for_tool@),
            function_name: self.current_function_name@,
            parameters: params_view(self.current_parameters@),
            in_tool_call: self.in_tool_call,
            name_sent: self.function_name_sent,
            waiting: self.waiting_for_tool_call_end,
        }
    }
}

// ---------------------------------------------------------------------------
// Parameters
// ---------------------------------------------------------------------------

/// A text with the five XML entities decoded.
pub open spec fn decoded(text: Seq<char>) -> Seq<char> {
    replace_all(
        replace_all(
            replace_all(
                replace_all(replace_all(text, "&lt;"@, "<"@), "&gt;"@, ">"@),
                "&amp;"@,
                "&"@,
            ),
            "&quot;"@,
            "\""@,
        ),
        "&apos;"@,
        "'"@,
    )
}

/// The value of the parameter `key` of `func`, given as `text`: read under its schema, or as it
/// stands where the tools declare none.
pub open spec fn complete_value(
    tools: Seq<Tool>,
    func: Seq<char>,
    key: Seq<char>,
    text: Seq<char>,
) -> ParamView {
    match param_schema(tools, func, key) {
        Some(schema) => schema_value(text, schema_types(schema)),
        None => plain_value(text),
    }
}

/// The value of the parameter `key` of `func`, given as `text`, while the call still comes in:
/// as [`complete_value`], but for a text without a schema that begins like an array or an object
/// and is one.
pub open spec fn streamed_value(
    tools: Seq<Tool>,
    func: Seq<char>,
    key: Seq<char>,
    text: Seq<char>,
) -> ParamView {
    match param_schema(tools, func, key) {
        Some(schema) => schema_value(text, schema_types(schema)),
        None => if ("{"@.is_prefix_of(text) || "["@.is_prefix_of(text)) && json_value(text) is Some {
            json_value(text)->0
        } else {
            plain_value(text)
        },
    }
}

/// The parameters that the matches give, each under its name: a later one takes the place of
/// an earlier one of the same name.
pub open spec fn matched_params(
    founds: Seq<FoundView>,
    func: Seq<char>,
    tools: Seq<Tool>,
    streaming: bool,
) -> Seq<(Seq<char>, ParamView)>
    decreases founds.len(),
{
    if founds.len() == 0 {
        Seq::empty()
    } else {
        let key = trim(founds.last().group(1));
        let text = decoded(founds.last().group(2));
        with_value(
            matched_params(founds.drop_last(), func, tools, streaming),
            key,
            if streaming {
                streamed_value(tools, func, key, text)
            } else {
                complete_value(tools, func, key, text)
            },
        )
    }
}

/// The names of matched parameters are distinct.
pub proof fn lemma_matched_distinct(
    founds: Seq<FoundView>,
    func: Seq<char>,
    tools: Seq<Tool>,
    streaming: bool,
)
    ensures
        distinct_names(matched_params(founds, func, tools, streaming)),
    decreases founds.len(),
{
    if founds.len() > 0 {
        lemma_matched_distinct(founds.drop_last(), func, tools, streaming);
        let key = trim(founds.last().group(1));
        let text = decoded(founds.last().group(2));
        crate::params::lemma_with_value_distinct(
            matched_params(founds.drop_last(), func, tools, streaming),
            key,
            if streaming {
                streamed_value(tools, func, key, text)
            } else {
                complete_value(tools, func, key, text)
            },
        );
    }
}

// ---------------------------------------------------------------------------
// Whole texts
// ---------------------------------------------------------------------------

/// The call that a matched invocation makes.
pub open spec fn matched_call(found: FoundView, tools: Seq<Tool>) -> CallView {
    let name = trim(found.group(1));
    CallView {
        name,
        arguments: python_object_text(
            matched_params(tag_matches(Tag::MinimaxParameter, found.group(2)), name, tools, false),
        ),
    }
}

/// The calls in a block.
pub open spec fn block_calls(block: Seq<char>, tools: Seq<Tool>) -> Seq<CallView> {
    tag_matches(Tag::MinimaxInvoke, block).map_values(|f: FoundView| matched_call(f, tools))
}

/// The calls in the matched blocks.
pub open spec fn blocks_calls(founds: Seq<FoundView>, tools: Seq<Tool>) -> Seq<CallView>
    decreases founds.len(),
{
    if founds.len() == 0 {
        Seq::empty()
    } else {
        blocks_calls(founds.drop_last(), tools) + block_calls(founds.last().group(0), tools)
    }
}

/// The first of the matched blocks in which there is a call.
pub open spec fn first_block(founds: Seq<FoundView>, tools: Seq<Tool>) -> Option<FoundView>
    decreases founds.len(),
{
    if founds.len() == 0 {
        None
    } else if first_block(founds.drop_last(), tools) is Some {
        first_block(founds.drop_last(), tools)
    } else if block_calls(founds.last().group(0), tools).len() > 0 {
        Some(founds.last())
    } else {
        None
    }
}

/// What a whole text gives: the text before the first block in which there is a call, and the
/// calls; the text as it is where there is none.
pub open spec fn complete_parse(text: Seq<char>, tools: Seq<Tool>) -> (Seq<char>, Seq<CallView>) {
    let founds = tag_matches(Tag::MinimaxBlock, text);
    if contains(text, BLOCK_START@) && blocks_calls(founds, tools).len() > 0 {
        (first_block(founds, tools)->0.before, blocks_calls(founds, tools))
    } else {
        (text, Seq::empty())
    }
}

/// Where there is a call, there is a first block in which one is, and it is one of the blocks.
proof fn lemma_first_block(founds: Seq<FoundView>, tools: Seq<Tool>)
    ensures
        blocks_calls(founds, tools).len() > 0 <==> first_block(founds, tools) is Some,
        first_block(founds, tools) is Some ==> founds.contains(first_block(founds, tools)->0),
    decreases founds.len(),
{
    if founds.len() > 0 {
        lemma_first_block(founds.drop_last(), tools);
        if first_block(founds.drop_last(), tools) is Some {
            let f = first_block(founds.drop_last(), tools)->0;
            let i = choose|i: int| 0 <= i < founds.drop_last().len() && founds.drop_last()[i] == f;
            assert(founds[i] == f);
        }
    }
}

impl MinimaxM2Parser {
    /// A text with the five XML entities decoded.
    pub fn decode_xml_entities(text: &str) -> (r: String)
        ensures
            r@ == decoded(text@),
    {
        proof {
            reveal_strlit("&lt;");
            reveal_strlit("&gt;");
            reveal_strlit("&amp;");
            reveal_strlit("&quot;");
            reveal_strlit("&apos;");
        }
        let lt: String = replace_text(text, "&lt;", "<");
        let gt: String = replace_text(lt.as_str(), "&gt;", ">");
        let amp: String = replace_text(gt.as_str(), "&amp;", "&");
        let quot: String = replace_text(amp.as_str(), "&quot;", "\"");
        replace_text(quot.as_str(), "&apos;", "'")
    }

    /// The value of a parameter, read under its schema where the tools declare one.
    fn value_of_param(tools: &[Tool], func: &str, key: &str, text: &str, streaming: bool) -> (r:
        ParamValue)
        ensures
            r@ == (if streaming {
                streamed_value(tools@, func@, key@, text@)
            } else {
                complete_value(tools@, func@, key@, text@)
            }),
    {
        let types: Vec<String> = Self::schema_types_for_param(tools, func, key);
        if types.len() > 0 {
            return Self::convert_with_schema(text, types.as_slice());
        }
        if streaming && (starts_with(text, "{") || starts_with(text, "[")) {
            if let Some(value) = json_from_str(text) {
                return value;
            }
        }
        Self::parse_value(text)
    }

    /// The parameters that the matches give.
    pub fn params_from_matches(founds: &Vec<Found>, func: &str, tools: &[Tool], streaming: bool) -> (r:
        Params)
        ensures
            params_view(r@) == matched_params(founds_view(founds@), func@, tools@, streaming),
    {
        let mut params: Params = Vec::new();
        let mut i: usize = 0;
        assert(params_view(params@) =~= Seq::empty());
        while i < founds.len()
            invariant
                i <= founds@.len(),
                params_view(params@) == matched_params(
                    founds_view(founds@).take(i as int),
                    func@,
                    tools@,
                    streaming,
                ),
            decreases founds.len() - i,
        {
            let key: String = trim_text(founds[i].group(1));
            let text: String = Self::decode_xml_entities(founds[i].group(2));
            let value: ParamValue = Self::value_of_param(
                tools,
                func,
                key.as_str(),
                text.as_str(),
                streaming,
            );
            set_param(&mut params, key, value);
            i = i + 1;
            assert(founds_view(founds@).take(i as int).drop_last() =~= founds_view(founds@).take(i - 1));
        }
        assert(founds_view(founds@).take(i as int) =~= founds_view(founds@));
        params
    }

    /// The call of a function with its parameters.
    pub fn call_from_params(name: String, params: &Params) -> (r: ToolCall)
        ensures
            r@ == (CallView { name: name@, arguments: python_object_text(params_view(params@)) }),
    {
        let arguments: String = python_json_to_string(params);
        ToolCall { function: FunctionCall { name, arguments } }
    }

    /// The parameters in the body of an invocation of `func_name`.
    pub fn parse_parameters(params_text: &str, func_name: &str, tools: &[Tool]) -> (r: Params)
        ensures
            params_view(r@) == matched_params(
                tag_matches(Tag::MinimaxParameter, params_text@),
                func_name@,
                tools@,
                false,
            ),
    {
        let founds: Vec<Found> = find_tags(Tag::MinimaxParameter, params_text);
        Self::params_from_matches(&founds, func_name, tools, false)
    }

    /// The calls in a block.
    pub fn parse_tool_call_block(block: &str, tools: &[Tool]) -> (r: Vec<ToolCall>)
        ensures
            calls_view(r@) == block_calls(block@, tools@),
    {
        let founds: Vec<Found> = find_tags(Tag::MinimaxInvoke, block);
        let mut calls: Vec<ToolCall> = Vec::new();
        let mut i: usize = 0;
        while i < founds.len()
            invariant
                founds_view(founds@) == tag_matches(Tag::MinimaxInvoke, block@),
                i <= founds@.len(),
                calls_view(calls@) == block_calls(block@, tools@).take(i as int),
            decreases founds.len() - i,
        {
            let name: String = trim_text(founds[i].group(1));
            let params: Params = Self::parse_parameters(founds[i].group(2), name.as_str(), tools);
            let call: ToolCall = Self::call_from_params(name, &params);
            let ghost held = calls@;
            assert(founds_view(founds@)[i as int] == founds@[i as int]@);
            assert(call@ == block_calls(block@, tools@)[i as int]);
            calls.push(call);
            assert(calls_view(calls@) =~= calls_view(held).push(call@));
            i = i + 1;
            assert(calls_view(calls@) =~= block_calls(block@, tools@).take(i as int));
        }
        assert(calls_view(calls@) =~= block_calls(block@, tools@));
        calls
    }

    /// The calls in the matched blocks, and the text before the first block in which there is
    /// one.
    pub fn calls_from_blocks(founds: &Vec<Found>, tools: &[Tool]) -> (r: (Vec<ToolCall>, Option<String>))
        ensures
            calls_view(r.0@) == blocks_calls(founds_view(founds@), tools@),
            r.1 is Some <==> first_block(founds_view(founds@), tools@) is Some,
            r.1 matches Some(before) ==> before@ == first_block(founds_view(founds@), tools@)->0.before,
    {
        let mut results: Vec<ToolCall> = Vec::new();
        let mut before: Option<String> = None;
        let mut i: usize = 0;
        let ghost all = founds_view(founds@);
        assert(calls_view(results@) =~= blocks_calls(all.take(0), tools@));
        while i < founds.len()
            invariant
                all == founds_view(founds@),
                i <= founds@.len(),
                calls_view(results@) == blocks_calls(all.take(i as int), tools@),
                before is Some <==> first_block(all.take(i as int), tools@) is Some,
                before matches Some(b) ==> b@ == first_block(all.take(i as int), tools@)->0.before,
            decreases founds.len() - i,
        {
            let mut calls: Vec<ToolCall> = Self::parse_tool_call_block(founds[i].group(0), tools);
            assert(all.take(i + 1).drop_last() =~= all.take(i as int));
            assert(all.take(i + 1).last() == founds@[i as int]@);
            if calls.len() > 0 && before.is_none() {
                before = Some(founds[i].before.clone());
            }
            let ghost held = results@;
            let ghost more = calls@;
            results.append(&mut calls);
            assert(calls_view(results@) =~= calls_view(held) + calls_view(more));
            i = i + 1;
        }
        assert(all.take(i as int) =~= all);
        (results, before)
    }

    /// The calls in a text, and the text before the first block in which there is one.
    pub fn parse_tool_calls_from_text(text: &str, tools: &[Tool]) -> (r: (
        Vec<ToolCall>,
        Option<String>,
    ))
        ensures
            calls_view(r.0@) == blocks_calls(tag_matches(Tag::MinimaxBlock, text@), tools@),
            r.1 is Some <==> first_block(tag_matches(Tag::MinimaxBlock, text@), tools@) is Some,
            r.1 matches Some(before) ==> before@ == first_block(
                tag_matches(Tag::MinimaxBlock, text@),
                tools@,
            )->0.before && (before@ + BLOCK_START@).is_prefix_of(text@),
    {
        let founds: Vec<Found> = find_tags(Tag::MinimaxBlock, text);
        proof {
            let all = founds_view(founds@);
            lemma_first_block(all, tools@);
            if first_block(all, tools@) is Some {
                let f = first_block(all, tools@)->0;
                let i = choose|i: int| 0 <= i < all.len() && all[i] == f;
                assert(founds@[i]@.stands_in(text@));
                assert((f.before + BLOCK_START@).is_prefix_of(text@)) by {
                    let whole = f.before + f.group(0);
                    assert(whole == text@.take(f.end()));
                    assert(f.before + BLOCK_START@ =~= whole.take(
                        (f.before.len() + BLOCK_START@.len()) as int,
                    ));
                }
            }
        }
        Self::calls_from_blocks(&founds, tools)
    }

    /// Whether a block opens in the text.
    pub fn has_tool_markers(&self, text: &str) -> (r: bool)
        ensures
            r == contains(text@, BLOCK_START@),
    {
        contains_text(text, BLOCK_START)
    }

    /// What a whole text gives, where no tools are declared.
    pub fn parse_complete(&self, text: &str) -> (r: ParserResult<(String, Vec<ToolCall>)>)
        ensures
            r matches Ok(p) && (p.0@, calls_view(p.1@)) == complete_parse(text@, Seq::empty()) && (
            p.1@.len() > 0 ==> (p.0@ + BLOCK_START@).is_prefix_of(text@)),
    {
        let none: [Tool; 0] = [];
        assert(none@ =~= Seq::empty());
        self.parse_complete_with_tools(text, &none)
    }

    /// What a whole text gives.
    pub fn parse_complete_with_tools(&self, text: &str, tools: &[Tool]) -> (r: ParserResult<
        (String, Vec<ToolCall>),
    >)
        ensures
            r matches Ok(p) && (p.0@, calls_view(p.1@)) == complete_parse(text@, tools@) && (p.1@.len()
                > 0 ==> (p.0@ + BLOCK_START@).is_prefix_of(text@)),
    {
        if !self.has_tool_markers(text) {
            let none: Vec<ToolCall> = Vec::new();
            assert(calls_view(none@) =~= Seq::empty());
            return Ok((text.to_owned(), none));
        }
        let (results, before) = Self::parse_tool_calls_from_text(text, tools);
        proof {
            lemma_first_block(tag_matches(Tag::MinimaxBlock, text@), tools@);
        }
        if results.len() == 0 {
            assert(calls_view(results@) =~= Seq::empty());
            return Ok((text.to_owned(), results));
        }
        assert(calls_view(results@).len() > 0);
        let normal_text: String = match before {
            Some(b) => b,
            None => text.to_owned(),
        };
        Ok((normal_text, results))
    }
}

// ---------------------------------------------------------------------------
// Streams
// ---------------------------------------------------------------------------

/// The state before anything came in.
pub open spec fn initial() -> MinimaxState {
    MinimaxState {
        buffer: Seq::empty(),
        records: Seq::empty(),
        tool: None,
        streamed: Seq::empty(),
        function_name: Seq::empty(),
        parameters: Seq::empty(),
        in_tool_call: false,
        name_sent: false,
        waiting: false,
    }
}

/// What holds of every state that a parser gets into: there is a record, and a text sent, for
/// each call whose name was sent, and for no other; a call whose name was sent is open; and
/// parameters are held only of such a call, which has sent none of its arguments as long as it
/// holds none, and whose record is what it holds.
pub open spec fn valid(st: MinimaxState) -> bool {
    &&& st.records.len() == st.streamed.len()
    &&& match st.tool {
        Some(id) => st.streamed.len() == id + if st.name_sent {
            1int
        } else {
            0int
        },
        None => st.streamed.len() == 0 && !st.name_sent,
    }
    &&& st.name_sent ==> st.in_tool_call && !st.waiting
    &&& !st.name_sent ==> st.parameters.len() == 0
    &&& st.name_sent && st.parameters.len() == 0 ==> st.streamed.last().len() == 0
    &&& st.name_sent ==> st.records.last() == if st.parameters.len() > 0 {
        Some(CallView { name: st.function_name, arguments: streamed_object(st.parameters) })
    } else {
        None
    }
    &&& distinct_names(st.parameters)
}

/// Parameters as the beginning of a JSON object.
pub open spec fn opening_fragment(params: Seq<(Seq<char>, ParamView)>) -> Seq<char> {
    "{"@ + joined(members_of(params, ": "@), ", "@)
}

/// Parameters as the continuation of a JSON object.
pub open spec fn further_fragment(params: Seq<(Seq<char>, ParamView)>) -> Seq<char> {
    ", "@ + joined(members_of(params, ": "@), ", "@)
}

/// Parameters as the JSON object that the fragments of them make up in the end.
pub open spec fn streamed_object(params: Seq<(Seq<char>, ParamView)>) -> Seq<char> {
    opening_fragment(params) + "}"@
}

/// The parameters of `params` whose names are not in `known`.
pub open spec fn fresh_params(
    params: Seq<(Seq<char>, ParamView)>,
    known: Seq<(Seq<char>, ParamView)>,
) -> Seq<(Seq<char>, ParamView)>
    decreases params.len(),
{
    if params.len() == 0 {
        Seq::empty()
    } else if has_name(known, params.last().0) {
        fresh_params(params.drop_last(), known)
    } else {
        fresh_params(params.drop_last(), known).push(params.last())
    }
}

/// What is sent of `params` when `known` was sent before: all of them at first, then those whose
/// names are new.
pub open spec fn params_fragment(
    params: Seq<(Seq<char>, ParamView)>,
    known: Seq<(Seq<char>, ParamView)>,
) -> Seq<char> {
    if known.len() == 0 {
        opening_fragment(params)
    } else if fresh_params(params, known).len() > 0 {
        further_fragment(fresh_params(params, known))
    } else {
        Seq::empty()
    }
}

/// `st` with the parameters `params` of the call `id`, which sends `fragment`: the first one in
/// place of all that was sent before, any other behind it.
pub open spec fn with_params(
    st: MinimaxState,
    id: nat,
    params: Seq<(Seq<char>, ParamView)>,
    fragment: Seq<char>,
) -> MinimaxState {
    let streamed = padded(st.streamed, id + 1, Seq::empty());
    let before = if st.parameters.len() == 0 {
        Seq::empty()
    } else {
        streamed[id as int]
    };
    MinimaxState {
        parameters: params,
        streamed: streamed.update(id as int, before + fragment),
        records: padded(st.records, id + 1, None).update(
            id as int,
            Some(CallView { name: st.function_name, arguments: streamed_object(params) }),
        ),
        ..st
    }
}

/// The open call takes in the parameters that the matches in the buffer give: what becomes of
/// the state, and what is sent.
pub open spec fn taken_params(st: MinimaxState, founds: Seq<FoundView>, tools: Seq<Tool>) -> (
    MinimaxState,
    Seq<ItemView>,
) {
    let params = matched_params(founds, st.function_name, tools, true);
    if st.tool is None || params.len() == 0 || same_values(params, st.parameters) {
        (st, Seq::empty())
    } else {
        let id = st.tool->0;
        let fragment = params_fragment(params, st.parameters);
        (with_params(st, id, params, fragment), fragment_items(id, fragment))
    }
}

/// How often `c` stands in `s`.
pub open spec fn count_char(s: Seq<char>, c: char) -> nat
    decreases s.len(),
{
    if s.len() == 0 {
        0
    } else {
        count_char(s.drop_last(), c) + if s.last() == c {
            1nat
        } else {
            0nat
        }
    }
}

/// What was sent of the arguments still wants the brace that closes them.
pub open spec fn wants_brace(sent: Seq<char>) -> bool {
    &&& sent.len() > 0
    &&& !"}"@.is_suffix_of(sent)
    &&& count_char(sent, '{') > count_char(sent, '}')
}

/// What closes the arguments of which `sent` was sent.
pub open spec fn closing_fragment(sent: Seq<char>) -> Seq<char> {
    if wants_brace(sent) {
        "}"@
    } else {
        Seq::empty()
    }
}

/// What follows behind an invocation: another one, the end of the block, or neither yet.
pub enum Follow {
    Invoke,
    /// The block ends; the position behind its end.
    End(int),
    Open,
}

/// What follows in `buffer` behind an invocation.
pub open spec fn follow(buffer: Seq<char>) -> Follow {
    match (find(buffer, INVOKE_START@), find(buffer, BLOCK_END@)) {
        (Some(i), Some(e)) => if i < e {
            Follow::Invoke
        } else {
            Follow::End(e + BLOCK_END@.len())
        },
        (None, Some(e)) => Follow::End(e + BLOCK_END@.len()),
        (Some(_), None) => Follow::Invoke,
        (None, None) => Follow::Open,
    }
}

/// A step of the parser: the state behind it, what was given so far, and whether another step
/// follows.
#[verifier::ext_equal]
pub struct Step {
    pub state: MinimaxState,
    pub out: StreamView,
    pub more: bool,
}

/// The step of a parser that waits for what follows behind an invocation.
pub open spec fn waiting_step(st: MinimaxState, out: StreamView) -> Step {
    match follow(st.buffer) {
        Follow::Invoke => Step {
            state: MinimaxState { waiting: false, in_tool_call: true, ..st },
            out,
            more: true,
        },
        Follow::End(e) => Step {
            state: MinimaxState {
                buffer: st.buffer.skip(e),
                in_tool_call: false,
                waiting: false,
                ..st
            },
            out,
            more: true,
        },
        Follow::Open => Step { state: st, out, more: false },
    }
}

/// The step of a parser outside any block: the text before a block is given, or all of it but
/// what may be the beginning of the tag that opens one.
pub open spec fn outside_step(st: MinimaxState, out: StreamView) -> Step {
    match find(st.buffer, BLOCK_START@) {
        Some(start) => Step {
            state: MinimaxState {
                buffer: st.buffer.skip(start + BLOCK_START@.len()),
                in_tool_call: true,
                name_sent: false,
                function_name: Seq::empty(),
                parameters: Seq::empty(),
                ..st
            },
            out: StreamView { normal_text: st.buffer.take(start), ..out },
            more: true,
        },
        None => {
            let end = st.buffer.len() - partial_token_len(st.buffer, BLOCK_START@);
            Step {
                state: MinimaxState { buffer: st.buffer.skip(end), ..st },
                out: StreamView { normal_text: st.buffer.take(end), ..out },
                more: false,
            }
        },
    }
}

/// The step of a parser in a block, before the name of a call: the first invocation that the
/// matches give names it, if there is a tool of that name.
pub open spec fn name_step(
    st: MinimaxState,
    out: StreamView,
    founds: Seq<FoundView>,
    tools: Seq<Tool>,
) -> Step {
    if founds.len() == 0 {
        Step { state: st, out, more: false }
    } else {
        let name = trim(founds[0].group(1));
        if has_tool(tools, name) {
            let id = match st.tool {
                Some(id) => id,
                None => 0nat,
            };
            Step {
                state: MinimaxState {
                    function_name: name,
                    name_sent: true,
                    tool: Some(id),
                    records: padded(st.records, id + 1, None),
                    streamed: padded(st.streamed, id + 1, Seq::empty()),
                    buffer: match find(st.buffer, ">"@) {
                        Some(p) => st.buffer.skip(p + 1),
                        None => st.buffer,
                    },
                    ..st
                },
                out: StreamView { calls: out.calls.push(name_item(id, name)), ..out },
                more: true,
            }
        } else {
            Step {
                state: MinimaxState { in_tool_call: false, buffer: Seq::empty(), ..st },
                out: StreamView { normal_text: out.normal_text + st.buffer, ..out },
                more: false,
            }
        }
    }
}

/// The open call, whose invocation ends at `end` in the buffer, is closed.
pub open spec fn closed_call(st: MinimaxState, out: StreamView, end: int) -> Step {
    let id = st.tool->0;
    let closing = closing_fragment(st.streamed[id as int]);
    let rest = st.buffer.skip(end + INVOKE_END@.len());
    let next = MinimaxState {
        buffer: rest,
        streamed: st.streamed.update(id as int, st.streamed[id as int] + closing),
        tool: Some(id + 1),
        name_sent: false,
        function_name: Seq::empty(),
        parameters: Seq::empty(),
        ..st
    };
    let given = StreamView { calls: out.calls + fragment_items(id, closing), ..out };
    match follow(rest) {
        Follow::Invoke => Step { state: next, out: given, more: true },
        Follow::End(e) => Step {
            state: MinimaxState { buffer: rest.skip(e), in_tool_call: false, ..next },
            out: given,
            more: true,
        },
        Follow::Open => Step { state: MinimaxState { waiting: true, ..next }, out: given, more: false },
    }
}

/// The open call sends `items`, and is closed if its invocation ends.
pub open spec fn ended_call(st: MinimaxState, out: StreamView, items: Seq<ItemView>) -> Step {
    let given = StreamView { calls: out.calls + items, ..out };
    match find(st.buffer, INVOKE_END@) {
        Some(end) => closed_call(st, given, end),
        None => Step { state: st, out: given, more: false },
    }
}

/// The step of a parser in an open call: its parameters are taken in, and it is closed if its
/// invocation ends.
pub open spec fn params_step(
    st: MinimaxState,
    out: StreamView,
    founds: Seq<FoundView>,
    tools: Seq<Tool>,
) -> Step {
    let (taken, items) = taken_params(st, founds, tools);
    ended_call(taken, out, items)
}

/// A step of the parser.
pub open spec fn step(st: MinimaxState, out: StreamView, tools: Seq<Tool>) -> Step {
    if st.waiting {
        waiting_step(st, out)
    } else if !st.in_tool_call {
        outside_step(st, out)
    } else if !st.name_sent {
        name_step(st, out, tag_matches(Tag::MinimaxInvoke, st.buffer), tools)
    } else {
        params_step(st, out, tag_matches(Tag::MinimaxParameter, st.buffer), tools)
    }
}

/// What is left to do: it shrinks with every step that another follows.
pub open spec fn remaining(st: MinimaxState) -> nat {
    4 * st.buffer.len() + if st.waiting {
        2nat
    } else {
        0nat
    } + if st.name_sent {
        0nat
    } else {
        1nat
    }
}

/// A step that another follows leaves less to do.
pub proof fn lemma_step_shrinks(st: MinimaxState, out: StreamView, tools: Seq<Tool>)
    ensures
        step(st, out, tools).more ==> remaining(step(st, out, tools).state) < remaining(st),
{
    reveal_strlit("<minimax:tool_call>");
    reveal_strlit("</minimax:tool_call>");
    reveal_strlit("</invoke>");
    reveal_strlit(">");
    crate::text::lemma_find(st.buffer, BLOCK_START@);
    crate::text::lemma_find(st.buffer, BLOCK_END@);
    crate::text::lemma_find(st.buffer, INVOKE_END@);
    crate::text::lemma_find(st.buffer, ">"@);
    if let Some(e) = find(st.buffer, INVOKE_END@) {
        let rest = st.buffer.skip(e + INVOKE_END@.len());
        crate::text::lemma_find(rest, BLOCK_END@);
    }
}

/// The steps of the parser until none follows.
#[verifier::opaque]
pub open spec fn run(st: MinimaxState, out: StreamView, tools: Seq<Tool>) -> (
    MinimaxState,
    StreamView,
)
    decreases remaining(st),
{
    proof {
        lemma_step_shrinks(st, out, tools);
    }
    let next = step(st, out, tools);
    if next.more {
        run(next.state, next.out, tools)
    } else {
        (next.state, next.out)
    }
}

/// What a chunk gives: it is put behind what is not used up, and the parser runs.
pub open spec fn chunk_run(st: MinimaxState, chunk: Seq<char>, tools: Seq<Tool>) -> (
    MinimaxState,
    StreamView,
) {
    run(MinimaxState { buffer: st.buffer + chunk, ..st }, nothing(), tools)
}

/// A step keeps a state valid.
pub proof fn lemma_step_valid(st: MinimaxState, out: StreamView, tools: Seq<Tool>)
    requires
        valid(st),
    ensures
        valid(step(st, out, tools).state),
{
    if st.waiting {
    } else if !st.in_tool_call {
    } else if !st.name_sent {
    } else {
        let founds = tag_matches(Tag::MinimaxParameter, st.buffer);
        lemma_matched_distinct(founds, st.function_name, tools, true);
    }
}

impl MinimaxM2Parser {
    /// A parser that nothing came in to.
    pub fn new() -> (r: Self)
        ensures
            r@ == initial(),
            valid(r@),
    {
        let parser: MinimaxM2Parser = MinimaxM2Parser {
            buffer: String::new(),
            prev_tool_call_arr: Vec::new(),
            current_tool_id: None,
            streamed_args_for_tool: Vec::new(),
            current_function_name: String::new(),
            current_parameters: Vec::new(),
            in_tool_call: false,
            function_name_sent: false,
            waiting_for_tool_call_end: false,
        };
        assert(parser@ =~= initial());
        parser
    }

    /// What was sent of the arguments of call `id` grows by `fragment`.
    fn add_streamed(&mut self, id: usize, fragment: &str)
        requires
            id < old(self)@.streamed.len(),
        ensures
            final(self)@ == (MinimaxState {
                streamed: old(self)@.streamed.update(
                    id as int,
                    old(self)@.streamed[id as int] + fragment@,
                ),
                ..old(self)@
            }),
    {
        let ghost before = self.streamed_args_for_tool@;
        let text: String = concat2(self.streamed_args_for_tool[id].as_str(), fragment);
        self.streamed_args_for_tool.set(id, text);
        assert(texts(self.streamed_args_for_tool@) =~= texts(before).update(
            id as int,
            texts(before)[id as int] + fragment@,
        ));
    }

    /// The parameters of `params` whose names are not among those held.
    fn fresh_parameters(&self, params: &Params) -> (r: Params)
        ensures
            params_view(r@) == fresh_params(params_view(params@), self@.parameters),
    {
        let mut fresh: Params = Vec::new();
        let mut i: usize = 0;
        let ghost all = params_view(params@);
        assert(params_view(fresh@) =~= Seq::empty());
        while i < params.len()
            invariant
                all == params_view(params@),
                i <= params@.len(),
                params_view(fresh@) == fresh_params(all.take(i as int), self@.parameters),
            decreases params.len() - i,
        {
            assert(all.take(i + 1).drop_last() =~= all.take(i as int));
            assert(all.take(i + 1).last() == (params@[i as int].0@, params@[i as int].1@));
            if find_param(&self.current_parameters, params[i].0.as_str()).is_none() {
                let ghost held = fresh@;
                let param: (String, ParamValue) = (params[i].0.clone(), params[i].1.clone());
                fresh.push(param);
                assert(params_view(fresh@) =~= params_view(held).push((param.0@, param.1@)));
            }
            i = i + 1;
        }
        assert(all.take(i as int) =~= all);
        fresh
    }

    /// What is sent of `params`.
    fn fragment_of(&self, params: &Params) -> (r: String)
        ensures
            r@ == params_fragment(params_view(params@), self@.parameters),
    {
        if self.current_parameters.len() == 0 {
            let members: Vec<String> = member_texts(params, ": ");
            concat2("{", join_texts(&members, ", ").as_str())
        } else {
            let fresh: Params = self.fresh_parameters(params);
            if fresh.len() > 0 {
                let members: Vec<String> = member_texts(&fresh, ": ");
                concat2(", ", join_texts(&members, ", ").as_str())
            } else {
                String::new()
            }
        }
    }

    /// The open call takes in the parameters that the matches in the buffer give; what is sent
    /// of them is given.
    pub fn take_parameters(&mut self, founds: &Vec<Found>, tools: &[Tool]) -> (r: Vec<ToolCallItem>)
        requires
            old(self)@.tool is Some,
        ensures
            (final(self)@, items_view(r@)) == taken_params(old(self)@, founds_view(founds@), tools@),
            valid(old(self)@) && old(self)@.name_sent ==> valid(final(self)@),
    {
        let mut items: Vec<ToolCallItem> = Vec::new();
        let params: Params = Self::params_from_matches(
            founds,
            self.current_function_name.as_str(),
            tools,
            true,
        );
        proof {
            lemma_matched_distinct(founds_view(founds@), self@.function_name, tools@, true);
            assert(items_view(items@) =~= Seq::empty());
        }
        if params.len() == 0 || same_params(&params, &self.current_parameters) {
            return items;
        }
        let id: usize = match self.current_tool_id {
            Some(id) => id,
            None => {
                return items;
            },
        };
        let fragment: String = self.fragment_of(&params);
        let members: Vec<String> = member_texts(&params, ": ");
        let inner: String = join_texts(&members, ", ");
        let opened: String = concat2("{", inner.as_str());
        let arguments: String = concat2(opened.as_str(), "}");
        let record: ToolRecord = ToolRecord { name: self.current_function_name.clone(), arguments };
        ensure_capacity(id, &mut self.prev_tool_call_arr, &mut self.streamed_args_for_tool);
        let ghost streamed = self.streamed_args_for_tool@;
        assert(texts(streamed).len() > id);
        assert(records_view(self.prev_tool_call_arr@).len() > id);
        let text: String = if self.current_parameters.len() == 0 {
            fragment.clone()
        } else {
            concat2(self.streamed_args_for_tool[id].as_str(), fragment.as_str())
        };
        let ghost sent = text@;
        assert(Seq::<char>::empty() + fragment@ =~= fragment@);
        self.streamed_args_for_tool.set(id, text);
        assert(texts(self.streamed_args_for_tool@) =~= texts(streamed).update(id as int, sent));
        let ghost before = self.prev_tool_call_arr@;
        let ghost known = record_view(Some(record));
        self.prev_tool_call_arr.set(id, Some(record));
        assert(records_view(self.prev_tool_call_arr@) =~= records_view(before).update(
            id as int,
            known,
        ));
        self.current_parameters = params;
        proof {
            reveal_strlit("{");
            reveal_strlit(", ");
        }
        if fragment.as_str().unicode_len() > 0 {
            let item: ToolCallItem = ToolCallItem { tool_index: id, name: None, parameters: fragment };
            items.push(item);
            assert(items_view(items@) =~= seq![item@]);
        }
        items
    }

    /// The open call takes in the parameters in `text`; what is sent of them is given.
    pub fn parse_and_stream_parameters(&mut self, text: &str, tools: &[Tool]) -> (r: Vec<
        ToolCallItem,
    >)
        requires
            old(self)@.tool is Some,
        ensures
            (final(self)@, items_view(r@)) == taken_params(
                old(self)@,
                tag_matches(Tag::MinimaxParameter, text@),
                tools@,
            ),
            valid(old(self)@) && old(self)@.name_sent ==> valid(final(self)@),
    {
        let founds: Vec<Found> = find_tags(Tag::MinimaxParameter, text);
        self.take_parameters(&founds, tools)
    }

    /// The step of a parser that waits for what follows behind an invocation.
    fn step_waiting(&mut self) -> (more: bool)
        ensures
            forall|out: StreamView| (Step { state: final(self)@, out, more }) == #[trigger] waiting_step(
                old(self)@,
                out,
            ),
    {
        let next: Option<usize> = find_text(self.buffer.as_str(), INVOKE_START);
        let end: Option<usize> = find_text(self.buffer.as_str(), BLOCK_END);
        match (next, end) {
            (None, None) => false,
            (Some(_), None) => {
                self.waiting_for_tool_call_end = false;
                self.in_tool_call = true;
                true
            },
            (_, Some(e)) => {
                if next.is_some() && next.unwrap() < e {
                    self.waiting_for_tool_call_end = false;
                    self.in_tool_call = true;
                } else {
                    self.buffer = skip_text(self.buffer.as_str(), e + BLOCK_END.unicode_len());
                    self.in_tool_call = false;
                    self.waiting_for_tool_call_end = false;
                }
                true
            },
        }
    }

    /// The step of a parser outside any block.
    fn step_outside(&mut self, out: &mut StreamingParseResult) -> (more: bool)
        ensures
            (Step { state: final(self)@, out: final(out)@, more }) == outside_step(old(self)@, old(out)@),
    {
        match find_text(self.buffer.as_str(), BLOCK_START) {
            Some(start) => {
                out.normal_text = take_text(self.buffer.as_str(), start);
                self.buffer = skip_text(self.buffer.as_str(), start + BLOCK_START.unicode_len());
                self.in_tool_call = true;
                self.function_name_sent = false;
                self.current_function_name = String::new();
                self.current_parameters = Vec::new();
                assert(self@.parameters =~= Seq::empty());
                assert(self@.function_name =~= Seq::empty());
                true
            },
            None => {
                let held: usize = ends_with_partial_token(self.buffer.as_str(), BLOCK_START);
                let end: usize = self.buffer.as_str().unicode_len() - held;
                out.normal_text = take_text(self.buffer.as_str(), end);
                self.buffer = skip_text(self.buffer.as_str(), end);
                false
            },
        }
    }

    /// The step of a parser in a block, before the name of a call, of which the matched
    /// invocations are given.
    pub fn step_name(&mut self, out: &mut StreamingParseResult, founds: &Vec<Found>, tools: &[Tool]) -> (more:
        bool)
        requires
            valid(old(self)@),
            old(self)@.in_tool_call && !old(self)@.name_sent && !old(self)@.waiting,
        ensures
            (Step { state: final(self)@, out: final(out)@, more }) == name_step(
                old(self)@,
                old(out)@,
                founds_view(founds@),
                tools@,
            ),
            valid(final(self)@),
    {
        if founds.len() == 0 {
            return false;
        }
        assert(founds_view(founds@)[0] == founds@[0]@);
        let name: String = trim_text(founds[0].group(1));
        if find_tool(tools, name.as_str()).is_none() {
            self.in_tool_call = false;
            out.normal_text = concat2(out.normal_text.as_str(), self.buffer.as_str());
            self.buffer = String::new();
            assert(self@.buffer =~= Seq::empty());
            return false;
        }
        let id: usize = match self.current_tool_id {
            Some(id) => id,
            None => 0,
        };
        self.current_function_name = name.clone();
        self.function_name_sent = true;
        self.current_tool_id = Some(id);
        ensure_capacity(id, &mut self.prev_tool_call_arr, &mut self.streamed_args_for_tool);
        let item: ToolCallItem = ToolCallItem {
            tool_index: id,
            name: Some(name),
            parameters: String::new(),
        };
        assert(item.parameters@ =~= Seq::empty());
        let ghost held = out.calls@;
        out.calls.push(item);
        assert(items_view(out.calls@) =~= items_view(held).push(item@));
        proof {
            reveal_strlit(">");
        }
        if let Some(p) = find_text(self.buffer.as_str(), ">") {
            self.buffer = skip_text(self.buffer.as_str(), p + 1);
        }
        true
    }

    /// How often `c` stands in `text`.
    fn count(text: &str, c: char) -> (r: usize)
        ensures
            r == count_char(text@, c),
    {
        let n: usize = text.unicode_len();
        let mut r: usize = 0;
        let mut i: usize = 0;
        assert(text@.take(0) =~= Seq::empty());
        while i < n
            invariant
                n == text@.len(),
                i <= n,
                r <= i,
                r == count_char(text@.take(i as int), c),
            decreases n - i,
        {
            assert(text@.take(i + 1).drop_last() =~= text@.take(i as int));
            if text.get_char(i) == c {
                r = r + 1;
            }
            i = i + 1;
        }
        assert(text@.take(i as int) =~= text@);
        r
    }

    /// Whether what was sent of the arguments still wants the brace that closes them.
    fn open_object(sent: &str) -> (r: bool)
        ensures
            r == wants_brace(sent@),
    {
        sent.unicode_len() > 0 && !ends_with(sent, "}") && Self::count(sent, '{') > Self::count(sent, '}')
    }

    /// The open call, whose invocation ends at `end` in the buffer, is closed.
    fn close_call(&mut self, out: &mut StreamingParseResult, end: usize) -> (more: bool)
        requires
            valid(old(self)@),
            old(self)@.name_sent,
            end + INVOKE_END@.len() <= old(self)@.buffer.len() <= usize::MAX,
        ensures
            (Step { state: final(self)@, out: final(out)@, more }) == closed_call(
                old(self)@,
                old(out)@,
                end as int,
            ),
            valid(final(self)@),
    {
        let id: usize = match self.current_tool_id {
            Some(id) => id,
            None => {
                return false;
            },
        };
        let ghost before = *self;
        proof {
            reveal_strlit("}");
        }
        let known: usize = self.streamed_args_for_tool.len();
        assert(id < known);
        let sent: String = self.streamed_args_for_tool[id].clone();
        assert(sent@ == before@.streamed[id as int]);
        if Self::open_object(sent.as_str()) {
            let item: ToolCallItem = ToolCallItem {
                tool_index: id,
                name: None,
                parameters: "}".to_owned(),
            };
            let ghost held = out.calls@;
            out.calls.push(item);
            assert(items_view(out.calls@) =~= items_view(held) + seq![item@]);
            self.add_streamed(id, "}");
        } else {
            assert(before@.streamed.update(id as int, before@.streamed[id as int] + Seq::<char>::empty())
                =~= before@.streamed) by {
                assert(before@.streamed[id as int] + Seq::<char>::empty() =~= before@.streamed[id as int]);
            }
            assert(items_view(out.calls@) + Seq::<ItemView>::empty() =~= items_view(out.calls@));
        }
        self.buffer = skip_text(self.buffer.as_str(), end + INVOKE_END.unicode_len());
        self.current_tool_id = Some(id + 1);
        self.function_name_sent = false;
        self.current_function_name = String::new();
        self.current_parameters = Vec::new();
        assert(self@.parameters =~= Seq::empty());
        assert(self@.function_name =~= Seq::empty());
        let next: Option<usize> = find_text(self.buffer.as_str(), INVOKE_START);
        let block_end: Option<usize> = find_text(self.buffer.as_str(), BLOCK_END);
        match (next, block_end) {
            (None, None) => {
                self.waiting_for_tool_call_end = true;
                false
            },
            (Some(_), None) => true,
            (_, Some(e)) => {
                if next.is_none() || next.unwrap() >= e {
                    self.buffer = skip_text(self.buffer.as_str(), e + BLOCK_END.unicode_len());
                    self.in_tool_call = false;
                }
                true
            },
        }
    }

    /// The open call sends `items`, and is closed if its invocation ends.
    pub fn end_call(&mut self, out: &mut StreamingParseResult, items: Vec<ToolCallItem>) -> (more: bool)
        requires
            valid(old(self)@),
            old(self)@.name_sent,
        ensures
            (Step { state: final(self)@, out: final(out)@, more }) == ended_call(
                old(self)@,
                old(out)@,
                items_view(items@),
            ),
            valid(final(self)@),
    {
        let mut sent: Vec<ToolCallItem> = items;
        let ghost held = out.calls@;
        let ghost fresh = sent@;
        out.calls.append(&mut sent);
        assert(items_view(out.calls@) =~= items_view(held) + items_view(fresh));
        match find_text(self.buffer.as_str(), INVOKE_END) {
            Some(end) => self.close_call(out, end),
            None => false,
        }
    }

    /// Takes in a chunk: the text that stands outside any call, and the pieces of calls that
    /// are known by then, are given.
    pub fn parse_incremental(&mut self, chunk: &str, tools: &[Tool]) -> (r: ParserResult<
        StreamingParseResult,
    >)
        requires
            valid(old(self)@),
        ensures
            r matches Ok(given) && (final(self)@, given@) == chunk_run(old(self)@, chunk@, tools@),
            valid(final(self)@),
    {
        let ghost start = MinimaxState { buffer: self@.buffer + chunk@, ..self@ };
        self.buffer = concat2(self.buffer.as_str(), chunk);
        assert(self@ =~= start);
        let mut out: StreamingParseResult = StreamingParseResult {
            normal_text: String::new(),
            calls: Vec::new(),
        };
        assert(out@.normal_text =~= nothing().normal_text);
        assert(out@.calls =~= nothing().calls);
        let mut more: bool = true;
        while more
            invariant
                valid(self@),
                more ==> run(self@, out@, tools@) == run(start, nothing(), tools@),
                !more ==> (self@, out@) == run(start, nothing(), tools@),
            decreases
                    if more {
                        1nat
                    } else {
                        0nat
                    },
                    remaining(self@),
        {
            proof {
                reveal(run);
                lemma_step_shrinks(self@, out@, tools@);
                lemma_step_valid(self@, out@, tools@);
            }
            let ghost st = self@;
            let ghost given = out@;
            if self.waiting_for_tool_call_end {
                more = self.step_waiting();
                assert((Step { state: self@, out: given, more }) == waiting_step(st, given));
            } else if !self.in_tool_call {
                more = self.step_outside(&mut out);
            } else if !self.function_name_sent {
                let founds: Vec<Found> = find_tags(Tag::MinimaxInvoke, self.buffer.as_str());
                more = self.step_name(&mut out, &founds, tools);
            } else {
                let buffer: String = self.buffer.clone();
                let items: Vec<ToolCallItem> = self.parse_and_stream_parameters(buffer.as_str(), tools);
                more = self.end_call(&mut out, items);
            }
            assert((Step { state: self@, out: out@, more }) == step(st, given, tools@));
        }
        Ok(out)
    }

    /// What is still to be sent of the arguments of the last call.
    pub fn get_unstreamed_tool_args(&self) -> (r: Option<Vec<ToolCallItem>>)
        ensures
            r is Some <==> unstreamed_args(self@.records, self@.streamed) is Some,
            r matches Some(items) ==> items_view(items@) == seq![
                unstreamed_args(self@.records, self@.streamed)->0,
            ],
    {
        get_unstreamed_args(&self.prev_tool_call_arr, &self.streamed_args_for_tool)
    }

    /// Forgets all that came in.
    pub fn reset(&mut self)
        ensures
            final(self)@ == initial(),
    {
        *self = Self::new();
    }
}

impl Default for MinimaxM2Parser {
    /// A parser that nothing came in to.
    fn default() -> (r: Self)
        ensures
            r@ == initial(),
    {
        Self::new()
    }
}

// ---------------------------------------------------------------------------
// Laws
// ---------------------------------------------------------------------------

/// A text in which no ampersand stands is decoded to itself.
pub proof fn law_decode_plain(text: Seq<char>)
    requires
        !text.contains('&'),
    ensures
        decoded(text) == text,
{
    reveal_strlit("&lt;");
    reveal_strlit("&gt;");
    reveal_strlit("&amp;");
    reveal_strlit("&quot;");
    reveal_strlit("&apos;");
    assert forall|pat: Seq<char>| pat.len() > 0 && pat[0] == '&' implies !#[trigger] contains(text, pat) by {
        if contains(text, pat) {
            let i = choose|i: int| crate::text::occurs_at(text, pat, i);
            assert(text.subrange(i, i + pat.len())[0] == text[i]);
        }
    }
    crate::text::lemma_replace_none(text, "&lt;"@, "<"@);
    crate::text::lemma_replace_none(text, "&gt;"@, ">"@);
    crate::text::lemma_replace_none(text, "&amp;"@, "&"@);
    crate::text::lemma_replace_none(text, "&quot;"@, "\""@);
    crate::text::lemma_replace_none(text, "&apos;"@, "'"@);
}

/// A text in which no block opens is given back as it is, with no calls.
pub proof fn law_no_block(text: Seq<char>, tools: Seq<Tool>)
    requires
        !contains(text, BLOCK_START@),
    ensures
        complete_parse(text, tools) == (text, Seq::<CallView>::empty()),
{
}

/// Text that comes in outside any block, and opens none, is given to the user: none of it is
/// lost, no call comes of it, and what is held back is the beginning of the tag that opens a
/// block, and less than all of it.
pub proof fn law_plain_text(st: MinimaxState, chunk: Seq<char>, tools: Seq<Tool>)
    requires
        valid(st),
        !st.in_tool_call && !st.waiting,
        !contains(st.buffer + chunk, BLOCK_START@),
    ensures
        ({
            let (next, given) = chunk_run(st, chunk, tools);
            &&& given.calls.len() == 0
            &&& given.normal_text + next.buffer == st.buffer + chunk
            &&& next.buffer.is_prefix_of(BLOCK_START@)
            &&& next.buffer.len() < BLOCK_START@.len()
            &&& next == MinimaxState { buffer: next.buffer, ..st }
        }),
{
    reveal(run);
    let all = st.buffer + chunk;
    let begun = MinimaxState { buffer: all, ..st };
    reveal_strlit("<minimax:tool_call>");
    crate::tool::lemma_partial_token(all, BLOCK_START@, BLOCK_START@.len() as int);
    let n = partial_token_len(all, BLOCK_START@) as int;
    assert(all.take(all.len() - n) + all.skip(all.len() - n) =~= all);
    assert(run(begun, nothing(), tools).0 == MinimaxState { buffer: all.skip(all.len() - n), ..begun });
    if n > 0 {
        assert(all.skip(all.len() - n) =~= BLOCK_START@.take(n));
    }
}

/// What a step sends makes the texts of the calls grow by just that, and names only tools that
/// there are.
proof fn lemma_step_sends(st: MinimaxState, out: StreamView, tools: Seq<Tool>)
    requires
        valid(st),
    ensures
        ({
            let next = step(st, out, tools);
            let items = next.out.calls.skip(out.calls.len() as int);
            &&& next.out.calls == out.calls + items
            &&& grown(st.streamed, items, next.state.streamed)
            &&& names_known(items, tools)
        }),
{
    let next = step(st, out, tools);
    let items = next.out.calls.skip(out.calls.len() as int);
    let founds = tag_matches(Tag::MinimaxParameter, st.buffer);
    let named = tag_matches(Tag::MinimaxInvoke, st.buffer);
    lemma_grown_none(st.streamed);
    if st.waiting || !st.in_tool_call || (!st.name_sent && (named.len() == 0 || !has_tool(
        tools,
        trim(named[0].group(1)),
    ))) {
        assert(items =~= Seq::empty());
    } else if !st.name_sent {
        let name = trim(named[0].group(1));
        lemma_grown_name(st.streamed, name);
        assert(items =~= seq![name_item(st.streamed.len(), name)]);
    } else {
        lemma_matched_distinct(founds, st.function_name, tools, true);
        let (taken, first) = taken_params(st, founds, tools);
        let id = st.tool->0;
        assert(grown(st.streamed, first, taken.streamed)) by {
            let params = matched_params(founds, st.function_name, tools, true);
            if params.len() > 0 && !same_values(params, st.parameters) {
                lemma_sent_fragment(st.streamed, id, params_fragment(params, st.parameters));
            }
        }
        if find(taken.buffer, INVOKE_END@) is Some {
            let closing = closing_fragment(taken.streamed[id as int]);
            let second = fragment_items(id, closing);
            lemma_sent_fragment(taken.streamed, id, closing);
            lemma_grown(st.streamed, first, taken.streamed, second, next.state.streamed);
            assert(items =~= first + second);
        } else {
            assert(items =~= first);
        }
    }
}

/// As [`lemma_step_sends`], of all steps.
proof fn lemma_run_sends(st: MinimaxState, out: StreamView, tools: Seq<Tool>)
    requires
        valid(st),
    ensures
        ({
            let (end, given) = run(st, out, tools);
            let items = given.calls.skip(out.calls.len() as int);
            &&& given.calls == out.calls + items
            &&& grown(st.streamed, items, end.streamed)
            &&& names_known(items, tools)
            &&& valid(end)
        }),
    decreases remaining(st),
{
    reveal(run);
    lemma_step_sends(st, out, tools);
    lemma_step_valid(st, out, tools);
    lemma_step_shrinks(st, out, tools);
    let next = step(st, out, tools);
    if next.more {
        lemma_run_sends(next.state, next.out, tools);
        let (end, given) = run(st, out, tools);
        let first = next.out.calls.skip(out.calls.len() as int);
        let second = given.calls.skip(next.out.calls.len() as int);
        lemma_grown(st.streamed, first, next.state.streamed, second, end.streamed);
        assert(given.calls.skip(out.calls.len() as int) =~= first + second);
    }
}

/// The pieces that a chunk gives are all that the parser records as sent: the text of each call
/// grows by just what the pieces hold of its arguments. A call is named only where there is a
/// tool of that name. The parser stays valid.
pub proof fn law_chunk_sends(st: MinimaxState, chunk: Seq<char>, tools: Seq<Tool>)
    requires
        valid(st),
    ensures
        ({
            let (next, given) = chunk_run(st, chunk, tools);
            &&& grown(st.streamed, given.calls, next.streamed)
            &&& names_known(given.calls, tools)
            &&& valid(next)
        }),
{
    let begun = MinimaxState { buffer: st.buffer + chunk, ..st };
    lemma_run_sends(begun, nothing(), tools);
    let (next, given) = chunk_run(st, chunk, tools);
    assert(given.calls.skip(0) =~= given.calls);
}

/// A call whose parameters all come in before it closes sends them as one JSON object, which is
/// what is recorded of it, where what opened it is not closed already.
pub proof fn law_closed_call(st: MinimaxState, out: StreamView, founds: Seq<FoundView>, tools: Seq<Tool>)
    requires
        valid(st),
        st.name_sent,
        st.parameters.len() == 0,
        contains(st.buffer, INVOKE_END@),
        matched_params(founds, st.function_name, tools, true).len() > 0,
        wants_brace(opening_fragment(matched_params(founds, st.function_name, tools, true))),
    ensures
        ({
            let params = matched_params(founds, st.function_name, tools, true);
            let id = st.tool->0 as int;
            let next = params_step(st, out, founds, tools);
            &&& next.state.streamed[id] == streamed_object(params)
            &&& next.state.records[id] == Some(
                CallView { name: st.function_name, arguments: streamed_object(params) },
            )
        }),
{
    crate::text::lemma_find(st.buffer, INVOKE_END@);
    let params = matched_params(founds, st.function_name, tools, true);
    let id = st.tool->0 as int;
    assert(!same_values(params, st.parameters));
    assert(st.streamed[id] + opening_fragment(params) =~= opening_fragment(params));
}

/// An invocation of a function that is not among the tools is no call: all that is held is given
/// to the user as text, behind what was given before, and the parser is outside any block.
pub proof fn law_unknown_function(
    st: MinimaxState,
    out: StreamView,
    founds: Seq<FoundView>,
    tools: Seq<Tool>,
)
    requires
        founds.len() > 0,
        !has_tool(tools, trim(founds[0].group(1))),
    ensures
        ({
            let next = name_step(st, out, founds, tools);
            &&& !next.more
            &&& !next.state.in_tool_call
            &&& next.state.buffer.len() == 0
            &&& next.out.normal_text == out.normal_text + st.buffer
            &&& next.out.calls == out.calls
        }),
{
}

/// The parameters behind the ones that are known are the fresh ones.
proof fn lemma_fresh(params: Seq<(Seq<char>, ParamView)>, known: Seq<(Seq<char>, ParamView)>)
    requires
        distinct_names(params),
        known.is_prefix_of(params),
    ensures
        fresh_params(params, known) == params.skip(known.len() as int),
    decreases params.len(),
{
    if params.len() > 0 {
        let last = params.last();
        crate::params::lemma_named(known, last.0);
        if known.len() == params.len() {
            lemma_all_known(params, known);
        } else {
            lemma_fresh(params.drop_last(), known);
            assert(!has_name(known, last.0)) by {
                if has_name(known, last.0) {
                    let k = crate::params::position_of(known, last.0);
                    assert(params[k].0 == params[params.len() - 1].0);
                }
            }
            assert(fresh_params(params, known) =~= params.skip(known.len() as int));
        }
    }
}

/// Of parameters whose names are all known, none is fresh.
proof fn lemma_all_known(params: Seq<(Seq<char>, ParamView)>, known: Seq<(Seq<char>, ParamView)>)
    requires
        params.is_prefix_of(known),
    ensures
        fresh_params(params, known).len() == 0,
    decreases params.len(),
{
    if params.len() > 0 {
        crate::params::lemma_named(known, params.last().0);
        assert(known[params.len() - 1].0 == params.last().0);
        lemma_all_known(params.drop_last(), known);
    }
}

/// The fragments of a call's parameters add up: where what was sent is the object that the known
/// parameters begin, and the parameters that come in have names of their own, what was sent is
/// then the object that all of them begin. So it is from the first parameter on.
pub proof fn law_parameters_add_up(
    known: Seq<(Seq<char>, ParamView)>,
    params: Seq<(Seq<char>, ParamView)>,
    sent: Seq<char>,
)
    requires
        distinct_names(params),
        known.is_prefix_of(params),
        known.len() > 0 ==> sent == opening_fragment(known),
        known.len() == 0 ==> sent.len() == 0,
    ensures
        sent + params_fragment(params, known) == opening_fragment(params),
{
    if known.len() == 0 {
        assert(sent + opening_fragment(params) =~= opening_fragment(params));
    } else {
        let fresh = params.skip(known.len() as int);
        lemma_fresh(params, known);
        if fresh.len() > 0 {
            let first = members_of(known, ": "@);
            let second = members_of(fresh, ": "@);
            crate::text::lemma_joined_concat(first, second, ", "@);
            assert(members_of(params, ": "@) =~= first + second);
            assert(sent + further_fragment(fresh) =~= opening_fragment(params));
        } else {
            assert(params =~= known);
            assert(sent + Seq::<char>::empty() =~= sent);
        }
    }
}

/// What was sent of the parameters of the open call is not sent again: taking in the same matches
/// once more gives nothing and changes nothing. Taking them in gives at most one piece, of the
/// arguments of the open call.
pub proof fn law_parameters_sent_once(st: MinimaxState, founds: Seq<FoundView>, tools: Seq<Tool>)
    requires
        st.tool is Some,
    ensures
        ({
            let (next, items) = taken_params(st, founds, tools);
            &&& items.len() <= 1
            &&& forall|i: int|
                0 <= i < items.len() ==> (#[trigger] items[i]).name is None && items[i].tool_index
                    == st.tool->0
            &&& taken_params(next, founds, tools) == (next, Seq::<ItemView>::empty())
        }),
{
    let params = matched_params(founds, st.function_name, tools, true);
    let (next, items) = taken_params(st, founds, tools);
    if params.len() > 0 && !same_values(params, st.parameters) && !same_values(params, next.parameters) {
        let id = st.tool->0;
        lemma_all_known(params, params);
        assert(params_fragment(params, next.parameters) =~= Seq::empty());
        let sent = next.streamed[id as int];
        assert(sent + Seq::<char>::empty() =~= sent);
        let again = with_params(next, id, params, Seq::empty());
        assert(again.streamed =~= next.streamed);
        assert(again.records =~= next.records);
        assert(again =~= next);
    }
}

/// A call that streams sends the arguments that the same parameters have in a whole text, letter
/// for letter, where none of them is an array or an object.
pub proof fn law_stream_like_whole(params: Seq<(Seq<char>, ParamView)>)
    requires
        forall|i: int| 0 <= i < params.len() ==> crate::params::is_scalar((#[trigger] params[i]).1),
    ensures
        streamed_object(params) == python_object_text(params),
{
    crate::params::law_python_spacing(params);
}

/// A parameter has the value in a stream that it has in a whole text, where the tools declare it,
/// or where it does not begin like an array or an object.
pub proof fn law_stream_value_like_whole(
    tools: Seq<Tool>,
    func: Seq<char>,
    key: Seq<char>,
    text: Seq<char>,
)
    requires
        param_schema(tools, func, key) is Some || !("{"@.is_prefix_of(text) || "["@.is_prefix_of(text)),
    ensures
        streamed_value(tools, func, key, text) == complete_value(tools, func, key, text),
{
}

/// The calls in two rows of blocks are those of the first and behind them those of the second;
/// each matched invocation of a block makes one call.
pub proof fn law_calls_in_order(first: Seq<FoundView>, second: Seq<FoundView>, tools: Seq<Tool>)
    ensures
        blocks_calls(first + second, tools) == blocks_calls(first, tools) + blocks_calls(second, tools),
        forall|block: Seq<char>| (#[trigger] block_calls(block, tools)).len() == tag_matches(Tag::MinimaxInvoke,
            block,
        ).len(),
    decreases second.len(),
{
    if second.len() == 0 {
        assert(first + second =~= first);
        assert(blocks_calls(first, tools) + Seq::<CallView>::empty() =~= blocks_calls(first, tools));
    } else {
        law_calls_in_order(first, second.drop_last(), tools);
        assert((first + second).drop_last() =~= first + second.drop_last());
        assert(blocks_calls(first + second, tools) =~= blocks_calls(first, tools) + blocks_calls(
            second,
            tools,
        ));
    }
}

/// How a text that opens no block is cut into chunks does not matter: two chunks give together
/// what they give as one, and leave the parser in the same state.
pub proof fn law_chunks_of_plain_text(
    st: MinimaxState,
    first: Seq<char>,
    second: Seq<char>,
    tools: Seq<Tool>,
)
    requires
        valid(st),
        !st.in_tool_call && !st.waiting,
        !contains(st.buffer + first + second, BLOCK_START@),
    ensures
        ({
            let (middle, given) = chunk_run(st, first, tools);
            let (end, more) = chunk_run(middle, second, tools);
            let (whole, all) = chunk_run(st, first + second, tools);
            &&& end == whole
            &&& given.normal_text + more.normal_text == all.normal_text
            &&& given.calls.len() == 0 && more.calls.len() == 0 && all.calls.len() == 0
        }),
{
    let text = st.buffer + first;
    let total = text + second;
    assert(st.buffer + (first + second) =~= total);
    lemma_within(text, second, 0, text.len() as int);
    law_plain_text(st, first, tools);
    let (middle, given) = chunk_run(st, first, tools);
    lemma_outside_run(st, first, tools);
    let n = partial_token_len(text, BLOCK_START@) as int;
    crate::tool::lemma_partial_token(text, BLOCK_START@, BLOCK_START@.len() as int);
    crate::tool::lemma_held_on(text, second, BLOCK_START@, n);
    let rest = middle.buffer + second;
    assert(rest =~= total.skip(text.len() - n));
    assert(total.skip(text.len() - n) =~= total.subrange(text.len() - n, total.len() as int));
    lemma_within(total, Seq::empty(), text.len() - n, total.len() as int);
    assert(total + Seq::<char>::empty() =~= total);
    law_plain_text(middle, second, tools);
    lemma_outside_run(middle, second, tools);
    law_plain_text(st, first + second, tools);
    lemma_outside_run(st, first + second, tools);
    let held = partial_token_len(total, BLOCK_START@) as int;
    crate::tool::lemma_partial_token(rest, BLOCK_START@, BLOCK_START@.len() as int);
    assert(rest.skip(rest.len() - held) =~= total.skip(total.len() - held));
    assert(text.take(text.len() - n) + rest.take(rest.len() - held) =~= total.take(total.len() - held));
}

/// A part of a text in which no block opens opens none.
proof fn lemma_within(text: Seq<char>, more: Seq<char>, from: int, to: int)
    requires
        0 <= from <= to <= text.len(),
        !contains(text + more, BLOCK_START@),
    ensures
        !contains(text.subrange(from, to), BLOCK_START@),
        from == 0 && to == text.len() ==> !contains(text, BLOCK_START@),
{
    let part = text.subrange(from, to);
    if contains(part, BLOCK_START@) {
        let i = choose|i: int| crate::text::occurs_at(part, BLOCK_START@, i);
        let n = BLOCK_START@.len();
        assert((text + more).subrange(from + i, from + i + n) =~= part.subrange(i, i + n));
        assert(crate::text::occurs_at(text + more, BLOCK_START@, from + i));
    }
    if from == 0 && to == text.len() {
        assert(part =~= text);
    }
}

/// Outside any block, a text that opens none is given but for what is held back of it.
proof fn lemma_outside_run(st: MinimaxState, chunk: Seq<char>, tools: Seq<Tool>)
    requires
        !st.in_tool_call && !st.waiting,
        !contains(st.buffer + chunk, BLOCK_START@),
    ensures
        ({
            let all = st.buffer + chunk;
            let end = all.len() - partial_token_len(all, BLOCK_START@);
            chunk_run(st, chunk, tools) == (
                MinimaxState { buffer: all.skip(end), ..st },
                StreamView { normal_text: all.take(end), calls: Seq::empty() },
            )
        }),
{
    reveal(run);
    let begun = MinimaxState { buffer: st.buffer + chunk, ..st };
    assert(!step(begun, nothing(), tools).more);
}

/// A whole text in which no call is found is given back as it is.
pub proof fn law_text_kept(text: Seq<char>, tools: Seq<Tool>)
    ensures
        complete_parse(text, tools).1.len() == 0 ==> complete_parse(text, tools).0 == text,
{
}

/// The text before the tag that opens a block is given, all of it and nothing more, when the tag
/// came in; what stands behind the tag is kept, and no call is given as long as none is complete.
pub proof fn law_text_before_block_given(
    st: MinimaxState,
    chunk: Seq<char>,
    before: Seq<char>,
    rest: Seq<char>,
    tools: Seq<Tool>,
)
    requires
        valid(st),
        !st.in_tool_call && !st.waiting,
        st.buffer + chunk == before + "<minimax:tool_call>"@ + rest,
        crate::text::first_at(st.buffer + chunk, "<minimax:tool_call>"@, before.len() as int),
        tag_matches(Tag::MinimaxInvoke, rest).len() == 0,
    ensures
        ({
            let (next, given) = chunk_run(st, chunk, tools);
            &&& given.normal_text == before
            &&& given.calls.len() == 0
            &&& next.in_tool_call && !next.waiting && !next.name_sent
            &&& next.buffer == rest
            &&& next.streamed == st.streamed && next.records == st.records && next.tool == st.tool
        }),
{
    reveal(run);
    let all = st.buffer + chunk;
    let begun = MinimaxState { buffer: all, ..st };
    crate::text::lemma_find(all, BLOCK_START@);
    let first = step(begun, nothing(), tools);
    assert(all.take(before.len() as int) =~= before);
    assert(all.skip((before.len() + BLOCK_START@.len()) as int) =~= rest);
    assert(first.more);
    let second = step(first.state, first.out, tools);
    assert(!second.more);
    assert(run(begun, nothing(), tools) == run(first.state, first.out, tools));
}

/// What stands behind the tag that closes a block is dealt with as a text that comes in outside
/// any block.
pub proof fn law_text_behind_block(st: MinimaxState, chunk: Seq<char>, e: int, tools: Seq<Tool>)
    requires
        valid(st),
        st.waiting && st.in_tool_call,
        crate::text::first_at(st.buffer + chunk, "</minimax:tool_call>"@, e),
        forall|j: int| 0 <= j < e ==> !crate::text::occurs_at(st.buffer + chunk, "<invoke"@, j),
    ensures
        chunk_run(st, chunk, tools) == chunk_run(
            MinimaxState { buffer: Seq::empty(), in_tool_call: false, waiting: false, ..st },
            (st.buffer + chunk).skip(e + 20),
            tools,
        ),
{
    reveal(run);
    reveal_strlit("</minimax:tool_call>");
    let all = st.buffer + chunk;
    let begun = MinimaxState { buffer: all, ..st };
    crate::text::lemma_find(all, BLOCK_END@);
    crate::text::lemma_find(all, INVOKE_START@);
    assert(follow(all) == Follow::End(e + 20)) by {
        if find(all, INVOKE_START@) is Some {
            let i = find(all, INVOKE_START@)->0;
            assert(crate::text::occurs_at(all, INVOKE_START@, i));
        }
    }
    let next = step(begun, nothing(), tools);
    let rest = all.skip(e + 20);
    assert(Seq::<char>::empty() + rest =~= rest);
    assert(next.more);
    assert(run(begun, nothing(), tools) == run(next.state, next.out, tools));
}

/// The text that a whole text gives is what stands before the first block in which there is a call;
/// blocks before it, in which there is none, are part of that text.
pub proof fn law_text_to_first_call(text: Seq<char>, tools: Seq<Tool>, i: int)
    requires
        0 <= i < tag_matches(Tag::MinimaxBlock, text).len(),
        contains(text, BLOCK_START@),
        block_calls(tag_matches(Tag::MinimaxBlock, text)[i].group(0), tools).len() > 0,
        forall|j: int|
            0 <= j < i ==> block_calls(
                (#[trigger] tag_matches(Tag::MinimaxBlock, text)[j]).group(0),
                tools,
            ).len() == 0,
    ensures
        complete_parse(text, tools).0 == tag_matches(Tag::MinimaxBlock, text)[i].before,
        complete_parse(text, tools).1.len() > 0,
{
    let founds = tag_matches(Tag::MinimaxBlock, text);
    lemma_block_is_first(founds, tools, i);
    lemma_first_block(founds, tools);
}

/// The first block in which there is a call.
proof fn lemma_block_is_first(founds: Seq<FoundView>, tools: Seq<Tool>, i: int)
    requires
        0 <= i < founds.len(),
        block_calls(founds[i].group(0), tools).len() > 0,
        forall|j: int| 0 <= j < i ==> block_calls((#[trigger] founds[j]).group(0), tools).len() == 0,
    ensures
        first_block(founds, tools) == Some(founds[i]),
    decreases founds.len(),
{
    let rest = founds.drop_last();
    if i < rest.len() {
        assert forall|j: int| 0 <= j < i implies block_calls((#[trigger] rest[j]).group(0), tools).len() == 0 by {
            assert(block_calls(founds[j].group(0), tools).len() == 0);
        }
        lemma_block_is_first(rest, tools, i);
    } else {
        lemma_no_block_first(rest, tools, founds);
    }
}

/// Where no block holds a call, there is no first one.
proof fn lemma_no_block_first(founds: Seq<FoundView>, tools: Seq<Tool>, all: Seq<FoundView>)
    requires
        founds.len() <= all.len(),
        founds == all.take(founds.len() as int),
        forall|j: int|
            0 <= j < founds.len() ==> block_calls((#[trigger] all[j]).group(0), tools).len() == 0,
    ensures
        first_block(founds, tools) is None,
    decreases founds.len(),
{
    if founds.len() > 0 {
        let rest = founds.drop_last();
        assert(rest =~= all.take(rest.len() as int));
        lemma_no_block_first(rest, tools, all);
        assert(founds.last() == all[founds.len() - 1]);
    }
}

/// The arguments that were sent are closed with a brace just where something was sent, its last
/// character is no closing brace, and more braces open in it than close.
pub proof fn law_closing_brace(sent: Seq<char>)
    ensures
        sent.len() > 0 && sent.last() != '}' && count_char(sent, '{') > count_char(sent, '}')
            ==> closing_fragment(sent) == seq!['}'],
        sent.len() == 0 || sent.last() == '}' || count_char(sent, '{') <= count_char(sent, '}')
            ==> closing_fragment(sent).len() == 0,
{
    reveal_strlit("}");
    assert("}"@ =~= seq!['}']);
    if sent.len() > 0 {
        let n = sent.len() as int;
        assert(sent.subrange(n - 1, n) =~= seq![sent.last()]);
        if sent.last() == '}' {
            assert("}"@.is_suffix_of(sent));
        } else {
            assert(!"}"@.is_suffix_of(sent)) by {
                if "}"@.is_suffix_of(sent) {
                    assert(sent.subrange(n - 1, n)[0] == '}');
                }
            }
        }
    }
}

/// How often a character stands in a text is how often it stands in its parts.
pub proof fn law_count_char(a: Seq<char>, b: Seq<char>, c: char, d: char)
    ensures
        count_char(a + b, c) == count_char(a, c) + count_char(b, c),
        count_char(seq![c], c) == 1,
        d != c ==> count_char(seq![d], c) == 0,
        count_char(Seq::empty(), c) == 0,
    decreases b.len(),
{
    let one = seq![c];
    let other = seq![d];
    assert(one.drop_last() =~= Seq::empty());
    assert(other.drop_last() =~= Seq::empty());
    assert(count_char(one.drop_last(), c) == 0);
    assert(count_char(other.drop_last(), c) == 0);
    if b.len() == 0 {
        assert(a + b =~= a);
    } else {
        law_count_char(a, b.drop_last(), c, d);
        assert((a + b).drop_last() =~= a + b.drop_last());
    }
}

} // verus!
