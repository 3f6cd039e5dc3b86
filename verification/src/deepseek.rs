//! The DeepSeek V3.2 format of tool calls, DSML.
//!
//! ```text
//! <｜DSML｜function_calls>
//! <｜DSML｜invoke name="func">
//! <｜DSML｜parameter name="key" string="true">value</｜DSML｜parameter>
//! </｜DSML｜invoke>
//! </｜DSML｜function_calls>
//! ```
//!
//! In place of parameters, an invocation may hold a JSON object.

use vstd::prelude::*;
use vstd::string::*;

use crate::params::{
    find_param, json_from_str, member_texts, object_json, set_param, Params, ParamValue,
};
#[allow(unused_imports)]
use crate::params::{
    distinct_names, has_name, json_value, members_of, object_text, optional_value, params_view,
    with_value, ParamView,
};
use crate::pattern::{find_tags, Found, Tag};
#[allow(unused_imports)]
use crate::pattern::{founds_view, tag_matches, FoundView};
use crate::text::{
    concat2, contains_text, find_text, join_texts, replace_text, same_text, skip_text,
    starts_with, take_text, trim_end_text, trim_text,
};
#[allow(unused_imports)]
use crate::text::{contains, find, joined, replace_all, texts, trim, trim_end, trim_start};
use crate::tool::{
    ensure_capacity, ends_with_partial_token, find_tool, get_unstreamed_args, FunctionCall,
    ParserResult, StreamingParseResult, Tool, ToolCall, ToolCallItem, ToolRecord,
};
#[allow(unused_imports)]
use crate::tool::{
    args_item, calls_view, fragment_items, grown, has_tool, items_view, lemma_grown, lemma_grown_name,
    lemma_grown_none, lemma_sent_fragment, name_item, names_known, nothing, padded, partial_token_len,
    record_view, records_view, unstreamed_args, CallView, ItemView, StreamView,
};

verus! {

/// The tag that opens a block.
pub const BLOCK_START: &'static str = "<｜DSML｜function_calls>";

/// The tag that closes a block.
pub const BLOCK_END: &'static str = "</｜DSML｜function_calls>";

/// The tag that closes an invocation.
pub const INVOKE_END: &'static str = "</｜DSML｜invoke>";

/// The tag that closes a parameter.
pub const PARAMETER_END: &'static str = "</｜DSML｜parameter>";

// ---------------------------------------------------------------------------
// Closing tags that are cut
// ---------------------------------------------------------------------------

/// `f` is the beginning of a closing tag, or all of it.
pub open spec fn is_fragment(f: Seq<char>) -> bool {
    f.len() >= 2 && (f.is_prefix_of(PARAMETER_END@) || f.is_prefix_of(INVOKE_END@))
}

/// A closing tag, or the beginning of one, runs from `i` to the end of `s`.
pub open spec fn fragment_at(s: Seq<char>, i: int) -> bool {
    0 <= i <= s.len() && is_fragment(s.skip(i))
}

/// `s` without the closing tag, or the beginning of one, that it ends with.
pub open spec fn without_fragment(s: Seq<char>) -> Seq<char> {
    if exists|i: int| fragment_at(s, i) {
        s.take(choose|i: int| fragment_at(s, i))
    } else {
        s
    }
}

/// A closing tag opens with the one `<` that stands in it.
proof fn lemma_tag_open(k: int)
    ensures
        PARAMETER_END@[0] == '<' && INVOKE_END@[0] == '<',
        PARAMETER_END@.len() == 18 && INVOKE_END@.len() == 15,
        0 < k < PARAMETER_END@.len() ==> PARAMETER_END@[k] != '<',
        0 < k < INVOKE_END@.len() ==> INVOKE_END@[k] != '<',
{
    reveal_strlit("</｜DSML｜parameter>");
    reveal_strlit("</｜DSML｜invoke>");
}

/// No closing tag, or beginning of one, at the end of a text runs from before another.
proof fn lemma_fragment_order(s: Seq<char>, i: int, j: int)
    requires
        fragment_at(s, i),
        fragment_at(s, j),
    ensures
        i >= j,
{
    if i < j {
        lemma_tag_open(j - i);
        assert(s.skip(j)[0] == s[j]);
        assert(s.skip(i)[j - i] == s[j]);
    }
}

/// `s` without the closing tag, or the beginning of one, that it ends with.
fn strip_fragment(s: &str) -> (r: String)
    ensures
        r@ == without_fragment(s@),
{
    let total: usize = s.unicode_len();
    let mut i: usize = 0;
    while i < total
        invariant
            total == s@.len(),
            i <= total,
            forall|j: int| 0 <= j < i ==> !fragment_at(s@, j),
        decreases total - i,
    {
        let rest: String = skip_text(s, i);
        if total - i >= 2 && (starts_with(PARAMETER_END, rest.as_str()) || starts_with(
            INVOKE_END,
            rest.as_str(),
        )) {
            proof {
                assert(fragment_at(s@, i as int));
                let k = choose|k: int| fragment_at(s@, k);
                lemma_fragment_order(s@, i as int, k);
                lemma_fragment_order(s@, k, i as int);
            }
            return take_text(s, i);
        }
        i = i + 1;
    }
    assert(!fragment_at(s@, total as int));
    assert forall|k: int| !fragment_at(s@, k) by {}
    s.to_owned()
}

// ---------------------------------------------------------------------------
// Parameters
// ---------------------------------------------------------------------------

/// The value of a parameter: its text where it is declared a string, or else the JSON value
/// that it denotes, if it denotes one.
pub open spec fn dsml_value(is_string: Seq<char>, text: Seq<char>, json: Option<ParamView>) -> ParamView {
    if is_string == "true"@ {
        ParamView::Text(text)
    } else {
        match json {
            Some(value) => value,
            None => ParamView::Text(text),
        }
    }
}

/// The parameters that the matches give, each under its name: a later one takes the place of an
/// earlier one of the same name.
pub open spec fn dsml_params(founds: Seq<FoundView>) -> Seq<(Seq<char>, ParamView)>
    decreases founds.len(),
{
    if founds.len() == 0 {
        Seq::empty()
    } else {
        let f = founds.last();
        with_value(
            dsml_params(founds.drop_last()),
            f.group(1),
            dsml_value(f.group(2), f.group(3), json_value(trim(f.group(3)))),
        )
    }
}

/// The text of a parameter that is still coming in, as far as it is known.
pub open spec fn open_text(found: FoundView) -> Seq<char> {
    trim(without_fragment(trim(found.group(3))))
}

/// `params` with the parameter that is still coming in, where there is one and its name is not
/// taken.
pub open spec fn with_open(
    params: Seq<(Seq<char>, ParamView)>,
    opens: Seq<FoundView>,
) -> Seq<(Seq<char>, ParamView)> {
    if opens.len() > 0 && open_text(opens[0]).len() > 0 && !has_name(params, opens[0].group(1)) {
        let text = open_text(opens[0]);
        with_value(
            params,
            opens[0].group(1),
            dsml_value(opens[0].group(2), text, json_value(text)),
        )
    } else {
        params
    }
}

/// The position behind the last match, or the beginning where there is none.
pub open spec fn behind_matches(founds: Seq<FoundView>) -> int {
    if founds.len() > 0 {
        founds.last().end()
    } else {
        0
    }
}

/// The parameter that is still coming in, behind those that are complete.
pub open spec fn open_matches(content: Seq<char>, founds: Seq<FoundView>) -> Seq<FoundView> {
    tag_matches(Tag::DsmlOpenParameter, content.skip(behind_matches(founds)))
}

/// The arguments in the body of an invocation, given the parameters matched in it: the body
/// itself where it begins like a JSON object, or else the parameters as an object. Where the body
/// may be cut, a closing tag at its end that is cut is left out, and `opens` are the matches of a
/// parameter that is cut.
pub open spec fn arguments_of(
    content: Seq<char>,
    founds: Seq<FoundView>,
    opens: Seq<FoundView>,
    allow_partial: bool,
) -> Seq<char> {
    let trimmed = trim(content);
    if "{"@.is_prefix_of(trimmed) {
        if allow_partial {
            without_fragment(trimmed)
        } else {
            trimmed
        }
    } else if allow_partial {
        object_text(with_open(dsml_params(founds), opens))
    } else {
        object_text(dsml_params(founds))
    }
}

/// The arguments in the body of an invocation.
pub open spec fn dsml_arguments(content: Seq<char>, allow_partial: bool) -> Seq<char> {
    let founds = tag_matches(Tag::DsmlParameter, content);
    arguments_of(content, founds, open_matches(content, founds), allow_partial)
}

/// The value of a parameter, given the JSON value that its text denotes.
pub fn value_from_json(is_string: &str, text: &str, json: Option<ParamValue>) -> (r: ParamValue)
    ensures
        r@ == dsml_value(is_string@, text@, optional_value(json)),
{
    if !same_text(is_string, "true") {
        if let Some(value) = json {
            return value;
        }
    }
    ParamValue::Text(text.to_owned())
}

/// The value of a parameter, of which `json_text` may be read as JSON.
fn value_of(is_string: &str, text: &str, json_text: &str) -> (r: ParamValue)
    ensures
        r@ == dsml_value(is_string@, text@, json_value(json_text@)),
{
    let json: Option<ParamValue> = json_from_str(json_text);
    value_from_json(is_string, text, json)
}

/// The parameters that the matches give.
pub fn params_from_matches(founds: &Vec<Found>) -> (r: Params)
    ensures
        params_view(r@) == dsml_params(founds_view(founds@)),
{
    let mut params: Params = Vec::new();
    let mut i: usize = 0;
    let ghost all = founds_view(founds@);
    assert(params_view(params@) =~= dsml_params(all.take(0)));
    while i < founds.len()
        invariant
            all == founds_view(founds@),
            i <= founds@.len(),
            params_view(params@) == dsml_params(all.take(i as int)),
        decreases founds.len() - i,
    {
        assert(all.take(i + 1).drop_last() =~= all.take(i as int));
        assert(all.take(i + 1).last() == founds@[i as int]@);
        let json_text: String = trim_text(founds[i].group(3));
        let value: ParamValue = value_of(founds[i].group(2), founds[i].group(3), json_text.as_str());
        set_param(&mut params, founds[i].group(1).to_owned(), value);
        i = i + 1;
    }
    assert(all.take(i as int) =~= all);
    params
}

/// The parameter that is still coming in, behind those that are complete.
fn find_open(content: &str, founds: &Vec<Found>) -> (r: Vec<Found>)
    requires
        forall|i: int| 0 <= i < founds@.len() ==> (#[trigger] founds@[i])@.stands_in(content@),
    ensures
        founds_view(r@) == open_matches(content@, founds_view(founds@)),
{
    if founds.len() == 0 {
        assert(content@.skip(0) =~= content@);
        return find_tags(Tag::DsmlOpenParameter, content);
    }
    let last: usize = founds.len() - 1;
    assert(founds_view(founds@).last() == founds@[last as int]@);
    let total: usize = content.unicode_len();
    assert(founds@[last as int]@.end() <= total);
    let end: usize = founds[last].before.as_str().unicode_len() + founds[last].group(0).unicode_len();
    let rest: String = skip_text(content, end);
    find_tags(Tag::DsmlOpenParameter, rest.as_str())
}

/// The arguments in the body of an invocation, given the parameters matched in it.
pub fn arguments_from_matches(
    content: &str,
    founds: &Vec<Found>,
    opens: &Vec<Found>,
    allow_partial: bool,
) -> (r: String)
    ensures
        r@ == arguments_of(content@, founds_view(founds@), founds_view(opens@), allow_partial),
{
    let trimmed: String = trim_text(content);
    if starts_with(trimmed.as_str(), "{") {
        return if allow_partial {
            strip_fragment(trimmed.as_str())
        } else {
            trimmed
        };
    }
    let mut params: Params = params_from_matches(founds);
    if allow_partial && opens.len() > 0 {
        assert(founds_view(opens@)[0] == opens@[0]@);
        let raw: String = trim_text(opens[0].group(3));
        let stripped: String = strip_fragment(raw.as_str());
        let text: String = trim_text(stripped.as_str());
        if text.as_str().unicode_len() > 0 && find_param(&params, opens[0].group(1)).is_none() {
            let value: ParamValue = value_of(opens[0].group(2), text.as_str(), text.as_str());
            set_param(&mut params, opens[0].group(1).to_owned(), value);
        }
    }
    object_json(&params)
}

// ---------------------------------------------------------------------------
// Whole texts
// ---------------------------------------------------------------------------

/// The call that a matched invocation makes.
pub open spec fn invoke_call(found: FoundView) -> CallView {
    CallView { name: trim(found.group(1)), arguments: dsml_arguments(found.group(2), false) }
}

/// The calls in the body of a block.
pub open spec fn body_calls(body: Seq<char>) -> Seq<CallView> {
    tag_matches(Tag::DsmlInvoke, body).map_values(|f: FoundView| invoke_call(f))
}

/// The calls in the matched blocks.
pub open spec fn blocks_calls(founds: Seq<FoundView>) -> Seq<CallView>
    decreases founds.len(),
{
    if founds.len() == 0 {
        Seq::empty()
    } else {
        blocks_calls(founds.drop_last()) + body_calls(founds.last().group(1))
    }
}

/// What a whole text gives: the text before the first block, without the white space at its
/// end, and the calls; the text as it is where there is none.
pub open spec fn complete_parse(text: Seq<char>) -> (Seq<char>, Seq<CallView>) {
    let calls = blocks_calls(tag_matches(Tag::DsmlBlock, text));
    match find(text, BLOCK_START@) {
        Some(i) => if calls.len() > 0 {
            (trim_end(text.take(i)), calls)
        } else {
            (text, Seq::empty())
        },
        None => (text, Seq::empty()),
    }
}

/// A parser of the DeepSeek V3.2 format.
#[derive(Debug)]
pub struct DeepSeek32Parser {
    /// What came in and is not used up.
    pub(crate) buffer: String,
    /// The calls that came in, as far as they are known.
    pub(crate) prev_tool_call_arr: Vec<Option<ToolRecord>>,
    /// The number of the call that is coming in; none before the first.
    pub(crate) current_tool_id: Option<usize>,
    /// Whether the name of that call was sent.
    pub(crate) current_tool_name_sent: bool,
    /// What was sent of the arguments of each call.
    pub(crate) streamed_args_for_tool: Vec<String>,
    /// Whether a block is open.
    pub(crate) in_block: bool,
}

/// What a [`DeepSeek32Parser`] holds.
#[verifier::ext_equal]
pub struct DsmlState {
    pub buffer: Seq<char>,
    pub records: Seq<Option<CallView>>,
    pub tool: Option<nat>,
    pub name_sent: bool,
    pub streamed: Seq<Seq<char>>,
    pub in_block: bool,
}

impl View for DeepSeek32Parser {
    type V = DsmlState;

    closed spec fn view(&self) -> DsmlState {
        DsmlState {
            buffer: self.buffer@,
            records: records_view(self.prev_tool_call_arr@),
            tool: match self.current_tool_id {
                Some(id) => Some(id as nat),
                None => None,
            },
            name_sent: self.current_tool_name_sent,
            streamed: texts(self.streamed_args_for_tool@),
            in_block: self.in_block,
        }
    }
}

/// The state before anything came in.
pub open spec fn initial() -> DsmlState {
    DsmlState {
        buffer: Seq::empty(),
        records: Seq::empty(),
        tool: None,
        name_sent: false,
        streamed: Seq::empty(),
        in_block: false,
    }
}

/// What holds of every state that a parser gets into: there is a record, and a text sent, for
/// each call whose name was sent, and for no other; and a call whose name was sent and that is
/// not closed stands in an open block.
pub open spec fn valid(st: DsmlState) -> bool {
    &&& st.records.len() == st.streamed.len()
    &&& match st.tool {
        Some(id) => st.streamed.len() == id + if st.name_sent {
            1int
        } else {
            0int
        },
        None => st.streamed.len() == 0 && !st.name_sent,
    }
    &&& st.name_sent ==> st.in_block
}

impl DeepSeek32Parser {
    /// A parser that nothing came in to.
    pub fn new() -> (r: Self)
        ensures
            r@ == initial(),
            valid(r@),
    {
        let parser: DeepSeek32Parser = DeepSeek32Parser {
            buffer: String::new(),
            prev_tool_call_arr: Vec::new(),
            current_tool_id: None,
            current_tool_name_sent: false,
            streamed_args_for_tool: Vec::new(),
            in_block: false,
        };
        assert(parser@ =~= initial());
        parser
    }

    /// The arguments in the body of an invocation, as a JSON text. Where `allow_partial` is set,
    /// the body may be cut.
    pub fn parse_parameters_from_dsml(&self, invoke_content: &str, allow_partial: bool) -> (r: String)
        ensures
            r@ == dsml_arguments(invoke_content@, allow_partial),
    {
        let founds: Vec<Found> = find_tags(Tag::DsmlParameter, invoke_content);
        let opens: Vec<Found> = find_open(invoke_content, &founds);
        arguments_from_matches(invoke_content, &founds, &opens, allow_partial)
    }

    /// The call that an invocation makes.
    pub fn parse_invoke(&self, name: &str, content: &str) -> (r: ToolCall)
        ensures
            r@ == (CallView { name: trim(name@), arguments: dsml_arguments(content@, false) }),
    {
        let arguments: String = self.parse_parameters_from_dsml(content, false);
        ToolCall { function: FunctionCall { name: trim_text(name), arguments } }
    }

    /// The calls in the body of a block.
    fn parse_body(&self, body: &str) -> (r: Vec<ToolCall>)
        ensures
            calls_view(r@) == body_calls(body@),
    {
        let founds: Vec<Found> = find_tags(Tag::DsmlInvoke, body);
        let mut calls: Vec<ToolCall> = Vec::new();
        let mut i: usize = 0;
        while i < founds.len()
            invariant
                founds_view(founds@) == tag_matches(Tag::DsmlInvoke, body@),
                i <= founds@.len(),
                calls_view(calls@) == body_calls(body@).take(i as int),
            decreases founds.len() - i,
        {
            let call: ToolCall = self.parse_invoke(founds[i].group(1), founds[i].group(2));
            let ghost held = calls@;
            assert(founds_view(founds@)[i as int] == founds@[i as int]@);
            assert(call@ == body_calls(body@)[i as int]);
            calls.push(call);
            assert(calls_view(calls@) =~= calls_view(held).push(call@));
            i = i + 1;
            assert(calls_view(calls@) =~= body_calls(body@).take(i as int));
        }
        assert(calls_view(calls@) =~= body_calls(body@));
        calls
    }

    /// The calls in the matched blocks.
    pub fn calls_from_blocks(&self, founds: &Vec<Found>) -> (r: Vec<ToolCall>)
        ensures
            calls_view(r@) == blocks_calls(founds_view(founds@)),
    {
        let mut results: Vec<ToolCall> = Vec::new();
        let mut i: usize = 0;
        let ghost all = founds_view(founds@);
        assert(calls_view(results@) =~= blocks_calls(all.take(0)));
        while i < founds.len()
            invariant
                all == founds_view(founds@),
                i <= founds@.len(),
                calls_view(results@) == blocks_calls(all.take(i as int)),
            decreases founds.len() - i,
        {
            let mut calls: Vec<ToolCall> = self.parse_body(founds[i].group(1));
            assert(all.take(i + 1).drop_last() =~= all.take(i as int));
            assert(all.take(i + 1).last() == founds@[i as int]@);
            let ghost held = results@;
            let ghost more = calls@;
            results.append(&mut calls);
            assert(calls_view(results@) =~= calls_view(held) + calls_view(more));
            i = i + 1;
        }
        assert(all.take(i as int) =~= all);
        results
    }

    /// Whether a block opens in the text.
    pub fn has_tool_markers(&self, text: &str) -> (r: bool)
        ensures
            r == contains(text@, BLOCK_START@),
    {
        contains_text(text, BLOCK_START)
    }

    /// What a whole text gives.
    pub fn parse_complete(&self, text: &str) -> (r: ParserResult<(String, Vec<ToolCall>)>)
        ensures
            r matches Ok(p) && (p.0@, calls_view(p.1@)) == complete_parse(text@),
    {
        let found: Option<usize> = find_text(text, BLOCK_START);
        let start: usize = match found {
            Some(start) => start,
            None => {
                let none: Vec<ToolCall> = Vec::new();
                assert(calls_view(none@) =~= Seq::empty());
                return Ok((text.to_owned(), none));
            },
        };
        let founds: Vec<Found> = find_tags(Tag::DsmlBlock, text);
        let calls: Vec<ToolCall> = self.calls_from_blocks(&founds);
        if calls.len() == 0 {
            assert(calls_view(calls@) =~= Seq::empty());
            return Ok((text.to_owned(), calls));
        }
        assert(calls_view(calls@).len() > 0);
        let before: String = take_text(text, start);
        Ok((trim_end_text(before.as_str()), calls))
    }

    /// What is still to be sent of the arguments of the last call.
    pub fn get_unstreamed_tool_args(&self) -> (r: Option<Vec<ToolCallItem>>)
        ensures
            r is Some <==> unstreamed_args(self@.records, self@.streamed) is Some,
            r matches Some(items) ==> items_view(items@) == seq![
                unstreamed_args(self@.records, self@.streamed)->0,
            ],
    {
        get_unstreamed_args(&self.prev_tool_call_arr, &self.streamed_args_for_tool)
    }

    /// Forgets all that came in.
    pub fn reset(&mut self)
        ensures
            final(self)@ == initial(),
    {
        *self = Self::new();
    }
}

impl Default for DeepSeek32Parser {
    /// A parser that nothing came in to.
    fn default() -> (r: Self)
        ensures
            r@ == initial(),
    {
        Self::new()
    }
}

// ---------------------------------------------------------------------------
// Streams
// ---------------------------------------------------------------------------

/// The larger of two lengths.
pub open spec fn longer(a: nat, b: nat) -> nat {
    if a >= b {
        a
    } else {
        b
    }
}

/// How many characters at the end of a text outside any block may be the beginning of a tag:
/// of one that opens a block, or of one that closes a block or an invocation.
pub open spec fn held_len(text: Seq<char>) -> nat {
    longer(
        partial_token_len(text, BLOCK_START@),
        longer(partial_token_len(text, BLOCK_END@), partial_token_len(text, INVOKE_END@)),
    )
}

/// A text as the user sees it: without the tags that close a block or an invocation.
pub open spec fn shown(text: Seq<char>) -> Seq<char> {
    replace_all(replace_all(text, BLOCK_END@, ""@), INVOKE_END@, ""@)
}

/// What may be sent of the arguments of an invocation whose body is still coming in, given the
/// parameters matched in it: the object that they begin, not closed; nothing as long as there is
/// none, and nothing of a JSON object that stands in place of parameters.
pub open spec fn opened_arguments(content: Seq<char>, founds: Seq<FoundView>) -> Seq<char> {
    let params = dsml_params(founds);
    if "{"@.is_prefix_of(trim(content)) || params.len() == 0 {
        Seq::empty()
    } else {
        "{"@ + joined(members_of(params, ":"@), ","@)
    }
}

/// What is to be sent so that `target` was sent, where `sent` was: the rest of it. What was sent
/// is not taken back: where it is not the beginning of `target`, nothing more is.
pub open spec fn rest_of(sent: Seq<char>, target: Seq<char>) -> Seq<char> {
    if sent.is_prefix_of(target) {
        target.skip(sent.len() as int)
    } else {
        Seq::empty()
    }
}

/// A step of the parser: the state behind it, what was given so far, and whether another step
/// follows.
#[verifier::ext_equal]
pub struct DsmlStep {
    pub state: DsmlState,
    pub out: StreamView,
    pub more: bool,
}

/// The step of a parser outside any block: the text before a block is shown, or all of it but
/// what may be the beginning of a tag.
pub open spec fn outside_step(st: DsmlState, out: StreamView) -> DsmlStep {
    match find(st.buffer, BLOCK_START@) {
        Some(i) => DsmlStep {
            state: DsmlState {
                buffer: st.buffer.skip(i + BLOCK_START@.len()),
                in_block: true,
                ..st
            },
            out: StreamView { normal_text: out.normal_text + shown(st.buffer.take(i)), ..out },
            more: true,
        },
        None => {
            let end = st.buffer.len() - held_len(st.buffer);
            DsmlStep {
                state: DsmlState { buffer: st.buffer.skip(end), ..st },
                out: StreamView { normal_text: out.normal_text + shown(st.buffer.take(end)), ..out },
                more: false,
            }
        },
    }
}

/// The number of the call that is coming in, or of the one that comes in next.
pub open spec fn call_number(st: DsmlState) -> nat {
    match st.tool {
        Some(id) => id,
        None => 0,
    }
}

/// `st` with the name of the call that comes in sent, and the piece that sends it, where it was
/// not sent before.
pub open spec fn named_call(st: DsmlState, name: Seq<char>) -> (DsmlState, Seq<ItemView>) {
    if st.name_sent {
        (st, Seq::empty())
    } else {
        let id = call_number(st);
        (
            DsmlState {
                tool: Some(id),
                name_sent: true,
                records: padded(st.records, id + 1, None),
                streamed: padded(st.streamed, id + 1, Seq::empty()),
                ..st
            },
            seq![name_item(id, name)],
        )
    }
}

/// `st` with `fragment` sent of the call that comes in, of which `call` is known.
pub open spec fn sent_call(st: DsmlState, call: CallView, fragment: Seq<char>) -> DsmlState {
    let id = call_number(st) as int;
    DsmlState {
        records: st.records.update(id, Some(call)),
        streamed: st.streamed.update(id, st.streamed[id] + fragment),
        ..st
    }
}

/// `st` behind an invocation that ends at `end` in the buffer.
pub open spec fn closed_call(st: DsmlState, end: int) -> DsmlState {
    DsmlState {
        buffer: st.buffer.skip(end),
        tool: Some(call_number(st) + 1),
        name_sent: false,
        ..st
    }
}

/// The step of a parser at an invocation, given the parameters matched in its body. An
/// invocation of a tool that there is not is passed over. Of any other the name is sent, once;
/// then its arguments, as far as they are known, and all of them when it is closed.
pub open spec fn invoke_step(
    st: DsmlState,
    out: StreamView,
    found: FoundView,
    founds: Seq<FoundView>,
    opens: Seq<FoundView>,
    tools: Seq<Tool>,
) -> DsmlStep {
    let name = trim(found.group(1));
    let closed = found.group(3).len() > 0 && 0 < found.end() <= st.buffer.len();
    if !has_tool(tools, name) {
        DsmlStep {
            state: if closed {
                DsmlState { buffer: st.buffer.skip(found.end()), ..st }
            } else {
                st
            },
            out,
            more: closed,
        }
    } else {
        let (begun, first) = named_call(st, name);
        let id = call_number(begun);
        let arguments = arguments_of(found.group(2), founds, opens, !closed);
        let fragment = rest_of(
            begun.streamed[id as int],
            if closed {
                arguments
            } else {
                opened_arguments(found.group(2), founds)
            },
        );
        let sent = sent_call(begun, CallView { name, arguments }, fragment);
        DsmlStep {
            state: if closed {
                closed_call(sent, found.end())
            } else {
                sent
            },
            out: StreamView { calls: out.calls + (first + fragment_items(id, fragment)), ..out },
            more: closed,
        }
    }
}

/// The step of a parser in a block, given the invocations matched in the buffer: at the first
/// invocation, where one stands before the end of the block; or else to that end, where it is
/// known. A call that is open there stays as it is.
pub open spec fn block_step(
    st: DsmlState,
    out: StreamView,
    founds: Seq<FoundView>,
    tools: Seq<Tool>,
) -> DsmlStep {
    let end = find(st.buffer, BLOCK_END@);
    if founds.len() > 0 && (end is None || founds[0].before.len() < end->0) {
        let body = founds[0].group(2);
        let params = tag_matches(Tag::DsmlParameter, body);
        invoke_step(st, out, founds[0], params, open_matches(body, params), tools)
    } else {
        match end {
            Some(e) => DsmlStep {
                state: DsmlState {
                    buffer: st.buffer.skip(e + BLOCK_END@.len()),
                    in_block: false,
                    tool: if st.name_sent {
                        Some(call_number(st) + 1)
                    } else {
                        st.tool
                    },
                    name_sent: false,
                    ..st
                },
                out,
                more: true,
            },
            None => DsmlStep { state: st, out, more: false },
        }
    }
}

/// A step of the parser.
pub open spec fn step(st: DsmlState, out: StreamView, tools: Seq<Tool>) -> DsmlStep {
    if st.in_block {
        block_step(st, out, tag_matches(Tag::DsmlOpenInvoke, st.buffer), tools)
    } else {
        outside_step(st, out)
    }
}

/// A step that another follows leaves less in the buffer.
pub proof fn lemma_step_shrinks(st: DsmlState, out: StreamView, tools: Seq<Tool>)
    ensures
        step(st, out, tools).more ==> step(st, out, tools).state.buffer.len() < st.buffer.len(),
{
    reveal_strlit("<｜DSML｜function_calls>");
    reveal_strlit("</｜DSML｜function_calls>");
    crate::text::lemma_find(st.buffer, BLOCK_START@);
    crate::text::lemma_find(st.buffer, BLOCK_END@);
}

/// The steps of the parser until none follows.
#[verifier::opaque]
pub open spec fn run(st: DsmlState, out: StreamView, tools: Seq<Tool>) -> (DsmlState, StreamView)
    decreases st.buffer.len(),
{
    proof {
        lemma_step_shrinks(st, out, tools);
    }
    let next = step(st, out, tools);
    if next.more {
        run(next.state, next.out, tools)
    } else {
        (next.state, next.out)
    }
}

/// What a chunk gives: it is put behind what is not used up, and the parser runs.
pub open spec fn chunk_run(st: DsmlState, chunk: Seq<char>, tools: Seq<Tool>) -> (DsmlState, StreamView) {
    run(DsmlState { buffer: st.buffer + chunk, ..st }, nothing(), tools)
}

/// A text as the user sees it.
fn shown_text(text: &str) -> (r: String)
    ensures
        r@ == shown(text@),
{
    proof {
        reveal_strlit("</｜DSML｜function_calls>");
        reveal_strlit("</｜DSML｜invoke>");
    }
    let first: String = replace_text(text, BLOCK_END, "");
    replace_text(first.as_str(), INVOKE_END, "")
}

/// How many characters at the end of a text outside any block may be the beginning of a tag.
fn held_back(text: &str) -> (r: usize)
    ensures
        r == held_len(text@),
        r <= text@.len(),
{
    let start: usize = ends_with_partial_token(text, BLOCK_START);
    let block: usize = ends_with_partial_token(text, BLOCK_END);
    let invoke: usize = ends_with_partial_token(text, INVOKE_END);
    let closing: usize = if block >= invoke {
        block
    } else {
        invoke
    };
    if start >= closing {
        start
    } else {
        closing
    }
}

/// What may be sent of the arguments of an invocation whose body is still coming in.
fn opened_text(content: &str, founds: &Vec<Found>) -> (r: String)
    ensures
        r@ == opened_arguments(content@, founds_view(founds@)),
{
    let trimmed: String = trim_text(content);
    let params: Params = params_from_matches(founds);
    if starts_with(trimmed.as_str(), "{") || params.len() == 0 {
        return String::new();
    }
    let members: Vec<String> = member_texts(&params, ":");
    let body: String = join_texts(&members, ",");
    concat2("{", body.as_str())
}

/// What is to be sent so that `target` was sent, where `sent` was.
fn rest_text(sent: &str, target: &str) -> (r: String)
    ensures
        r@ == rest_of(sent@, target@),
{
    if starts_with(target, sent) {
        let n: usize = sent.unicode_len();
        skip_text(target, n)
    } else {
        String::new()
    }
}

impl DeepSeek32Parser {
    /// The step of a parser outside any block.
    fn step_outside(&mut self, out: &mut StreamingParseResult) -> (more: bool)
        ensures
            (DsmlStep { state: final(self)@, out: final(out)@, more }) == outside_step(
                old(self)@,
                old(out)@,
            ),
    {
        match find_text(self.buffer.as_str(), BLOCK_START) {
            Some(start) => {
                let head: String = take_text(self.buffer.as_str(), start);
                let text: String = shown_text(head.as_str());
                out.normal_text = concat2(out.normal_text.as_str(), text.as_str());
                self.buffer = skip_text(self.buffer.as_str(), start + BLOCK_START.unicode_len());
                self.in_block = true;
                true
            },
            None => {
                let held: usize = held_back(self.buffer.as_str());
                let end: usize = self.buffer.as_str().unicode_len() - held;
                let head: String = take_text(self.buffer.as_str(), end);
                let text: String = shown_text(head.as_str());
                out.normal_text = concat2(out.normal_text.as_str(), text.as_str());
                self.buffer = skip_text(self.buffer.as_str(), end);
                false
            },
        }
    }

    /// Sends the name of the call that comes in, where it was not sent before.
    fn send_name(&mut self, name: &str, out: &mut StreamingParseResult) -> (id: usize)
        requires
            valid(old(self)@),
            old(self)@.in_block,
        ensures
            final(self)@ == named_call(old(self)@, name@).0,
            final(out)@ == (StreamView {
                calls: old(out)@.calls + named_call(old(self)@, name@).1,
                ..old(out)@
            }),
            valid(final(self)@),
            final(self)@.name_sent,
            id == call_number(final(self)@),
            id < final(self)@.streamed.len(),
    {
        let id: usize = match self.current_tool_id {
            Some(id) => id,
            None => 0,
        };
        if !self.current_tool_name_sent {
            self.current_tool_id = Some(id);
            self.current_tool_name_sent = true;
            ensure_capacity(id, &mut self.prev_tool_call_arr, &mut self.streamed_args_for_tool);
            let item: ToolCallItem = ToolCallItem {
                tool_index: id,
                name: Some(name.to_owned()),
                parameters: String::new(),
            };
            assert(item.parameters@ =~= Seq::empty());
            let ghost held = out.calls@;
            out.calls.push(item);
            assert(items_view(out.calls@) =~= items_view(held) + seq![item@]);
        } else {
            assert(items_view(out.calls@) + Seq::<ItemView>::empty() =~= items_view(out.calls@));
        }
        id
    }

    /// Sends `fragment` of call `id`, of which the name and the arguments are known.
    fn send_arguments(
        &mut self,
        id: usize,
        name: String,
        arguments: String,
        fragment: String,
        out: &mut StreamingParseResult,
    )
        requires
            valid(old(self)@),
            id == call_number(old(self)@),
            id < old(self)@.streamed.len(),
        ensures
            final(self)@ == sent_call(
                old(self)@,
                (CallView { name: name@, arguments: arguments@ }),
                fragment@,
            ),
            final(out)@ == (StreamView {
                calls: old(out)@.calls + fragment_items(id as nat, fragment@),
                ..old(out)@
            }),
    {
        let ghost records = self.prev_tool_call_arr@;
        let ghost streamed = self.streamed_args_for_tool@;
        let record: ToolRecord = ToolRecord { name, arguments };
        let ghost known = record_view(Some(record));
        self.prev_tool_call_arr.set(id, Some(record));
        assert(records_view(self.prev_tool_call_arr@) =~= records_view(records).update(id as int, known));
        let text: String = concat2(self.streamed_args_for_tool[id].as_str(), fragment.as_str());
        self.streamed_args_for_tool.set(id, text);
        assert(texts(self.streamed_args_for_tool@) =~= texts(streamed).update(
            id as int,
            texts(streamed)[id as int] + fragment@,
        ));
        if fragment.as_str().unicode_len() > 0 {
            let item: ToolCallItem = ToolCallItem { tool_index: id, name: None, parameters: fragment };
            let ghost held = out.calls@;
            out.calls.push(item);
            assert(items_view(out.calls@) =~= items_view(held) + seq![item@]);
        } else {
            assert(items_view(out.calls@) + Seq::<ItemView>::empty() =~= items_view(out.calls@));
        }
    }

    /// The step of a parser at an invocation, of which the parameters matched in its body are
    /// given.
    pub fn step_invoke(
        &mut self,
        out: &mut StreamingParseResult,
        found: &Found,
        founds: &Vec<Found>,
        opens: &Vec<Found>,
        tools: &[Tool],
    ) -> (more: bool)
        requires
            valid(old(self)@),
            old(self)@.in_block,
            found@.stands_in(old(self)@.buffer),
        ensures
            (DsmlStep { state: final(self)@, out: final(out)@, more }) == invoke_step(
                old(self)@,
                old(out)@,
                found@,
                founds_view(founds@),
                founds_view(opens@),
                tools@,
            ),
            valid(final(self)@),
    {
        let name: String = trim_text(found.group(1));
        let total: usize = self.buffer.as_str().unicode_len();
        assert(found@.end() <= total);
        let end: usize = found.before.as_str().unicode_len() + found.group(0).unicode_len();
        let closed: bool = found.group(3).unicode_len() > 0 && end > 0;
        if find_tool(tools, name.as_str()).is_none() {
            if closed {
                self.buffer = skip_text(self.buffer.as_str(), end);
            }
            return closed;
        }
        let ghost start = self@;
        let ghost given = out@;
        let id: usize = self.send_name(name.as_str(), out);
        let ghost begun = self@;
        let arguments: String = arguments_from_matches(found.group(2), founds, opens, !closed);
        let target: String = if closed {
            arguments.clone()
        } else {
            opened_text(found.group(2), founds)
        };
        assert(self@.streamed[id as int] == self.streamed_args_for_tool@[id as int]@);
        let fragment: String = rest_text(self.streamed_args_for_tool[id].as_str(), target.as_str());
        let ghost first = named_call(start, name@).1;
        let ghost second = fragment_items(id as nat, fragment@);
        self.send_arguments(id, name, arguments, fragment, out);
        assert(out@.calls =~= given.calls + (first + second));
        let known: usize = self.streamed_args_for_tool.len();
        assert(self@.streamed.len() == begun.streamed.len());
        assert(known == texts(self.streamed_args_for_tool@).len());
        if closed {
            self.buffer = skip_text(self.buffer.as_str(), end);
            self.current_tool_id = Some(id + 1);
            self.current_tool_name_sent = false;
        }
        closed
    }

    /// The step of a parser in a block, of which the invocations matched in the buffer are
    /// given.
    fn step_block(&mut self, out: &mut StreamingParseResult, founds: &Vec<Found>, tools: &[Tool]) -> (more:
        bool)
        requires
            valid(old(self)@),
            old(self)@.in_block,
            forall|i: int| 0 <= i < founds@.len() ==> (#[trigger] founds@[i])@.stands_in(old(self)@.buffer),
        ensures
            (DsmlStep { state: final(self)@, out: final(out)@, more }) == block_step(
                old(self)@,
                old(out)@,
                founds_view(founds@),
                tools@,
            ),
            valid(final(self)@),
    {
        let end: Option<usize> = find_text(self.buffer.as_str(), BLOCK_END);
        if founds.len() > 0 {
            assert(founds_view(founds@)[0] == founds@[0]@);
            if end.is_none() || founds[0].before.as_str().unicode_len() < end.unwrap() {
                let params: Vec<Found> = find_tags(Tag::DsmlParameter, founds[0].group(2));
                let opens: Vec<Found> = find_open(founds[0].group(2), &params);
                return self.step_invoke(out, &founds[0], &params, &opens, tools);
            }
        }
        match end {
            Some(e) => {
                self.buffer = skip_text(self.buffer.as_str(), e + BLOCK_END.unicode_len());
                self.in_block = false;
                if self.current_tool_name_sent {
                    if let Some(id) = self.current_tool_id {
                        let known: usize = self.streamed_args_for_tool.len();
                        assert(id < known);
                        self.current_tool_id = Some(id + 1);
                    }
                    self.current_tool_name_sent = false;
                }
                true
            },
            None => false,
        }
    }

    /// Takes in a chunk: the text that stands outside any block, and the pieces of calls that
    /// are known by then, are given.
    pub fn parse_incremental(&mut self, chunk: &str, tools: &[Tool]) -> (r: ParserResult<
        StreamingParseResult,
    >)
        requires
            valid(old(self)@),
        ensures
            r matches Ok(given) && (final(self)@, given@) == chunk_run(old(self)@, chunk@, tools@),
            valid(final(self)@),
    {
        let ghost start = DsmlState { buffer: self@.buffer + chunk@, ..self@ };
        self.buffer = concat2(self.buffer.as_str(), chunk);
        assert(self@ =~= start);
        let mut out: StreamingParseResult = StreamingParseResult {
            normal_text: String::new(),
            calls: Vec::new(),
        };
        assert(out@.normal_text =~= nothing().normal_text);
        assert(out@.calls =~= nothing().calls);
        let mut more: bool = true;
        while more
            invariant
                valid(self@),
                more ==> run(self@, out@, tools@) == run(start, nothing(), tools@),
                !more ==> (self@, out@) == run(start, nothing(), tools@),
            decreases
                    if more {
                        1nat
                    } else {
                        0nat
                    },
                    self@.buffer.len(),
        {
            proof {
                reveal(run);
                lemma_step_shrinks(self@, out@, tools@);
            }
            let ghost st = self@;
            let ghost given = out@;
            if self.in_block {
                let founds: Vec<Found> = find_tags(Tag::DsmlOpenInvoke, self.buffer.as_str());
                more = self.step_block(&mut out, &founds, tools);
            } else {
                more = self.step_outside(&mut out);
            }
            assert((DsmlStep { state: self@, out: out@, more }) == step(st, given, tools@));
        }
        Ok(out)
    }
}

// ---------------------------------------------------------------------------
// Laws
// ---------------------------------------------------------------------------

/// A text in which no block opens is given back as it is, with no calls.
pub proof fn law_no_block(text: Seq<char>)
    requires
        !contains(text, BLOCK_START@),
    ensures
        complete_parse(text) == (text, Seq::<CallView>::empty()),
{
}

/// Where there are calls, the text that is given is the beginning of the text before the first
/// block, and what is left out of that is white space.
pub proof fn law_text_before_block(text: Seq<char>)
    requires
        complete_parse(text).1.len() > 0,
    ensures
        ({
            let (given, calls) = complete_parse(text);
            &&& contains(text, BLOCK_START@)
            &&& given.is_prefix_of(text.take(find(text, BLOCK_START@)->0))
            &&& forall|i: int|
                given.len() <= i < find(text, BLOCK_START@)->0 ==> crate::text::is_white_space(
                    #[trigger] text[i],
                )
        }),
{
    crate::text::lemma_find(text, BLOCK_START@);
    let head = text.take(find(text, BLOCK_START@)->0);
    crate::text::lemma_trim_end(head);
    assert forall|i: int|
        trim_end(head).len() <= i < head.len() implies crate::text::is_white_space(#[trigger] text[i]) by {
        assert(head[i] == text[i]);
    }
}

/// What begins like a JSON object, in place of parameters, is given as it is, but for the white
/// space around it.
pub proof fn law_direct_json(content: Seq<char>)
    requires
        "{"@.is_prefix_of(trim(content)),
    ensures
        dsml_arguments(content, false) == trim(content),
{
}

/// Where the body may be cut, the parameter that is still coming in, behind those that are
/// complete, is among the arguments as the last of them, with its text as far as it is known; where
/// it may not be cut, the complete ones are all.
pub proof fn law_open_parameter(content: Seq<char>)
    requires
        !"{"@.is_prefix_of(trim(content)),
    ensures
        ({
            let founds = tag_matches(Tag::DsmlParameter, content);
            let opens = open_matches(content, founds);
            let params = dsml_params(founds);
            &&& dsml_arguments(content, false) == object_text(params)
            &&& opens.len() > 0 && open_text(opens[0]).len() > 0 && !has_name(params, opens[0].group(1))
                ==> dsml_arguments(content, true) == object_text(
                params.push(
                    (
                        opens[0].group(1),
                        dsml_value(
                            opens[0].group(2),
                            open_text(opens[0]),
                            json_value(open_text(opens[0])),
                        ),
                    ),
                ),
            )
            &&& opens.len() == 0 ==> dsml_arguments(content, true) == object_text(params)
        }),
{
}

/// A text has at most one closing tag, or beginning of one, at its end; what is left when it is
/// taken off is the beginning of the text, and nothing else is taken off.
pub proof fn law_fragment_stripped(s: Seq<char>)
    ensures
        without_fragment(s).is_prefix_of(s),
        without_fragment(s) == s || is_fragment(s.skip(without_fragment(s).len() as int)),
        forall|i: int| #[trigger] fragment_at(s, i) ==> without_fragment(s) == s.take(i),
{
    if exists|i: int| fragment_at(s, i) {
        let k = choose|i: int| fragment_at(s, i);
        assert forall|i: int| #[trigger] fragment_at(s, i) implies without_fragment(s) == s.take(i) by {
            lemma_fragment_order(s, i, k);
            lemma_fragment_order(s, k, i);
        }
    }
}

/// The names of matched parameters are distinct.
pub proof fn law_distinct_parameters(founds: Seq<FoundView>)
    ensures
        distinct_names(dsml_params(founds)),
    decreases founds.len(),
{
    if founds.len() > 0 {
        law_distinct_parameters(founds.drop_last());
        let f = founds.last();
        crate::params::lemma_with_value_distinct(
            dsml_params(founds.drop_last()),
            f.group(1),
            dsml_value(f.group(2), f.group(3), json_value(trim(f.group(3)))),
        );
    }
}

/// A text that holds neither of two tags is shown as it is.
pub proof fn lemma_shown_plain(text: Seq<char>)
    requires
        !contains(text, BLOCK_END@),
        !contains(text, INVOKE_END@),
    ensures
        shown(text) == text,
{
    crate::text::lemma_replace_none(text, BLOCK_END@, ""@);
    crate::text::lemma_replace_none(text, INVOKE_END@, ""@);
}

/// What is held back of a text outside any block is the end of it.
pub proof fn lemma_held(text: Seq<char>)
    ensures
        held_len(text) <= text.len(),
{
    reveal_strlit("<｜DSML｜function_calls>");
    reveal_strlit("</｜DSML｜function_calls>");
    reveal_strlit("</｜DSML｜invoke>");
    crate::tool::lemma_partial_token(text, BLOCK_START@, BLOCK_START@.len() as int);
    crate::tool::lemma_partial_token(text, BLOCK_END@, BLOCK_END@.len() as int);
    crate::tool::lemma_partial_token(text, INVOKE_END@, INVOKE_END@.len() as int);
}

/// No tag stands in `text`.
pub open spec fn holds_no_tag(text: Seq<char>) -> bool {
    !contains(text, BLOCK_START@) && !contains(text, BLOCK_END@) && !contains(text, INVOKE_END@)
}

/// No tag stands in a part of a text in which none stands.
proof fn lemma_within(text: Seq<char>, from: int, to: int)
    requires
        0 <= from <= to <= text.len(),
        holds_no_tag(text),
    ensures
        holds_no_tag(text.subrange(from, to)),
{
    let part = text.subrange(from, to);
    assert forall|pat: Seq<char>| !contains(text, pat) implies !#[trigger] contains(part, pat) by {
        if contains(part, pat) {
            let i = choose|i: int| crate::text::occurs_at(part, pat, i);
            assert(text.subrange(from + i, from + i + pat.len()) =~= part.subrange(i, i + pat.len()));
            assert(crate::text::occurs_at(text, pat, from + i));
        }
    }
}

/// Text that comes in outside any block, and holds no tag, is shown: none of it is lost, no call
/// comes of it, and no more is held back than may be the beginning of a tag.
pub proof fn law_plain_text(st: DsmlState, chunk: Seq<char>, tools: Seq<Tool>)
    requires
        valid(st),
        !st.in_block,
        holds_no_tag(st.buffer + chunk),
    ensures
        ({
            let (next, given) = chunk_run(st, chunk, tools);
            &&& given.calls.len() == 0
            &&& given.normal_text + next.buffer == st.buffer + chunk
            &&& next.buffer.len() == held_len(st.buffer + chunk)
            &&& next == DsmlState { buffer: next.buffer, ..st }
        }),
{
    reveal(run);
    let all = st.buffer + chunk;
    let begun = DsmlState { buffer: all, ..st };
    crate::text::lemma_find(all, BLOCK_START@);
    lemma_held(all);
    let end = all.len() - held_len(all);
    assert(all.take(end) + all.skip(end) =~= all);
    assert(all.take(end) =~= all.subrange(0, end));
    lemma_within(all, 0, end);
    lemma_shown_plain(all.take(end));
    assert(nothing().normal_text + all.take(end) =~= all.take(end));
    assert(run(begun, nothing(), tools).0 == DsmlState { buffer: all.skip(end), ..begun });
}

/// What tells the tags apart: a closing tag opens with the one `<` that stands in it, a slash
/// stands behind that, and the two of them differ behind their common beginning.
proof fn lemma_tag_chars(tag: Seq<char>)
    requires
        tag == BLOCK_END@ || tag == INVOKE_END@,
    ensures
        tag.len() > 8,
        tag[0] == '<' && tag[1] == '/',
        forall|k: int| 0 < k < tag.len() ==> tag[k] != '<',
        BLOCK_START@.len() > 8 && BLOCK_START@[0] == '<' && BLOCK_START@[1] != '/',
        BLOCK_END@.len() > INVOKE_END@.len() > 8,
        BLOCK_END@[0] == '<' && INVOKE_END@[0] == '<',
        BLOCK_END@[8] != INVOKE_END@[8],
{
    reveal_strlit("<｜DSML｜function_calls>");
    reveal_strlit("</｜DSML｜function_calls>");
    reveal_strlit("</｜DSML｜invoke>");
}

/// Nothing is shown of a closing tag.
proof fn lemma_tag_shown(tag: Seq<char>)
    requires
        tag == BLOCK_END@ || tag == INVOKE_END@,
    ensures
        shown(tag) == Seq::<char>::empty(),
{
    reveal_strlit("");
    assert(""@ =~= Seq::<char>::empty());
    lemma_tag_chars(tag);
    assert(tag.subrange(0, tag.len() as int) =~= tag);
    assert(crate::text::first_at(tag, tag, 0));
    crate::text::lemma_find(tag, tag);
    assert(tag.take(0) + Seq::<char>::empty() =~= Seq::<char>::empty());
    assert(tag.skip(tag.len() as int) =~= Seq::<char>::empty());
    let none = Seq::<char>::empty();
    crate::text::lemma_find(none, BLOCK_END@);
    crate::text::lemma_find(none, INVOKE_END@);
    crate::text::lemma_replace_none(none, BLOCK_END@, ""@);
    crate::text::lemma_replace_none(none, INVOKE_END@, ""@);
    assert(none + none =~= none);
    if tag == INVOKE_END@ {
        crate::text::lemma_replace_none(tag, BLOCK_END@, ""@);
    }
}

/// A closing tag that comes in outside any block, and alone, is not shown.
pub proof fn law_closing_tag_hidden(st: DsmlState, out: StreamView)
    requires
        !st.in_block,
        st.buffer == BLOCK_END@ || st.buffer == INVOKE_END@,
    ensures
        outside_step(st, out).out == out,
        outside_step(st, out).state.buffer.len() == 0,
        !outside_step(st, out).more,
{
    let tag = st.buffer;
    lemma_tag_chars(tag);
    lemma_held(tag);
    crate::text::lemma_find(tag, BLOCK_START@);
    assert(!contains(tag, BLOCK_START@)) by {
        if contains(tag, BLOCK_START@) {
            let i = choose|i: int| crate::text::occurs_at(tag, BLOCK_START@, i);
            assert(tag.subrange(i, i + BLOCK_START@.len())[0] == tag[i]);
            assert(tag.subrange(i, i + BLOCK_START@.len())[1] == tag[i + 1]);
        }
    }
    assert forall|token: Seq<char>, n: int|
        (token == BLOCK_START@ || token == BLOCK_END@ || token == INVOKE_END@)
            implies !#[trigger] crate::tool::is_partial_token(tag, token, n) by {
        if crate::tool::is_partial_token(tag, token, n) {
            assert(tag[tag.len() - n] == token.take(n)[0]);
            assert(n == tag.len());
            assert(tag[1] == token.take(n)[1]);
            assert(tag[8] == token.take(n)[8]);
        }
    }
    crate::tool::lemma_partial_token(tag, BLOCK_START@, BLOCK_START@.len() as int);
    crate::tool::lemma_partial_token(tag, BLOCK_END@, BLOCK_END@.len() as int);
    crate::tool::lemma_partial_token(tag, INVOKE_END@, INVOKE_END@.len() as int);
    assert(held_len(tag) == 0);
    assert(tag.take(tag.len() as int) =~= tag);
    lemma_tag_shown(tag);
    assert(out.normal_text + Seq::<char>::empty() =~= out.normal_text);
}

/// Nothing that stands in a block is shown.
pub proof fn law_block_hidden(st: DsmlState, out: StreamView, tools: Seq<Tool>)
    requires
        st.in_block,
    ensures
        step(st, out, tools).out.normal_text == out.normal_text,
{
}

/// What a step sends makes the texts of the calls grow by just that, and names only tools that
/// there are; the state stays valid.
proof fn lemma_step_sends(st: DsmlState, out: StreamView, tools: Seq<Tool>)
    requires
        valid(st),
    ensures
        ({
            let next = step(st, out, tools);
            let items = next.out.calls.skip(out.calls.len() as int);
            &&& next.out.calls == out.calls + items
            &&& grown(st.streamed, items, next.state.streamed)
            &&& names_known(items, tools)
            &&& valid(next.state)
        }),
{
    let next = step(st, out, tools);
    let items = next.out.calls.skip(out.calls.len() as int);
    let found = tag_matches(Tag::DsmlOpenInvoke, st.buffer)[0];
    let name = trim(found.group(1));
    lemma_grown_none(st.streamed);
    if next.out.calls == out.calls {
        assert(items =~= Seq::empty());
    }
    if st.in_block && tag_matches(Tag::DsmlOpenInvoke, st.buffer).len() > 0 && (find(
        st.buffer,
        BLOCK_END@,
    ) is None || found.before.len() < find(st.buffer, BLOCK_END@)->0) && has_tool(tools, name) {
        let (begun, first) = named_call(st, name);
        assert(grown(st.streamed, first, begun.streamed)) by {
            if !st.name_sent {
                assert(call_number(st) == st.streamed.len());
                lemma_grown_name(st.streamed, name);
            }
        }
        let id = call_number(begun);
        let founds = tag_matches(Tag::DsmlParameter, found.group(2));
        let opens = open_matches(found.group(2), founds);
        let closed = found.group(3).len() > 0 && 0 < found.end() <= st.buffer.len();
        let arguments = arguments_of(found.group(2), founds, opens, !closed);
        let fragment = rest_of(
            begun.streamed[id as int],
            if closed {
                arguments
            } else {
                opened_arguments(found.group(2), founds)
            },
        );
        let second = fragment_items(id, fragment);
        lemma_sent_fragment(begun.streamed, id, fragment);
        lemma_grown(st.streamed, first, begun.streamed, second, next.state.streamed);
        assert(items =~= first + second);
    }
}

/// As [`lemma_step_sends`], of all steps.
proof fn lemma_run_sends(st: DsmlState, out: StreamView, tools: Seq<Tool>)
    requires
        valid(st),
    ensures
        ({
            let (end, given) = run(st, out, tools);
            let items = given.calls.skip(out.calls.len() as int);
            &&& given.calls == out.calls + items
            &&& grown(st.streamed, items, end.streamed)
            &&& names_known(items, tools)
            &&& valid(end)
        }),
    decreases st.buffer.len(),
{
    reveal(run);
    lemma_step_sends(st, out, tools);
    lemma_step_shrinks(st, out, tools);
    let next = step(st, out, tools);
    if next.more {
        lemma_run_sends(next.state, next.out, tools);
        let (end, given) = run(st, out, tools);
        let first = next.out.calls.skip(out.calls.len() as int);
        let second = given.calls.skip(next.out.calls.len() as int);
        lemma_grown(st.streamed, first, next.state.streamed, second, end.streamed);
        assert(given.calls.skip(out.calls.len() as int) =~= first + second);
    }
}

/// The pieces that a chunk gives are all that the parser records as sent: the text of each call
/// grows by just what the pieces hold of its arguments. A call is named only where there is a
/// tool of that name. The parser stays valid.
pub proof fn law_chunk_sends(st: DsmlState, chunk: Seq<char>, tools: Seq<Tool>)
    requires
        valid(st),
    ensures
        ({
            let (next, given) = chunk_run(st, chunk, tools);
            &&& grown(st.streamed, given.calls, next.streamed)
            &&& names_known(given.calls, tools)
            &&& valid(next)
        }),
{
    let begun = DsmlState { buffer: st.buffer + chunk, ..st };
    lemma_run_sends(begun, nothing(), tools);
    let (next, given) = chunk_run(st, chunk, tools);
    assert(given.calls.skip(0) =~= given.calls);
}

/// An invocation that is closed has sent its arguments, all of them and in one text, where what
/// was sent of it before is the beginning of them; so it has always where nothing was sent
/// before. They are also what is recorded of it.
pub proof fn law_closed_invocation(
    st: DsmlState,
    out: StreamView,
    found: FoundView,
    founds: Seq<FoundView>,
    opens: Seq<FoundView>,
    tools: Seq<Tool>,
)
    requires
        valid(st),
        found.stands_in(st.buffer),
        found.group(3).len() > 0,
        found.end() > 0,
        has_tool(tools, trim(found.group(1))),
        st.name_sent ==> st.streamed.last().is_prefix_of(
            arguments_of(found.group(2), founds, opens, false),
        ),
    ensures
        ({
            let id = call_number(st) as int;
            let arguments = arguments_of(found.group(2), founds, opens, false);
            let next = invoke_step(st, out, found, founds, opens, tools);
            &&& next.state.streamed[id] == arguments
            &&& next.state.records[id] == Some(
                CallView { name: trim(found.group(1)), arguments },
            )
            &&& next.state.tool == Some((id + 1) as nat)
            &&& next.state.buffer == st.buffer.skip(found.end())
        }),
{
    let id = call_number(st) as int;
    let arguments = arguments_of(found.group(2), founds, opens, false);
    let (begun, first) = named_call(st, trim(found.group(1)));
    let sent = begun.streamed[id];
    assert(sent.is_prefix_of(arguments));
    assert(sent + arguments.skip(sent.len() as int) =~= arguments);
}

/// What is sent of an invocation while its parameters come in is the beginning of its arguments,
/// as long as the parameters that come in later have names of their own: then the parameters
/// known before are the first of all of them.
pub proof fn law_opened_is_beginning(
    before: Seq<(Seq<char>, ParamView)>,
    all: Seq<(Seq<char>, ParamView)>,
)
    requires
        before.is_prefix_of(all),
    ensures
        ("{"@ + joined(members_of(before, ":"@), ","@)).is_prefix_of(object_text(all)),
{
    let members = members_of(all, ":"@);
    assert(members_of(before, ":"@) =~= members.take(before.len() as int));
    crate::text::lemma_joined_prefix(members, ","@, before.len() as int);
}

/// The calls in two rows of blocks are those of the first and behind them those of the second;
/// each matched invocation of a block makes one call.
pub proof fn law_calls_in_order(first: Seq<FoundView>, second: Seq<FoundView>)
    ensures
        blocks_calls(first + second) == blocks_calls(first) + blocks_calls(second),
        forall|body: Seq<char>| (#[trigger] body_calls(body)).len() == tag_matches(Tag::DsmlInvoke, body).len(),
    decreases second.len(),
{
    if second.len() == 0 {
        assert(first + second =~= first);
        assert(blocks_calls(first) + Seq::<CallView>::empty() =~= blocks_calls(first));
    } else {
        law_calls_in_order(first, second.drop_last());
        assert((first + second).drop_last() =~= first + second.drop_last());
        assert(blocks_calls(first + second) =~= blocks_calls(first) + blocks_calls(second));
    }
}

/// A parameter that is declared a string keeps its text as it is, whatever the text looks like;
/// any other has the JSON value that its text denotes, and the text where it denotes none.
pub proof fn law_declared_string(text: Seq<char>, json: Option<ParamView>)
    ensures
        dsml_value("true"@, text, json) == ParamView::Text(text),
        dsml_value("false"@, text, None) == ParamView::Text(text),
        json is Some ==> dsml_value("false"@, text, json) == json->0,
{
    reveal_strlit("true");
    reveal_strlit("false");
    assert("true"@.len() != "false"@.len());
}

/// A text that is cut in three leaves the last part at its end, and the others before it.
proof fn lemma_cuts(
    total: Seq<char>,
    second: Seq<char>,
    a: Seq<char>,
    b: Seq<char>,
    c: Seq<char>,
    d: Seq<char>,
)
    requires
        a + b + second == total,
        c + d == b + second,
    ensures
        a + c == total.take(total.len() - d.len()),
        d == total.skip(total.len() - d.len()),
{
    assert(a + (b + second) =~= total);
    assert(a + c + d =~= total);
    assert(total.take((a + c).len() as int) =~= a + c);
    assert(total.skip((a + c).len() as int) =~= d);
}

/// How a text that holds no tag is cut into chunks does not matter: two chunks give together what
/// they give as one, and leave the parser in the same state.
pub proof fn law_chunks_of_plain_text(
    st: DsmlState,
    first: Seq<char>,
    second: Seq<char>,
    tools: Seq<Tool>,
)
    requires
        valid(st),
        !st.in_block,
        holds_no_tag(st.buffer + first + second),
    ensures
        ({
            let (middle, given) = chunk_run(st, first, tools);
            let (end, more) = chunk_run(middle, second, tools);
            let (whole, all) = chunk_run(st, first + second, tools);
            &&& end == whole
            &&& given.normal_text + more.normal_text == all.normal_text
            &&& given.calls.len() == 0 && more.calls.len() == 0 && all.calls.len() == 0
        }),
{
    let none = Seq::<char>::empty();
    let text = st.buffer + first;
    let total = text + second;
    assert(st.buffer + (first + second) =~= total);
    lemma_within(total, 0, text.len() as int);
    assert(total.subrange(0, text.len() as int) =~= text);
    law_plain_text(st, first, tools);
    let (middle, given) = chunk_run(st, first, tools);
    let n = held_len(text) as int;
    lemma_held(text);
    assert(none + text + none =~= text);
    assert(text + none =~= text);
    lemma_cuts(text, none, none, text, given.normal_text, middle.buffer);
    let rest = middle.buffer + second;
    assert(rest =~= total.subrange(text.len() - n, total.len() as int));
    lemma_within(total, text.len() - n, total.len() as int);
    law_plain_text(middle, second, tools);
    law_plain_text(st, first + second, tools);
    crate::tool::lemma_held_on(text, second, BLOCK_START@, n);
    crate::tool::lemma_held_on(text, second, BLOCK_END@, n);
    crate::tool::lemma_held_on(text, second, INVOKE_END@, n);
    assert(held_len(rest) == held_len(total));
    let (end, more) = chunk_run(middle, second, tools);
    let (whole, all) = chunk_run(st, first + second, tools);
    lemma_cuts(total, second, given.normal_text, middle.buffer, more.normal_text, end.buffer);
    assert(none + total + none =~= total);
    assert(total + none =~= total);
    lemma_cuts(total, none, none, total, all.normal_text, whole.buffer);
    assert(none + all.normal_text =~= all.normal_text);
}

/// A whole text in which no call is found is given back as it is.
pub proof fn law_text_kept(text: Seq<char>)
    ensures
        complete_parse(text).1.len() == 0 ==> complete_parse(text).0 == text,
{
}

/// What was shown stays shown, and what is shown next stands behind it.
proof fn lemma_run_shows(st: DsmlState, out: StreamView, tools: Seq<Tool>)
    ensures
        out.normal_text.is_prefix_of(run(st, out, tools).1.normal_text),
    decreases st.buffer.len(),
{
    reveal(run);
    lemma_step_shrinks(st, out, tools);
    let next = step(st, out, tools);
    assert(out.normal_text.is_prefix_of(next.out.normal_text)) by {
        assert(out.normal_text =~= next.out.normal_text.subrange(0, out.normal_text.len() as int));
    }
    if next.more {
        lemma_run_shows(next.state, next.out, tools);
        let given = run(next.state, next.out, tools).1.normal_text;
        assert(out.normal_text =~= given.subrange(0, out.normal_text.len() as int));
    }
}

/// The text before the tag that opens a block is shown first, all of it, where no closing tag
/// stands in it; where the block does not end in what came in, nothing else is shown.
pub proof fn law_text_before_block_shown(
    st: DsmlState,
    chunk: Seq<char>,
    before: Seq<char>,
    rest: Seq<char>,
    tools: Seq<Tool>,
)
    requires
        !st.in_block,
        st.buffer + chunk == before + BLOCK_START@ + rest,
        crate::text::first_at(st.buffer + chunk, BLOCK_START@, before.len() as int),
        holds_no_tag(before),
    ensures
        before.is_prefix_of(chunk_run(st, chunk, tools).1.normal_text),
        rest.len() == 0 ==> chunk_run(st, chunk, tools).1.normal_text == before && chunk_run(
            st,
            chunk,
            tools,
        ).0.in_block,
{
    reveal(run);
    let all = st.buffer + chunk;
    let begun = DsmlState { buffer: all, ..st };
    crate::text::lemma_find(all, BLOCK_START@);
    let first = step(begun, nothing(), tools);
    assert(all.take(before.len() as int) =~= before);
    assert(all.skip((before.len() + BLOCK_START@.len()) as int) =~= rest);
    lemma_shown_plain(before);
    assert(nothing().normal_text + before =~= before);
    assert(first.more);
    lemma_step_shrinks(begun, nothing(), tools);
    assert(run(begun, nothing(), tools) == run(first.state, first.out, tools));
    lemma_run_shows(first.state, first.out, tools);
    if rest.len() == 0 {
        assert(rest =~= Seq::empty());
        reveal_strlit("</｜DSML｜function_calls>");
        reveal_strlit("<｜DSML｜invoke");
        crate::text::lemma_find(rest, BLOCK_END@);
        let tag = Tag::DsmlOpenInvoke;
        crate::pattern::lemma_no_matches(tag, rest, 0);
        crate::pattern::lemma_matches_all(tag, rest, Seq::empty());
        assert(!step(first.state, first.out, tools).more);
    }
}

/// A complete invocation of a function that is not among the tools is passed over: nothing is sent
/// of it, and the parser goes on behind it. One that is not complete is kept.
pub proof fn law_unknown_invocation(
    st: DsmlState,
    out: StreamView,
    found: FoundView,
    founds: Seq<FoundView>,
    opens: Seq<FoundView>,
    tools: Seq<Tool>,
)
    requires
        !has_tool(tools, trim(found.group(1))),
        found.stands_in(st.buffer),
    ensures
        ({
            let next = invoke_step(st, out, found, founds, opens, tools);
            &&& next.out == out
            &&& next.state.streamed == st.streamed && next.state.records == st.records
            &&& next.state.tool == st.tool && next.state.in_block == st.in_block
            &&& found.group(3).len() > 0 && found.end() > 0 ==> next.more && next.state.buffer
                == st.buffer.skip(found.end())
            &&& found.group(3).len() == 0 ==> !next.more && next.state == st
        }),
{
}

/// The parameters of an invocation are sent as they come in: as long as it is open, the object that
/// those in it begin was sent, where what was sent before is the beginning of that; its name was
/// sent before them; and nothing of it is sent to the user as text.
pub proof fn law_open_invocation(
    st: DsmlState,
    out: StreamView,
    found: FoundView,
    founds: Seq<FoundView>,
    opens: Seq<FoundView>,
    tools: Seq<Tool>,
)
    requires
        valid(st),
        found.group(3).len() == 0,
        has_tool(tools, trim(found.group(1))),
        !"{"@.is_prefix_of(trim(found.group(2))),
        dsml_params(founds).len() > 0,
        st.name_sent ==> st.streamed.last().is_prefix_of(
            "{"@ + joined(members_of(dsml_params(founds), ":"@), ","@),
        ),
    ensures
        ({
            let id = call_number(st);
            let begun = "{"@ + joined(members_of(dsml_params(founds), ":"@), ","@);
            let next = invoke_step(st, out, found, founds, opens, tools);
            &&& next.state.streamed[id as int] == begun
            &&& next.state.name_sent
            &&& next.state.buffer == st.buffer
            &&& !next.more
            &&& next.out.normal_text == out.normal_text
            &&& !st.name_sent ==> next.out.calls == out.calls + seq![
                name_item(id, trim(found.group(1))),
                args_item(id, begun),
            ]
        }),
{
    reveal_strlit("{");
    let id = call_number(st);
    let target = "{"@ + joined(members_of(dsml_params(founds), ":"@), ","@);
    let (begun, first) = named_call(st, trim(found.group(1)));
    let sent = begun.streamed[id as int];
    assert(sent.is_prefix_of(target)) by {
        if !st.name_sent {
            assert(sent =~= target.subrange(0, 0));
        }
    }
    assert(sent + target.skip(sent.len() as int) =~= target);
    if !st.name_sent {
        assert(target.skip(0) =~= target);
        assert(sent.len() == 0);
        assert(first + fragment_items(id, target) =~= seq![
            name_item(id, trim(found.group(1))),
            args_item(id, target),
        ]);
    }
}

/// Where a text outside any block ends in the beginning of a tag that opens a block, or of one that
/// closes a block or an invocation, that beginning is held back, whichever of the tags it is of;
/// and nothing is held back that is not such a beginning.
pub proof fn law_held_back(text: Seq<char>, tag: Seq<char>, n: int)
    requires
        tag == "<｜DSML｜function_calls>"@ || tag == "</｜DSML｜function_calls>"@ || tag
            == "</｜DSML｜invoke>"@,
        0 < n < tag.len(),
        n <= text.len(),
        text.skip(text.len() - n) == tag.take(n),
    ensures
        n <= held_len(text) <= text.len(),
        ({
            let held = text.skip(text.len() - held_len(text));
            ||| held.is_prefix_of("<｜DSML｜function_calls>"@)
            ||| held.is_prefix_of("</｜DSML｜function_calls>"@)
            ||| held.is_prefix_of("</｜DSML｜invoke>"@)
        }),
{
    lemma_held(text);
    crate::tool::lemma_partial_token(text, BLOCK_START@, BLOCK_START@.len() as int);
    crate::tool::lemma_partial_token(text, BLOCK_END@, BLOCK_END@.len() as int);
    crate::tool::lemma_partial_token(text, INVOKE_END@, INVOKE_END@.len() as int);
    assert(crate::tool::is_partial_token(text, tag, n)) by {
        assert(text.subrange(text.len() - n, text.len() as int) =~= tag.take(n));
    }
    let m = held_len(text) as int;
    let held = text.skip(text.len() - m);
    assert forall|token: Seq<char>| #[trigger] crate::tool::is_partial_token(text, token, m) implies held.is_prefix_of(
        token,
    ) by {
        assert(held =~= text.subrange(text.len() - m, text.len() as int));
        assert(held =~= token.take(m));
        assert(held =~= token.subrange(0, m));
    }
}

/// The closing tag of a parameter or of an invocation, or two characters or more of its beginning,
/// is taken off the end of a text, and nothing else is: what stands before it is left. A bracket
/// that nothing follows is left, and so is a text without one.
pub proof fn law_cut_tag_taken_off(text: Seq<char>, tag: Seq<char>, n: int)
    requires
        tag == "</｜DSML｜parameter>"@ || tag == "</｜DSML｜invoke>"@,
        2 <= n <= tag.len(),
    ensures
        without_fragment(text + tag.take(n)) == text,
        without_fragment(text + seq!['<']) == text + seq!['<'],
        !text.contains('<') ==> without_fragment(text) == text,
{
    let cut = tag.take(n);
    let all = text + cut;
    let k = text.len() as int;
    assert(cut =~= tag.subrange(0, n));
    assert(all.skip(k) =~= cut);
    assert(fragment_at(all, k));
    law_fragment_stripped(all);
    assert(all.take(k) =~= text);
    let lone = text + seq!['<'];
    assert forall|i: int| !fragment_at(lone, i) by {
        if fragment_at(lone, i) {
            let f = lone.skip(i);
            lemma_tag_open(f.len() - 1);
            assert(f[f.len() - 1] == '<');
        }
    }
    if !text.contains('<') {
        assert forall|i: int| !fragment_at(text, i) by {
            if fragment_at(text, i) {
                let f = text.skip(i);
                lemma_tag_open(1);
                assert(f[0] == text[i]);
                assert(text.contains(text[i]));
            }
        }
    }
}

/// What is taken off at the beginning of a text is taken off once.
proof fn lemma_trim_start_again(s: Seq<char>)
    ensures
        trim_start(trim_start(s)) == trim_start(s),
    decreases s.len(),
{
    if s.len() > 0 && crate::text::is_white_space(s.first()) {
        lemma_trim_start_again(s.drop_first());
    }
}

/// White space at the beginning of a text, with what is no white space behind it.
proof fn lemma_trim_start_behind(s: Seq<char>, f: Seq<char>)
    requires
        f.len() > 0,
        !crate::text::is_white_space(f[0]),
    ensures
        trim_start(s + f) == trim_start(s) + f,
    decreases s.len(),
{
    if s.len() > 0 && crate::text::is_white_space(s.first()) {
        lemma_trim_start_behind(s.drop_first(), f);
        assert((s + f).drop_first() =~= s.drop_first() + f);
        assert((s + f).first() == s.first());
    } else if s.len() == 0 {
        assert(s + f =~= f);
        assert(trim_start(s) + f =~= f);
    } else {
        assert((s + f).first() == s.first());
    }
}

/// The text of a parameter that is still coming in is what came in of it, without white space round
/// it, and without the closing tag at its end where that came in in part.
pub proof fn law_open_text(found: FoundView, text: Seq<char>, tag: Seq<char>, n: int)
    requires
        tag == "</｜DSML｜parameter>"@ || tag == "</｜DSML｜invoke>"@,
        2 <= n <= tag.len(),
    ensures
        found.group(3) == text + tag.take(n) ==> open_text(found) == trim(text),
        found.group(3) == text && !text.contains('<') ==> open_text(found) == trim(text),
{
    let cut = tag.take(n);
    reveal_strlit("</｜DSML｜parameter>");
    reveal_strlit("</｜DSML｜invoke>");
    if found.group(3) == text + cut {
        assert(cut[0] == '<');
        lemma_trim_start_behind(text, cut);
        let s = trim_start(text);
        let all = s + cut;
        assert(all.last() == cut[n - 1]);
        assert(!crate::text::is_white_space(cut[n - 1])) by {
            assert(cut[n - 1] == tag[n - 1]);
        }
        assert(trim_end(all) == all);
        law_cut_tag_taken_off(s, tag, n);
        lemma_trim_start_again(text);
        assert(trim(s) == trim(text));
    }
    if found.group(3) == text && !text.contains('<') {
        let from = crate::text::law_trim(text);
        let t = trim(text);
        assert(!t.contains('<')) by {
            if t.contains('<') {
                let i = choose|i: int| 0 <= i < t.len() && t[i] == '<';
                assert(text.subrange(from, from + t.len())[i] == text[from + i]);
                assert(text.contains(text[from + i]));
            }
        }
        law_cut_tag_taken_off(t, tag, n);
    }
}

/// A JSON object that stands in place of parameters is given, as far as it came in, without white
/// space round it and without a closing tag that is cut at its end; and nothing of it is sent before
/// the invocation is complete but the name.
pub proof fn law_direct_json_cut(
    content: Seq<char>,
    json: Seq<char>,
    tag: Seq<char>,
    n: int,
    founds: Seq<FoundView>,
)
    requires
        tag == "</｜DSML｜parameter>"@ || tag == "</｜DSML｜invoke>"@,
        2 <= n <= tag.len(),
        json.len() > 0 && json[0] == '{',
    ensures
        trim(content) == json + tag.take(n) ==> dsml_arguments(content, true) == json,
        trim(content) == json && !json.contains('<') ==> dsml_arguments(content, true) == json,
        trim(content) == json ==> dsml_arguments(content, false) == json,
        trim(content) == json ==> opened_arguments(content, founds).len() == 0,
        trim(content) == json + tag.take(n) ==> opened_arguments(content, founds).len() == 0,
{
    reveal_strlit("{");
    law_cut_tag_taken_off(json, tag, n);
    assert(json.subrange(0, 1) =~= "{"@);
    assert((json + tag.take(n)).subrange(0, 1) =~= "{"@);
}

} // verus!
