//! Tools, tool calls, and what the streaming parsers share.

use vstd::prelude::*;
use vstd::string::*;

use crate::json::JsonValue;
use crate::text::{ends_with, same_text, skip_text, starts_with, take_text};

verus! {

// ---------------------------------------------------------------------------
// Tools and calls
// ---------------------------------------------------------------------------

/// A function that a model may call, with the JSON schema of its parameters.
#[derive(Debug)]
pub struct Function {
    pub name: String,
    pub parameters: JsonValue,
}

/// A tool that a model may use.
#[derive(Debug)]
pub struct Tool {
    pub function: Function,
}

/// The function that a model called, with its arguments as a JSON text.
#[derive(Debug, PartialEq, Eq)]
pub struct FunctionCall {
    pub name: String,
    pub arguments: String,
}

/// A call that a model made.
#[derive(Debug, PartialEq, Eq)]
pub struct ToolCall {
    pub function: FunctionCall,
}

/// What a [`ToolCall`] holds.
pub struct CallView {
    pub name: Seq<char>,
    pub arguments: Seq<char>,
}

impl View for ToolCall {
    type V = CallView;

    open spec fn view(&self) -> CallView {
        CallView { name: self.function.name@, arguments: self.function.arguments@ }
    }
}

/// What calls hold.
pub open spec fn calls_view(calls: Seq<ToolCall>) -> Seq<CallView> {
    calls.map_values(|c: ToolCall| c@)
}

/// A piece of a call that is handed out while the call still comes in.
#[derive(Debug, PartialEq, Eq)]
pub struct ToolCallItem {
    pub tool_index: usize,
    pub name: Option<String>,
    pub parameters: String,
}

/// What a [`ToolCallItem`] holds.
pub struct ItemView {
    pub tool_index: nat,
    pub name: Option<Seq<char>>,
    pub parameters: Seq<char>,
}

impl View for ToolCallItem {
    type V = ItemView;

    open spec fn view(&self) -> ItemView {
        ItemView {
            tool_index: self.tool_index as nat,
            name: crate::text::optional_text(self.name),
            parameters: self.parameters@,
        }
    }
}

/// What pieces hold.
pub open spec fn items_view(items: Seq<ToolCallItem>) -> Seq<ItemView> {
    items.map_values(|c: ToolCallItem| c@)
}

/// The piece that names a call.
pub open spec fn name_item(index: nat, name: Seq<char>) -> ItemView {
    ItemView { tool_index: index, name: Some(name), parameters: Seq::empty() }
}

/// A piece of the arguments of a call.
pub open spec fn args_item(index: nat, parameters: Seq<char>) -> ItemView {
    ItemView { tool_index: index, name: None, parameters }
}

/// The pieces that send `fragment` as arguments of call `id`.
pub open spec fn fragment_items(id: nat, fragment: Seq<char>) -> Seq<ItemView> {
    if fragment.len() > 0 {
        seq![args_item(id, fragment)]
    } else {
        Seq::empty()
    }
}

/// What the pieces hold of the arguments of call `index`.
pub open spec fn sent_args(items: Seq<ItemView>, index: nat) -> Seq<char>
    decreases items.len(),
{
    if items.len() == 0 {
        Seq::empty()
    } else if items.last().tool_index == index {
        sent_args(items.drop_last(), index) + items.last().parameters
    } else {
        sent_args(items.drop_last(), index)
    }
}

/// What the pieces of two rows hold of the arguments of a call is put together in their order.
pub proof fn lemma_sent_args(first: Seq<ItemView>, second: Seq<ItemView>, index: nat)
    ensures
        sent_args(first + second, index) == sent_args(first, index) + sent_args(second, index),
    decreases second.len(),
{
    if second.len() == 0 {
        assert(first + second =~= first);
        assert(sent_args(first, index) + Seq::<char>::empty() =~= sent_args(first, index));
    } else {
        lemma_sent_args(first, second.drop_last(), index);
        assert((first + second).drop_last() =~= first + second.drop_last());
        assert(sent_args(first + second, index) =~= sent_args(first, index) + sent_args(second, index));
    }
}

/// The text sent of the arguments of call `t`.
pub open spec fn text_of(streamed: Seq<Seq<char>>, t: nat) -> Seq<char> {
    if t < streamed.len() {
        streamed[t as int]
    } else {
        Seq::empty()
    }
}

/// With the pieces `items` sent, the texts `before` have become the texts `after`: each grew by
/// just what the pieces hold of it, and the pieces are of calls among them.
pub open spec fn grown(before: Seq<Seq<char>>, items: Seq<ItemView>, after: Seq<Seq<char>>) -> bool {
    &&& before.len() <= after.len()
    &&& forall|t: nat| #[trigger] text_of(after, t) == text_of(before, t) + sent_args(items, t)
    &&& forall|i: int| 0 <= i < items.len() ==> (#[trigger] items[i]).tool_index < after.len()
}

/// Growth in two steps is growth.
pub proof fn lemma_grown(
    first: Seq<Seq<char>>,
    items: Seq<ItemView>,
    second: Seq<Seq<char>>,
    more: Seq<ItemView>,
    third: Seq<Seq<char>>,
)
    requires
        grown(first, items, second),
        grown(second, more, third),
    ensures
        grown(first, items + more, third),
{
    assert forall|t: nat| #[trigger] text_of(third, t) == text_of(first, t) + sent_args(items + more, t) by {
        lemma_sent_args(items, more, t);
        assert(text_of(second, t) == text_of(first, t) + sent_args(items, t));
        assert(text_of(third, t) =~= text_of(first, t) + (sent_args(items, t) + sent_args(more, t)));
    }
}

/// A piece sent of the arguments of a call makes the text of the call grow by it.
proof fn lemma_grown_item(before: Seq<Seq<char>>, id: nat, fragment: Seq<char>)
    requires
        id < before.len(),
    ensures
        grown(
            before,
            seq![args_item(id, fragment)],
            before.update(id as int, before[id as int] + fragment),
        ),
{
    let items = seq![args_item(id, fragment)];
    assert(items.drop_last() =~= Seq::empty());
    reveal_with_fuel(sent_args, 2);
    assert forall|t: nat| #[trigger] text_of(before.update(id as int, before[id as int] + fragment), t)
        == text_of(before, t) + sent_args(items, t) by {
        assert(Seq::<char>::empty() + fragment =~= fragment);
        assert(text_of(before, t) + Seq::<char>::empty() =~= text_of(before, t));
    }
}

/// Where nothing is sent, nothing grows.
pub proof fn lemma_grown_none(before: Seq<Seq<char>>)
    ensures
        grown(before, Seq::empty(), before),
{
    assert forall|t: nat| #[trigger] text_of(before, t) == text_of(before, t) + sent_args(Seq::empty(), t) by {
        assert(text_of(before, t) + Seq::<char>::empty() =~= text_of(before, t));
    }
}

/// The pieces that send a fragment make the text of the call grow by it.
pub proof fn lemma_sent_fragment(streamed: Seq<Seq<char>>, id: nat, fragment: Seq<char>)
    requires
        id < streamed.len(),
    ensures
        grown(
            streamed,
            fragment_items(id, fragment),
            streamed.update(id as int, streamed[id as int] + fragment),
        ),
{
    if fragment.len() > 0 {
        lemma_grown_item(streamed, id, fragment);
    } else {
        assert(streamed[id as int] + fragment =~= streamed[id as int]);
        assert(streamed.update(id as int, streamed[id as int] + fragment) =~= streamed);
        lemma_grown_none(streamed);
    }
}

/// The piece that names the next call makes room for it, and no text grows.
pub proof fn lemma_grown_name(before: Seq<Seq<char>>, name: Seq<char>)
    ensures
        grown(
            before,
            seq![name_item(before.len(), name)],
            padded(before, before.len() + 1, Seq::empty()),
        ),
{
    let after = padded(before, before.len() + 1, Seq::<char>::empty());
    let items = seq![name_item(before.len(), name)];
    assert(items.drop_last() =~= Seq::empty());
    reveal_with_fuel(sent_args, 2);
    assert forall|t: nat| #[trigger] text_of(after, t) == text_of(before, t) + sent_args(items, t) by {
        assert(Seq::<char>::empty() + Seq::<char>::empty() =~= Seq::<char>::empty());
        assert(text_of(before, t) + Seq::<char>::empty() =~= text_of(before, t));
    }
}

/// Every call that the pieces name is of a tool that there is.
pub open spec fn names_known(items: Seq<ItemView>, tools: Seq<Tool>) -> bool {
    forall|i: int|
        0 <= i < items.len() && (#[trigger] items[i]).name is Some ==> has_tool(tools, items[i].name->0)
}

/// What a chunk gave: text for the user, and pieces of calls.
#[derive(Debug, PartialEq, Eq)]
pub struct StreamingParseResult {
    pub normal_text: String,
    pub calls: Vec<ToolCallItem>,
}

/// What a [`StreamingParseResult`] holds.
pub struct StreamView {
    pub normal_text: Seq<char>,
    pub calls: Seq<ItemView>,
}

impl View for StreamingParseResult {
    type V = StreamView;

    open spec fn view(&self) -> StreamView {
        StreamView { normal_text: self.normal_text@, calls: items_view(self.calls@) }
    }
}

/// Nothing given yet.
pub open spec fn nothing() -> StreamView {
    StreamView { normal_text: Seq::empty(), calls: Seq::empty() }
}

/// Why a text could not be parsed.
#[derive(Debug, PartialEq, Eq)]
pub enum ParserError {
    ParsingFailed(String),
}

/// The result of parsing.
pub type ParserResult<T> = Result<T, ParserError>;

// ---------------------------------------------------------------------------
// Tools by name
// ---------------------------------------------------------------------------

/// There is a tool named `name`.
pub open spec fn has_tool(tools: Seq<Tool>, name: Seq<char>) -> bool {
    exists|i: int| 0 <= i < tools.len() && (#[trigger] tools[i]).function.name@ == name
}

/// `i` is the first position of a tool named `name`.
pub open spec fn tool_at(tools: Seq<Tool>, name: Seq<char>, i: int) -> bool {
    &&& 0 <= i < tools.len()
    &&& tools[i].function.name@ == name
    &&& forall|j: int| 0 <= j < i ==> (#[trigger] tools[j]).function.name@ != name
}

/// The position of the first tool named `name`.
pub fn find_tool(tools: &[Tool], name: &str) -> (r: Option<usize>)
    ensures
        r is Some <==> has_tool(tools@, name@),
        r matches Some(i) ==> tool_at(tools@, name@, i as int),
{
    let mut i: usize = 0;
    while i < tools.len()
        invariant
            i <= tools@.len(),
            forall|j: int| 0 <= j < i ==> (#[trigger] tools@[j]).function.name@ != name@,
        decreases tools.len() - i,
    {
        if same_text(tools[i].function.name.as_str(), name) {
            return Some(i);
        }
        i = i + 1;
    }
    None
}

// ---------------------------------------------------------------------------
// What the streaming parsers share
// ---------------------------------------------------------------------------

/// The last `n` characters of `buffer` are the first `n` of `token`, and not all of it.
pub open spec fn is_partial_token(buffer: Seq<char>, token: Seq<char>, n: int) -> bool {
    0 < n < token.len() && token.take(n).is_suffix_of(buffer)
}

/// The number of characters at the end of `buffer` that may be the beginning of `token`: as
/// many as can be, and none where none can.
pub open spec fn partial_token_len(buffer: Seq<char>, token: Seq<char>) -> nat {
    partial_token_below(buffer, token, token.len() as int)
}

/// As [`partial_token_len`], of the lengths below `n`.
pub open spec fn partial_token_below(buffer: Seq<char>, token: Seq<char>, n: int) -> nat
    decreases n,
{
    if n <= 1 {
        0
    } else if is_partial_token(buffer, token, n - 1) {
        (n - 1) as nat
    } else {
        partial_token_below(buffer, token, n - 1)
    }
}

/// The length found is one that fits, and none above it does.
pub proof fn lemma_partial_token(buffer: Seq<char>, token: Seq<char>, n: int)
    requires
        n <= token.len(),
    ensures
        partial_token_below(buffer, token, n) > 0 ==> is_partial_token(
            buffer,
            token,
            partial_token_below(buffer, token, n) as int,
        ),
        partial_token_below(buffer, token, n) <= buffer.len(),
        forall|k: int|
            partial_token_below(buffer, token, n) < k < n ==> !is_partial_token(buffer, token, k),
    decreases n,
{
    if n > 1 && !is_partial_token(buffer, token, n - 1) {
        lemma_partial_token(buffer, token, n - 1);
    }
}

/// Texts whose ends fit alike hold the same beginning of the token at their ends.
proof fn lemma_partial_alike(first: Seq<char>, second: Seq<char>, token: Seq<char>, n: int)
    requires
        forall|k: int| #[trigger] is_partial_token(first, token, k) <==> is_partial_token(second, token, k),
    ensures
        partial_token_below(first, token, n) == partial_token_below(second, token, n),
    decreases n,
{
    if n > 1 {
        assert(is_partial_token(first, token, n - 1) <==> is_partial_token(second, token, n - 1));
        lemma_partial_alike(first, second, token, n - 1);
    }
}

/// Where a text is held back at least as far as it may be the beginning of a token, as much may be
/// its beginning of what is held back and what comes next as of all of it.
pub proof fn lemma_held_on(text: Seq<char>, next: Seq<char>, token: Seq<char>, n: int)
    requires
        partial_token_len(text, token) <= n <= text.len(),
    ensures
        partial_token_len(text.skip(text.len() - n) + next, token) == partial_token_len(
            text + next,
            token,
        ),
{
    lemma_partial_token(text, token, token.len() as int);
    let held = text.skip(text.len() - n);
    let all = text + next;
    let rest = held + next;
    assert forall|k: int| #[trigger] is_partial_token(rest, token, k) <==> is_partial_token(all, token, k) by {
        if is_partial_token(rest, token, k) {
            assert(rest =~= all.skip(all.len() - rest.len()));
            assert(token.take(k) =~= all.skip(all.len() - k));
        }
        if is_partial_token(all, token, k) {
            if k > rest.len() {
                let m = k - next.len();
                assert(token.take(m) =~= text.skip(text.len() - m)) by {
                    assert forall|i: int| 0 <= i < m implies #[trigger] token.take(m)[i] == text.skip(
                        text.len() - m,
                    )[i] by {
                        assert(token.take(k)[i] == all.skip(all.len() - k)[i]);
                    }
                }
                assert(is_partial_token(text, token, m));
            } else {
                assert(token.take(k) =~= rest.skip(rest.len() - k)) by {
                    assert forall|i: int| 0 <= i < k implies #[trigger] token.take(k)[i] == rest.skip(
                        rest.len() - k,
                    )[i] by {
                        assert(token.take(k)[i] == all.skip(all.len() - k)[i]);
                    }
                }
            }
        }
    }
    lemma_partial_alike(rest, all, token, token.len() as int);
}

/// How many characters at the end of `buffer` may be the beginning of `token`.
pub fn ends_with_partial_token(buffer: &str, token: &str) -> (r: usize)
    ensures
        r == partial_token_len(buffer@, token@),
        r <= buffer@.len(),
{
    let mut n: usize = token.unicode_len();
    proof {
        lemma_partial_token(buffer@, token@, n as int);
    }
    while n > 1
        invariant
            n <= token@.len(),
            partial_token_below(buffer@, token@, n as int) == partial_token_len(buffer@, token@),
            partial_token_len(buffer@, token@) <= buffer@.len(),
        decreases n,
    {
        let head: String = take_text(token, n - 1);
        if ends_with(buffer, head.as_str()) {
            return n - 1;
        }
        n = n - 1;
    }
    0
}

/// The call that is coming in, or came in: its name and its arguments as far as they are known.
#[derive(Debug, PartialEq, Eq)]
pub struct ToolRecord {
    pub name: String,
    pub arguments: String,
}

/// What a record holds, where there is one.
pub open spec fn record_view(record: Option<ToolRecord>) -> Option<CallView> {
    match record {
        Some(r) => Some(CallView { name: r.name@, arguments: r.arguments@ }),
        None => None,
    }
}

/// What records hold.
pub open spec fn records_view(records: Seq<Option<ToolRecord>>) -> Seq<Option<CallView>> {
    records.map_values(|r: Option<ToolRecord>| record_view(r))
}

/// `s` with `x` added behind it until it is `n` long.
pub open spec fn padded<T>(s: Seq<T>, n: nat, x: T) -> Seq<T> {
    if s.len() >= n {
        s
    } else {
        s + Seq::new((n - s.len()) as nat, |i: int| x)
    }
}

/// Makes room for the call `index` in the records and in what was sent.
pub fn ensure_capacity(
    index: usize,
    records: &mut Vec<Option<ToolRecord>>,
    streamed: &mut Vec<String>,
)
    ensures
        records_view(final(records)@) == padded(records_view(old(records)@), (index + 1) as nat, None),
        crate::text::texts(final(streamed)@) == padded(
            crate::text::texts(old(streamed)@),
            (index + 1) as nat,
            Seq::empty(),
        ),
{
    let ghost before_records = records_view(records@);
    let ghost before_streamed = crate::text::texts(streamed@);
    while records.len() <= index
        invariant
            before_records.len() <= records@.len(),
            records@.len() <= index + 1 || records@.len() == before_records.len(),
            records_view(records@) == padded(before_records, records@.len(), None),
        decreases index + 1 - records.len(),
    {
        let ghost held = records@;
        records.push(None);
        assert(records_view(records@) =~= records_view(held).push(None));
        assert(records_view(records@) =~= padded(before_records, records@.len(), None));
    }
    while streamed.len() <= index
        invariant
            before_streamed.len() <= streamed@.len(),
            streamed@.len() <= index + 1 || streamed@.len() == before_streamed.len(),
            crate::text::texts(streamed@) == padded(before_streamed, streamed@.len(), Seq::empty()),
        decreases index + 1 - streamed.len(),
    {
        let ghost held = streamed@;
        streamed.push(String::new());
        assert(crate::text::texts(streamed@) =~= crate::text::texts(held).push(Seq::empty()));
        assert(crate::text::texts(streamed@) =~= padded(before_streamed, streamed@.len(), Seq::empty()));
    }
}

/// What is still to be sent of the arguments of the last call: the rest of them behind what was
/// sent, where what was sent is the beginning of them and something is left.
pub open spec fn unstreamed_args(records: Seq<Option<CallView>>, streamed: Seq<Seq<char>>) -> Option<
    ItemView,
> {
    let index = records.len() - 1;
    if 0 <= index < streamed.len() && records[index] is Some {
        let arguments = records[index]->0.arguments;
        let sent = streamed[index];
        if sent.is_prefix_of(arguments) && sent.len() < arguments.len() {
            Some(args_item(index as nat, arguments.skip(sent.len() as int)))
        } else {
            None
        }
    } else {
        None
    }
}

/// What was sent of the last call, and what is still to be sent of it, are its arguments.
pub proof fn law_unstreamed(records: Seq<Option<CallView>>, streamed: Seq<Seq<char>>)
    requires
        unstreamed_args(records, streamed) is Some,
    ensures
        ({
            let item = unstreamed_args(records, streamed)->0;
            &&& item.tool_index == records.len() - 1
            &&& item.name is None
            &&& item.parameters.len() > 0
            &&& streamed[records.len() - 1] + item.parameters == records.last()->0.arguments
        }),
{
    let sent = streamed[records.len() - 1];
    let arguments = records.last()->0.arguments;
    assert(sent + arguments.skip(sent.len() as int) =~= arguments);
}

/// What is still to be sent of the arguments of the last call.
pub fn get_unstreamed_args(records: &Vec<Option<ToolRecord>>, streamed: &Vec<String>) -> (r: Option<
    Vec<ToolCallItem>,
>)
    ensures
        r is Some <==> unstreamed_args(records_view(records@), crate::text::texts(streamed@)) is Some,
        r matches Some(items) ==> items_view(items@) == seq![
            unstreamed_args(records_view(records@), crate::text::texts(streamed@))->0,
        ],
{
    if records.len() == 0 {
        return None;
    }
    let index: usize = records.len() - 1;
    if index >= streamed.len() {
        return None;
    }
    assert(records_view(records@)[index as int] == record_view(records@[index as int]));
    assert(crate::text::texts(streamed@)[index as int] == streamed@[index as int]@);
    match &records[index] {
        Some(record) => {
            let sent: usize = streamed[index].as_str().unicode_len();
            let all: usize = record.arguments.as_str().unicode_len();
            if starts_with(record.arguments.as_str(), streamed[index].as_str()) && sent < all {
                let rest: String = skip_text(record.arguments.as_str(), sent);
                let item: ToolCallItem = ToolCallItem { tool_index: index, name: None, parameters: rest };
                let mut items: Vec<ToolCallItem> = Vec::new();
                items.push(item);
                assert(items_view(items@) =~= seq![item@]);
                Some(items)
            } else {
                None
            }
        },
        None => None,
    }
}

/// Something is still to be sent of the last call just where it is recorded, what was sent of it is
/// the beginning of its arguments, and these go on; then it is all the rest.
pub proof fn law_rest_owed(records: Seq<Option<CallView>>, streamed: Seq<Seq<char>>, rest: Seq<char>)
    requires
        records.len() > 0,
        streamed.len() >= records.len(),
        records.last() matches Some(call) ==> call.arguments == streamed[records.len() - 1] + rest,
    ensures
        records.last() is Some && rest.len() > 0 ==> unstreamed_args(records, streamed) == Some(
            args_item((records.len() - 1) as nat, rest),
        ),
        rest.len() == 0 || records.last() is None ==> unstreamed_args(records, streamed) is None,
{
    let sent = streamed[records.len() - 1];
    if let Some(call) = records.last() {
        assert(call.arguments.subrange(0, sent.len() as int) =~= sent);
        assert(call.arguments.skip(sent.len() as int) =~= rest);
    }
}

/// A tool is found by its name, letter for letter, among all tools.
pub proof fn law_has_tool(tools: Seq<Tool>, i: int)
    requires
        0 <= i < tools.len(),
    ensures
        has_tool(tools, tools[i].function.name@),
        forall|name: Seq<char>|
            (forall|j: int| 0 <= j < tools.len() ==> (#[trigger] tools[j]).function.name@ != name)
                ==> !#[trigger] has_tool(tools, name),
{
}

} // verus!
