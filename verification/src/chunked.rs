//! Streams from their beginning on, cut into chunks anywhere.

use vstd::prelude::*;

#[allow(unused_imports)]
use crate::deepseek;
#[allow(unused_imports)]
use crate::deepseek::DsmlState;
#[allow(unused_imports)]
use crate::json::{escaped, escaped_char, json_string, member_text};
#[allow(unused_imports)]
use crate::minimax::{
    chunk_run, complete_parse, count_char, decoded, follow, initial, law_stream_like_whole,
    law_stream_value_like_whole, lemma_step_valid, opening_fragment, run, step, streamed_object,
    wants_brace, Follow, MinimaxState,
};
#[allow(unused_imports)]
use crate::params::{is_scalar, lemma_named, members_of, python_object_text, value_text, ParamView};
#[allow(unused_imports)]
use crate::pattern::{
    closes_first, closing, is_spaces, lemma_matches_all, lemma_no_matches, opening, row, tag_matches, Tag,
};
#[allow(unused_imports)]
use crate::schema::param_schema;
#[allow(unused_imports)]
use crate::streamed::{
    at_call, before_name, dsml_streamable, first_name, is_streamable, lemma_dsml_call_closed, lemma_dsml_call_held,
    lemma_name_taken, lemma_names, lemma_no_invoke_yet, lemma_params_taken, names_of, sent_items, sent_object,
    sent_record, stream_params,
};
#[allow(unused_imports)]
use crate::text::{
    contains, find, first_at, hex_digit, is_white_space, joined, lemma_find, occurs_at, trim, trim_end,
};
#[allow(unused_imports)]
use crate::tool::{
    args_item, grown, has_tool, is_partial_token, lemma_grown, name_item, nothing, partial_token_len, sent_args,
    text_of, ItemView, StreamView, Tool,
};
#[allow(unused_imports)]
use crate::written::{
    block_text, block_texts, dsml_bodies, dsml_calls, dsml_invoke, dsml_invokes, dsml_read_blocks,
    dsml_read_call, dsml_read_calls, dsml_writable, law_dsml_read_back, law_minimax_read_back,
    minimax_bodies, minimax_calls, minimax_invoke, minimax_invokes, minimax_writable, read_blocks, read_call, read_calls, read_params, text_with_blocks,
    well_set, DsmlCall, WrittenCall,
};

verus! {

// ---------------------------------------------------------------------------
// MiniMax M2
// ---------------------------------------------------------------------------

/// The text that chunks make up.
pub open spec fn chunks_text(chunks: Seq<Seq<char>>) -> Seq<char>
    decreases chunks.len(),
{
    if chunks.len() == 0 {
        Seq::empty()
    } else {
        chunks_text(chunks.drop_last()) + chunks.last()
    }
}

/// What is given first, and then more.
pub open spec fn given_both(first: StreamView, more: StreamView) -> StreamView {
    StreamView {
        normal_text: first.normal_text + more.normal_text,
        calls: first.calls + more.calls,
    }
}

/// What chunks give, one after another, and the state behind them.
pub open spec fn chunks_run(st: MinimaxState, chunks: Seq<Seq<char>>, tools: Seq<Tool>) -> (
    MinimaxState,
    StreamView,
)
    decreases chunks.len(),
{
    if chunks.len() == 0 {
        (st, nothing())
    } else {
        let (before, first) = chunks_run(st, chunks.drop_last(), tools);
        let (after, more) = chunk_run(before, chunks.last(), tools);
        (after, given_both(first, more))
    }
}

/// What follows the invocation of a call that is alone in its block.
pub open spec fn block_tail(gap: Seq<char>) -> Seq<char> {
    gap + closing(Tag::MinimaxBlock)
}

/// What follows the tag that opens the block of a call that is alone in it.
pub open spec fn block_rest(call: WrittenCall, gap: Seq<char>) -> Seq<char> {
    gap + (minimax_invoke(call, gap) + block_tail(gap))
}

/// A call that is alone in its block.
pub open spec fn call_in_block(call: WrittenCall, gap: Seq<char>) -> Seq<char> {
    opening(Tag::MinimaxBlock) + block_rest(call, gap)
}

/// The state in the block, before the call.
pub open spec fn state_in_block(buffer: Seq<char>) -> MinimaxState {
    MinimaxState { buffer, in_tool_call: true, ..initial() }
}

/// The state behind the call, outside its block.
pub open spec fn state_behind(call: WrittenCall, tools: Seq<Tool>) -> MinimaxState {
    MinimaxState {
        records: seq![sent_record(trim(call.name), stream_params(call, tools))],
        streamed: seq![sent_object(stream_params(call, tools))],
        tool: Some(1),
        ..initial()
    }
}

/// The state behind the call, in its block.
pub open spec fn state_waiting(call: WrittenCall, tools: Seq<Tool>, buffer: Seq<char>) -> MinimaxState {
    MinimaxState { buffer, in_tool_call: true, waiting: true, ..state_behind(call, tools) }
}

/// The length of the text up to the end of the invocation.
pub open spec fn invoke_end(call: WrittenCall, gap: Seq<char>) -> int {
    (opening(Tag::MinimaxBlock).len() + gap.len() + minimax_invoke(call, gap).len()) as int
}

/// The state when `came`, a beginning of the text, came in.
pub open spec fn state_at(call: WrittenCall, gap: Seq<char>, tools: Seq<Tool>, came: Seq<char>) -> MinimaxState {
    let start = opening(Tag::MinimaxBlock);
    if came.len() < start.len() {
        MinimaxState { buffer: came, ..initial() }
    } else if came.len() < invoke_end(call, gap) {
        state_in_block(came.skip(start.len() as int))
    } else if came.len() < call_in_block(call, gap).len() {
        state_waiting(call, tools, came.skip(invoke_end(call, gap)))
    } else {
        state_behind(call, tools)
    }
}

/// The pieces that were given when `came`, a beginning of the text, came in.
pub open spec fn items_at(call: WrittenCall, gap: Seq<char>, tools: Seq<Tool>, came: Seq<char>) -> Seq<ItemView> {
    if came.len() < invoke_end(call, gap) {
        Seq::empty()
    } else {
        sent_items(0, trim(call.name), stream_params(call, tools))
    }
}

/// What is given where no text is.
pub open spec fn only_calls(calls: Seq<ItemView>) -> StreamView {
    StreamView { normal_text: Seq::empty(), calls }
}

/// A word in angle brackets occurs in the beginning of what follows an invocation only where it
/// is the tag that closes the block.
proof fn lemma_tail_words(gap: Seq<char>, short: Seq<char>, word: Seq<char>, i: int)
    requires
        is_spaces(gap),
        short.is_prefix_of(block_tail(gap)),
        word.len() > 1,
        word[0] == '<',
        occurs_at(short, word, i),
    ensures
        i == gap.len(),
        word[1] == '/',
{
    let end = closing(Tag::MinimaxBlock);
    let tail = block_tail(gap);
    reveal_strlit("</minimax:tool_call>");
    let part = short.subrange(i, i + word.len());
    assert(part[0] == short[i] && part[1] == short[i + 1]);
    assert(tail.subrange(0, short.len() as int)[i] == tail[i]);
    assert(tail.subrange(0, short.len() as int)[i + 1] == tail[i + 1]);
    if i < gap.len() {
        assert(is_white_space(gap[i]));
    } else {
        assert(tail[i] == end[i - gap.len()]);
        assert(tail[i + 1] == end[i + 1 - gap.len()]);
    }
}

/// What follows in the beginning of what follows an invocation: the end of the block, when all
/// of it is there.
pub proof fn lemma_tail_follow(gap: Seq<char>, short: Seq<char>)
    requires
        is_spaces(gap),
        short.is_prefix_of(block_tail(gap)),
    ensures
        !contains(short, opening(Tag::MinimaxParameter)),
        short.len() < block_tail(gap).len() ==> follow(short) == Follow::Open,
        short.len() == block_tail(gap).len() ==> follow(short) == Follow::End(short.len() as int),
{
    let end = closing(Tag::MinimaxBlock);
    let invoke = opening(Tag::MinimaxInvoke);
    let parameter = opening(Tag::MinimaxParameter);
    reveal_strlit("</minimax:tool_call>");
    reveal_strlit("<invoke");
    reveal_strlit("<parameter");
    assert(!contains(short, parameter)) by {
        if contains(short, parameter) {
            let i = choose|i: int| occurs_at(short, parameter, i);
            lemma_tail_words(gap, short, parameter, i);
        }
    }
    assert(!contains(short, invoke)) by {
        if contains(short, invoke) {
            let i = choose|i: int| occurs_at(short, invoke, i);
            lemma_tail_words(gap, short, invoke, i);
        }
    }
    lemma_find(short, invoke);
    lemma_find(short, end);
    if short.len() < block_tail(gap).len() {
        assert(!contains(short, end)) by {
            if contains(short, end) {
                let i = choose|i: int| occurs_at(short, end, i);
                lemma_tail_words(gap, short, end, i);
            }
        }
    } else {
        let n = gap.len() as int;
        assert(short =~= block_tail(gap));
        assert(short.subrange(n, n + end.len()) =~= end);
        assert forall|j: int| 0 <= j < n implies !occurs_at(short, end, j) by {
            if occurs_at(short, end, j) {
                lemma_tail_words(gap, short, end, j);
            }
        }
        assert(first_at(short, end, n));
    }
}

/// Outside any block, nothing is done where nothing came in.
pub proof fn lemma_empty_run(st: MinimaxState, calls: Seq<ItemView>, tools: Seq<Tool>)
    requires
        st.buffer.len() == 0,
        !st.in_tool_call && !st.waiting,
    ensures
        run(st, only_calls(calls), tools) == (st, only_calls(calls)),
{
    reveal(run);
    let start = opening(Tag::MinimaxBlock);
    reveal_strlit("<minimax:tool_call>");
    lemma_find(st.buffer, start);
    crate::tool::lemma_partial_token(st.buffer, start, start.len() as int);
    let next = step(st, only_calls(calls), tools);
    assert(next.state.buffer =~= st.buffer);
    assert(next.out.normal_text =~= Seq::empty());
    assert(next.state =~= st);
    assert(next.out =~= only_calls(calls));
}

/// Behind the call, the parser waits until its block is closed.
proof fn lemma_waiting_run(
    call: WrittenCall,
    gap: Seq<char>,
    tools: Seq<Tool>,
    short: Seq<char>,
    calls: Seq<ItemView>,
)
    requires
        is_streamable(call, gap, tools),
        short.is_prefix_of(block_tail(gap)),
    ensures
        run(state_waiting(call, tools, short), only_calls(calls), tools) == (
            if short.len() < block_tail(gap).len() {
                state_waiting(call, tools, short)
            } else {
                state_behind(call, tools)
            },
            only_calls(calls),
        ),
{
    reveal(run);
    assert(is_spaces(gap)) by {
        reveal(is_streamable);
    }
    lemma_tail_follow(gap, short);
    let st = state_waiting(call, tools, short);
    let out = only_calls(calls);
    if short.len() == block_tail(gap).len() {
        let next = step(st, out, tools);
        assert(short.skip(short.len() as int) =~= Seq::empty());
        assert(next.state =~= state_behind(call, tools));
        lemma_empty_run(state_behind(call, tools), calls, tools);
        assert(run(st, out, tools) == run(next.state, next.out, tools));
    }
}

/// Where the invocation is not complete, it is held.
proof fn lemma_held_run(call: WrittenCall, gap: Seq<char>, tools: Seq<Tool>, short: Seq<char>)
    requires
        is_streamable(call, gap, tools),
        short.is_prefix_of(gap + minimax_invoke(call, gap)),
        short.len() < (gap + minimax_invoke(call, gap)).len(),
    ensures
        run(state_in_block(short), nothing(), tools) == (state_in_block(short), nothing()),
{
    reveal(run);
    reveal(is_streamable);
    lemma_no_invoke_yet(call, gap, short);
}

/// The two steps of a complete invocation, and what the parser is in behind them.
proof fn lemma_closed_steps(call: WrittenCall, gap: Seq<char>, tools: Seq<Tool>, rest: Seq<char>)
    requires
        is_streamable(call, gap, tools),
        rest.is_prefix_of(block_tail(gap)),
    ensures
        ({
            let st = state_in_block(gap + (minimax_invoke(call, gap) + rest));
            let named = step(st, nothing(), tools);
            let closed = step(named.state, named.out, tools);
            &&& named.more
            &&& closed.out == only_calls(sent_items(0, trim(call.name), stream_params(call, tools)))
            &&& rest.len() < block_tail(gap).len() ==> !closed.more && closed.state == state_waiting(
                call,
                tools,
                rest,
            )
            &&& rest.len() == block_tail(gap).len() ==> closed.more && closed.state == state_behind(
                call,
                tools,
            )
        }),
{
    reveal(is_streamable);
    let st = state_in_block(gap + (minimax_invoke(call, gap) + rest));
    let name = trim(call.name);
    let params = stream_params(call, tools);
    assert(before_name(st));
    lemma_tail_follow(gap, rest);
    lemma_name_taken(st, nothing(), call, gap, rest, tools);
    lemma_step_valid(st, nothing(), tools);
    let named = step(st, nothing(), tools);
    lemma_params_taken(named.state, named.out, call, gap, rest, tools);
    let closed = step(named.state, named.out, tools);
    assert(named.state.streamed.len() == 1 && named.state.records.len() == 1);
    assert(closed.state.streamed =~= state_behind(call, tools).streamed);
    assert(closed.state.records =~= state_behind(call, tools).records);
    assert(rest.skip(rest.len() as int) =~= Seq::empty());
    assert(closed.out.calls =~= sent_items(0, name, params));
    assert(closed.out =~= only_calls(sent_items(0, name, params)));
}

/// In the block, before the call.
proof fn lemma_block_run(call: WrittenCall, gap: Seq<char>, tools: Seq<Tool>, short: Seq<char>)
    requires
        is_streamable(call, gap, tools),
        short.is_prefix_of(block_rest(call, gap)),
    ensures
        ({
            let came = opening(Tag::MinimaxBlock) + short;
            run(state_in_block(short), nothing(), tools) == (
                state_at(call, gap, tools, came),
                only_calls(items_at(call, gap, tools, came)),
            )
        }),
{
    let start = opening(Tag::MinimaxBlock);
    let head = gap + minimax_invoke(call, gap);
    let came = start + short;
    let all = block_rest(call, gap);
    assert(all =~= head + block_tail(gap));
    assert(short =~= all.subrange(0, short.len() as int));
    assert(came.skip(start.len() as int) =~= short);
    if short.len() < head.len() {
        assert(short =~= head.subrange(0, short.len() as int));
        lemma_held_run(call, gap, tools, short);
        assert(nothing() =~= only_calls(Seq::empty()));
    } else {
        let rest = short.skip(head.len() as int);
        assert(rest =~= block_tail(gap).subrange(0, rest.len() as int));
        assert(short =~= gap + (minimax_invoke(call, gap) + rest));
        assert(came.skip(invoke_end(call, gap)) =~= rest);
        lemma_closed_steps(call, gap, tools, rest);
        lemma_block_closed(call, gap, tools, rest);
    }
}

/// A complete invocation in the block.
proof fn lemma_block_closed(call: WrittenCall, gap: Seq<char>, tools: Seq<Tool>, rest: Seq<char>)
    requires
        is_streamable(call, gap, tools),
        rest.is_prefix_of(block_tail(gap)),
    ensures
        run(state_in_block(gap + (minimax_invoke(call, gap) + rest)), nothing(), tools) == (
            if rest.len() < block_tail(gap).len() {
                state_waiting(call, tools, rest)
            } else {
                state_behind(call, tools)
            },
            only_calls(sent_items(0, trim(call.name), stream_params(call, tools))),
        ),
{
    reveal(run);
    let st = state_in_block(gap + (minimax_invoke(call, gap) + rest));
    lemma_closed_steps(call, gap, tools, rest);
    let named = step(st, nothing(), tools);
    let closed = step(named.state, named.out, tools);
    assert(run(st, nothing(), tools) == run(named.state, named.out, tools));
    if closed.more {
        assert(run(named.state, named.out, tools) == run(closed.state, closed.out, tools));
        lemma_empty_run(closed.state, closed.out.calls, tools);
    }
}

/// The beginning of the tag that opens a block is all held.
pub proof fn lemma_start_held(short: Seq<char>, tools: Seq<Tool>)
    requires
        short.is_prefix_of(opening(Tag::MinimaxBlock)),
        short.len() < opening(Tag::MinimaxBlock).len(),
    ensures
        run(MinimaxState { buffer: short, ..initial() }, nothing(), tools) == (
            MinimaxState { buffer: short, ..initial() },
            nothing(),
        ),
{
    reveal(run);
    let st = MinimaxState { buffer: short, ..initial() };
    let start = opening(Tag::MinimaxBlock);
    lemma_find(short, start);
    crate::tool::lemma_partial_token(short, start, start.len() as int);
    if short.len() > 0 {
        assert(is_partial_token(short, start, short.len() as int)) by {
            assert(short.skip(0) =~= short);
            assert(start.take(short.len() as int) =~= short);
        }
    }
    assert(partial_token_len(short, start) == short.len());
    let next = step(st, nothing(), tools);
    assert(next.state.buffer =~= short);
    assert(next.out.normal_text =~= Seq::empty());
    assert(next.state =~= st);
    assert(next.out =~= nothing());
}

/// Before the block.
proof fn lemma_start_run(call: WrittenCall, gap: Seq<char>, tools: Seq<Tool>, came: Seq<char>)
    requires
        is_streamable(call, gap, tools),
        came.is_prefix_of(call_in_block(call, gap)),
    ensures
        run(MinimaxState { buffer: came, ..initial() }, nothing(), tools) == (
            state_at(call, gap, tools, came),
            only_calls(items_at(call, gap, tools, came)),
        ),
{
    reveal(run);
    let start = opening(Tag::MinimaxBlock);
    let all = call_in_block(call, gap);
    let st = MinimaxState { buffer: came, ..initial() };
    assert(came =~= all.subrange(0, came.len() as int));
    if came.len() < start.len() {
        assert(came =~= start.subrange(0, came.len() as int));
        lemma_start_held(came, tools);
        assert(nothing() =~= only_calls(Seq::empty()));
    } else {
        let short = came.skip(start.len() as int);
        assert(came =~= start + short);
        assert(short =~= block_rest(call, gap).subrange(0, short.len() as int));
        assert(came.subrange(0, start.len() as int) =~= start);
        assert(occurs_at(came, start, 0));
        assert(first_at(came, start, 0));
        lemma_find(came, start);
        let next = step(st, nothing(), tools);
        assert(came.take(0) =~= Seq::empty());
        assert(next.state =~= state_in_block(short));
        assert(next.out =~= nothing());
        assert(next.more);
        assert(run(st, nothing(), tools) == run(next.state, next.out, tools));
        lemma_block_run(call, gap, tools, short);
    }
}

/// Nothing before pieces, and nothing behind them.
proof fn lemma_no_items(items: Seq<ItemView>)
    ensures
        Seq::<ItemView>::empty() + items == items,
        items + Seq::<ItemView>::empty() == items,
{
    assert(Seq::<ItemView>::empty() + items =~= items);
    assert(items + Seq::<ItemView>::empty() =~= items);
}

/// The next chunk, before the block.
proof fn lemma_next_start(
    call: WrittenCall,
    gap: Seq<char>,
    tools: Seq<Tool>,
    came: Seq<char>,
    chunk: Seq<char>,
)
    requires
        is_streamable(call, gap, tools),
        (came + chunk).is_prefix_of(call_in_block(call, gap)),
        came.len() < opening(Tag::MinimaxBlock).len(),
    ensures
        ({
            let (after, more) = chunk_run(state_at(call, gap, tools, came), chunk, tools);
            &&& after == state_at(call, gap, tools, came + chunk)
            &&& more.normal_text.len() == 0
            &&& items_at(call, gap, tools, came) + more.calls == items_at(call, gap, tools, came + chunk)
        }),
{
    let total = came + chunk;
    lemma_start_run(call, gap, tools, total);
    lemma_no_items(items_at(call, gap, tools, total));
    assert(came.len() < invoke_end(call, gap));
}

/// The next chunk, in the block and before the end of the call.
proof fn lemma_next_call(
    call: WrittenCall,
    gap: Seq<char>,
    tools: Seq<Tool>,
    came: Seq<char>,
    chunk: Seq<char>,
)
    requires
        is_streamable(call, gap, tools),
        (came + chunk).is_prefix_of(call_in_block(call, gap)),
        opening(Tag::MinimaxBlock).len() <= came.len() < invoke_end(call, gap),
    ensures
        ({
            let (after, more) = chunk_run(state_at(call, gap, tools, came), chunk, tools);
            &&& after == state_at(call, gap, tools, came + chunk)
            &&& more.normal_text.len() == 0
            &&& items_at(call, gap, tools, came) + more.calls == items_at(call, gap, tools, came + chunk)
        }),
{
    let start = opening(Tag::MinimaxBlock);
    let all = call_in_block(call, gap);
    let total = came + chunk;
    let short = total.skip(start.len() as int);
    assert(total =~= all.subrange(0, total.len() as int));
    assert(came.skip(start.len() as int) + chunk =~= short);
    assert(start + short =~= total);
    assert(short =~= block_rest(call, gap).subrange(0, short.len() as int));
    lemma_block_run(call, gap, tools, short);
    lemma_no_items(items_at(call, gap, tools, total));
}

/// The next chunk, behind the call.
proof fn lemma_next_tail(
    call: WrittenCall,
    gap: Seq<char>,
    tools: Seq<Tool>,
    came: Seq<char>,
    chunk: Seq<char>,
)
    requires
        is_streamable(call, gap, tools),
        (came + chunk).is_prefix_of(call_in_block(call, gap)),
        came.len() >= invoke_end(call, gap),
    ensures
        ({
            let (after, more) = chunk_run(state_at(call, gap, tools, came), chunk, tools);
            &&& after == state_at(call, gap, tools, came + chunk)
            &&& more.normal_text.len() == 0
            &&& items_at(call, gap, tools, came) + more.calls == items_at(call, gap, tools, came + chunk)
        }),
{
    let all = call_in_block(call, gap);
    let total = came + chunk;
    let n = invoke_end(call, gap);
    let st = state_at(call, gap, tools, came);
    assert(total =~= all.subrange(0, total.len() as int));
    assert(nothing() =~= only_calls(Seq::empty()));
    lemma_no_items(items_at(call, gap, tools, came));
    if came.len() < all.len() {
        let rest = total.skip(n);
        assert(came.skip(n) + chunk =~= rest);
        assert(all.skip(n) =~= block_tail(gap));
        assert(rest =~= block_tail(gap).subrange(0, rest.len() as int));
        lemma_waiting_run(call, gap, tools, rest, Seq::empty());
    } else {
        assert(total =~= came);
        assert(st.buffer + chunk =~= st.buffer);
        lemma_empty_run(st, Seq::empty(), tools);
    }
}

/// The next chunk of the text.
proof fn lemma_next_chunk(
    call: WrittenCall,
    gap: Seq<char>,
    tools: Seq<Tool>,
    came: Seq<char>,
    chunk: Seq<char>,
)
    requires
        is_streamable(call, gap, tools),
        (came + chunk).is_prefix_of(call_in_block(call, gap)),
    ensures
        ({
            let (after, more) = chunk_run(state_at(call, gap, tools, came), chunk, tools);
            &&& after == state_at(call, gap, tools, came + chunk)
            &&& more.normal_text.len() == 0
            &&& items_at(call, gap, tools, came) + more.calls == items_at(call, gap, tools, came + chunk)
        }),
{
    if came.len() < opening(Tag::MinimaxBlock).len() {
        lemma_next_start(call, gap, tools, came, chunk);
    } else if came.len() < invoke_end(call, gap) {
        lemma_next_call(call, gap, tools, came, chunk);
    } else {
        lemma_next_tail(call, gap, tools, came, chunk);
    }
}

/// Chunks that make up a beginning of the text.
proof fn lemma_chunks(call: WrittenCall, gap: Seq<char>, tools: Seq<Tool>, chunks: Seq<Seq<char>>)
    requires
        is_streamable(call, gap, tools),
        chunks_text(chunks).is_prefix_of(call_in_block(call, gap)),
    ensures
        chunks_run(initial(), chunks, tools) == (
            state_at(call, gap, tools, chunks_text(chunks)),
            only_calls(items_at(call, gap, tools, chunks_text(chunks))),
        ),
    decreases chunks.len(),
{
    let start = opening(Tag::MinimaxBlock);
    reveal_strlit("<minimax:tool_call>");
    if chunks.len() == 0 {
        assert(MinimaxState { buffer: Seq::empty(), ..initial() } =~= initial());
        assert(nothing() =~= only_calls(Seq::empty()));
    } else {
        let all = call_in_block(call, gap);
        let came = chunks_text(chunks.drop_last());
        let chunk = chunks.last();
        assert(came =~= all.subrange(0, came.len() as int)) by {
            assert(came + chunk =~= all.subrange(0, (came + chunk).len() as int));
            assert(came =~= (came + chunk).subrange(0, came.len() as int));
        }
        lemma_chunks(call, gap, tools, chunks.drop_last());
        lemma_next_chunk(call, gap, tools, came, chunk);
        let (before, first) = chunks_run(initial(), chunks.drop_last(), tools);
        let (after, more) = chunk_run(before, chunk, tools);
        assert(given_both(first, more) =~= only_calls(items_at(call, gap, tools, came + chunk)));
    }
}

/// A call that is alone in its block streams as it is written, however the text is cut into
/// chunks that come in to a new parser: in all they give one name, that of the call; the pieces of
/// the object that its parameters make up; and no text. Behind them the parser is outside any
/// block, holds nothing back, and has recorded the call.
pub proof fn law_block_streams(
    call: WrittenCall,
    gap: Seq<char>,
    chunks: Seq<Seq<char>>,
    tools: Seq<Tool>,
)
    requires
        is_streamable(call, gap, tools),
        chunks_text(chunks) == call_in_block(call, gap),
    ensures
        chunks_run(initial(), chunks, tools) == (
            state_behind(call, tools),
            only_calls(sent_items(0, trim(call.name), stream_params(call, tools))),
        ),
{
    let all = call_in_block(call, gap);
    assert(all =~= all.subrange(0, all.len() as int));
    lemma_chunks(call, gap, tools, chunks);
    assert(all.len() >= invoke_end(call, gap));
}

/// The parameters of the call are read alike in a stream and in a whole text: none begins like an
/// array or an object unless the tools declare it.
pub open spec fn is_read_alike(call: WrittenCall, tools: Seq<Tool>) -> bool {
    forall|i: int|
        0 <= i < call.params.len() ==> param_schema(tools, trim(call.name), trim((#[trigger] call.params[i]).0))
            is Some || !("{"@.is_prefix_of(decoded(call.params[i].1)) || "["@.is_prefix_of(
            decoded(call.params[i].1),
        ))
}

/// None of the values is an array or an object.
pub open spec fn are_scalar(params: Seq<(Seq<char>, ParamView)>) -> bool {
    forall|i: int| 0 <= i < params.len() ==> is_scalar((#[trigger] params[i]).1)
}

/// Parameters that are read alike one by one are read alike.
proof fn lemma_read_alike(params: Seq<(Seq<char>, Seq<char>)>, func: Seq<char>, tools: Seq<Tool>)
    requires
        forall|i: int|
            0 <= i < params.len() ==> param_schema(tools, func, trim((#[trigger] params[i]).0)) is Some || !(
            "{"@.is_prefix_of(decoded(params[i].1)) || "["@.is_prefix_of(decoded(params[i].1))),
    ensures
        read_params(params, func, tools, true) == read_params(params, func, tools, false),
        params.len() > 0 ==> read_params(params, func, tools, true).len() > 0,
    decreases params.len(),
{
    if params.len() > 0 {
        let n = params.len() - 1;
        let shorter = params.drop_last();
        assert forall|i: int| 0 <= i < shorter.len() implies param_schema(
            tools,
            func,
            trim((#[trigger] shorter[i]).0),
        ) is Some || !("{"@.is_prefix_of(decoded(shorter[i].1)) || "["@.is_prefix_of(
            decoded(shorter[i].1),
        )) by {
            assert(shorter[i] == params[i]);
        }
        lemma_read_alike(shorter, func, tools);
        let key = trim(params[n].0);
        law_stream_value_like_whole(tools, func, key, decoded(params[n].1));
        lemma_named(read_params(shorter, func, tools, true), key);
    }
}

/// What the pieces of a call with parameters hold of its arguments.
proof fn lemma_items_args(name: Seq<char>, params: Seq<(Seq<char>, ParamView)>)
    requires
        params.len() > 0,
    ensures
        sent_args(sent_items(0, name, params), 0) == streamed_object(params),
        sent_items(0, name, params).len() == 3,
        sent_items(0, name, params)[0] == name_item(0, name),
        sent_items(0, name, params)[1].name is None,
        sent_items(0, name, params)[2].name is None,
{
    reveal_strlit("{");
    reveal_strlit("}");
    let items = sent_items(0, name, params);
    let none = Seq::<char>::empty();
    let first = opening_fragment(params);
    assert(items =~= seq![name_item(0, name), args_item(0, first), args_item(0, "}"@)]);
    assert(items.drop_last() =~= seq![name_item(0, name), args_item(0, first)]);
    assert(items.drop_last().drop_last() =~= seq![name_item(0, name)]);
    assert(items.drop_last().drop_last().drop_last() =~= Seq::empty());
    assert(sent_args(items.drop_last().drop_last().drop_last(), 0) =~= none);
    assert(sent_args(items.drop_last().drop_last(), 0) =~= none);
    assert(sent_args(items.drop_last(), 0) =~= first);
}

/// The text of a block with a call that is alone in it.
proof fn lemma_block_text(call: WrittenCall, gap: Seq<char>)
    ensures
        text_with_blocks(
            Tag::MinimaxBlock,
            Seq::empty(),
            minimax_bodies(seq![seq![call]], gap),
            Seq::empty(),
            Seq::empty(),
        ) == call_in_block(call, gap),
{
    let tag = Tag::MinimaxBlock;
    let none = Seq::<char>::empty();
    let calls = seq![call];
    let body = minimax_calls(calls, gap);
    let bodies = minimax_bodies(seq![calls], gap);
    let invokes = minimax_invokes(calls, gap);
    let texts = block_texts(tag, bodies);
    assert(bodies =~= seq![body]);
    assert(invokes =~= seq![minimax_invoke(call, gap)]);
    assert(invokes.drop_first() =~= Seq::empty());
    assert(row(invokes.drop_first(), gap, none) =~= none);
    assert(row(invokes, gap, none) =~= minimax_invoke(call, gap) + gap);
    assert(texts =~= seq![block_text(tag, body)]);
    assert(texts.drop_first() =~= Seq::empty());
    assert(row(texts.drop_first(), none, none) =~= none);
    assert(row(texts, none, none) =~= block_text(tag, body));
    assert(none + block_text(tag, body) =~= call_in_block(call, gap));
}

/// A whole text with a call that is alone in its block.
proof fn lemma_block_whole(call: WrittenCall, gap: Seq<char>, tools: Seq<Tool>)
    requires
        is_spaces(gap),
        minimax_writable(call, gap),
        closes_first(minimax_calls(seq![call], gap), closing(Tag::MinimaxBlock)),
    ensures
        complete_parse(call_in_block(call, gap), tools) == (
            Seq::<char>::empty(),
            seq![read_call(call, tools)],
        ),
{
    let tag = Tag::MinimaxBlock;
    let none = Seq::<char>::empty();
    let calls = seq![call];
    let blocks = seq![calls];
    let bodies = minimax_bodies(blocks, gap);
    let start = opening(tag);
    let body = minimax_calls(calls, gap);
    assert(bodies =~= seq![body]);
    assert(closes_first(none, start)) by {
        assert(none + start =~= start);
        assert(start.subrange(0, start.len() as int) =~= start);
        lemma_find(start, start);
        assert(first_at(start, start, 0));
    }
    assert(!contains(none, start)) by {
        reveal_strlit("<minimax:tool_call>");
    }
    assert(well_set(tag, none, bodies, none)) by {
        assert forall|i: int| 0 <= i < bodies.len() implies closes_first(#[trigger] bodies[i], closing(tag)) by {
            assert(bodies[i] == body);
        }
    }
    assert forall|i: int, j: int| 0 <= i < blocks.len() && 0 <= j < blocks[i].len() implies minimax_writable(
        #[trigger] blocks[i][j],
        gap,
    ) by {
        assert(blocks[i] == calls && calls[j] == call);
    }
    law_minimax_read_back(none, blocks, gap, none, none, tools);
    lemma_block_text(call, gap);
    assert(blocks.drop_last() =~= Seq::empty());
    assert(read_blocks(blocks.drop_last(), tools) =~= Seq::empty());
    assert(read_calls(calls, tools) =~= seq![read_call(call, tools)]);
    assert(read_blocks(blocks, tools) =~= seq![read_call(call, tools)]);
}

/// A call that is alone in its block is the same call in a stream and in a whole text, where its
/// parameters are read alike: however the text is cut into chunks that come in to a new parser,
/// they give no text, and one piece with a name, that of the only call that the whole text has.
/// What the pieces hold of its arguments makes up an object of the parameters that the arguments
/// there are an object of; where none of them is an array or an object, it is the same object
/// letter for letter.
pub proof fn law_stream_like_whole_text(
    call: WrittenCall,
    gap: Seq<char>,
    chunks: Seq<Seq<char>>,
    tools: Seq<Tool>,
)
    requires
        is_streamable(call, gap, tools),
        is_read_alike(call, tools),
        call.params.len() > 0,
        closes_first(minimax_calls(seq![call], gap), closing(Tag::MinimaxBlock)),
        chunks_text(chunks) == call_in_block(call, gap),
    ensures
        ({
            let (end, given) = chunks_run(initial(), chunks, tools);
            let (text, calls) = complete_parse(chunks_text(chunks), tools);
            &&& text.len() == 0 && given.normal_text.len() == 0
            &&& calls.len() == 1 && calls[0].name == trim(call.name)
            &&& given.calls.len() > 0 && given.calls[0] == name_item(0, calls[0].name)
            &&& forall|i: int| 0 < i < given.calls.len() ==> (#[trigger] given.calls[i]).name is None
            &&& sent_args(given.calls, 0) == streamed_object(stream_params(call, tools))
            &&& calls[0].arguments == python_object_text(stream_params(call, tools))
            &&& are_scalar(stream_params(call, tools)) ==> sent_args(given.calls, 0) == calls[0].arguments
        }),
{
    let params = stream_params(call, tools);
    assert(is_spaces(gap) && minimax_writable(call, gap)) by {
        reveal(is_streamable);
    }
    law_block_streams(call, gap, chunks, tools);
    lemma_read_alike(call.params, trim(call.name), tools);
    lemma_items_args(trim(call.name), params);
    if are_scalar(params) {
        law_stream_like_whole(params);
    }
    lemma_block_whole(call, gap, tools);
}

/// No brace stands in the text.
pub open spec fn is_brace_free(text: Seq<char>) -> bool {
    forall|i: int| 0 <= i < text.len() ==> #[trigger] text[i] != '{' && text[i] != '}'
}

/// Two texts without a brace make up one.
proof fn lemma_brace_free(a: Seq<char>, b: Seq<char>)
    requires
        is_brace_free(a),
        is_brace_free(b),
    ensures
        is_brace_free(a + b),
{
}

/// No digit is a brace.
proof fn lemma_digit_free(d: int)
    requires
        0 <= d < 16,
    ensures
        hex_digit(d) != '{' && hex_digit(d) != '}',
{
    if d < 10 {
        assert(((d + 48) as u32) as int == d + 48);
    } else {
        assert(((d + 87) as u32) as int == d + 87);
    }
}

/// A character that is no brace is written in JSON without one.
proof fn lemma_char_free(c: char)
    requires
        c != '{' && c != '}',
    ensures
        is_brace_free(escaped_char(c)),
{
    if 0x1f >= c as int {
        lemma_digit_free(c as int / 16);
        lemma_digit_free(c as int % 16);
    }
}

/// A text without a brace is written in JSON without one.
proof fn lemma_escaped_free(s: Seq<char>)
    requires
        is_brace_free(s),
    ensures
        is_brace_free(escaped(s)),
    decreases s.len(),
{
    if s.len() > 0 {
        assert(s.first() == s[0]);
        lemma_char_free(s[0]);
        assert forall|i: int| 0 <= i < s.drop_first().len() implies #[trigger] s.drop_first()[i] != '{'
            && s.drop_first()[i] != '}' by {
            assert(s.drop_first()[i] == s[i + 1]);
        }
        lemma_escaped_free(s.drop_first());
        lemma_brace_free(escaped_char(s[0]), escaped(s.drop_first()));
    }
}

/// Texts without a brace, joined without one.
proof fn lemma_joined_free(parts: Seq<Seq<char>>, sep: Seq<char>)
    requires
        is_brace_free(sep),
        forall|i: int| 0 <= i < parts.len() ==> is_brace_free(#[trigger] parts[i]),
    ensures
        is_brace_free(joined(parts, sep)),
    decreases parts.len(),
{
    if parts.len() == 1 {
        assert(is_brace_free(parts[0]));
    } else if parts.len() > 1 {
        assert forall|i: int| 0 <= i < parts.drop_last().len() implies is_brace_free(
            #[trigger] parts.drop_last()[i],
        ) by {
            assert(parts.drop_last()[i] == parts[i]);
        }
        lemma_joined_free(parts.drop_last(), sep);
        assert(is_brace_free(parts[parts.len() - 1]));
        lemma_brace_free(joined(parts.drop_last(), sep), sep);
        lemma_brace_free(joined(parts.drop_last(), sep) + sep, parts.last());
    }
}

/// A text without a brace counts none.
proof fn lemma_free_count(s: Seq<char>, first: Seq<char>, c: char)
    requires
        is_brace_free(s),
        c == '{' || c == '}',
    ensures
        count_char(first + s, c) == count_char(first, c),
    decreases s.len(),
{
    if s.len() > 0 {
        let shorter = s.drop_last();
        assert((first + s).drop_last() =~= first + shorter);
        assert((first + s).last() == s[s.len() - 1]);
        assert(is_brace_free(shorter)) by {
            assert forall|i: int| 0 <= i < shorter.len() implies #[trigger] shorter[i] != '{' && shorter[i] != '}' by {
                assert(shorter[i] == s[i]);
            }
        }
        lemma_free_count(shorter, first, c);
    } else {
        assert(first + s =~= first);
    }
}

/// The value is written without a brace.
pub open spec fn is_brace_free_value(value: ParamView) -> bool {
    match value {
        ParamView::Number(s) | ParamView::Text(s) | ParamView::Nested(s) => is_brace_free(s),
        _ => true,
    }
}

/// Parameters in whose names and values no brace stands begin an object that is closed with a
/// brace.
pub proof fn law_brace_closes(params: Seq<(Seq<char>, ParamView)>)
    requires
        forall|i: int|
            0 <= i < params.len() ==> is_brace_free((#[trigger] params[i]).0) && is_brace_free_value(params[i].1),
    ensures
        wants_brace(opening_fragment(params)),
{
    let members = members_of(params, ": "@);
    reveal_strlit(": ");
    reveal_strlit(", ");
    reveal_strlit("{");
    reveal_strlit("}");
    reveal_strlit("null");
    reveal_strlit("true");
    reveal_strlit("false");
    assert forall|i: int| 0 <= i < members.len() implies is_brace_free(#[trigger] members[i]) by {
        let (name, value) = params[i];
        assert(is_brace_free(params[i].0));
        lemma_string_free(name);
        assert(is_brace_free(value_text(value))) by {
            if let ParamView::Text(s) = value {
                lemma_string_free(s);
            }
        }
        lemma_brace_free(json_string(name), ": "@);
        lemma_brace_free(json_string(name) + ": "@, value_text(value));
        assert(members[i] == member_text(name, ": "@, value_text(value)));
    }
    lemma_joined_free(members, ", "@);
    let inner = joined(members, ", "@);
    let text = opening_fragment(params);
    lemma_free_count(inner, "{"@, '{');
    lemma_free_count(inner, "{"@, '}');
    assert("{"@.drop_last() =~= Seq::empty());
    assert(count_char("{"@.drop_last(), '{') == 0 && count_char("{"@.drop_last(), '}') == 0);
    assert("{"@.last() == '{');
    if "}"@.is_suffix_of(text) {
        let part = text.subrange(text.len() - 1, text.len() as int);
        assert(part[0] == text[text.len() - 1]);
        assert("}"@[0] == '}');
        if inner.len() > 0 {
            assert(text[text.len() - 1] == inner[inner.len() - 1]);
        }
    }
}

/// A text without a brace is a JSON string without one.
proof fn lemma_string_free(s: Seq<char>)
    requires
        is_brace_free(s),
    ensures
        is_brace_free(json_string(s)),
{
    lemma_escaped_free(s);
    lemma_brace_free(seq!['"'], escaped(s));
    lemma_brace_free(seq!['"'] + escaped(s), seq!['"']);
}

// ---------------------------------------------------------------------------
// DeepSeek V3.2
// ---------------------------------------------------------------------------

/// What chunks give, one after another, and the state behind them.
pub open spec fn dsml_chunks_run(st: DsmlState, chunks: Seq<Seq<char>>, tools: Seq<Tool>) -> (
    DsmlState,
    StreamView,
)
    decreases chunks.len(),
{
    if chunks.len() == 0 {
        (st, nothing())
    } else {
        let (before, first) = dsml_chunks_run(st, chunks.drop_last(), tools);
        let (after, more) = deepseek::chunk_run(before, chunks.last(), tools);
        (after, given_both(first, more))
    }
}

/// What follows the invocation of a DSML call that is alone in its block.
pub open spec fn dsml_tail(gap: Seq<char>) -> Seq<char> {
    gap + closing(Tag::DsmlBlock)
}

/// What follows the tag that opens the block of a DSML call that is alone in it.
pub open spec fn dsml_rest(call: DsmlCall, gap: Seq<char>) -> Seq<char> {
    gap + (dsml_invoke(call, gap) + dsml_tail(gap))
}

/// A DSML call that is alone in its block.
pub open spec fn dsml_in_block(call: DsmlCall, gap: Seq<char>) -> Seq<char> {
    opening(Tag::DsmlBlock) + dsml_rest(call, gap)
}

/// The call can be streamed, and there is a tool of its name.
pub open spec fn dsml_can_stream(call: DsmlCall, gap: Seq<char>, tools: Seq<Tool>) -> bool {
    is_spaces(gap) && dsml_streamable(call, gap) && has_tool(tools, trim(call.name))
}

/// The length of the text up to the end of the invocation.
pub open spec fn dsml_invoke_end(call: DsmlCall, gap: Seq<char>) -> int {
    (opening(Tag::DsmlBlock).len() + gap.len() + dsml_invoke(call, gap).len()) as int
}

/// The piece that names the call.
pub open spec fn dsml_name(call: DsmlCall) -> Seq<ItemView> {
    seq![name_item(0, trim(call.name))]
}

/// The call was sent, and the parser is behind it.
pub open spec fn is_sent(call: DsmlCall, st: DsmlState) -> bool {
    &&& deepseek::valid(st)
    &&& st.tool == Some(1nat)
    &&& !st.name_sent
    &&& st.streamed[0] == dsml_read_call(call).arguments
    &&& st.records[0] == Some(dsml_read_call(call))
}

/// What holds when `came`, a beginning of the text, came in, and the pieces `calls` were given.
pub open spec fn dsml_at(
    call: DsmlCall,
    gap: Seq<char>,
    came: Seq<char>,
    st: DsmlState,
    calls: Seq<ItemView>,
) -> bool {
    let start = opening(Tag::DsmlBlock);
    if came.len() < start.len() {
        st == DsmlState { buffer: came, ..deepseek::initial() } && names_of(calls).len() == 0
    } else if came.len() < dsml_invoke_end(call, gap) {
        &&& at_call(st, dsml_read_call(call).arguments)
        &&& st.buffer == came.skip(start.len() as int)
        &&& deepseek::call_number(st) == 0
        &&& names_of(calls) == if st.name_sent {
            dsml_name(call)
        } else {
            Seq::empty()
        }
    } else {
        &&& is_sent(call, st)
        &&& names_of(calls) == dsml_name(call)
        &&& if came.len() < dsml_in_block(call, gap).len() {
            st.in_block && st.buffer == came.skip(dsml_invoke_end(call, gap))
        } else {
            !st.in_block && st.buffer.len() == 0
        }
    }
}

/// A word in angle brackets occurs in the beginning of what follows a DSML invocation only where
/// it is the tag that closes the block.
proof fn lemma_dsml_tail_words(gap: Seq<char>, short: Seq<char>, word: Seq<char>, i: int)
    requires
        is_spaces(gap),
        short.is_prefix_of(dsml_tail(gap)),
        word.len() > 1,
        word[0] == '<',
        occurs_at(short, word, i),
    ensures
        i == gap.len(),
        word[1] == '/',
{
    let end = closing(Tag::DsmlBlock);
    let tail = dsml_tail(gap);
    reveal_strlit("</｜DSML｜function_calls>");
    let part = short.subrange(i, i + word.len());
    assert(part[0] == short[i] && part[1] == short[i + 1]);
    assert(tail.subrange(0, short.len() as int)[i] == tail[i]);
    assert(tail.subrange(0, short.len() as int)[i + 1] == tail[i + 1]);
    if i < gap.len() {
        assert(is_white_space(gap[i]));
    } else {
        assert(tail[i] == end[i - gap.len()]);
        assert(tail[i + 1] == end[i + 1 - gap.len()]);
    }
}

/// In the beginning of what follows a DSML invocation no other begins, and the block ends when
/// all of it is there.
proof fn lemma_dsml_tail_follow(gap: Seq<char>, short: Seq<char>)
    requires
        is_spaces(gap),
        short.is_prefix_of(dsml_tail(gap)),
    ensures
        tag_matches(Tag::DsmlOpenInvoke, short).len() == 0,
        short.len() < dsml_tail(gap).len() ==> find(short, closing(Tag::DsmlBlock)) is None,
        short.len() == dsml_tail(gap).len() ==> find(short, closing(Tag::DsmlBlock)) == Some(
            gap.len() as int,
        ),
{
    let tag = Tag::DsmlOpenInvoke;
    let end = closing(Tag::DsmlBlock);
    let invoke = opening(tag);
    reveal_strlit("</｜DSML｜function_calls>");
    reveal_strlit("<｜DSML｜invoke");
    assert forall|at: int| 0 <= at < short.len() implies !invoke.is_prefix_of(#[trigger] short.skip(at)) by {
        if invoke.is_prefix_of(short.skip(at)) {
            assert(short.subrange(at, at + invoke.len()) =~= short.skip(at).subrange(0, invoke.len() as int));
            assert(occurs_at(short, invoke, at));
            lemma_dsml_tail_words(gap, short, invoke, at);
        }
    }
    lemma_no_matches(tag, short, 0);
    lemma_matches_all(tag, short, Seq::empty());
    lemma_find(short, end);
    if short.len() < dsml_tail(gap).len() {
        assert(!contains(short, end)) by {
            if contains(short, end) {
                let i = choose|i: int| occurs_at(short, end, i);
                lemma_dsml_tail_words(gap, short, end, i);
            }
        }
    } else {
        let n = gap.len() as int;
        assert(short =~= dsml_tail(gap));
        assert(short.subrange(n, n + end.len()) =~= end);
        assert forall|j: int| 0 <= j < n implies !occurs_at(short, end, j) by {
            if occurs_at(short, end, j) {
                lemma_dsml_tail_words(gap, short, end, j);
            }
        }
        assert(first_at(short, end, n));
    }
}

/// Outside any block, nothing is done where nothing came in.
pub proof fn lemma_dsml_empty_run(st: DsmlState, out: StreamView, tools: Seq<Tool>)
    requires
        st.buffer.len() == 0,
        !st.in_block,
    ensures
        deepseek::run(st, out, tools) == (st, out),
{
    reveal(deepseek::run);
    let none = Seq::<char>::empty();
    assert(st.buffer =~= none);
    reveal_strlit("<｜DSML｜function_calls>");
    reveal_strlit("</｜DSML｜function_calls>");
    reveal_strlit("</｜DSML｜invoke>");
    lemma_find(none, opening(Tag::DsmlBlock));
    deepseek::lemma_held(none);
    deepseek::lemma_shown_plain(none);
    let next = deepseek::step(st, out, tools);
    assert(none.take(0) =~= none);
    assert(none.skip(0) =~= none);
    assert(out.normal_text + none =~= out.normal_text);
    assert(next.state =~= st);
    assert(next.out =~= out);
}

/// Behind the call, the parser waits until its block is closed.
pub proof fn lemma_dsml_tail_run(gap: Seq<char>, st: DsmlState, out: StreamView, tools: Seq<Tool>)
    requires
        is_spaces(gap),
        st.in_block,
        !st.name_sent,
        st.buffer.is_prefix_of(dsml_tail(gap)),
    ensures
        deepseek::run(st, out, tools) == (
            if st.buffer.len() < dsml_tail(gap).len() {
                st
            } else {
                DsmlState { buffer: Seq::empty(), in_block: false, ..st }
            },
            out,
        ),
{
    reveal(deepseek::run);
    lemma_dsml_tail_follow(gap, st.buffer);
    let next = deepseek::step(st, out, tools);
    if st.buffer.len() == dsml_tail(gap).len() {
        let n = dsml_tail(gap).len() as int;
        assert(st.buffer.skip(n) =~= Seq::empty());
        assert(next.state =~= DsmlState { buffer: Seq::empty(), in_block: false, ..st });
        lemma_dsml_empty_run(next.state, next.out, tools);
        deepseek::lemma_step_shrinks(st, out, tools);
        assert(deepseek::run(st, out, tools) == deepseek::run(next.state, next.out, tools));
    }
}

/// The parser at a complete invocation, behind which the block goes on.
proof fn lemma_dsml_closed_run(
    call: DsmlCall,
    gap: Seq<char>,
    tools: Seq<Tool>,
    st: DsmlState,
    rest: Seq<char>,
)
    requires
        dsml_can_stream(call, gap, tools),
        at_call(st, dsml_read_call(call).arguments),
        deepseek::call_number(st) == 0,
        st.buffer == gap + (dsml_invoke(call, gap) + rest),
        rest.is_prefix_of(dsml_tail(gap)),
    ensures
        ({
            let (next, given) = deepseek::run(st, nothing(), tools);
            &&& given.normal_text.len() == 0
            &&& names_of(given.calls) == first_name(st, trim(call.name))
            &&& is_sent(call, next)
            &&& rest.len() < dsml_tail(gap).len() ==> next.in_block && next.buffer == rest
            &&& rest.len() == dsml_tail(gap).len() ==> !next.in_block && next.buffer.len() == 0
        }),
{
    let none = Seq::<ItemView>::empty();
    lemma_dsml_call_closed(st, nothing(), call, gap, rest, tools);
    let closed = deepseek::step(st, nothing(), tools);
    lemma_dsml_tail_run(gap, closed.state, closed.out, tools);
    lemma_dsml_one_step(st, nothing(), tools);
    assert(names_of(none) =~= none);
    lemma_no_items(first_name(st, trim(call.name)));
}

/// A run goes on behind a step that another follows.
pub proof fn lemma_dsml_one_step(st: DsmlState, out: StreamView, tools: Seq<Tool>)
    requires
        deepseek::step(st, out, tools).more,
    ensures
        ({
            let next = deepseek::step(st, out, tools);
            deepseek::run(st, out, tools) == deepseek::run(next.state, next.out, tools)
        }),
{
    reveal(deepseek::run);
    deepseek::lemma_step_shrinks(st, out, tools);
}

/// Where the name of the call was sent before, or was not, the pieces name it once.
proof fn lemma_dsml_named_once(call: DsmlCall, st: DsmlState, calls: Seq<ItemView>)
    requires
        deepseek::call_number(st) == 0,
        names_of(calls) == first_name(st, trim(call.name)),
    ensures
        st.name_sent ==> names_of(dsml_name(call) + calls) == dsml_name(call),
        !st.name_sent ==> names_of(calls) == dsml_name(call),
{
    lemma_one_name(call, calls);
    lemma_no_items(dsml_name(call));
}

/// The parser in the block, when `came` came in, before or behind the call.
proof fn lemma_dsml_block_run(
    call: DsmlCall,
    gap: Seq<char>,
    tools: Seq<Tool>,
    came: Seq<char>,
    st: DsmlState,
)
    requires
        dsml_can_stream(call, gap, tools),
        came.is_prefix_of(dsml_in_block(call, gap)),
        came.len() >= opening(Tag::DsmlBlock).len(),
        at_call(st, dsml_read_call(call).arguments),
        deepseek::call_number(st) == 0,
        st.buffer == came.skip(opening(Tag::DsmlBlock).len() as int),
    ensures
        ({
            let (next, given) = deepseek::run(st, nothing(), tools);
            &&& given.normal_text.len() == 0
            &&& st.name_sent ==> dsml_at(call, gap, came, next, dsml_name(call) + given.calls)
            &&& !st.name_sent ==> dsml_at(call, gap, came, next, given.calls)
        }),
{
    let start = opening(Tag::DsmlBlock);
    let all = dsml_in_block(call, gap);
    let head = gap + dsml_invoke(call, gap);
    let short = st.buffer;
    let none = Seq::<ItemView>::empty();
    let (next, given) = deepseek::run(st, nothing(), tools);
    assert(came =~= all.subrange(0, came.len() as int));
    assert(all.skip(start.len() as int) =~= head + dsml_tail(gap));
    assert(short =~= (head + dsml_tail(gap)).subrange(0, short.len() as int));
    assert(names_of(none) =~= none);
    if short.len() < head.len() {
        assert(short =~= head.subrange(0, short.len() as int));
        lemma_dsml_call_held(st, nothing(), call, gap, tools);
        lemma_no_items(first_name(st, trim(call.name)));
        if next.name_sent {
            lemma_dsml_named_once(call, st, given.calls);
        }
    } else {
        let rest = short.skip(head.len() as int);
        assert(short =~= gap + (dsml_invoke(call, gap) + rest));
        assert(rest =~= dsml_tail(gap).subrange(0, rest.len() as int));
        assert(came.skip(dsml_invoke_end(call, gap)) =~= rest);
        lemma_dsml_closed_run(call, gap, tools, st, rest);
        lemma_dsml_named_once(call, st, given.calls);
    }
}

/// Behind the piece that names the call.
proof fn lemma_one_name(call: DsmlCall, calls: Seq<ItemView>)
    ensures
        names_of(dsml_name(call)) == dsml_name(call),
        names_of(dsml_name(call) + calls) == dsml_name(call) + names_of(calls),
{
    assert(dsml_name(call).drop_last() =~= Seq::empty());
    assert(names_of(Seq::<ItemView>::empty()) =~= Seq::empty());
    assert(names_of(dsml_name(call)) =~= dsml_name(call));
    lemma_names(dsml_name(call), calls);
}

/// Before the block, when `came` came in.
proof fn lemma_dsml_start_run(call: DsmlCall, gap: Seq<char>, tools: Seq<Tool>, came: Seq<char>)
    requires
        dsml_can_stream(call, gap, tools),
        came.is_prefix_of(dsml_in_block(call, gap)),
    ensures
        ({
            let st = DsmlState { buffer: came, ..deepseek::initial() };
            let (next, given) = deepseek::run(st, nothing(), tools);
            given.normal_text.len() == 0 && dsml_at(call, gap, came, next, given.calls)
        }),
{
    reveal(deepseek::run);
    let start = opening(Tag::DsmlBlock);
    let all = dsml_in_block(call, gap);
    let none = Seq::<char>::empty();
    let st = DsmlState { buffer: came, ..deepseek::initial() };
    assert(came =~= all.subrange(0, came.len() as int));
    if came.len() < start.len() {
        assert(came =~= start.subrange(0, came.len() as int));
        lemma_dsml_start_held(came, tools);
    } else {
        let short = came.skip(start.len() as int);
        assert(came.subrange(0, start.len() as int) =~= start);
        assert(occurs_at(came, start, 0));
        assert(first_at(came, start, 0));
        lemma_find(came, start);
        let next = deepseek::step(st, nothing(), tools);
        reveal_strlit("</｜DSML｜function_calls>");
        reveal_strlit("</｜DSML｜invoke>");
        assert(came.take(0) =~= none);
        deepseek::lemma_shown_plain(none);
        assert(none + none =~= none);
        assert(next.out =~= nothing());
        assert(next.more);
        deepseek::lemma_step_shrinks(st, nothing(), tools);
        assert(deepseek::run(st, nothing(), tools) == deepseek::run(next.state, next.out, tools));
        lemma_dsml_block_run(call, gap, tools, came, next.state);
    }
}

/// The beginning of the tag that opens a block is all held.
pub proof fn lemma_dsml_start_held(short: Seq<char>, tools: Seq<Tool>)
    requires
        short.is_prefix_of(opening(Tag::DsmlBlock)),
        short.len() < opening(Tag::DsmlBlock).len(),
    ensures
        ({
            let st = DsmlState { buffer: short, ..deepseek::initial() };
            deepseek::run(st, nothing(), tools) == (st, nothing())
        }),
{
    reveal(deepseek::run);
    let st = DsmlState { buffer: short, ..deepseek::initial() };
    let start = opening(Tag::DsmlBlock);
    let none = Seq::<char>::empty();
    lemma_find(short, start);
    deepseek::lemma_held(short);
    crate::tool::lemma_partial_token(short, start, start.len() as int);
    if short.len() > 0 {
        assert(is_partial_token(short, start, short.len() as int)) by {
            assert(start.take(short.len() as int) =~= short);
            assert(short.subrange(0, short.len() as int) =~= short);
        }
    }
    assert(partial_token_len(short, start) >= short.len());
    assert(deepseek::held_len(short) == short.len());
    let next = deepseek::step(st, nothing(), tools);
    reveal_strlit("</｜DSML｜function_calls>");
    reveal_strlit("</｜DSML｜invoke>");
    assert(short.take(0) =~= none);
    deepseek::lemma_shown_plain(none);
    assert(short.skip(0) =~= short);
    assert(none + none =~= none);
    assert(next.state =~= st);
    assert(next.out =~= nothing());
}

/// Of the pieces that were given, those that name a call matter.
proof fn lemma_dsml_same_names(
    call: DsmlCall,
    gap: Seq<char>,
    came: Seq<char>,
    st: DsmlState,
    a: Seq<ItemView>,
    b: Seq<ItemView>,
)
    requires
        names_of(a) == names_of(b),
        dsml_at(call, gap, came, st, a),
    ensures
        dsml_at(call, gap, came, st, b),
{
}

/// The names in two rows, where there is none in the first, or the one of the call.
proof fn lemma_dsml_names(call: DsmlCall, a: Seq<ItemView>, b: Seq<ItemView>)
    ensures
        names_of(a).len() == 0 ==> names_of(a + b) == names_of(b),
        names_of(a) == dsml_name(call) ==> names_of(a + b) == names_of(dsml_name(call) + b),
        names_of(b).len() == 0 ==> names_of(a + b) == names_of(a),
{
    lemma_names(a, b);
    lemma_one_name(call, b);
    if names_of(a).len() == 0 {
        assert(names_of(a) + names_of(b) =~= names_of(b));
    }
    if names_of(b).len() == 0 {
        assert(names_of(a) + names_of(b) =~= names_of(a));
    }
}

/// The next chunk, before the block.
proof fn lemma_dsml_next_start(
    call: DsmlCall,
    gap: Seq<char>,
    tools: Seq<Tool>,
    came: Seq<char>,
    chunk: Seq<char>,
    st: DsmlState,
    calls: Seq<ItemView>,
)
    requires
        dsml_can_stream(call, gap, tools),
        (came + chunk).is_prefix_of(dsml_in_block(call, gap)),
        dsml_at(call, gap, came, st, calls),
        came.len() < opening(Tag::DsmlBlock).len(),
    ensures
        ({
            let (next, given) = deepseek::chunk_run(st, chunk, tools);
            given.normal_text.len() == 0 && dsml_at(call, gap, came + chunk, next, calls + given.calls)
        }),
{
    let total = came + chunk;
    let (next, given) = deepseek::chunk_run(st, chunk, tools);
    assert(st.buffer + chunk =~= total);
    lemma_dsml_start_run(call, gap, tools, total);
    lemma_dsml_names(call, calls, given.calls);
    lemma_dsml_same_names(call, gap, total, next, given.calls, calls + given.calls);
}

/// The next chunk, in the block and before the end of the call.
proof fn lemma_dsml_next_call(
    call: DsmlCall,
    gap: Seq<char>,
    tools: Seq<Tool>,
    came: Seq<char>,
    chunk: Seq<char>,
    st: DsmlState,
    calls: Seq<ItemView>,
)
    requires
        dsml_can_stream(call, gap, tools),
        (came + chunk).is_prefix_of(dsml_in_block(call, gap)),
        dsml_at(call, gap, came, st, calls),
        opening(Tag::DsmlBlock).len() <= came.len() < dsml_invoke_end(call, gap),
    ensures
        ({
            let (next, given) = deepseek::chunk_run(st, chunk, tools);
            given.normal_text.len() == 0 && dsml_at(call, gap, came + chunk, next, calls + given.calls)
        }),
{
    let start = opening(Tag::DsmlBlock);
    let total = came + chunk;
    let begun = DsmlState { buffer: st.buffer + chunk, ..st };
    let (next, given) = deepseek::chunk_run(st, chunk, tools);
    assert(begun.buffer =~= total.skip(start.len() as int));
    lemma_dsml_block_run(call, gap, tools, total, begun);
    lemma_dsml_names(call, calls, given.calls);
    if st.name_sent {
        lemma_dsml_same_names(call, gap, total, next, dsml_name(call) + given.calls, calls + given.calls);
    } else {
        lemma_dsml_same_names(call, gap, total, next, given.calls, calls + given.calls);
    }
}

/// The next chunk, behind the call.
proof fn lemma_dsml_next_tail(
    call: DsmlCall,
    gap: Seq<char>,
    tools: Seq<Tool>,
    came: Seq<char>,
    chunk: Seq<char>,
    st: DsmlState,
    calls: Seq<ItemView>,
)
    requires
        dsml_can_stream(call, gap, tools),
        (came + chunk).is_prefix_of(dsml_in_block(call, gap)),
        dsml_at(call, gap, came, st, calls),
        came.len() >= dsml_invoke_end(call, gap),
    ensures
        ({
            let (next, given) = deepseek::chunk_run(st, chunk, tools);
            given.normal_text.len() == 0 && dsml_at(call, gap, came + chunk, next, calls + given.calls)
        }),
{
    let all = dsml_in_block(call, gap);
    let total = came + chunk;
    let n = dsml_invoke_end(call, gap);
    let begun = DsmlState { buffer: st.buffer + chunk, ..st };
    let (next, given) = deepseek::chunk_run(st, chunk, tools);
    assert(total =~= all.subrange(0, total.len() as int));
    assert(names_of(Seq::<ItemView>::empty()) =~= Seq::empty());
    if came.len() < all.len() {
        assert(begun.buffer =~= total.skip(n));
        assert(all.skip(n) =~= dsml_tail(gap));
        assert(begun.buffer =~= dsml_tail(gap).subrange(0, begun.buffer.len() as int));
        lemma_dsml_tail_run(gap, begun, nothing(), tools);
    } else {
        assert(total =~= came);
        assert(begun.buffer =~= st.buffer);
        assert(begun =~= st);
        lemma_dsml_empty_run(st, nothing(), tools);
    }
    lemma_dsml_names(call, calls, given.calls);
}

/// The next chunk of the text.
proof fn lemma_dsml_next_chunk(
    call: DsmlCall,
    gap: Seq<char>,
    tools: Seq<Tool>,
    came: Seq<char>,
    chunk: Seq<char>,
    st: DsmlState,
    calls: Seq<ItemView>,
)
    requires
        dsml_can_stream(call, gap, tools),
        (came + chunk).is_prefix_of(dsml_in_block(call, gap)),
        dsml_at(call, gap, came, st, calls),
    ensures
        ({
            let (next, given) = deepseek::chunk_run(st, chunk, tools);
            given.normal_text.len() == 0 && dsml_at(call, gap, came + chunk, next, calls + given.calls)
        }),
{
    if came.len() < opening(Tag::DsmlBlock).len() {
        lemma_dsml_next_start(call, gap, tools, came, chunk, st, calls);
    } else if came.len() < dsml_invoke_end(call, gap) {
        lemma_dsml_next_call(call, gap, tools, came, chunk, st, calls);
    } else {
        lemma_dsml_next_tail(call, gap, tools, came, chunk, st, calls);
    }
}

/// Chunks that make up a beginning of the text.
proof fn lemma_dsml_chunks(call: DsmlCall, gap: Seq<char>, tools: Seq<Tool>, chunks: Seq<Seq<char>>)
    requires
        dsml_can_stream(call, gap, tools),
        chunks_text(chunks).is_prefix_of(dsml_in_block(call, gap)),
    ensures
        ({
            let (st, given) = dsml_chunks_run(deepseek::initial(), chunks, tools);
            &&& dsml_at(call, gap, chunks_text(chunks), st, given.calls)
            &&& given.normal_text.len() == 0
            &&& grown(deepseek::initial().streamed, given.calls, st.streamed)
            &&& deepseek::valid(st)
        }),
    decreases chunks.len(),
{
    if chunks.len() == 0 {
        reveal_strlit("<｜DSML｜function_calls>");
        assert(DsmlState { buffer: Seq::empty(), ..deepseek::initial() } =~= deepseek::initial());
        assert(names_of(Seq::<ItemView>::empty()) =~= Seq::empty());
        crate::tool::lemma_grown_none(deepseek::initial().streamed);
    } else {
        let all = dsml_in_block(call, gap);
        let came = chunks_text(chunks.drop_last());
        let chunk = chunks.last();
        assert(came =~= all.subrange(0, came.len() as int)) by {
            assert(came + chunk =~= all.subrange(0, (came + chunk).len() as int));
            assert(came =~= (came + chunk).subrange(0, came.len() as int));
        }
        lemma_dsml_chunks(call, gap, tools, chunks.drop_last());
        let (before, first) = dsml_chunks_run(deepseek::initial(), chunks.drop_last(), tools);
        let (after, more) = deepseek::chunk_run(before, chunk, tools);
        lemma_dsml_next_chunk(call, gap, tools, came, chunk, before, first.calls);
        deepseek::law_chunk_sends(before, chunk, tools);
        lemma_grown(deepseek::initial().streamed, first.calls, before.streamed, more.calls, after.streamed);
    }
}

/// The text of a block with a DSML call that is alone in it.
proof fn lemma_dsml_block_text(call: DsmlCall, gap: Seq<char>)
    ensures
        text_with_blocks(
            Tag::DsmlBlock,
            Seq::empty(),
            dsml_bodies(seq![seq![call]], gap),
            Seq::empty(),
            Seq::empty(),
        ) == dsml_in_block(call, gap),
{
    let tag = Tag::DsmlBlock;
    let none = Seq::<char>::empty();
    let calls = seq![call];
    let body = dsml_calls(calls, gap);
    let bodies = dsml_bodies(seq![calls], gap);
    let invokes = dsml_invokes(calls, gap);
    let texts = block_texts(tag, bodies);
    assert(bodies =~= seq![body]);
    assert(invokes =~= seq![dsml_invoke(call, gap)]);
    assert(invokes.drop_first() =~= Seq::empty());
    assert(row(invokes.drop_first(), gap, none) =~= none);
    assert(row(invokes, gap, none) =~= dsml_invoke(call, gap) + gap);
    assert(texts =~= seq![block_text(tag, body)]);
    assert(texts.drop_first() =~= Seq::empty());
    assert(row(texts.drop_first(), none, none) =~= none);
    assert(row(texts, none, none) =~= block_text(tag, body));
    assert(none + block_text(tag, body) =~= dsml_in_block(call, gap));
}

/// A whole text with a DSML call that is alone in its block.
proof fn lemma_dsml_block_whole(call: DsmlCall, gap: Seq<char>)
    requires
        is_spaces(gap),
        dsml_streamable(call, gap),
        closes_first(dsml_calls(seq![call], gap), closing(Tag::DsmlBlock)),
    ensures
        deepseek::complete_parse(dsml_in_block(call, gap)) == (
            Seq::<char>::empty(),
            seq![dsml_read_call(call)],
        ),
{
    let tag = Tag::DsmlBlock;
    let none = Seq::<char>::empty();
    let calls = seq![call];
    let blocks = seq![calls];
    let bodies = dsml_bodies(blocks, gap);
    let start = opening(tag);
    let body = dsml_calls(calls, gap);
    assert(dsml_writable(call, gap)) by {
        reveal(dsml_streamable);
    }
    assert(bodies =~= seq![body]);
    assert(closes_first(none, start)) by {
        assert(none + start =~= start);
        assert(start.subrange(0, start.len() as int) =~= start);
        lemma_find(start, start);
        assert(first_at(start, start, 0));
    }
    assert(!contains(none, start)) by {
        reveal_strlit("<｜DSML｜function_calls>");
    }
    assert(well_set(tag, none, bodies, none)) by {
        assert forall|i: int| 0 <= i < bodies.len() implies closes_first(#[trigger] bodies[i], closing(tag)) by {
            assert(bodies[i] == body);
        }
    }
    assert forall|i: int, j: int| 0 <= i < blocks.len() && 0 <= j < blocks[i].len() implies dsml_writable(
        #[trigger] blocks[i][j],
        gap,
    ) by {
        assert(blocks[i] == calls && calls[j] == call);
    }
    assert(blocks.drop_last() =~= Seq::empty());
    assert(dsml_read_blocks(blocks.drop_last()) =~= Seq::empty());
    assert(dsml_read_calls(calls) =~= seq![dsml_read_call(call)]);
    assert(dsml_read_blocks(blocks) =~= seq![dsml_read_call(call)]);
    law_dsml_read_back(none, blocks, gap, none, none);
    lemma_dsml_block_text(call, gap);
    assert(trim_end(none) == none);
}

/// A DSML call that is alone in its block streams as it is written, however the text is cut into
/// chunks that come in to a new parser: in all they give one piece with a name, that of the call;
/// pieces of its arguments that make up those that it has in a whole text, letter for letter; and
/// no text. Behind them the parser is outside any block, holds nothing back, and has recorded the
/// call. A whole text gives that call alone, where no closing tag of a block stands in it.
pub proof fn law_dsml_block_streams(
    call: DsmlCall,
    gap: Seq<char>,
    chunks: Seq<Seq<char>>,
    tools: Seq<Tool>,
)
    requires
        dsml_can_stream(call, gap, tools),
        chunks_text(chunks) == dsml_in_block(call, gap),
    ensures
        ({
            let (end, given) = dsml_chunks_run(deepseek::initial(), chunks, tools);
            &&& given.normal_text.len() == 0
            &&& names_of(given.calls) == seq![name_item(0, trim(call.name))]
            &&& sent_args(given.calls, 0) == dsml_read_call(call).arguments
            &&& !end.in_block && end.buffer.len() == 0
            &&& end.records == seq![Some(dsml_read_call(call))]
            &&& closes_first(dsml_calls(seq![call], gap), closing(Tag::DsmlBlock))
                ==> deepseek::complete_parse(chunks_text(chunks)) == (
                Seq::<char>::empty(),
                seq![dsml_read_call(call)],
            )
        }),
{
    let all = dsml_in_block(call, gap);
    assert(all =~= all.subrange(0, all.len() as int));
    lemma_dsml_chunks(call, gap, tools, chunks);
    let (end, given) = dsml_chunks_run(deepseek::initial(), chunks, tools);
    assert(all.len() >= dsml_invoke_end(call, gap));
    assert(text_of(end.streamed, 0) == text_of(deepseek::initial().streamed, 0) + sent_args(given.calls, 0));
    assert(Seq::<char>::empty() + sent_args(given.calls, 0) =~= sent_args(given.calls, 0));
    assert(end.records =~= seq![Some(dsml_read_call(call))]);
    if closes_first(dsml_calls(seq![call], gap), closing(Tag::DsmlBlock)) {
        lemma_dsml_block_whole(call, gap);
    }
}

} // verus!
