//! Several calls in one block, as a stream gives them.

use vstd::prelude::*;

#[allow(unused_imports)]
use crate::chunked::{
    block_tail, chunks_run, chunks_text, dsml_chunks_run, dsml_tail, given_both, lemma_dsml_empty_run,
    lemma_dsml_one_step, lemma_dsml_start_held, lemma_dsml_tail_run, lemma_empty_run, lemma_start_held,
    lemma_tail_follow, only_calls,
};
#[allow(unused_imports)]
use crate::deepseek;
#[allow(unused_imports)]
use crate::deepseek::DsmlState;
#[allow(unused_imports)]
use crate::minimax::{
    chunk_run, follow, initial, lemma_step_valid, opening_fragment, run, step, streamed_object, valid, Follow,
    MinimaxState, BLOCK_END, INVOKE_END, INVOKE_START,
};
#[allow(unused_imports)]
use crate::params::ParamView;
#[allow(unused_imports)]
use crate::pattern::{closing, is_spaces, lemma_closes_first, opening, row, tag_matches, Tag};
#[allow(unused_imports)]
use crate::reading::{is_json, law_arguments_read_back, law_members_read_back, read_object};
#[allow(unused_imports)]
use crate::streamed::{
    at_call, before_name, dsml_streamable, first_name, is_streamable, is_tame, lemma_dsml_call_closed,
    lemma_dsml_call_held, lemma_dsml_run_keeps, lemma_dsml_step_keeps, lemma_name_taken, lemma_names,
    lemma_no_invoke_yet, lemma_params_taken, lemma_step_keeps, names_of, next_call, sent_items, sent_object, stream_params,
};
#[allow(unused_imports)]
use crate::text::{contains, find, first_at, is_white_space, lemma_find, occurs_at, trim};
#[allow(unused_imports)]
use crate::tool::{
    args_item, fragment_items, grown, has_tool, lemma_grown, lemma_grown_none, lemma_sent_args, name_item,
    nothing, sent_args, text_of, ItemView, StreamView, Tool,
};
#[allow(unused_imports)]
use crate::written::{
    block_text, dsml_calls, dsml_invoke, dsml_invokes, dsml_read_call, dsml_read_params, minimax_body,
    minimax_calls, minimax_invoke, minimax_invokes, minimax_writable, read_params,
    DsmlCall, WrittenCall,
};

verus! {

// ---------------------------------------------------------------------------
// What follows a call
// ---------------------------------------------------------------------------

/// Behind a call that is closed, another invocation that begins before the tag that closes the
/// block keeps the parser in the block, and all that follows the call is kept. So it is when the
/// call is closed, and when the parser waits for what follows.
pub proof fn law_next_call_kept(
    st: MinimaxState,
    out: StreamView,
    tools: Seq<Tool>,
    before: Seq<char>,
    rest: Seq<char>,
    i: int,
)
    requires
        valid(st),
        occurs_at(rest, "<invoke"@, i),
        forall|j: int| 0 <= j <= i ==> !occurs_at(rest, "</minimax:tool_call>"@, j),
        st.waiting ==> st.buffer == rest,
        !st.waiting ==> st.name_sent && st.buffer == before + "</invoke>"@ + rest && first_at(
            st.buffer,
            "</invoke>"@,
            before.len() as int,
        ),
    ensures
        ({
            let next = step(st, out, tools);
            &&& next.more
            &&& next.state.in_tool_call
            &&& !next.state.waiting
            &&& !st.waiting ==> !next.state.name_sent
            &&& next.state.buffer == rest
        }),
{
    lemma_find(rest, INVOKE_START@);
    lemma_find(rest, BLOCK_END@);
    crate::text::lemma_first_exists(rest, INVOKE_START@, i);
    assert(follow(rest) == Follow::Invoke) by {
        let a = find(rest, INVOKE_START@);
        assert(a is Some && a->0 <= i);
        if find(rest, BLOCK_END@) is Some {
            let e = find(rest, BLOCK_END@)->0;
            assert(occurs_at(rest, BLOCK_END@, e));
        }
    }
    if !st.waiting {
        lemma_find(st.buffer, INVOKE_END@);
        assert(st.buffer.skip((before.len() + INVOKE_END@.len()) as int) =~= rest);
    }
}

/// Behind a call that is closed, the tag that closes the block, with no invocation before it, ends
/// the block, and what stands behind the tag is kept. Where neither of them came in yet, the
/// parser stays in the block, keeps what came in, and waits.
pub proof fn law_block_end_taken(st: MinimaxState, out: StreamView, tools: Seq<Tool>, e: int)
    requires
        valid(st),
        st.waiting && st.in_tool_call,
    ensures
        first_at(st.buffer, "</minimax:tool_call>"@, e) && (forall|j: int|
            0 <= j < e ==> !occurs_at(st.buffer, "<invoke"@, j)) ==> {
            let next = step(st, out, tools);
            &&& next.more
            &&& !next.state.in_tool_call && !next.state.waiting
            &&& next.state.buffer == st.buffer.skip(e + 20)
            &&& next.out == out
        },
        !contains(st.buffer, "</minimax:tool_call>"@) && !contains(st.buffer, "<invoke"@) ==> {
            let next = step(st, out, tools);
            &&& !next.more
            &&& next.state == st
            &&& next.out == out
        },
{
    reveal_strlit("</minimax:tool_call>");
    lemma_find(st.buffer, INVOKE_START@);
    lemma_find(st.buffer, BLOCK_END@);
    if first_at(st.buffer, BLOCK_END@, e) && (forall|j: int|
        0 <= j < e ==> !occurs_at(st.buffer, INVOKE_START@, j)) {
        assert(find(st.buffer, BLOCK_END@) == Some(e));
        if find(st.buffer, INVOKE_START@) is Some {
            let a = find(st.buffer, INVOKE_START@)->0;
            assert(occurs_at(st.buffer, INVOKE_START@, a));
            assert(a >= e);
        }
    }
}

// ---------------------------------------------------------------------------
// Calls in a row
// ---------------------------------------------------------------------------

/// Calls in a block, with white space round them, and the tag that closes the block.
pub open spec fn calls_rest(calls: Seq<WrittenCall>, gap: Seq<char>) -> Seq<char>
    decreases calls.len(),
{
    if calls.len() == 0 {
        block_tail(gap)
    } else {
        gap + (minimax_invoke(calls[0], gap) + calls_rest(calls.drop_first(), gap))
    }
}

/// The length of the first call, with the white space before it.
pub open spec fn head_len(calls: Seq<WrittenCall>, gap: Seq<char>) -> int {
    (gap.len() + minimax_invoke(calls[0], gap).len()) as int
}

/// How many calls are complete in the first `n` characters.
pub open spec fn taken(calls: Seq<WrittenCall>, gap: Seq<char>, n: int) -> nat
    decreases calls.len(),
{
    if calls.len() == 0 || n < head_len(calls, gap) {
        0
    } else {
        1 + taken(calls.drop_first(), gap, n - head_len(calls, gap))
    }
}

/// Where the last of the calls that are complete in the first `n` characters ends.
pub open spec fn behind(calls: Seq<WrittenCall>, gap: Seq<char>, n: int) -> int
    decreases calls.len(),
{
    if calls.len() == 0 || n < head_len(calls, gap) {
        0
    } else {
        head_len(calls, gap) + behind(calls.drop_first(), gap, n - head_len(calls, gap))
    }
}

/// The call can be written and be named in a stream: there are no angle brackets in its name, and
/// there is a tool of its name.
#[verifier::opaque]
pub open spec fn is_callable(call: WrittenCall, gap: Seq<char>, tools: Seq<Tool>) -> bool {
    &&& is_spaces(gap)
    &&& minimax_writable(call, gap)
    &&& is_tame(call.name)
    &&& has_tool(tools, trim(call.name))
}

/// Each of the calls is such a call.
pub open spec fn are_callable(calls: Seq<WrittenCall>, gap: Seq<char>, tools: Seq<Tool>) -> bool {
    is_spaces(gap) && forall|i: int| 0 <= i < calls.len() ==> is_callable(#[trigger] calls[i], gap, tools)
}

/// The pieces with the names of the calls, numbered from `n` on.
pub open spec fn names_from(calls: Seq<WrittenCall>, n: nat) -> Seq<ItemView> {
    Seq::new(calls.len(), |i: int| name_item((n + i) as nat, trim(calls[i].name)))
}

/// The pieces that send the calls, numbered from `n` on.
pub open spec fn items_from(calls: Seq<WrittenCall>, n: nat, tools: Seq<Tool>) -> Seq<ItemView>
    decreases calls.len(),
{
    if calls.len() == 0 {
        Seq::empty()
    } else {
        sent_items(n, trim(calls[0].name), stream_params(calls[0], tools)) + items_from(
            calls.drop_first(),
            n + 1,
            tools,
        )
    }
}

/// The objects that are sent of the calls.
pub open spec fn objects_of(calls: Seq<WrittenCall>, tools: Seq<Tool>) -> Seq<Seq<char>> {
    Seq::new(calls.len(), |i: int| sent_object(stream_params(calls[i], tools)))
}

/// No parameter of a later call came in together with the end of a call: none begins in `short`
/// behind a call that is complete in it. And each such call can be streamed.
pub open spec fn is_calm(calls: Seq<WrittenCall>, gap: Seq<char>, tools: Seq<Tool>, short: Seq<char>) -> bool
    decreases calls.len(),
{
    if calls.len() == 0 || short.len() < head_len(calls, gap) {
        true
    } else {
        let rest = short.skip(head_len(calls, gap));
        &&& is_streamable(calls[0], gap, tools)
        &&& !contains(rest, "<parameter"@)
        &&& is_calm(calls.drop_first(), gap, tools, rest)
    }
}

/// Call `i` is complete in `short`, no parameter of a later call came in together with its end, and
/// it can be streamed.
pub open spec fn ends_calm(
    calls: Seq<WrittenCall>,
    gap: Seq<char>,
    tools: Seq<Tool>,
    short: Seq<char>,
    i: int,
) -> bool
    decreases calls.len(),
{
    if calls.len() == 0 || short.len() < head_len(calls, gap) {
        false
    } else {
        let rest = short.skip(head_len(calls, gap));
        if i == 0 {
            is_streamable(calls[0], gap, tools) && !contains(rest, "<parameter"@)
        } else {
            ends_calm(calls.drop_first(), gap, tools, rest, i - 1)
        }
    }
}

/// The parser rests behind `done` calls, with `calls` still to come, of which `left` came in.
pub open spec fn rests_at(
    st: MinimaxState,
    calls: Seq<WrittenCall>,
    gap: Seq<char>,
    done: nat,
    left: Seq<char>,
) -> bool {
    &&& valid(st)
    &&& !st.name_sent
    &&& next_call(st) == done
    &&& left.is_prefix_of(calls_rest(calls, gap))
    &&& if calls.len() == 0 && left.len() == block_tail(gap).len() {
        !st.in_tool_call && !st.waiting && st.buffer.len() == 0
    } else {
        st.in_tool_call && st.buffer == left && if calls.len() == 0 {
            st.waiting
        } else {
            left.len() < head_len(calls, gap)
        }
    }
}

/// `end` and `given` are what the parser makes of `short`, a beginning of the calls, from `st` and
/// `out` on.
pub open spec fn has_run(
    st: MinimaxState,
    out: StreamView,
    calls: Seq<WrittenCall>,
    gap: Seq<char>,
    tools: Seq<Tool>,
    short: Seq<char>,
    end: MinimaxState,
    given: StreamView,
) -> bool {
    let k = taken(calls, gap, short.len() as int);
    let done = calls.take(k as int);
    &&& k <= calls.len()
    &&& given.normal_text.len() == 0
    &&& names_of(given.calls) == names_of(out.calls) + names_from(done, next_call(st))
    &&& rests_at(
        end,
        calls.skip(k as int),
        gap,
        next_call(st) + k,
        short.skip(behind(calls, gap, short.len() as int)),
    )
    &&& is_calm(calls, gap, tools, short) ==> {
        &&& given.calls == out.calls + items_from(done, next_call(st), tools)
        &&& end.streamed == st.streamed + objects_of(done, tools)
    }
    &&& forall|j: int| 0 <= j < next_call(st) ==> #[trigger] end.streamed[j] == st.streamed[j]
    &&& forall|i: int|
        0 <= i < k && ends_calm(calls, gap, tools, short, i) ==> #[trigger] end.streamed[next_call(st) + i]
            == sent_object(stream_params(calls[i], tools))
}

/// What follows in a beginning of calls.
proof fn lemma_calls_follow(calls: Seq<WrittenCall>, gap: Seq<char>, short: Seq<char>)
    requires
        is_spaces(gap),
        calls.len() > 0,
        short.is_prefix_of(calls_rest(calls, gap)),
    ensures
        short.len() >= gap.len() + 7 ==> follow(short) == Follow::Invoke,
        short.len() < gap.len() + 7 ==> follow(short) == Follow::Open,
{
    let text = calls_rest(calls, gap);
    let n = gap.len() as int;
    let invoke = "<invoke"@;
    let end = "</minimax:tool_call>"@;
    reveal_strlit("<invoke");
    reveal_strlit("</minimax:tool_call>");
    let body = minimax_invoke(calls[0], gap);
    assert(body.subrange(0, 7) =~= invoke);
    assert(text =~= gap + (body + calls_rest(calls.drop_first(), gap)));
    assert forall|i: int| 0 <= i < 7 implies text[n + i] == #[trigger] invoke[i] by {
        assert(text[n + i] == body[i]);
        assert(body.subrange(0, 7)[i] == body[i]);
    }
    assert(short =~= text.subrange(0, short.len() as int));
    assert(forall|i: int| 0 <= i < short.len() ==> short[i] == text[i]);
    assert forall|word: Seq<char>, i: int| word.len() > 1 && word[0] == '<' && #[trigger] occurs_at(
        short,
        word,
        i,
    ) implies i >= n by {
        assert(short.subrange(i, i + word.len())[0] == short[i]);
        if i < n {
            assert(is_white_space(gap[i]));
            assert(text[i] == gap[i]);
        }
    }
    assert(!occurs_at(short, end, n)) by {
        if occurs_at(short, end, n) {
            assert(short.subrange(n, n + end.len())[1] == short[n + 1]);
            assert(text[n + 1] == invoke[1]);
        }
    }
    lemma_find(short, invoke);
    lemma_find(short, end);
    if short.len() >= n + 7 {
        assert(short.subrange(n, n + 7) =~= invoke);
        assert(occurs_at(short, invoke, n));
        assert(first_at(short, invoke, n));
        if find(short, end) is Some {
            assert(occurs_at(short, end, find(short, end)->0));
        }
    } else {
        assert(!contains(short, invoke)) by {
            if contains(short, invoke) {
                let i = choose|i: int| occurs_at(short, invoke, i);
                assert(i >= n);
            }
        }
        assert(!contains(short, end)) by {
            if contains(short, end) {
                let i = choose|i: int| occurs_at(short, end, i);
                assert(i >= n);
            }
        }
    }
}

/// Pieces of arguments have no names.
proof fn lemma_fragment_names(id: nat, fragment: Seq<char>)
    ensures
        names_of(fragment_items(id, fragment)).len() == 0,
{
    let items = fragment_items(id, fragment);
    if items.len() > 0 {
        assert(items.drop_last() =~= Seq::empty());
        assert(names_of(items.drop_last()).len() == 0);
        assert(items.last().name is None);
    }
}

/// One name more.
proof fn lemma_named(items: Seq<ItemView>, id: nat, name: Seq<char>)
    ensures
        names_of(items.push(name_item(id, name))) == names_of(items).push(name_item(id, name)),
{
    let more = items.push(name_item(id, name));
    assert(more.drop_last() =~= items);
}

/// The body of a call closes it, whatever follows it.
#[verifier::rlimit(30)]
proof fn lemma_closed_anyhow(
    st: MinimaxState,
    out: StreamView,
    call: WrittenCall,
    gap: Seq<char>,
    rest: Seq<char>,
    tools: Seq<Tool>,
)
    requires
        valid(st),
        st.name_sent,
        minimax_writable(call, gap),
        st.buffer == minimax_body(call, gap) + (closing(Tag::MinimaxInvoke) + rest),
    ensures
        ({
            let next = step(st, out, tools);
            &&& next.state.tool == Some(st.tool->0 + 1)
            &&& !next.state.name_sent
            &&& next.out.normal_text == out.normal_text
            &&& names_of(next.out.calls) == names_of(out.calls)
            &&& match follow(rest) {
                Follow::Invoke => next.more && next.state.in_tool_call && !next.state.waiting
                    && next.state.buffer == rest,
                Follow::End(e) => next.more && !next.state.in_tool_call && !next.state.waiting
                    && next.state.buffer == rest.skip(e),
                Follow::Open => !next.more && next.state.in_tool_call && next.state.waiting
                    && next.state.buffer == rest,
            }
        }),
{
    let body = minimax_body(call, gap);
    let close = closing(Tag::MinimaxInvoke);
    lemma_closes_first(body, close, rest);
    lemma_find(st.buffer, close);
    assert(find(st.buffer, close) == Some(body.len() as int));
    assert(st.buffer.skip((body.len() + close.len()) as int) =~= rest);
    let founds = tag_matches(Tag::MinimaxParameter, st.buffer);
    let (after, items) = crate::minimax::taken_params(st, founds, tools);
    let id = st.tool->0;
    let last = fragment_items(id, crate::minimax::closing_fragment(after.streamed[id as int]));
    let params = crate::minimax::matched_params(founds, st.function_name, tools, true);
    lemma_fragment_names(id, crate::minimax::params_fragment(params, st.parameters));
    lemma_fragment_names(id, crate::minimax::closing_fragment(after.streamed[id as int]));
    assert(names_of(items).len() == 0);
    lemma_names(out.calls, items);
    lemma_names(out.calls + items, last);
    assert(names_of(out.calls) + names_of(items) =~= names_of(out.calls));
    assert(names_of(out.calls + items) + names_of(last) =~= names_of(out.calls + items));
}

/// A complete call in the block: two steps name it and close it.
#[verifier::rlimit(30)]
proof fn lemma_call_closed(
    st: MinimaxState,
    out: StreamView,
    call: WrittenCall,
    gap: Seq<char>,
    rest: Seq<char>,
    tools: Seq<Tool>,
)
    requires
        before_name(st),
        is_callable(call, gap, tools),
        st.buffer == gap + (minimax_invoke(call, gap) + rest),
        out.normal_text.len() == 0,
    ensures
        ({
            let named = step(st, out, tools);
            let closed = step(named.state, named.out, tools);
            let id = next_call(st);
            &&& named.more
            &&& valid(closed.state)
            &&& closed.state.tool == Some(id + 1)
            &&& !closed.state.name_sent
            &&& closed.out.normal_text.len() == 0
            &&& names_of(closed.out.calls) == names_of(out.calls).push(name_item(id, trim(call.name)))
            &&& match follow(rest) {
                Follow::Invoke => closed.more && closed.state.in_tool_call && !closed.state.waiting
                    && closed.state.buffer == rest,
                Follow::End(e) => closed.more && !closed.state.in_tool_call && !closed.state.waiting
                    && closed.state.buffer == rest.skip(e),
                Follow::Open => !closed.more && closed.state.in_tool_call && closed.state.waiting
                    && closed.state.buffer == rest,
            }
            &&& forall|j: int| 0 <= j < id ==> #[trigger] closed.state.streamed[j] == st.streamed[j]
            &&& is_streamable(call, gap, tools) && !contains(rest, "<parameter"@) ==> {
                &&& closed.out.calls == out.calls + sent_items(
                    id,
                    trim(call.name),
                    stream_params(call, tools),
                )
                &&& closed.state.streamed == st.streamed.push(sent_object(stream_params(call, tools)))
            }
        }),
{
    reveal(is_callable);
    let id = next_call(st);
    let name = trim(call.name);
    lemma_name_taken(st, out, call, gap, rest, tools);
    lemma_step_valid(st, out, tools);
    let named = step(st, out, tools);
    lemma_closed_anyhow(named.state, named.out, call, gap, rest, tools);
    lemma_step_valid(named.state, named.out, tools);
    lemma_named(out.calls, id, name);
    let closing = step(named.state, named.out, tools);
    assert forall|j: int| 0 <= j < id implies #[trigger] closing.state.streamed[j] == st.streamed[j] by {
        lemma_step_keeps(st, out, tools, j);
        lemma_step_keeps(named.state, named.out, tools, j);
    }
    if is_streamable(call, gap, tools) && !contains(rest, "<parameter"@) {
        reveal(is_streamable);
        let params = stream_params(call, tools);
        lemma_params_taken(named.state, named.out, call, gap, rest, tools);
        let closed = step(named.state, named.out, tools);
        assert(closed.out.calls =~= out.calls + sent_items(id, name, params));
        assert(named.state.streamed =~= st.streamed.push(Seq::empty()));
        assert(closed.state.streamed =~= st.streamed.push(sent_object(params)));
    }
}

/// The first name of some names.
proof fn lemma_names_first(calls: Seq<WrittenCall>, n: nat, k: int)
    requires
        0 < k <= calls.len(),
    ensures
        names_from(calls.take(k), n) == seq![name_item(n, trim(calls[0].name))] + names_from(
            calls.drop_first().take(k - 1),
            n + 1,
        ),
{
    let all = names_from(calls.take(k), n);
    let tail = names_from(calls.drop_first().take(k - 1), n + 1);
    assert(all =~= seq![name_item(n, trim(calls[0].name))] + tail) by {
        assert forall|i: int| 0 <= i < all.len() implies all[i] == (seq![
            name_item(n, trim(calls[0].name)),
        ] + tail)[i] by {
            if i > 0 {
                assert(calls.drop_first().take(k - 1)[i - 1] == calls[i]);
                assert((n + i) as nat == (n + 1 + (i - 1)) as nat);
            }
        }
    }
}

/// What is left when the first call is complete.
proof fn lemma_first_taken(calls: Seq<WrittenCall>, gap: Seq<char>, short: Seq<char>)
    requires
        calls.len() > 0,
        short.is_prefix_of(calls_rest(calls, gap)),
        short.len() >= head_len(calls, gap),
    ensures
        ({
            let rest = short.skip(head_len(calls, gap));
            let later = calls.drop_first();
            &&& rest.is_prefix_of(calls_rest(later, gap))
            &&& short == gap + (minimax_invoke(calls[0], gap) + rest)
            &&& taken(calls, gap, short.len() as int) == 1 + taken(later, gap, rest.len() as int)
            &&& behind(calls, gap, short.len() as int) == head_len(calls, gap) + behind(
                later,
                gap,
                rest.len() as int,
            )
            &&& 0 <= behind(later, gap, rest.len() as int) <= rest.len()
            &&& short.skip(behind(calls, gap, short.len() as int)) == rest.skip(
                behind(later, gap, rest.len() as int),
            )
        }),
{
    let text = calls_rest(calls, gap);
    let n = head_len(calls, gap);
    let later = calls.drop_first();
    let rest = short.skip(n);
    assert(short =~= text.subrange(0, short.len() as int));
    assert(rest =~= calls_rest(later, gap).subrange(0, rest.len() as int));
    assert(short =~= gap + (minimax_invoke(calls[0], gap) + rest));
    lemma_behind_bound(later, gap, rest.len() as int);
    assert(short.skip(n + behind(later, gap, rest.len() as int)) =~= rest.skip(
        behind(later, gap, rest.len() as int),
    ));
}

/// The calls that are complete end in what came in.
proof fn lemma_behind_bound(calls: Seq<WrittenCall>, gap: Seq<char>, n: int)
    requires
        0 <= n,
    ensures
        0 <= behind(calls, gap, n) <= n,
        taken(calls, gap, n) <= calls.len(),
    decreases calls.len(),
{
    if calls.len() > 0 && n >= head_len(calls, gap) {
        lemma_behind_bound(calls.drop_first(), gap, n - head_len(calls, gap));
    }
}

/// A run that takes nothing.
proof fn lemma_nothing_taken(
    st: MinimaxState,
    out: StreamView,
    calls: Seq<WrittenCall>,
    gap: Seq<char>,
    tools: Seq<Tool>,
    short: Seq<char>,
    end: MinimaxState,
)
    requires
        calls.len() == 0 || short.len() < head_len(calls, gap),
        out.normal_text.len() == 0,
        end.streamed == st.streamed,
        rests_at(end, calls, gap, next_call(st), short),
    ensures
        has_run(st, out, calls, gap, tools, short, end, out),
{
    let none = calls.take(0);
    assert(names_from(none, next_call(st)) =~= Seq::empty());
    assert(names_of(out.calls) + Seq::<ItemView>::empty() =~= names_of(out.calls));
    assert(items_from(none, next_call(st), tools) =~= Seq::empty());
    assert(out.calls + Seq::<ItemView>::empty() =~= out.calls);
    assert(objects_of(none, tools) =~= Seq::empty());
    assert(st.streamed + Seq::<Seq<char>>::empty() =~= st.streamed);
    assert(calls.skip(0) =~= calls);
    assert(short.skip(0) =~= short);
}

/// What is sent of one call, and then of the others.
proof fn lemma_calm_on(
    calls: Seq<WrittenCall>,
    k: int,
    n: nat,
    tools: Seq<Tool>,
    out: Seq<ItemView>,
    streamed: Seq<Seq<char>>,
)
    requires
        0 < k <= calls.len(),
    ensures
        ({
            let params = stream_params(calls[0], tools);
            let others = calls.drop_first().take(k - 1);
            &&& out + sent_items(n, trim(calls[0].name), params) + items_from(others, n + 1, tools) == out
                + items_from(calls.take(k), n, tools)
            &&& streamed.push(sent_object(params)) + objects_of(others, tools) == streamed + objects_of(
                calls.take(k),
                tools,
            )
        }),
{
    let params = stream_params(calls[0], tools);
    let others = calls.drop_first().take(k - 1);
    let done = calls.take(k);
    let items = sent_items(n, trim(calls[0].name), params);
    assert(done.drop_first() =~= others);
    assert(done[0] == calls[0]);
    assert(items_from(done, n, tools) == items + items_from(others, n + 1, tools));
    assert(out + items + items_from(others, n + 1, tools) =~= out + (items + items_from(others, n + 1, tools)));
    let tail = objects_of(others, tools);
    let all = objects_of(done, tools);
    assert(all =~= seq![sent_object(params)] + tail) by {
        assert forall|i: int| 0 <= i < all.len() implies all[i] == (seq![sent_object(params)] + tail)[i] by {
            if i > 0 {
                assert(others[i - 1] == done[i]);
            }
        }
    }
    assert(streamed.push(sent_object(params)) + tail =~= streamed + all);
}

/// One call, and then the others.
#[verifier::rlimit(30)]
proof fn lemma_one_and_others(
    st: MinimaxState,
    out: StreamView,
    calls: Seq<WrittenCall>,
    gap: Seq<char>,
    tools: Seq<Tool>,
    short: Seq<char>,
    closed: MinimaxState,
    sent: StreamView,
    end: MinimaxState,
    given: StreamView,
)
    requires
        calls.len() > 0,
        short.is_prefix_of(calls_rest(calls, gap)),
        short.len() >= head_len(calls, gap),
        next_call(closed) == next_call(st) + 1,
        names_of(sent.calls) == names_of(out.calls).push(name_item(next_call(st), trim(calls[0].name))),
        is_streamable(calls[0], gap, tools) && !contains(short.skip(head_len(calls, gap)), "<parameter"@)
            ==> sent.calls == out.calls + sent_items(
            next_call(st),
            trim(calls[0].name),
            stream_params(calls[0], tools),
        ) && closed.streamed == st.streamed.push(sent_object(stream_params(calls[0], tools))),
        forall|j: int| 0 <= j < next_call(st) ==> #[trigger] closed.streamed[j] == st.streamed[j],
        is_streamable(calls[0], gap, tools) && !contains(short.skip(head_len(calls, gap)), "<parameter"@)
            ==> st.streamed.len() == next_call(st),
        has_run(
            closed,
            sent,
            calls.drop_first(),
            gap,
            tools,
            short.skip(head_len(calls, gap)),
            end,
            given,
        ),
    ensures
        has_run(st, out, calls, gap, tools, short, end, given),
{
    lemma_first_taken(calls, gap, short);
    let rest = short.skip(head_len(calls, gap));
    let later = calls.drop_first();
    let m = taken(later, gap, rest.len() as int);
    let k = taken(calls, gap, short.len() as int);
    let n = next_call(st);
    let done = calls.take(k as int);
    let first = name_item(n, trim(calls[0].name));
    lemma_names_first(calls, n, k as int);
    assert(names_of(out.calls).push(first) + names_from(later.take(m as int), n + 1) =~= names_of(
        out.calls,
    ) + names_from(done, n));
    assert(later.skip(m as int) =~= calls.skip(k as int));
    assert forall|j: int| 0 <= j < n implies #[trigger] end.streamed[j] == st.streamed[j] by {
        assert(closed.streamed[j] == st.streamed[j]);
    }
    assert forall|i: int|
        0 <= i < k && ends_calm(calls, gap, tools, short, i) implies #[trigger] end.streamed[n + i]
        == sent_object(stream_params(calls[i], tools)) by {
        if i == 0 {
            assert(end.streamed[n as int] == closed.streamed[n as int]);
        } else {
            assert(ends_calm(later, gap, tools, rest, i - 1));
            assert(later[i - 1] == calls[i]);
            assert(end.streamed[(n + 1) + (i - 1)] == sent_object(stream_params(later[i - 1], tools)));
        }
    }
    if is_calm(calls, gap, tools, short) {
        lemma_calm_on(calls, k as int, n, tools, out.calls, st.streamed);
    }
}

/// In the block, before the name of a call.
#[verifier::rlimit(30)]
proof fn lemma_calls_run(
    st: MinimaxState,
    out: StreamView,
    calls: Seq<WrittenCall>,
    gap: Seq<char>,
    tools: Seq<Tool>,
    short: Seq<char>,
)
    requires
        before_name(st),
        calls.len() > 0,
        are_callable(calls, gap, tools),
        short.is_prefix_of(calls_rest(calls, gap)),
        st.buffer == short,
        out.normal_text.len() == 0,
    ensures
        has_run(st, out, calls, gap, tools, short, run(st, out, tools).0, run(st, out, tools).1),
    decreases calls.len(),
{
    reveal(run);
    let call = calls[0];
    let later = calls.drop_first();
    let n = head_len(calls, gap);
    assert(is_callable(calls[0], gap, tools));
    assert(short =~= calls_rest(calls, gap).subrange(0, short.len() as int));
    if short.len() < n {
        let whole = gap + minimax_invoke(call, gap);
        assert(short =~= whole.subrange(0, short.len() as int));
        assert(tag_matches(Tag::MinimaxInvoke, short).len() == 0) by {
            reveal(is_callable);
            lemma_no_invoke_yet(call, gap, short);
        }
        assert(run(st, out, tools) == (st, out));
        lemma_nothing_taken(st, out, calls, gap, tools, short, st);
    } else {
        lemma_first_taken(calls, gap, short);
        let rest = short.skip(n);
        lemma_call_closed(st, out, call, gap, rest, tools);
        let named = step(st, out, tools);
        let closed = step(named.state, named.out, tools);
        assert(run(st, out, tools) == run(named.state, named.out, tools));
        assert forall|i: int| 0 <= i < later.len() implies is_callable(#[trigger] later[i], gap, tools) by {
            assert(later[i] == calls[i + 1]);
        }
        if later.len() > 0 {
            lemma_calls_follow(later, gap, rest);
        } else {
            lemma_tail_follow(gap, rest);
        }
        if closed.more {
            assert(run(named.state, named.out, tools) == run(closed.state, closed.out, tools));
            if later.len() > 0 {
                lemma_calls_run(closed.state, closed.out, later, gap, tools, rest);
            } else {
                assert(rest =~= block_tail(gap)) by {
                    assert(rest =~= calls_rest(later, gap).subrange(0, rest.len() as int));
                }
                assert(closed.state.buffer =~= Seq::empty());
                assert(later =~= Seq::empty());
                lemma_block_left(closed.state, closed.out, gap, tools, rest);
            }
        } else {
            assert(later.len() > 0 ==> rest.len() < head_len(later, gap)) by {
                reveal_strlit("<invoke");
            }
            lemma_nothing_taken(closed.state, closed.out, later, gap, tools, rest, closed.state);
        }
        let (end, given) = run(st, out, tools);
        lemma_one_and_others(st, out, calls, gap, tools, short, closed.state, closed.out, end, given);
    }
}

/// Outside the block, behind the last call.
proof fn lemma_block_left(st: MinimaxState, out: StreamView, gap: Seq<char>, tools: Seq<Tool>, rest: Seq<char>)
    requires
        valid(st),
        !st.name_sent && !st.in_tool_call && !st.waiting,
        st.buffer.len() == 0,
        out.normal_text.len() == 0,
        rest == block_tail(gap),
    ensures
        has_run(
            st,
            out,
            Seq::empty(),
            gap,
            tools,
            rest,
            run(st, out, tools).0,
            run(st, out, tools).1,
        ),
{
    assert(out.normal_text =~= Seq::empty());
    assert(out == only_calls(out.calls));
    lemma_empty_run(st, out.calls, tools);
    assert(rest.is_prefix_of(calls_rest(Seq::empty(), gap)));
    lemma_nothing_taken(st, out, Seq::empty(), gap, tools, rest, st);
}

/// The next chunk, where the parser rests behind some calls.
#[verifier::rlimit(30)]
proof fn lemma_rested_chunk(
    st: MinimaxState,
    calls: Seq<WrittenCall>,
    gap: Seq<char>,
    tools: Seq<Tool>,
    done: nat,
    left: Seq<char>,
    chunk: Seq<char>,
)
    requires
        rests_at(st, calls, gap, done, left),
        are_callable(calls, gap, tools),
        (left + chunk).is_prefix_of(calls_rest(calls, gap)),
    ensures
        has_run(
            st,
            nothing(),
            calls,
            gap,
            tools,
            left + chunk,
            chunk_run(st, chunk, tools).0,
            chunk_run(st, chunk, tools).1,
        ),
{
    reveal(run);
    let short = left + chunk;
    let out = nothing();
    let full = MinimaxState { buffer: st.buffer + chunk, ..st };
    if calls.len() == 0 && left.len() == block_tail(gap).len() {
        assert(short =~= left);
        assert(full.buffer =~= st.buffer);
        assert(left =~= block_tail(gap)) by {
            assert(left =~= calls_rest(calls, gap).subrange(0, left.len() as int));
        }
        lemma_block_left(full, out, gap, tools, left);
        assert(calls =~= Seq::empty());
    } else if !full.waiting {
        lemma_calls_run(full, out, calls, gap, tools, short);
    } else {
        if calls.len() > 0 {
            lemma_calls_follow(calls, gap, short);
        } else {
            lemma_tail_follow(gap, short);
        }
        let next = step(full, out, tools);
        if next.more {
            assert(run(full, out, tools) == run(next.state, next.out, tools));
            if calls.len() > 0 {
                lemma_calls_run(next.state, out, calls, gap, tools, short);
            } else {
                assert(short =~= block_tail(gap)) by {
                    assert(short =~= calls_rest(calls, gap).subrange(0, short.len() as int));
                }
                assert(next.state.buffer =~= Seq::empty());
                lemma_block_left(next.state, out, gap, tools, short);
                assert(calls =~= Seq::empty());
            }
        } else {
            assert(calls.len() > 0 ==> short.len() < head_len(calls, gap)) by {
                reveal_strlit("<invoke");
            }
            lemma_nothing_taken(full, out, calls, gap, tools, short, full);
        }
    }
}

/// More of the text: the calls that were complete, and then those that are complete in the rest.
proof fn lemma_taken_more(calls: Seq<WrittenCall>, gap: Seq<char>, n: int, m: int)
    requires
        0 <= n <= m,
    ensures
        ({
            let k = taken(calls, gap, n);
            let b = behind(calls, gap, n);
            let later = calls.skip(k as int);
            &&& k <= calls.len()
            &&& 0 <= b <= n
            &&& taken(calls, gap, m) == k + taken(later, gap, m - b)
            &&& behind(calls, gap, m) == b + behind(later, gap, m - b)
        }),
    decreases calls.len(),
{
    if calls.len() == 0 || n < head_len(calls, gap) {
        assert(calls.skip(0) =~= calls);
    } else {
        let h = head_len(calls, gap);
        let later = calls.drop_first();
        lemma_taken_more(later, gap, n - h, m - h);
        let k = taken(later, gap, n - h);
        assert(later.skip(k as int) =~= calls.skip(k as int + 1));
    }
}

// ---------------------------------------------------------------------------
// Blocks of calls
// ---------------------------------------------------------------------------

/// A block of calls.
pub open spec fn block_of(calls: Seq<WrittenCall>, gap: Seq<char>) -> Seq<char> {
    opening(Tag::MinimaxBlock) + calls_rest(calls, gap)
}

/// A block of calls is what is written of them.
pub proof fn lemma_block_written(calls: Seq<WrittenCall>, gap: Seq<char>)
    ensures
        block_of(calls, gap) == block_text(Tag::MinimaxBlock, minimax_calls(calls, gap)),
{
    lemma_rest_written(calls, gap);
    let start = opening(Tag::MinimaxBlock);
    let end = closing(Tag::MinimaxBlock);
    assert(start + (minimax_calls(calls, gap) + end) =~= block_text(
        Tag::MinimaxBlock,
        minimax_calls(calls, gap),
    ));
}

/// Calls and the tag that closes their block.
proof fn lemma_rest_written(calls: Seq<WrittenCall>, gap: Seq<char>)
    ensures
        calls_rest(calls, gap) == minimax_calls(calls, gap) + closing(Tag::MinimaxBlock),
    decreases calls.len(),
{
    let end = closing(Tag::MinimaxBlock);
    let none = Seq::<char>::empty();
    let invokes = minimax_invokes(calls, gap);
    if calls.len() == 0 {
        assert(gap + none + end =~= block_tail(gap));
    } else {
        let later = calls.drop_first();
        lemma_rest_written(later, gap);
        assert(minimax_invokes(later, gap) =~= invokes.drop_first());
        assert(invokes[0] == minimax_invoke(calls[0], gap));
        assert(gap + (invokes[0] + (minimax_calls(later, gap) + end)) =~= minimax_calls(calls, gap) + end);
    }
}

/// Where a chunk completes a call, no parameter of a later call begins in it: this holds of every
/// chunk. Each call can be streamed.
pub open spec fn are_calm(
    calls: Seq<WrittenCall>,
    gap: Seq<char>,
    tools: Seq<Tool>,
    chunks: Seq<Seq<char>>,
) -> bool
    decreases chunks.len(),
{
    if chunks.len() == 0 {
        true
    } else {
        let start = opening(Tag::MinimaxBlock).len() as int;
        let before = chunks_text(chunks.drop_last()).len() - start;
        let came = chunks_text(chunks).skip(start);
        &&& are_calm(calls, gap, tools, chunks.drop_last())
        &&& if before < 0 {
            is_calm(calls, gap, tools, came)
        } else {
            is_calm(
                calls.skip(taken(calls, gap, before) as int),
                gap,
                tools,
                came.skip(behind(calls, gap, before)),
            )
        }
    }
}

/// No parameter of a later call stands in the chunk that completes call `i`, behind that call; and
/// the call can be streamed.
pub open spec fn is_calmly_cut(
    calls: Seq<WrittenCall>,
    gap: Seq<char>,
    tools: Seq<Tool>,
    chunks: Seq<Seq<char>>,
    i: int,
) -> bool
    decreases chunks.len(),
{
    if chunks.len() == 0 {
        false
    } else {
        let start = opening(Tag::MinimaxBlock).len() as int;
        let before = chunks_text(chunks.drop_last()).len() - start;
        let came = chunks_text(chunks).skip(start);
        let k = if before < 0 {
            0
        } else {
            taken(calls, gap, before)
        };
        let from = if before < 0 {
            0
        } else {
            behind(calls, gap, before)
        };
        if i < k {
            is_calmly_cut(calls, gap, tools, chunks.drop_last(), i)
        } else {
            ends_calm(calls.skip(k as int), gap, tools, came.skip(from), i - k)
        }
    }
}

/// What a new parser makes of `came`, a beginning of a block.
spec fn has_come(
    calls: Seq<WrittenCall>,
    gap: Seq<char>,
    tools: Seq<Tool>,
    came: Seq<char>,
    calm: bool,
    st: MinimaxState,
    given: StreamView,
) -> bool {
    let start = opening(Tag::MinimaxBlock);
    if came.len() < start.len() {
        st == MinimaxState { buffer: came, ..initial() } && given == nothing()
    } else {
        let short = came.skip(start.len() as int);
        let k = taken(calls, gap, short.len() as int);
        let done = calls.take(k as int);
        &&& k <= calls.len()
        &&& given.normal_text.len() == 0
        &&& names_of(given.calls) == names_from(done, 0)
        &&& rests_at(
            st,
            calls.skip(k as int),
            gap,
            k,
            short.skip(behind(calls, gap, short.len() as int)),
        )
        &&& calm ==> given.calls == items_from(done, 0, tools) && st.streamed == objects_of(done, tools)
    }
}

/// Before the block.
proof fn lemma_block_begun(calls: Seq<WrittenCall>, gap: Seq<char>, tools: Seq<Tool>, came: Seq<char>)
    requires
        calls.len() > 0,
        are_callable(calls, gap, tools),
        came.is_prefix_of(block_of(calls, gap)),
    ensures
        ({
            let (st, given) = run(MinimaxState { buffer: came, ..initial() }, nothing(), tools);
            has_come(
                calls,
                gap,
                tools,
                came,
                came.len() < opening(Tag::MinimaxBlock).len() || is_calm(
                    calls,
                    gap,
                    tools,
                    came.skip(opening(Tag::MinimaxBlock).len() as int),
                ),
                st,
                given,
            )
        }),
{
    reveal(run);
    let start = opening(Tag::MinimaxBlock);
    let all = block_of(calls, gap);
    let st = MinimaxState { buffer: came, ..initial() };
    assert(came =~= all.subrange(0, came.len() as int));
    if came.len() < start.len() {
        assert(came =~= start.subrange(0, came.len() as int));
        lemma_start_held(came, tools);
    } else {
        let short = came.skip(start.len() as int);
        assert(came =~= start + short);
        assert(short =~= calls_rest(calls, gap).subrange(0, short.len() as int));
        assert(came.subrange(0, start.len() as int) =~= start);
        assert(occurs_at(came, start, 0));
        assert(first_at(came, start, 0));
        lemma_find(came, start);
        let next = step(st, nothing(), tools);
        assert(came.take(0) =~= Seq::empty());
        assert(next.out =~= nothing());
        assert(next.more);
        assert(next.state.buffer =~= short);
        assert(before_name(next.state));
        assert(run(st, nothing(), tools) == run(next.state, next.out, tools));
        lemma_calls_run(next.state, nothing(), calls, gap, tools, short);
        assert(names_of(nothing().calls) =~= Seq::empty());
        let k = taken(calls, gap, short.len() as int);
        let done = calls.take(k as int);
        assert(Seq::<ItemView>::empty() + names_from(done, 0) =~= names_from(done, 0));
        assert(Seq::<ItemView>::empty() + items_from(done, 0, tools) =~= items_from(done, 0, tools));
        assert(Seq::<Seq<char>>::empty() + objects_of(done, tools) =~= objects_of(done, tools));
    }
}

/// What is given of some calls, and then of others, is what is given of all of them.
proof fn lemma_rows_meet(calls: Seq<WrittenCall>, k: int, m: int, tools: Seq<Tool>, n: nat)
    requires
        0 <= k,
        0 <= m,
        k + m <= calls.len(),
    ensures
        names_from(calls.take(k), n) + names_from(calls.skip(k).take(m), (n + k) as nat) == names_from(
            calls.take(k + m),
            n,
        ),
        items_from(calls.take(k), n, tools) + items_from(calls.skip(k).take(m), (n + k) as nat, tools)
            == items_from(calls.take(k + m), n, tools),
        objects_of(calls.take(k), tools) + objects_of(calls.skip(k).take(m), tools) == objects_of(
            calls.take(k + m),
            tools,
        ),
    decreases k,
{
    let first = calls.take(k);
    let more = calls.skip(k).take(m);
    let all = calls.take(k + m);
    assert(all =~= first + more);
    assert(names_from(first, n) + names_from(more, (n + k) as nat) =~= names_from(all, n)) by {
        assert forall|i: int| k <= i < k + m implies #[trigger] names_from(all, n)[i] == names_from(
            more,
            (n + k) as nat,
        )[i - k] by {
            assert(more[i - k] == all[i]);
            assert((n + i) as nat == ((n + k) as nat + (i - k)) as nat);
        }
    }
    assert(objects_of(first, tools) + objects_of(more, tools) =~= objects_of(all, tools)) by {
        assert forall|i: int| k <= i < k + m implies #[trigger] objects_of(all, tools)[i] == objects_of(
            more,
            tools,
        )[i - k] by {
            assert(more[i - k] == all[i]);
        }
    }
    if k == 0 {
        assert(first =~= Seq::empty());
        assert(more =~= all);
        assert(Seq::<ItemView>::empty() + items_from(all, n, tools) =~= items_from(all, n, tools));
    } else {
        let later = calls.drop_first();
        lemma_rows_meet(later, k - 1, m, tools, n + 1);
        assert(later.take(k - 1) =~= first.drop_first());
        assert(later.skip(k - 1).take(m) =~= more);
        assert(later.take(k - 1 + m) =~= all.drop_first());
        assert(first[0] == calls[0] && all[0] == calls[0]);
        assert((n + 1 + (k - 1)) as nat == (n + k) as nat);
        let one = sent_items(n, trim(calls[0].name), stream_params(calls[0], tools));
        assert(items_from(first, n, tools) == one + items_from(first.drop_first(), n + 1, tools));
        assert(items_from(all, n, tools) == one + items_from(all.drop_first(), n + 1, tools));
        assert(one + items_from(first.drop_first(), n + 1, tools) + items_from(more, (n + k) as nat, tools)
            =~= one + (items_from(first.drop_first(), n + 1, tools) + items_from(
            more,
            (n + k) as nat,
            tools,
        )));
    }
}

/// What came in of the calls that are not complete, with the next chunk behind it.
proof fn lemma_left_on(calls: Seq<WrittenCall>, gap: Seq<char>, short: Seq<char>, chunk: Seq<char>)
    requires
        (short + chunk).is_prefix_of(calls_rest(calls, gap)),
    ensures
        ({
            let n = short.len() as int;
            let m = n + chunk.len();
            let k = taken(calls, gap, n);
            let b = behind(calls, gap, n);
            let later = calls.skip(k as int);
            let left = short.skip(b);
            let k2 = taken(later, gap, m - b);
            &&& k <= calls.len()
            &&& k2 <= later.len()
            &&& 0 <= b <= n
            &&& (left + chunk).len() == m - b
            &&& (short + chunk).skip(b) == left + chunk
            &&& (left + chunk).is_prefix_of(calls_rest(later, gap))
            &&& taken(calls, gap, m) == k + k2
            &&& later.skip(k2 as int) == calls.skip((k + k2) as int)
            &&& (left + chunk).skip(behind(later, gap, m - b)) == (short + chunk).skip(behind(calls, gap, m))
        }),
{
    let n = short.len() as int;
    let m = n + chunk.len();
    let all = short + chunk;
    let k = taken(calls, gap, n);
    let b = behind(calls, gap, n);
    let later = calls.skip(k as int);
    let left = short.skip(b);
    lemma_taken_more(calls, gap, n, m);
    assert(all =~= calls_rest(calls, gap).subrange(0, m));
    lemma_rest_behind(calls, gap, n);
    assert(all.skip(b) =~= left + chunk);
    assert(left + chunk =~= calls_rest(calls, gap).skip(b).subrange(0, m - b));
    lemma_behind_bound(later, gap, m - b);
    let k2 = taken(later, gap, m - b);
    assert(later.skip(k2 as int) =~= calls.skip((k + k2) as int));
    assert((left + chunk).skip(behind(later, gap, m - b)) =~= all.skip(behind(calls, gap, m)));
}

/// What was given of some calls, and what is given of the next.
proof fn lemma_given_on(
    calls: Seq<WrittenCall>,
    tools: Seq<Tool>,
    k: nat,
    k2: nat,
    given: Seq<ItemView>,
    more: Seq<ItemView>,
)
    requires
        k + k2 <= calls.len(),
        names_of(given) == names_from(calls.take(k as int), 0),
        names_of(more) == names_of(Seq::empty()) + names_from(calls.skip(k as int).take(k2 as int), k),
    ensures
        names_of(given + more) == names_from(calls.take((k + k2) as int), 0),
        given == items_from(calls.take(k as int), 0, tools) && more == Seq::<ItemView>::empty()
            + items_from(calls.skip(k as int).take(k2 as int), k, tools) ==> given + more == items_from(
            calls.take((k + k2) as int),
            0,
            tools,
        ),
{
    lemma_rows_meet(calls, k as int, k2 as int, tools, 0);
    lemma_names(given, more);
    let extra = calls.skip(k as int).take(k2 as int);
    assert(names_of(Seq::<ItemView>::empty()) =~= Seq::empty());
    assert(Seq::<ItemView>::empty() + names_from(extra, k) =~= names_from(extra, k));
    assert(Seq::<ItemView>::empty() + items_from(extra, k, tools) =~= items_from(extra, k, tools));
}

/// The next chunk, in the block.
#[verifier::rlimit(30)]
proof fn lemma_next_in_block(
    calls: Seq<WrittenCall>,
    gap: Seq<char>,
    tools: Seq<Tool>,
    came: Seq<char>,
    chunk: Seq<char>,
    calm: bool,
    st: MinimaxState,
    given: StreamView,
)
    requires
        are_callable(calls, gap, tools),
        opening(Tag::MinimaxBlock).len() <= came.len(),
        (came + chunk).is_prefix_of(block_of(calls, gap)),
        has_come(calls, gap, tools, came, calm, st, given),
    ensures
        ({
            let start = opening(Tag::MinimaxBlock).len() as int;
            let n = came.len() - start;
            let (after, more) = chunk_run(st, chunk, tools);
            has_come(
                calls,
                gap,
                tools,
                came + chunk,
                calm && is_calm(
                    calls.skip(taken(calls, gap, n) as int),
                    gap,
                    tools,
                    (came + chunk).skip(start).skip(behind(calls, gap, n)),
                ),
                after,
                given_both(given, more),
            )
        }),
{
    let start = opening(Tag::MinimaxBlock).len() as int;
    let short = came.skip(start);
    let n = short.len() as int;
    let k = taken(calls, gap, n);
    let later = calls.skip(k as int);
    let left = short.skip(behind(calls, gap, n));
    let all = short + chunk;
    let total = came + chunk;
    assert(total.skip(start) =~= all);
    assert(all.is_prefix_of(calls_rest(calls, gap))) by {
        assert(total =~= block_of(calls, gap).subrange(0, total.len() as int));
        assert(all =~= calls_rest(calls, gap).subrange(0, all.len() as int));
    }
    lemma_left_on(calls, gap, short, chunk);
    assert forall|i: int| 0 <= i < later.len() implies is_callable(#[trigger] later[i], gap, tools) by {
        assert(later[i] == calls[i + k]);
    }
    lemma_rested_chunk(st, later, gap, tools, k, left, chunk);
    let (after, more) = chunk_run(st, chunk, tools);
    let k2 = taken(later, gap, (left + chunk).len() as int);
    lemma_given_on(calls, tools, k, k2, given.calls, more.calls);
    lemma_rows_meet(calls, k as int, k2 as int, tools, 0);
}

/// What is left behind the calls that are complete.
proof fn lemma_rest_behind(calls: Seq<WrittenCall>, gap: Seq<char>, n: int)
    requires
        0 <= n <= calls_rest(calls, gap).len(),
    ensures
        ({
            let k = taken(calls, gap, n);
            let b = behind(calls, gap, n);
            &&& k <= calls.len()
            &&& 0 <= b <= n
            &&& calls_rest(calls, gap).skip(b) == calls_rest(calls.skip(k as int), gap)
        }),
    decreases calls.len(),
{
    let text = calls_rest(calls, gap);
    if calls.len() == 0 || n < head_len(calls, gap) {
        assert(calls.skip(0) =~= calls);
        assert(text.skip(0) =~= text);
    } else {
        let h = head_len(calls, gap);
        let later = calls.drop_first();
        lemma_rest_behind(later, gap, n - h);
        let k = taken(later, gap, n - h);
        let b = behind(later, gap, n - h);
        assert(text.skip(h + b) =~= calls_rest(later, gap).skip(b));
        assert(later.skip(k as int) =~= calls.skip(k as int + 1));
    }
}

/// Chunks that make up a beginning of a block.
proof fn lemma_block_chunks(calls: Seq<WrittenCall>, gap: Seq<char>, tools: Seq<Tool>, chunks: Seq<Seq<char>>)
    requires
        calls.len() > 0,
        are_callable(calls, gap, tools),
        chunks_text(chunks).is_prefix_of(block_of(calls, gap)),
    ensures
        has_come(
            calls,
            gap,
            tools,
            chunks_text(chunks),
            are_calm(calls, gap, tools, chunks),
            chunks_run(initial(), chunks, tools).0,
            chunks_run(initial(), chunks, tools).1,
        ),
    decreases chunks.len(),
{
    let start = opening(Tag::MinimaxBlock);
    reveal_strlit("<minimax:tool_call>");
    if chunks.len() == 0 {
        assert(MinimaxState { buffer: Seq::empty(), ..initial() } =~= initial());
    } else {
        let all = block_of(calls, gap);
        let came = chunks_text(chunks.drop_last());
        let chunk = chunks.last();
        assert(came =~= all.subrange(0, came.len() as int)) by {
            assert(came + chunk =~= all.subrange(0, (came + chunk).len() as int));
            assert(came =~= (came + chunk).subrange(0, came.len() as int));
        }
        lemma_block_chunks(calls, gap, tools, chunks.drop_last());
        let (before, first) = chunks_run(initial(), chunks.drop_last(), tools);
        let (after, more) = chunk_run(before, chunk, tools);
        if came.len() < start.len() {
            lemma_block_begun(calls, gap, tools, came + chunk);
            assert(before.buffer + chunk == came + chunk);
            assert(given_both(nothing(), more) =~= more);
        } else {
            lemma_next_in_block(
                calls,
                gap,
                tools,
                came,
                chunk,
                are_calm(calls, gap, tools, chunks.drop_last()),
                before,
                first,
            );
        }
    }
}

/// What was sent of each call that is complete and calmly cut, when chunks came in that make up a
/// beginning of a block.
spec fn has_sent_each(
    calls: Seq<WrittenCall>,
    gap: Seq<char>,
    tools: Seq<Tool>,
    chunks: Seq<Seq<char>>,
    st: MinimaxState,
) -> bool {
    let n = chunks_text(chunks).len() - opening(Tag::MinimaxBlock).len();
    n >= 0 ==> forall|i: int|
        0 <= i < taken(calls, gap, n) && is_calmly_cut(calls, gap, tools, chunks, i) ==> (
        #[trigger] st.streamed[i]) == sent_object(stream_params(calls[i], tools))
}

/// The chunk with which the block begins.
proof fn lemma_first_sent(
    calls: Seq<WrittenCall>,
    gap: Seq<char>,
    tools: Seq<Tool>,
    chunks: Seq<Seq<char>>,
)
    requires
        calls.len() > 0,
        are_callable(calls, gap, tools),
        chunks.len() > 0,
        chunks_text(chunks).is_prefix_of(block_of(calls, gap)),
        chunks_text(chunks.drop_last()).len() < opening(Tag::MinimaxBlock).len() <= chunks_text(chunks).len(),
    ensures
        has_sent_each(
            calls,
            gap,
            tools,
            chunks,
            run(MinimaxState { buffer: chunks_text(chunks), ..initial() }, nothing(), tools).0,
        ),
{
    reveal(run);
    let start = opening(Tag::MinimaxBlock);
    let all = block_of(calls, gap);
    let came = chunks_text(chunks);
    let st = MinimaxState { buffer: came, ..initial() };
    let short = came.skip(start.len() as int);
    assert(came =~= all.subrange(0, came.len() as int));
    assert(short =~= calls_rest(calls, gap).subrange(0, short.len() as int));
    assert(came.subrange(0, start.len() as int) =~= start);
    assert(occurs_at(came, start, 0));
    assert(first_at(came, start, 0));
    lemma_find(came, start);
    let next = step(st, nothing(), tools);
    assert(came.take(0) =~= Seq::empty());
    assert(next.out =~= nothing());
    assert(next.state.buffer =~= short);
    assert(before_name(next.state));
    assert(run(st, nothing(), tools) == run(next.state, next.out, tools));
    lemma_calls_run(next.state, nothing(), calls, gap, tools, short);
    let end = run(st, nothing(), tools).0;
    assert(calls.skip(0) =~= calls);
    assert(short.skip(0) =~= short);
    assert forall|i: int|
        0 <= i < taken(calls, gap, short.len() as int) && is_calmly_cut(calls, gap, tools, chunks, i) implies (
    #[trigger] end.streamed[i]) == sent_object(stream_params(calls[i], tools)) by {
        assert(ends_calm(calls, gap, tools, short, i));
        assert(end.streamed[next_call(next.state) + i] == sent_object(stream_params(calls[i], tools)));
    }
}

/// The next chunk, in the block.
#[verifier::rlimit(30)]
proof fn lemma_next_sent(
    calls: Seq<WrittenCall>,
    gap: Seq<char>,
    tools: Seq<Tool>,
    chunks: Seq<Seq<char>>,
    st: MinimaxState,
    given: StreamView,
    calm: bool,
)
    requires
        are_callable(calls, gap, tools),
        chunks.len() > 0,
        chunks_text(chunks).is_prefix_of(block_of(calls, gap)),
        opening(Tag::MinimaxBlock).len() <= chunks_text(chunks.drop_last()).len(),
        has_come(calls, gap, tools, chunks_text(chunks.drop_last()), calm, st, given),
        has_sent_each(calls, gap, tools, chunks.drop_last(), st),
    ensures
        has_sent_each(calls, gap, tools, chunks, chunk_run(st, chunks.last(), tools).0),
{
    let start = opening(Tag::MinimaxBlock).len() as int;
    let came = chunks_text(chunks.drop_last());
    let chunk = chunks.last();
    let short = came.skip(start);
    let n = short.len() as int;
    let k = taken(calls, gap, n);
    let later = calls.skip(k as int);
    let left = short.skip(behind(calls, gap, n));
    let total = came + chunk;
    let whole = short + chunk;
    assert(total.skip(start) =~= whole);
    assert(whole.is_prefix_of(calls_rest(calls, gap))) by {
        assert(total =~= block_of(calls, gap).subrange(0, total.len() as int));
        assert(whole =~= calls_rest(calls, gap).subrange(0, whole.len() as int));
    }
    lemma_left_on(calls, gap, short, chunk);
    assert forall|i: int| 0 <= i < later.len() implies is_callable(#[trigger] later[i], gap, tools) by {
        assert(later[i] == calls[i + k]);
    }
    lemma_rested_chunk(st, later, gap, tools, k, left, chunk);
    let after = chunk_run(st, chunk, tools).0;
    assert forall|i: int|
        0 <= i < taken(calls, gap, n + chunk.len()) && is_calmly_cut(calls, gap, tools, chunks, i) implies (
    #[trigger] after.streamed[i]) == sent_object(stream_params(calls[i], tools)) by {
        if i < k {
            assert(is_calmly_cut(calls, gap, tools, chunks.drop_last(), i));
            assert(st.streamed[i] == sent_object(stream_params(calls[i], tools)));
        } else {
            assert(ends_calm(later, gap, tools, left + chunk, i - k));
            assert(later[i - k] == calls[i]);
            assert(after.streamed[next_call(st) + (i - k)] == sent_object(
                stream_params(later[i - k], tools),
            ));
        }
    }
}

/// Chunks that make up a beginning of a block, call by call; and what is recorded as sent is what
/// the pieces hold.
proof fn lemma_each_sent(calls: Seq<WrittenCall>, gap: Seq<char>, tools: Seq<Tool>, chunks: Seq<Seq<char>>)
    requires
        calls.len() > 0,
        are_callable(calls, gap, tools),
        chunks_text(chunks).is_prefix_of(block_of(calls, gap)),
    ensures
        ({
            let (st, given) = chunks_run(initial(), chunks, tools);
            &&& has_sent_each(calls, gap, tools, chunks, st)
            &&& grown(initial().streamed, given.calls, st.streamed)
            &&& valid(st)
        }),
    decreases chunks.len(),
{
    let start = opening(Tag::MinimaxBlock);
    if chunks.len() == 0 {
        reveal_strlit("<minimax:tool_call>");
        lemma_grown_none(initial().streamed);
    } else {
        let all = block_of(calls, gap);
        let came = chunks_text(chunks.drop_last());
        let chunk = chunks.last();
        assert(came =~= all.subrange(0, came.len() as int)) by {
            assert(came + chunk =~= all.subrange(0, (came + chunk).len() as int));
            assert(came =~= (came + chunk).subrange(0, came.len() as int));
        }
        lemma_each_sent(calls, gap, tools, chunks.drop_last());
        lemma_block_chunks(calls, gap, tools, chunks.drop_last());
        let (before, first) = chunks_run(initial(), chunks.drop_last(), tools);
        let (after, more) = chunk_run(before, chunk, tools);
        crate::minimax::law_chunk_sends(before, chunk, tools);
        lemma_grown(initial().streamed, first.calls, before.streamed, more.calls, after.streamed);
        if came.len() < start.len() {
            assert(before.buffer + chunk == came + chunk);
            if (came + chunk).len() >= start.len() {
                lemma_first_sent(calls, gap, tools, chunks);
            }
        } else {
            lemma_next_sent(
                calls,
                gap,
                tools,
                chunks,
                before,
                first,
                are_calm(calls, gap, tools, chunks.drop_last()),
            );
        }
    }
}

/// The pieces of a call of a block make up the object of its parameters, from which they are read
/// back, whatever comes in with the other calls: as long as no parameter of a later call stands in
/// the chunk that completes this one. So it is of the last call, however the text is cut.
pub proof fn law_block_streams_each_call(
    calls: Seq<WrittenCall>,
    gap: Seq<char>,
    chunks: Seq<Seq<char>>,
    tools: Seq<Tool>,
    i: int,
)
    requires
        are_callable(calls, gap, tools),
        0 <= i < calls.len(),
        is_calmly_cut(calls, gap, tools, chunks, i),
        chunks_text(chunks) == block_text(Tag::MinimaxBlock, minimax_calls(calls, gap)),
    ensures
        ({
            let (end, given) = chunks_run(initial(), chunks, tools);
            let params = read_params(calls[i].params, trim(calls[i].name), tools, true);
            let sent = sent_args(given.calls, i as nat);
            &&& end.streamed[i] == sent
            &&& params.len() == 0 ==> sent.len() == 0
            &&& params.len() > 0 && are_json(params) ==> read_object(sent) == Some(params)
        }),
{
    let all = block_of(calls, gap);
    lemma_block_written(calls, gap);
    assert(all =~= all.subrange(0, all.len() as int));
    lemma_each_sent(calls, gap, tools, chunks);
    lemma_block_chunks(calls, gap, tools, chunks);
    lemma_all_taken(calls, gap);
    let (end, given) = chunks_run(initial(), chunks, tools);
    let params = stream_params(calls[i], tools);
    assert(end.streamed[i] == sent_object(params));
    lemma_block_whole(calls, gap, chunks, tools);
    assert(text_of(end.streamed, i as nat) == text_of(initial().streamed, i as nat) + sent_args(
        given.calls,
        i as nat,
    ));
    assert(Seq::<char>::empty() + sent_args(given.calls, i as nat) =~= sent_args(given.calls, i as nat));
    if params.len() > 0 && are_json(params) {
        law_streamed_object_read_back(params);
    }
}

/// The last call of a block is calmly cut, however the text is cut, where it can be streamed.
pub proof fn law_last_call_calm(
    calls: Seq<WrittenCall>,
    gap: Seq<char>,
    chunks: Seq<Seq<char>>,
    tools: Seq<Tool>,
)
    requires
        calls.len() > 0,
        is_spaces(gap),
        is_streamable(calls.last(), gap, tools),
        chunks_text(chunks) == block_text(Tag::MinimaxBlock, minimax_calls(calls, gap)),
    ensures
        is_calmly_cut(calls, gap, tools, chunks, calls.len() - 1),
{
    let all = block_of(calls, gap);
    lemma_block_written(calls, gap);
    assert(all =~= all.subrange(0, all.len() as int));
    lemma_all_taken(calls, gap);
    lemma_last_calm(calls, gap, tools, chunks);
}

/// When the last call is complete, it is calmly cut.
proof fn lemma_last_calm(calls: Seq<WrittenCall>, gap: Seq<char>, tools: Seq<Tool>, chunks: Seq<Seq<char>>)
    requires
        calls.len() > 0,
        is_spaces(gap),
        is_streamable(calls.last(), gap, tools),
        chunks_text(chunks).is_prefix_of(block_of(calls, gap)),
        chunks_text(chunks).len() >= opening(Tag::MinimaxBlock).len(),
        taken(calls, gap, chunks_text(chunks).len() - opening(Tag::MinimaxBlock).len()) == calls.len(),
    ensures
        is_calmly_cut(calls, gap, tools, chunks, calls.len() - 1),
    decreases chunks.len(),
{
    let start = opening(Tag::MinimaxBlock).len() as int;
    assert(start > 0) by {
        reveal_strlit("<minimax:tool_call>");
    }
    let all = block_of(calls, gap);
    if chunks.len() == 0 {
        assert(chunks_text(chunks).len() == 0);
    } else {
        let came = chunks_text(chunks.drop_last());
        let chunk = chunks.last();
        let total = came + chunk;
        let n = came.len() - start;
        assert(total =~= all.subrange(0, total.len() as int));
        assert(came =~= all.subrange(0, came.len() as int)) by {
            assert(came =~= total.subrange(0, came.len() as int));
        }
        let rest = total.skip(start);
        assert(rest =~= calls_rest(calls, gap).subrange(0, rest.len() as int));
        if n < 0 {
            assert(calls.skip(0) =~= calls);
            assert(rest.skip(0) =~= rest);
            lemma_last_ends(calls, gap, tools, rest);
        } else {
            let k = taken(calls, gap, n);
            lemma_behind_bound(calls, gap, n);
            if k == calls.len() {
                lemma_last_calm(calls, gap, tools, chunks.drop_last());
            } else {
                let short = came.skip(start);
                assert(short + chunk =~= rest);
                lemma_left_on(calls, gap, short, chunk);
                let later = calls.skip(k as int);
                assert(later.last() == calls.last());
                lemma_last_ends(later, gap, tools, rest.skip(behind(calls, gap, n)));
            }
        }
    }
}

/// The last call ends calmly, where all are complete.
proof fn lemma_last_ends(calls: Seq<WrittenCall>, gap: Seq<char>, tools: Seq<Tool>, short: Seq<char>)
    requires
        calls.len() > 0,
        is_spaces(gap),
        is_streamable(calls.last(), gap, tools),
        short.is_prefix_of(calls_rest(calls, gap)),
        taken(calls, gap, short.len() as int) == calls.len(),
    ensures
        ends_calm(calls, gap, tools, short, calls.len() - 1),
    decreases calls.len(),
{
    lemma_first_taken(calls, gap, short);
    let rest = short.skip(head_len(calls, gap));
    let later = calls.drop_first();
    if calls.len() == 1 {
        assert(later =~= Seq::empty());
        lemma_tail_follow(gap, rest);
    } else {
        assert(later.last() == calls.last());
        lemma_last_ends(later, gap, tools, rest);
    }
}

/// All of the calls of a block are complete when all of it came in.
proof fn lemma_all_taken(calls: Seq<WrittenCall>, gap: Seq<char>)
    ensures
        taken(calls, gap, calls_rest(calls, gap).len() as int) == calls.len(),
        behind(calls, gap, calls_rest(calls, gap).len() as int) == calls_rest(calls, gap).len()
            - block_tail(gap).len(),
    decreases calls.len(),
{
    if calls.len() > 0 {
        lemma_all_taken(calls.drop_first(), gap);
    }
}

/// A block of calls, with white space round them, names all of its calls however its text is cut
/// into chunks that come in to a new parser: the pieces with a name are the names of the calls, in
/// their order and numbered in it, and no text is given. Behind them the parser is outside any
/// block, and holds nothing back.
pub proof fn law_block_names_all_calls(
    calls: Seq<WrittenCall>,
    gap: Seq<char>,
    chunks: Seq<Seq<char>>,
    tools: Seq<Tool>,
)
    requires
        calls.len() > 0,
        are_callable(calls, gap, tools),
        chunks_text(chunks) == block_text(Tag::MinimaxBlock, minimax_calls(calls, gap)),
    ensures
        ({
            let (end, given) = chunks_run(initial(), chunks, tools);
            let names = names_of(given.calls);
            &&& given.normal_text.len() == 0
            &&& names.len() == calls.len()
            &&& forall|i: int|
                0 <= i < calls.len() ==> #[trigger] names[i] == name_item(i as nat, trim(calls[i].name))
            &&& !end.in_tool_call && !end.waiting && !end.name_sent
            &&& end.buffer.len() == 0
            &&& end.tool == Some(calls.len())
        }),
{
    lemma_block_written(calls, gap);
    lemma_block_whole(calls, gap, chunks, tools);
    let (end, given) = chunks_run(initial(), chunks, tools);
    assert(calls.take(calls.len() as int) =~= calls);
}

/// All of a block came in.
proof fn lemma_block_whole(calls: Seq<WrittenCall>, gap: Seq<char>, chunks: Seq<Seq<char>>, tools: Seq<Tool>)
    requires
        calls.len() > 0,
        are_callable(calls, gap, tools),
        chunks_text(chunks) == block_of(calls, gap),
    ensures
        ({
            let (end, given) = chunks_run(initial(), chunks, tools);
            &&& given.normal_text.len() == 0
            &&& names_of(given.calls) == names_from(calls, 0)
            &&& valid(end) && !end.name_sent
            &&& !end.in_tool_call && !end.waiting && end.buffer.len() == 0
            &&& next_call(end) == calls.len()
            &&& are_calm(calls, gap, tools, chunks) ==> given.calls == items_from(calls, 0, tools)
                && end.streamed == objects_of(calls, tools)
        }),
{
    let all = block_of(calls, gap);
    let start = opening(Tag::MinimaxBlock).len() as int;
    assert(all =~= all.subrange(0, all.len() as int));
    lemma_block_chunks(calls, gap, tools, chunks);
    lemma_all_taken(calls, gap);
    let short = all.skip(start);
    assert(short =~= calls_rest(calls, gap));
    assert(calls.take(calls.len() as int) =~= calls);
    assert(calls.skip(calls.len() as int) =~= Seq::empty());
    let left = short.skip(behind(calls, gap, short.len() as int));
    lemma_behind_bound(calls, gap, short.len() as int);
    assert(left.len() == block_tail(gap).len());
    assert(all.len() >= start);
}

/// The pieces of one call hold its arguments, and nothing of another call.
proof fn lemma_items_hold(id: nat, name: Seq<char>, params: Seq<(Seq<char>, ParamView)>, index: nat)
    ensures
        sent_args(sent_items(id, name, params), index) == (if index == id {
            sent_object(params)
        } else {
            Seq::empty()
        }),
{
    reveal_strlit("{");
    reveal_strlit("}");
    let none = Seq::<char>::empty();
    let first = opening_fragment(params);
    let items = sent_items(id, name, params);
    let one = seq![name_item(id, name)];
    assert(one.drop_last() =~= Seq::empty());
    assert(sent_args(one.drop_last(), index) =~= none);
    assert(none + none =~= none);
    assert(sent_args(one, index) =~= none);
    if params.len() > 0 {
        assert(items =~= seq![name_item(id, name), args_item(id, first), args_item(id, "}"@)]);
        assert(items.drop_last() =~= seq![name_item(id, name), args_item(id, first)]);
        let two = items.drop_last();
        assert(two.drop_last() =~= one);
        assert(two.last() == args_item(id, first));
        assert(none + first =~= first);
        assert(sent_args(two, index) == if index == id {
            first
        } else {
            none
        });
        assert(items.last() == args_item(id, "}"@));
    }
}

/// The pieces of calls hold the arguments of each.
proof fn lemma_all_hold(calls: Seq<WrittenCall>, n: nat, tools: Seq<Tool>, index: nat)
    ensures
        sent_args(items_from(calls, n, tools), index) == (if n <= index < n + calls.len() {
            sent_object(stream_params(calls[index - n], tools))
        } else {
            Seq::empty()
        }),
    decreases calls.len(),
{
    let none = Seq::<char>::empty();
    if calls.len() > 0 {
        let later = calls.drop_first();
        let params = stream_params(calls[0], tools);
        let items = sent_items(n, trim(calls[0].name), params);
        lemma_items_hold(n, trim(calls[0].name), params, index);
        lemma_all_hold(later, n + 1, tools, index);
        lemma_sent_args(items, items_from(later, n + 1, tools), index);
        if n < index < n + calls.len() {
            assert(later[index - (n + 1)] == calls[index - n]);
        }
        assert(none + sent_args(items_from(later, n + 1, tools), index) =~= sent_args(
            items_from(later, n + 1, tools),
            index,
        ));
        assert(sent_object(params) + none =~= sent_object(params));
    }
}

/// A block of calls, with white space round them, streams as all of its calls however its text is
/// cut into chunks that come in to a new parser, where no chunk that completes a call holds a
/// parameter of a later one: the pieces with a name are the names of the calls, in their order;
/// the pieces of each call make up the object of its parameters, from which they are read back;
/// and this is what is kept of each call that was sent.
pub proof fn law_block_streams_all_calls(
    calls: Seq<WrittenCall>,
    gap: Seq<char>,
    chunks: Seq<Seq<char>>,
    tools: Seq<Tool>,
)
    requires
        calls.len() > 0,
        are_callable(calls, gap, tools),
        are_calm(calls, gap, tools, chunks),
        chunks_text(chunks) == block_text(Tag::MinimaxBlock, minimax_calls(calls, gap)),
    ensures
        ({
            let (end, given) = chunks_run(initial(), chunks, tools);
            let names = names_of(given.calls);
            &&& given.normal_text.len() == 0
            &&& names.len() == calls.len()
            &&& end.streamed.len() == calls.len()
            &&& forall|i: int|
                0 <= i < calls.len() ==> {
                    let params = read_params(calls[i].params, trim(calls[i].name), tools, true);
                    let sent = sent_args(given.calls, i as nat);
                    &&& #[trigger] names[i] == name_item(i as nat, trim(calls[i].name))
                    &&& end.streamed[i] == sent
                    &&& params.len() == 0 ==> sent.len() == 0
                    &&& params.len() > 0 && are_json(params) ==> read_object(sent) == Some(params)
                }
        }),
{
    lemma_block_written(calls, gap);
    lemma_block_whole(calls, gap, chunks, tools);
    let (end, given) = chunks_run(initial(), chunks, tools);
    let names = names_of(given.calls);
    assert forall|i: int| 0 <= i < calls.len() implies {
        let params = read_params(calls[i].params, trim(calls[i].name), tools, true);
        let sent = sent_args(given.calls, i as nat);
        &&& #[trigger] names[i] == name_item(i as nat, trim(calls[i].name))
        &&& end.streamed[i] == sent
        &&& params.len() == 0 ==> sent.len() == 0
        &&& params.len() > 0 && are_json(params) ==> read_object(sent) == Some(params)
    } by {
        lemma_all_hold(calls, 0, tools, i as nat);
        let params = stream_params(calls[i], tools);
        if params.len() > 0 && are_json(params) {
            law_streamed_object_read_back(params);
        }
    }
}

/// Each of the values is printed as JSON.
pub open spec fn are_json(params: Seq<(Seq<char>, ParamView)>) -> bool {
    forall|i: int| 0 <= i < params.len() ==> is_json((#[trigger] params[i]).1)
}

/// The object that a stream makes up of parameters is read back as these parameters.
pub proof fn law_streamed_object_read_back(params: Seq<(Seq<char>, ParamView)>)
    requires
        are_json(params),
    ensures
        read_object(streamed_object(params)) == Some(params),
{
    reveal_strlit(": ");
    reveal_strlit(", ");
    assert(": "@ =~= seq![':', ' ']);
    assert(", "@ =~= seq![',', ' ']);
    law_members_read_back(params, ": "@, ", "@);
}

// ---------------------------------------------------------------------------
// DeepSeek V3.2
// ---------------------------------------------------------------------------

/// DSML calls in a block, with white space round them, and the tag that closes the block.
pub open spec fn dsml_calls_rest(calls: Seq<DsmlCall>, gap: Seq<char>) -> Seq<char>
    decreases calls.len(),
{
    if calls.len() == 0 {
        dsml_tail(gap)
    } else {
        gap + (dsml_invoke(calls[0], gap) + dsml_calls_rest(calls.drop_first(), gap))
    }
}

/// A block of DSML calls.
pub open spec fn dsml_block_of(calls: Seq<DsmlCall>, gap: Seq<char>) -> Seq<char> {
    opening(Tag::DsmlBlock) + dsml_calls_rest(calls, gap)
}

/// Where call `k` of a block begins, with the white space before it.
pub open spec fn dsml_place(calls: Seq<DsmlCall>, gap: Seq<char>, k: nat) -> int
    decreases k,
{
    if k == 0 {
        opening(Tag::DsmlBlock).len() as int
    } else {
        dsml_place(calls, gap, (k - 1) as nat) + gap.len() + dsml_invoke(calls[k - 1], gap).len()
    }
}

/// Each of the calls can be streamed, and there is a tool of its name.
pub open spec fn dsml_can_all_stream(calls: Seq<DsmlCall>, gap: Seq<char>, tools: Seq<Tool>) -> bool {
    is_spaces(gap) && forall|i: int|
        0 <= i < calls.len() ==> dsml_streamable(#[trigger] calls[i], gap) && has_tool(
            tools,
            trim(calls[i].name),
        )
}

/// The pieces with the names of the first `k` calls.
pub open spec fn dsml_names_of(calls: Seq<DsmlCall>, k: nat) -> Seq<ItemView> {
    Seq::new(k, |i: int| name_item(i as nat, trim(calls[i].name)))
}

/// What was sent of the first `k` calls, and the pieces with a name: theirs, and that of call `k`
/// where it was sent.
pub open spec fn dsml_sent(calls: Seq<DsmlCall>, k: nat, st: DsmlState, names: Seq<ItemView>) -> bool {
    &&& deepseek::valid(st)
    &&& k <= calls.len()
    &&& deepseek::call_number(st) == k
    &&& k > 0 ==> st.tool is Some
    &&& forall|i: int|
        0 <= i < k ==> (#[trigger] st.streamed[i]) == dsml_read_call(calls[i]).arguments && st.records[i] == Some(
            dsml_read_call(calls[i]),
        )
    &&& st.name_sent ==> k < calls.len()
    &&& names == if st.name_sent {
        dsml_names_of(calls, k + 1)
    } else {
        dsml_names_of(calls, k)
    }
}

/// The parser is in the block of the calls, at call `k` or behind all of them, when `came` came in.
pub open spec fn dsml_going(
    calls: Seq<DsmlCall>,
    gap: Seq<char>,
    k: nat,
    came: Seq<char>,
    st: DsmlState,
    names: Seq<ItemView>,
) -> bool {
    &&& dsml_sent(calls, k, st, names)
    &&& dsml_place(calls, gap, k) <= came.len()
    &&& st.in_block
    &&& st.buffer == came.skip(dsml_place(calls, gap, k))
    &&& k < calls.len() ==> at_call(st, dsml_read_call(calls[k as int]).arguments)
}

/// The parser rests at call `k`, or behind all of them, when `came` came in.
pub open spec fn dsml_resting(
    calls: Seq<DsmlCall>,
    gap: Seq<char>,
    k: nat,
    came: Seq<char>,
    st: DsmlState,
    names: Seq<ItemView>,
) -> bool {
    if came.len() == dsml_block_of(calls, gap).len() {
        &&& k == calls.len()
        &&& dsml_sent(calls, k, st, names)
        &&& !st.in_block && st.buffer.len() == 0 && !st.name_sent
    } else {
        &&& dsml_going(calls, gap, k, came, st, names)
        &&& k < calls.len() ==> came.len() - dsml_place(calls, gap, k) < gap.len() + dsml_invoke(
            calls[k as int],
            gap,
        ).len()
    }
}

/// What stands in the block from a call on.
proof fn lemma_dsml_place(calls: Seq<DsmlCall>, gap: Seq<char>, k: nat)
    requires
        k <= calls.len(),
    ensures
        0 <= dsml_place(calls, gap, k) <= dsml_block_of(calls, gap).len(),
        dsml_block_of(calls, gap).skip(dsml_place(calls, gap, k)) == dsml_calls_rest(
            calls.skip(k as int),
            gap,
        ),
    decreases k,
{
    let text = dsml_block_of(calls, gap);
    if k == 0 {
        assert(calls.skip(0) =~= calls);
        assert(text.skip(dsml_place(calls, gap, 0)) =~= dsml_calls_rest(calls, gap));
    } else {
        let j = (k - 1) as nat;
        lemma_dsml_place(calls, gap, j);
        let from = dsml_place(calls, gap, j);
        let later = calls.skip(j as int);
        let invoke = dsml_invoke(calls[j as int], gap);
        assert(later[0] == calls[j as int]);
        assert(later.drop_first() =~= calls.skip(k as int));
        let rest = dsml_calls_rest(calls.skip(k as int), gap);
        assert(text.skip(from) == gap + (invoke + rest));
        assert(text.skip(from).len() == text.len() - from);
        assert(text.skip(from).skip((gap.len() + invoke.len()) as int) =~= rest);
        assert(text.skip(from + gap.len() + invoke.len()) =~= text.skip(from).skip(
            (gap.len() + invoke.len()) as int,
        ));
    }
}

/// The names among pieces that were given before, and among those that are given now.
proof fn lemma_dsml_names_on(before: Seq<ItemView>, a: Seq<ItemView>, b: Seq<ItemView>, more: Seq<ItemView>)
    requires
        names_of(b) == names_of(a) + more,
    ensures
        names_of(before + b) == names_of(before + a) + more,
{
    lemma_names(before, a);
    lemma_names(before, b);
    assert(names_of(before) + (names_of(a) + more) =~= names_of(before) + names_of(a) + more);
}

/// Behind the calls that were named, the one that comes in is named, once.
proof fn lemma_dsml_named_on(
    calls: Seq<DsmlCall>,
    k: nat,
    st: DsmlState,
    before: Seq<ItemView>,
    a: Seq<ItemView>,
    b: Seq<ItemView>,
)
    requires
        k < calls.len(),
        deepseek::call_number(st) == k,
        names_of(before + a) == (if st.name_sent {
            dsml_names_of(calls, k + 1)
        } else {
            dsml_names_of(calls, k)
        }),
        names_of(b) == names_of(a) + first_name(st, trim(calls[k as int].name)),
    ensures
        names_of(before + b) == dsml_names_of(calls, k + 1),
{
    let name = name_item(k, trim(calls[k as int].name));
    lemma_dsml_names_on(before, a, b, first_name(st, trim(calls[k as int].name)));
    if st.name_sent {
        assert(dsml_names_of(calls, k + 1) + Seq::<ItemView>::empty() =~= dsml_names_of(calls, k + 1));
    } else {
        assert(dsml_names_of(calls, k) + seq![name] =~= dsml_names_of(calls, k + 1));
    }
}

/// What came in from a call on.
proof fn lemma_dsml_at_place(calls: Seq<DsmlCall>, gap: Seq<char>, k: nat, came: Seq<char>)
    requires
        k < calls.len(),
        came.is_prefix_of(dsml_block_of(calls, gap)),
        came.len() >= dsml_place(calls, gap, k),
    ensures
        ({
            let from = dsml_place(calls, gap, k);
            let to = dsml_place(calls, gap, k + 1);
            let whole = gap + dsml_invoke(calls[k as int], gap);
            &&& 0 <= from <= to <= dsml_block_of(calls, gap).len()
            &&& came.len() >= to ==> came.skip(from) == gap + (dsml_invoke(calls[k as int], gap) + came.skip(to))
            &&& came.len() < to ==> came.skip(from).is_prefix_of(whole) && came.skip(from).len() < whole.len()
        }),
{
    let from = dsml_place(calls, gap, k);
    let to = dsml_place(calls, gap, k + 1);
    let text = dsml_block_of(calls, gap);
    let invoke = dsml_invoke(calls[k as int], gap);
    let whole = gap + invoke;
    lemma_dsml_place(calls, gap, k);
    lemma_dsml_place(calls, gap, k + 1);
    let later = calls.skip(k as int);
    assert(later[0] == calls[k as int]);
    let last = dsml_calls_rest(later.drop_first(), gap);
    let tail = text.skip(from);
    assert(tail == gap + (invoke + last));
    assert(came =~= text.subrange(0, came.len() as int));
    let part = came.skip(from);
    assert(part =~= tail.subrange(0, part.len() as int));
    if came.len() >= to {
        let rest = came.skip(to);
        assert(rest =~= part.skip(whole.len() as int));
        assert(part =~= gap + (invoke + rest));
    } else {
        assert(part =~= whole.subrange(0, part.len() as int));
    }
}

/// A complete call in the block: it is sent, and the parser is at the next one.
#[verifier::rlimit(30)]
proof fn lemma_dsml_call_passed(
    calls: Seq<DsmlCall>,
    gap: Seq<char>,
    tools: Seq<Tool>,
    k: nat,
    came: Seq<char>,
    st: DsmlState,
    out: StreamView,
    before: Seq<ItemView>,
)
    requires
        dsml_can_all_stream(calls, gap, tools),
        came.is_prefix_of(dsml_block_of(calls, gap)),
        k < calls.len(),
        dsml_going(calls, gap, k, came, st, names_of(before + out.calls)),
        out.normal_text.len() == 0,
        came.len() >= dsml_place(calls, gap, k + 1),
    ensures
        ({
            let next = deepseek::step(st, out, tools);
            &&& next.more
            &&& next.out.normal_text.len() == 0
            &&& dsml_going(calls, gap, k + 1, came, next.state, names_of(before + next.out.calls))
        }),
{
    let call = calls[k as int];
    let to = dsml_place(calls, gap, k + 1);
    assert(dsml_streamable(calls[k as int], gap));
    let rest = came.skip(to);
    lemma_dsml_at_place(calls, gap, k, came);
    lemma_dsml_call_closed(st, out, call, gap, rest, tools);
    let next = deepseek::step(st, out, tools);
    lemma_dsml_named_on(calls, k, st, before, out.calls, next.out.calls);
    lemma_dsml_earlier(st, out, tools, k as int);
    assert forall|i: int| 0 <= i < k + 1 implies (#[trigger] next.state.streamed[i]) == dsml_read_call(
        calls[i],
    ).arguments && next.state.records[i] == Some(dsml_read_call(calls[i])) by {
        if i < k {
            assert(st.streamed[i] == dsml_read_call(calls[i]).arguments);
        }
    }
}

/// A step leaves what was sent of the calls before.
proof fn lemma_dsml_earlier(st: DsmlState, out: StreamView, tools: Seq<Tool>, k: int)
    requires
        deepseek::valid(st),
        k == deepseek::call_number(st),
    ensures
        forall|i: int|
            0 <= i < k ==> (#[trigger] deepseek::step(st, out, tools).state.streamed[i]) == st.streamed[i]
                && deepseek::step(st, out, tools).state.records[i] == st.records[i],
{
    assert forall|i: int| 0 <= i < k implies (#[trigger] deepseek::step(st, out, tools).state.streamed[i])
        == st.streamed[i] && deepseek::step(st, out, tools).state.records[i] == st.records[i] by {
        lemma_dsml_step_keeps(st, out, tools, i);
    }
}

/// A call that is not complete is held.
#[verifier::rlimit(30)]
proof fn lemma_dsml_call_kept(
    calls: Seq<DsmlCall>,
    gap: Seq<char>,
    tools: Seq<Tool>,
    k: nat,
    came: Seq<char>,
    st: DsmlState,
    out: StreamView,
    before: Seq<ItemView>,
)
    requires
        dsml_can_all_stream(calls, gap, tools),
        came.is_prefix_of(dsml_block_of(calls, gap)),
        k < calls.len(),
        dsml_going(calls, gap, k, came, st, names_of(before + out.calls)),
        out.normal_text.len() == 0,
        came.len() < dsml_place(calls, gap, k + 1),
    ensures
        ({
            let (end, given) = deepseek::run(st, out, tools);
            &&& given.normal_text.len() == 0
            &&& dsml_resting(calls, gap, k, came, end, names_of(before + given.calls))
        }),
{
    let call = calls[k as int];
    assert(dsml_streamable(calls[k as int], gap));
    lemma_dsml_at_place(calls, gap, k, came);
    lemma_dsml_call_held(st, out, call, gap, tools);
    let (end, given) = deepseek::run(st, out, tools);
    if end.name_sent {
        lemma_dsml_named_on(calls, k, st, before, out.calls, given.calls);
    } else {
        let none = Seq::<ItemView>::empty();
        assert(names_of(out.calls) + none =~= names_of(out.calls));
        lemma_dsml_names_on(before, out.calls, given.calls, none);
        assert(names_of(before + out.calls) + none =~= names_of(before + out.calls));
    }
    assert(k > 0 ==> end.tool is Some);
    assert forall|i: int| 0 <= i < k implies (#[trigger] end.streamed[i]) == dsml_read_call(calls[i]).arguments
        && end.records[i] == Some(dsml_read_call(calls[i])) by {
        lemma_dsml_run_keeps(st, out, tools, i);
        assert(st.streamed[i] == dsml_read_call(calls[i]).arguments);
    }
    assert(dsml_sent(calls, k, end, names_of(before + given.calls)));
    assert(dsml_going(calls, gap, k, came, end, names_of(before + given.calls)));
    assert(came.len() != dsml_block_of(calls, gap).len());
}

/// The parser in the block runs on.
#[verifier::rlimit(30)]
proof fn lemma_dsml_calls_run(
    calls: Seq<DsmlCall>,
    gap: Seq<char>,
    tools: Seq<Tool>,
    k: nat,
    came: Seq<char>,
    st: DsmlState,
    out: StreamView,
    before: Seq<ItemView>,
) -> (j: nat)
    requires
        dsml_can_all_stream(calls, gap, tools),
        came.is_prefix_of(dsml_block_of(calls, gap)),
        dsml_going(calls, gap, k, came, st, names_of(before + out.calls)),
        out.normal_text.len() == 0,
    ensures
        ({
            let (end, given) = deepseek::run(st, out, tools);
            &&& given.normal_text.len() == 0
            &&& dsml_resting(calls, gap, j, came, end, names_of(before + given.calls))
        }),
    decreases calls.len() - k,
{
    if k < calls.len() {
        if came.len() >= dsml_place(calls, gap, k + 1) {
            lemma_dsml_call_passed(calls, gap, tools, k, came, st, out, before);
            let next = deepseek::step(st, out, tools);
            lemma_dsml_one_step(st, out, tools);
            lemma_dsml_calls_run(calls, gap, tools, k + 1, came, next.state, next.out, before)
        } else {
            lemma_dsml_call_kept(calls, gap, tools, k, came, st, out, before);
            k
        }
    } else {
        let text = dsml_block_of(calls, gap);
        let from = dsml_place(calls, gap, k);
        lemma_dsml_place(calls, gap, k);
        assert(calls.skip(k as int) =~= Seq::empty());
        assert(text.skip(from) == dsml_tail(gap));
        assert(came =~= text.subrange(0, came.len() as int));
        assert(st.buffer =~= dsml_tail(gap).subrange(0, st.buffer.len() as int));
        lemma_dsml_tail_run(gap, st, out, tools);
        k
    }
}

/// What a new parser makes of `came`, a beginning of a block.
pub open spec fn dsml_come(
    calls: Seq<DsmlCall>,
    gap: Seq<char>,
    came: Seq<char>,
    st: DsmlState,
    given: Seq<ItemView>,
) -> bool {
    if came.len() < opening(Tag::DsmlBlock).len() {
        st == DsmlState { buffer: came, ..deepseek::initial() } && given.len() == 0
    } else {
        exists|k: nat| #[trigger] dsml_resting(calls, gap, k, came, st, names_of(given))
    }
}

/// The next chunk, before the block.
proof fn lemma_dsml_begun(calls: Seq<DsmlCall>, gap: Seq<char>, tools: Seq<Tool>, came: Seq<char>)
    requires
        dsml_can_all_stream(calls, gap, tools),
        came.is_prefix_of(dsml_block_of(calls, gap)),
    ensures
        ({
            let st = DsmlState { buffer: came, ..deepseek::initial() };
            let (end, given) = deepseek::run(st, nothing(), tools);
            given.normal_text.len() == 0 && dsml_come(calls, gap, came, end, given.calls)
        }),
{
    let start = opening(Tag::DsmlBlock);
    let all = dsml_block_of(calls, gap);
    let none = Seq::<char>::empty();
    let st = DsmlState { buffer: came, ..deepseek::initial() };
    assert(came =~= all.subrange(0, came.len() as int));
    if came.len() < start.len() {
        assert(came =~= start.subrange(0, came.len() as int));
        lemma_dsml_start_held(came, tools);
    } else {
        assert(came.subrange(0, start.len() as int) =~= start);
        assert(occurs_at(came, start, 0));
        assert(first_at(came, start, 0));
        lemma_find(came, start);
        let next = deepseek::step(st, nothing(), tools);
        reveal_strlit("</｜DSML｜function_calls>");
        reveal_strlit("</｜DSML｜invoke>");
        assert(came.take(0) =~= none);
        deepseek::lemma_shown_plain(none);
        assert(none + none =~= none);
        assert(next.out =~= nothing());
        assert(next.more);
        lemma_dsml_one_step(st, nothing(), tools);
        let before = Seq::<ItemView>::empty();
        assert(before + nothing().calls =~= before);
        assert(names_of(before) =~= dsml_names_of(calls, 0));
        assert(dsml_going(calls, gap, 0, came, next.state, names_of(before + nothing().calls)));
        let j = lemma_dsml_calls_run(calls, gap, tools, 0, came, next.state, nothing(), before);
        let (end, given) = deepseek::run(st, nothing(), tools);
        assert(before + given.calls =~= given.calls);
        assert(dsml_resting(calls, gap, j, came, end, names_of(given.calls)));
    }
}

/// The next chunk of a block.
proof fn lemma_dsml_next(
    calls: Seq<DsmlCall>,
    gap: Seq<char>,
    tools: Seq<Tool>,
    came: Seq<char>,
    chunk: Seq<char>,
    st: DsmlState,
    given: Seq<ItemView>,
)
    requires
        dsml_can_all_stream(calls, gap, tools),
        (came + chunk).is_prefix_of(dsml_block_of(calls, gap)),
        dsml_come(calls, gap, came, st, given),
    ensures
        ({
            let (after, more) = deepseek::chunk_run(st, chunk, tools);
            more.normal_text.len() == 0 && dsml_come(calls, gap, came + chunk, after, given + more.calls)
        }),
{
    let all = dsml_block_of(calls, gap);
    let total = came + chunk;
    let (after, more) = deepseek::chunk_run(st, chunk, tools);
    if came.len() < opening(Tag::DsmlBlock).len() {
        lemma_dsml_begun(calls, gap, tools, total);
        assert(given + more.calls =~= more.calls);
    } else {
        let k = choose|k: nat| #[trigger] dsml_resting(calls, gap, k, came, st, names_of(given));
        let full = DsmlState { buffer: st.buffer + chunk, ..st };
        assert(given + nothing().calls =~= given);
        assert(total =~= all.subrange(0, total.len() as int));
        if came.len() == all.len() {
            assert(total =~= came);
            assert(full.buffer =~= st.buffer);
            assert(full =~= st);
            lemma_dsml_empty_run(st, nothing(), tools);
            assert(dsml_resting(calls, gap, k, total, after, names_of(given + more.calls)));
        } else {
            lemma_dsml_place(calls, gap, k);
            assert(full.buffer =~= total.skip(dsml_place(calls, gap, k)));
            assert(dsml_going(calls, gap, k, total, full, names_of(given + nothing().calls)));
            let j = lemma_dsml_calls_run(calls, gap, tools, k, total, full, nothing(), given);
            assert(dsml_resting(calls, gap, j, total, after, names_of(given + more.calls)));
        }
    }
}

/// Chunks that make up a beginning of a block.
proof fn lemma_dsml_block_chunks(calls: Seq<DsmlCall>, gap: Seq<char>, tools: Seq<Tool>, chunks: Seq<Seq<char>>)
    requires
        dsml_can_all_stream(calls, gap, tools),
        chunks_text(chunks).is_prefix_of(dsml_block_of(calls, gap)),
    ensures
        ({
            let (st, given) = dsml_chunks_run(deepseek::initial(), chunks, tools);
            &&& dsml_come(calls, gap, chunks_text(chunks), st, given.calls)
            &&& given.normal_text.len() == 0
            &&& grown(deepseek::initial().streamed, given.calls, st.streamed)
            &&& deepseek::valid(st)
        }),
    decreases chunks.len(),
{
    if chunks.len() == 0 {
        reveal_strlit("<｜DSML｜function_calls>");
        assert(DsmlState { buffer: Seq::empty(), ..deepseek::initial() } =~= deepseek::initial());
        lemma_grown_none(deepseek::initial().streamed);
    } else {
        let all = dsml_block_of(calls, gap);
        let came = chunks_text(chunks.drop_last());
        let chunk = chunks.last();
        assert(came =~= all.subrange(0, came.len() as int)) by {
            assert(came + chunk =~= all.subrange(0, (came + chunk).len() as int));
            assert(came =~= (came + chunk).subrange(0, came.len() as int));
        }
        lemma_dsml_block_chunks(calls, gap, tools, chunks.drop_last());
        let (before, first) = dsml_chunks_run(deepseek::initial(), chunks.drop_last(), tools);
        let (after, more) = deepseek::chunk_run(before, chunk, tools);
        lemma_dsml_next(calls, gap, tools, came, chunk, before, first.calls);
        deepseek::law_chunk_sends(before, chunk, tools);
        lemma_grown(deepseek::initial().streamed, first.calls, before.streamed, more.calls, after.streamed);
    }
}

/// Calls and the tag that closes their DSML block.
proof fn lemma_dsml_rest_written(calls: Seq<DsmlCall>, gap: Seq<char>)
    ensures
        dsml_calls_rest(calls, gap) == dsml_calls(calls, gap) + closing(Tag::DsmlBlock),
    decreases calls.len(),
{
    let end = closing(Tag::DsmlBlock);
    let none = Seq::<char>::empty();
    let invokes = dsml_invokes(calls, gap);
    if calls.len() == 0 {
        assert(gap + none + end =~= dsml_tail(gap));
    } else {
        let later = calls.drop_first();
        lemma_dsml_rest_written(later, gap);
        assert(dsml_invokes(later, gap) =~= invokes.drop_first());
        assert(invokes[0] == dsml_invoke(calls[0], gap));
        assert(gap + (invokes[0] + (dsml_calls(later, gap) + end)) =~= dsml_calls(calls, gap) + end);
    }
}

/// A block of DSML calls, with white space round them, streams as all of its calls however its text
/// is cut into chunks that come in to a new parser: the pieces with a name are the names of the
/// calls, in their order and numbered in it; the pieces of each call make up its arguments, which
/// are recorded under its name; and no text is given. Behind them the parser is outside any block,
/// and holds nothing back.
pub proof fn law_dsml_block_streams_all_calls(
    calls: Seq<DsmlCall>,
    gap: Seq<char>,
    chunks: Seq<Seq<char>>,
    tools: Seq<Tool>,
)
    requires
        dsml_can_all_stream(calls, gap, tools),
        chunks_text(chunks) == block_text(Tag::DsmlBlock, dsml_calls(calls, gap)),
    ensures
        ({
            let (end, given) = dsml_chunks_run(deepseek::initial(), chunks, tools);
            let names = names_of(given.calls);
            &&& given.normal_text.len() == 0
            &&& names.len() == calls.len()
            &&& end.records.len() == calls.len()
            &&& forall|i: int|
                0 <= i < calls.len() ==> {
                    let call = dsml_read_call(calls[i]);
                    &&& #[trigger] names[i] == name_item(i as nat, trim(calls[i].name))
                    &&& sent_args(given.calls, i as nat) == call.arguments
                    &&& end.records[i] == Some(call)
                    &&& are_json(dsml_read_params(calls[i].params)) ==> read_object(sent_args(given.calls, i as nat)) == Some(
                        dsml_read_params(calls[i].params),
                    )
                }
            &&& !end.in_block && end.buffer.len() == 0
        }),
{
    let all = dsml_block_of(calls, gap);
    assert(all =~= block_text(Tag::DsmlBlock, dsml_calls(calls, gap))) by {
        lemma_dsml_rest_written(calls, gap);
    }
    assert(all =~= all.subrange(0, all.len() as int));
    lemma_dsml_block_chunks(calls, gap, tools, chunks);
    let (end, given) = dsml_chunks_run(deepseek::initial(), chunks, tools);
    let k = choose|k: nat| #[trigger] dsml_resting(calls, gap, k, all, end, names_of(given.calls));
    assert(dsml_resting(calls, gap, k, all, end, names_of(given.calls)));
    let names = names_of(given.calls);
    assert forall|i: int| 0 <= i < calls.len() implies {
        let call = dsml_read_call(calls[i]);
        &&& #[trigger] names[i] == name_item(i as nat, trim(calls[i].name))
        &&& sent_args(given.calls, i as nat) == call.arguments
        &&& end.records[i] == Some(call)
        &&& are_json(dsml_read_params(calls[i].params)) ==> read_object(sent_args(given.calls, i as nat))
            == Some(dsml_read_params(calls[i].params))
    } by {
        assert(end.streamed[i] == dsml_read_call(calls[i]).arguments);
        assert(text_of(end.streamed, i as nat) == text_of(deepseek::initial().streamed, i as nat)
            + sent_args(given.calls, i as nat));
        assert(Seq::<char>::empty() + sent_args(given.calls, i as nat) =~= sent_args(given.calls, i as nat));
        if are_json(dsml_read_params(calls[i].params)) {
            law_arguments_read_back(dsml_read_params(calls[i].params));
        }
    }
}

// ---------------------------------------------------------------------------
// Tags that are cut
// ---------------------------------------------------------------------------

/// The beginning of a closing tag is all held.
proof fn lemma_dsml_end_held(short: Seq<char>, tag: Seq<char>, st: DsmlState, tools: Seq<Tool>)
    requires
        tag == "</｜DSML｜function_calls>"@ || tag == "</｜DSML｜invoke>"@,
        short.is_prefix_of(tag),
        short.len() < tag.len(),
        !st.in_block,
        st.buffer == short,
    ensures
        deepseek::run(st, nothing(), tools) == (st, nothing()),
{
    reveal(deepseek::run);
    let start = opening(Tag::DsmlBlock);
    let none = Seq::<char>::empty();
    reveal_strlit("<｜DSML｜function_calls>");
    reveal_strlit("</｜DSML｜function_calls>");
    reveal_strlit("</｜DSML｜invoke>");
    assert(short =~= tag.subrange(0, short.len() as int));
    lemma_find(short, start);
    assert(!contains(short, start)) by {
        if contains(short, start) {
            let i = choose|i: int| occurs_at(short, start, i);
            let part = short.subrange(i, i + start.len());
            assert(part[0] == short[i] && part[1] == short[i + 1]);
            assert(short[i] == tag[i] && short[i + 1] == tag[i + 1]);
        }
    }
    deepseek::lemma_held(short);
    if short.len() > 0 {
        assert(short.skip(0) =~= short);
        assert(tag.take(short.len() as int) =~= short);
        deepseek::law_held_back(short, tag, short.len() as int);
    }
    assert(deepseek::held_len(short) == short.len());
    let next = deepseek::step(st, nothing(), tools);
    assert(short.take(0) =~= none);
    deepseek::lemma_shown_plain(none);
    assert(short.skip(0) =~= short);
    assert(none + none =~= none);
    assert(next.state =~= st);
    assert(next.out =~= nothing());
}

/// Chunks that make up a beginning of a closing tag.
proof fn lemma_dsml_end_chunks(tag: Seq<char>, chunks: Seq<Seq<char>>, st: DsmlState, tools: Seq<Tool>)
    requires
        tag == "</｜DSML｜function_calls>"@ || tag == "</｜DSML｜invoke>"@,
        chunks_text(chunks).is_prefix_of(tag),
        !st.in_block,
        st.buffer.len() == 0,
    ensures
        ({
            let came = chunks_text(chunks);
            dsml_chunks_run(st, chunks, tools) == (
                DsmlState {
                    buffer: if came.len() < tag.len() {
                        came
                    } else {
                        Seq::empty()
                    },
                    ..st
                },
                nothing(),
            )
        }),
    decreases chunks.len(),
{
    let none = Seq::<char>::empty();
    assert(tag.len() > 0) by {
        reveal_strlit("</｜DSML｜function_calls>");
        reveal_strlit("</｜DSML｜invoke>");
    }
    if chunks.len() == 0 {
        assert(st.buffer =~= none);
        assert(DsmlState { buffer: none, ..st } =~= st);
    } else {
        let came = chunks_text(chunks.drop_last());
        let chunk = chunks.last();
        let total = came + chunk;
        assert(total =~= tag.subrange(0, total.len() as int));
        assert(came =~= tag.subrange(0, came.len() as int)) by {
            assert(came =~= total.subrange(0, came.len() as int));
        }
        lemma_dsml_end_chunks(tag, chunks.drop_last(), st, tools);
        let (before, first) = dsml_chunks_run(st, chunks.drop_last(), tools);
        let full = DsmlState { buffer: before.buffer + chunk, ..before };
        if came.len() == tag.len() {
            assert(chunk.len() == 0);
            assert(full.buffer =~= none);
            assert(full =~= before);
            lemma_dsml_empty_run(before, nothing(), tools);
        } else {
            assert(full.buffer == total);
            if total.len() < tag.len() {
                lemma_dsml_end_held(total, tag, full, tools);
            } else {
                assert(total =~= tag);
                reveal(deepseek::run);
                deepseek::law_closing_tag_hidden(full, nothing());
                let next = deepseek::step(full, nothing(), tools);
                assert(next.state.buffer =~= none);
                assert(next.state =~= DsmlState { buffer: none, ..st });
            }
        }
        assert(given_both(nothing(), nothing()) =~= nothing());
    }
}

/// A tag that closes a block or an invocation, and that comes in outside any block, is not shown,
/// however it is cut into chunks.
pub proof fn law_dsml_cut_tag_hidden(tag: Seq<char>, chunks: Seq<Seq<char>>, st: DsmlState, tools: Seq<Tool>)
    requires
        tag == "</｜DSML｜function_calls>"@ || tag == "</｜DSML｜invoke>"@,
        chunks_text(chunks) == tag,
        !st.in_block,
        st.buffer.len() == 0,
    ensures
        ({
            let (end, given) = dsml_chunks_run(st, chunks, tools);
            &&& given.normal_text.len() == 0
            &&& given.calls.len() == 0
            &&& end.buffer.len() == 0
            &&& !end.in_block
        }),
{
    assert(tag =~= tag.subrange(0, tag.len() as int));
    lemma_dsml_end_chunks(tag, chunks, st, tools);
}

} // verus!
