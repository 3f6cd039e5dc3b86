//! The numbers that the pieces of calls carry, over a whole stream.

use vstd::prelude::*;

#[allow(unused_imports)]
use crate::chunked::given_both;
#[allow(unused_imports)]
use crate::deepseek;
#[allow(unused_imports)]
use crate::deepseek::DsmlState;
#[allow(unused_imports)]
use crate::minimax;
#[allow(unused_imports)]
use crate::minimax::MinimaxState;
#[allow(unused_imports)]
use crate::streamed::names_of;
#[allow(unused_imports)]
use crate::tool::{args_item, fragment_items, name_item, names_known, nothing, ItemView, StreamView, Tool};

verus! {

/// A piece behind others that name `n` calls: one with a name begins the next call, and holds
/// nothing of its arguments; any other holds something of those of the last call named.
pub open spec fn is_numbered_item(item: ItemView, n: nat) -> bool {
    if item.name is Some {
        item.tool_index == n && item.parameters.len() == 0
    } else {
        n > 0 && item.tool_index == n - 1 && item.parameters.len() > 0
    }
}

/// Each piece carries the number of its call.
pub open spec fn are_numbered(items: Seq<ItemView>) -> bool
    decreases items.len(),
{
    items.len() > 0 ==> are_numbered(items.drop_last()) && is_numbered_item(
        items.last(),
        names_of(items.drop_last()).len(),
    )
}

/// One more piece.
proof fn lemma_one_more(items: Seq<ItemView>, item: ItemView)
    requires
        are_numbered(items),
        is_numbered_item(item, names_of(items).len()),
    ensures
        are_numbered(items.push(item)),
        names_of(items.push(item)).len() == names_of(items).len() + if item.name is Some {
            1nat
        } else {
            0nat
        },
{
    assert(items.push(item).drop_last() =~= items);
}

/// A piece of the arguments of the last call named, where there is one.
proof fn lemma_fragment_more(items: Seq<ItemView>, id: nat, fragment: Seq<char>)
    requires
        are_numbered(items),
        names_of(items).len() == id + 1,
    ensures
        are_numbered(items + fragment_items(id, fragment)),
        names_of(items + fragment_items(id, fragment)).len() == id + 1,
{
    if fragment.len() > 0 {
        lemma_one_more(items, args_item(id, fragment));
        assert(items + fragment_items(id, fragment) =~= items.push(args_item(id, fragment)));
    } else {
        assert(items + fragment_items(id, fragment) =~= items);
    }
}

/// Each of the pieces is numbered by those before it.
proof fn lemma_each_numbered(items: Seq<ItemView>, i: int)
    requires
        are_numbered(items),
        0 <= i < items.len(),
    ensures
        is_numbered_item(items[i], names_of(items.take(i)).len()),
    decreases items.len(),
{
    if i == items.len() - 1 {
        assert(items.take(i) =~= items.drop_last());
    } else {
        lemma_each_numbered(items.drop_last(), i);
        assert(items.drop_last().take(i) =~= items.take(i));
    }
}

// ---------------------------------------------------------------------------
// MiniMax M2
// ---------------------------------------------------------------------------

/// What chunks give, one after another, each with the tools that it came in with; and the state
/// behind them.
pub open spec fn feeds_run(st: MinimaxState, feeds: Seq<(Seq<char>, Seq<Tool>)>) -> (MinimaxState, StreamView)
    decreases feeds.len(),
{
    if feeds.len() == 0 {
        (st, nothing())
    } else {
        let (before, first) = feeds_run(st, feeds.drop_last());
        let (after, more) = minimax::chunk_run(before, feeds.last().0, feeds.last().1);
        (after, given_both(first, more))
    }
}

/// Each name that a chunk gives is the name of a tool that came in with it.
pub open spec fn feeds_known(st: MinimaxState, feeds: Seq<(Seq<char>, Seq<Tool>)>) -> bool
    decreases feeds.len(),
{
    feeds.len() > 0 ==> {
        let before = feeds_run(st, feeds.drop_last()).0;
        &&& feeds_known(st, feeds.drop_last())
        &&& names_known(minimax::chunk_run(before, feeds.last().0, feeds.last().1).1.calls, feeds.last().1)
    }
}

/// As many calls were named as texts are kept of what was sent, and all the pieces carry the
/// numbers of their calls.
spec fn is_counted(st: MinimaxState, items: Seq<ItemView>) -> bool {
    minimax::valid(st) && are_numbered(items) && names_of(items).len() == st.streamed.len()
}

/// A step numbers what it gives.
proof fn lemma_step_counted(st: MinimaxState, out: StreamView, tools: Seq<Tool>, before: Seq<ItemView>)
    requires
        is_counted(st, before + out.calls),
    ensures
        ({
            let next = minimax::step(st, out, tools);
            is_counted(next.state, before + next.out.calls)
        }),
{
    let next = minimax::step(st, out, tools);
    let items = before + out.calls;
    minimax::lemma_step_valid(st, out, tools);
    if !st.waiting && st.in_tool_call && !st.name_sent {
        if next.state.name_sent {
            let item = next.out.calls.last();
            assert(next.out.calls =~= out.calls.push(item));
            lemma_one_more(items, item);
            assert(before + next.out.calls =~= items.push(item));
        }
    } else if !st.waiting && st.in_tool_call {
        lemma_params_counted(st, out, tools, before);
    }
}

/// The step of an open call numbers what it gives.
proof fn lemma_params_counted(st: MinimaxState, out: StreamView, tools: Seq<Tool>, before: Seq<ItemView>)
    requires
        is_counted(st, before + out.calls),
        st.name_sent,
    ensures
        ({
            let next = minimax::step(st, out, tools);
            &&& are_numbered(before + next.out.calls)
            &&& names_of(before + next.out.calls).len() == next.state.streamed.len()
        }),
{
    let founds = crate::pattern::tag_matches(crate::pattern::Tag::MinimaxParameter, st.buffer);
    let id = st.tool->0;
    let items = before + out.calls;
    let none = Seq::<char>::empty();
    let (taken, sent) = minimax::taken_params(st, founds, tools);
    let params = minimax::matched_params(founds, st.function_name, tools, true);
    let fragment = if params.len() == 0 || crate::params::same_values(params, st.parameters) {
        none
    } else {
        minimax::params_fragment(params, st.parameters)
    };
    assert(sent =~= fragment_items(id, fragment));
    assert(taken.streamed.len() == st.streamed.len());
    lemma_fragment_more(items, id, fragment);
    let first = before + (out.calls + sent);
    assert(first =~= items + fragment_items(id, fragment));
    if crate::text::find(taken.buffer, minimax::INVOKE_END@) is Some {
        let closing = minimax::closing_fragment(taken.streamed[id as int]);
        lemma_fragment_more(first, id, closing);
        assert(before + (out.calls + sent + fragment_items(id, closing)) =~= first + fragment_items(
            id,
            closing,
        ));
    }
}

/// A run numbers what it gives.
proof fn lemma_run_counted(st: MinimaxState, out: StreamView, tools: Seq<Tool>, before: Seq<ItemView>)
    requires
        is_counted(st, before + out.calls),
    ensures
        ({
            let (next, given) = minimax::run(st, out, tools);
            is_counted(next, before + given.calls)
        }),
    decreases minimax::remaining(st),
{
    reveal(minimax::run);
    lemma_step_counted(st, out, tools, before);
    minimax::lemma_step_shrinks(st, out, tools);
    let next = minimax::step(st, out, tools);
    if next.more {
        lemma_run_counted(next.state, next.out, tools, before);
    }
}

/// Chunks number what they give.
proof fn lemma_feeds_counted(feeds: Seq<(Seq<char>, Seq<Tool>)>)
    ensures
        ({
            let (st, given) = feeds_run(minimax::initial(), feeds);
            is_counted(st, given.calls) && feeds_known(minimax::initial(), feeds)
        }),
    decreases feeds.len(),
{
    if feeds.len() > 0 {
        lemma_feeds_counted(feeds.drop_last());
        let (before, first) = feeds_run(minimax::initial(), feeds.drop_last());
        let (chunk, tools) = feeds.last();
        let st = MinimaxState { buffer: before.buffer + chunk, ..before };
        assert(first.calls + nothing().calls =~= first.calls);
        lemma_run_counted(st, nothing(), tools, first.calls);
        minimax::law_chunk_sends(before, chunk, tools);
    }
}

/// The pieces of calls carry the numbers of their calls, over a whole stream that comes in to a new
/// parser: the pieces with a name are numbered from zero on in their order, hold nothing of the
/// arguments, and each has the name of a tool that came in with its chunk; any other piece holds
/// something of the arguments of the call that was named last before it.
pub proof fn law_pieces_numbered(feeds: Seq<(Seq<char>, Seq<Tool>)>)
    ensures
        ({
            let items = feeds_run(minimax::initial(), feeds).1.calls;
            &&& forall|i: int|
                0 <= i < items.len() ==> is_numbered_item(
                    #[trigger] items[i],
                    names_of(items.take(i)).len(),
                )
            &&& feeds_known(minimax::initial(), feeds)
        }),
{
    lemma_feeds_counted(feeds);
    let items = feeds_run(minimax::initial(), feeds).1.calls;
    assert forall|i: int| 0 <= i < items.len() implies is_numbered_item(
        #[trigger] items[i],
        names_of(items.take(i)).len(),
    ) by {
        lemma_each_numbered(items, i);
    }
}

// ---------------------------------------------------------------------------
// DeepSeek V3.2
// ---------------------------------------------------------------------------

/// What chunks give, one after another, each with the tools that it came in with; and the state
/// behind them.
pub open spec fn dsml_feeds_run(st: DsmlState, feeds: Seq<(Seq<char>, Seq<Tool>)>) -> (DsmlState, StreamView)
    decreases feeds.len(),
{
    if feeds.len() == 0 {
        (st, nothing())
    } else {
        let (before, first) = dsml_feeds_run(st, feeds.drop_last());
        let (after, more) = deepseek::chunk_run(before, feeds.last().0, feeds.last().1);
        (after, given_both(first, more))
    }
}

/// Each name that a chunk gives is the name of a tool that came in with it.
pub open spec fn dsml_feeds_known(st: DsmlState, feeds: Seq<(Seq<char>, Seq<Tool>)>) -> bool
    decreases feeds.len(),
{
    feeds.len() > 0 ==> {
        let before = dsml_feeds_run(st, feeds.drop_last()).0;
        &&& dsml_feeds_known(st, feeds.drop_last())
        &&& names_known(deepseek::chunk_run(before, feeds.last().0, feeds.last().1).1.calls, feeds.last().1)
    }
}

/// As many calls were named as texts are kept of what was sent, and all the pieces carry the
/// numbers of their calls.
spec fn is_dsml_counted(st: DsmlState, items: Seq<ItemView>) -> bool {
    deepseek::valid(st) && are_numbered(items) && names_of(items).len() == st.streamed.len()
}

/// The step at an invocation numbers what it gives.
proof fn lemma_dsml_invoke_counted(
    st: DsmlState,
    out: StreamView,
    found: crate::pattern::FoundView,
    founds: Seq<crate::pattern::FoundView>,
    opens: Seq<crate::pattern::FoundView>,
    tools: Seq<Tool>,
    before: Seq<ItemView>,
)
    requires
        is_dsml_counted(st, before + out.calls),
        st.in_block,
    ensures
        ({
            let next = deepseek::invoke_step(st, out, found, founds, opens, tools);
            is_dsml_counted(next.state, before + next.out.calls)
        }),
{
    let name = crate::text::trim(found.group(1));
    let items = before + out.calls;
    let next = deepseek::invoke_step(st, out, found, founds, opens, tools);
    if crate::tool::has_tool(tools, name) {
        let (begun, first) = deepseek::named_call(st, name);
        let id = deepseek::call_number(begun);
        let named = items + first;
        assert(are_numbered(named) && names_of(named).len() == id + 1) by {
            if st.name_sent {
                assert(named =~= items);
            } else {
                lemma_one_more(items, name_item(id, name));
                assert(named =~= items.push(name_item(id, name)));
            }
        }
        let closed = found.group(3).len() > 0 && 0 < found.end() <= st.buffer.len();
        let target = if closed {
            deepseek::arguments_of(found.group(2), founds, opens, false)
        } else {
            deepseek::opened_arguments(found.group(2), founds)
        };
        let fragment = deepseek::rest_of(begun.streamed[id as int], target);
        lemma_fragment_more(named, id, fragment);
        assert(before + next.out.calls =~= named + fragment_items(id, fragment));
        assert(next.state.streamed.len() == begun.streamed.len());
    }
}

/// A run numbers what it gives.
proof fn lemma_dsml_run_counted(st: DsmlState, out: StreamView, tools: Seq<Tool>, before: Seq<ItemView>)
    requires
        is_dsml_counted(st, before + out.calls),
    ensures
        ({
            let (next, given) = deepseek::run(st, out, tools);
            is_dsml_counted(next, before + given.calls)
        }),
    decreases st.buffer.len(),
{
    reveal(deepseek::run);
    deepseek::lemma_step_shrinks(st, out, tools);
    let next = deepseek::step(st, out, tools);
    assert(is_dsml_counted(next.state, before + next.out.calls)) by {
        if st.in_block {
            let all = crate::pattern::tag_matches(crate::pattern::Tag::DsmlOpenInvoke, st.buffer);
            let body = all[0].group(2);
            let founds = crate::pattern::tag_matches(crate::pattern::Tag::DsmlParameter, body);
            lemma_dsml_invoke_counted(
                st,
                out,
                all[0],
                founds,
                deepseek::open_matches(body, founds),
                tools,
                before,
            );
        }
    }
    if next.more {
        lemma_dsml_run_counted(next.state, next.out, tools, before);
    }
}

/// Chunks number what they give.
proof fn lemma_dsml_feeds_counted(feeds: Seq<(Seq<char>, Seq<Tool>)>)
    ensures
        ({
            let (st, given) = dsml_feeds_run(deepseek::initial(), feeds);
            is_dsml_counted(st, given.calls) && dsml_feeds_known(deepseek::initial(), feeds)
        }),
    decreases feeds.len(),
{
    if feeds.len() > 0 {
        lemma_dsml_feeds_counted(feeds.drop_last());
        let (before, first) = dsml_feeds_run(deepseek::initial(), feeds.drop_last());
        let (chunk, tools) = feeds.last();
        let st = DsmlState { buffer: before.buffer + chunk, ..before };
        assert(first.calls + nothing().calls =~= first.calls);
        lemma_dsml_run_counted(st, nothing(), tools, first.calls);
        deepseek::law_chunk_sends(before, chunk, tools);
    }
}

/// The pieces of calls carry the numbers of their calls, over a whole DSML stream that comes in to
/// a new parser: the pieces with a name are numbered from zero on in their order, hold nothing of
/// the arguments, and each has the name of a tool that came in with its chunk; any other piece
/// holds something of the arguments of the call that was named last before it.
pub proof fn law_dsml_pieces_numbered(feeds: Seq<(Seq<char>, Seq<Tool>)>)
    ensures
        ({
            let items = dsml_feeds_run(deepseek::initial(), feeds).1.calls;
            &&& forall|i: int|
                0 <= i < items.len() ==> is_numbered_item(
                    #[trigger] items[i],
                    names_of(items.take(i)).len(),
                )
            &&& dsml_feeds_known(deepseek::initial(), feeds)
        }),
{
    lemma_dsml_feeds_counted(feeds);
    let items = dsml_feeds_run(deepseek::initial(), feeds).1.calls;
    assert forall|i: int| 0 <= i < items.len() implies is_numbered_item(
        #[trigger] items[i],
        names_of(items.take(i)).len(),
    ) by {
        lemma_each_numbered(items, i);
    }
}

} // verus!
