//! Texts written in the formats of tool calls, and what the parsers make of them.

use vstd::prelude::*;

#[allow(unused_imports)]
use crate::params::{json_value, object_text, python_object_text, with_value, ParamView};
#[allow(unused_imports)]
use crate::pattern::{
    closes_first, closing, flagged_head, groups_of, is_head, is_piece, is_quiet, is_quotable, is_spaces,
    lemma_closed_piece, lemma_closes_first, lemma_matches_all, lemma_matches_behind, lemma_row_founds,
    lemma_row_matches, lemma_spaces_quiet, named_head, opening, row, row_founds, tag_matches, FoundView, Tag,
};
#[allow(unused_imports)]
use crate::text::{contains, first_at, lemma_find, lemma_trim_end, occurs_at, trim, trim_end, trim_start};
#[allow(unused_imports)]
use crate::tool::{CallView, Tool};

verus! {

/// One space.
pub open spec fn one_space() -> Seq<char> {
    seq![' ']
}

/// Nothing follows pieces in a row, or `tail` does.
pub proof fn lemma_row_tail(pieces: Seq<Seq<char>>, gap: Seq<char>, tail: Seq<char>)
    ensures
        row(pieces, gap, Seq::empty()) + tail == row(pieces, gap, tail),
    decreases pieces.len(),
{
    if pieces.len() == 0 {
        assert(Seq::<char>::empty() + tail =~= tail);
    } else {
        lemma_row_tail(pieces.drop_first(), gap, tail);
        assert(row(pieces, gap, Seq::empty()) + tail =~= pieces[0] + (gap + (row(
            pieces.drop_first(),
            gap,
            Seq::empty(),
        ) + tail)));
    }
}

/// The matches of pieces in a row behind white space are the pieces, where none begins in what
/// follows them.
pub proof fn lemma_body_matches(
    tag: Tag,
    pieces: Seq<Seq<char>>,
    groups: Seq<Seq<Seq<char>>>,
    gap: Seq<char>,
    tail: Seq<char>,
)
    requires
        is_spaces(gap),
        pieces.len() == groups.len(),
        forall|i: int| 0 <= i < pieces.len() ==> is_piece(tag, #[trigger] pieces[i], groups[i]),
        is_quiet(
            tag,
            gap + row(pieces, gap, tail),
            gap.len() + row(pieces, gap, tail).len() - tail.len(),
            (gap.len() + row(pieces, gap, tail).len()) as int,
        ),
    ensures
        tag_matches(tag, gap + row(pieces, gap, tail)) == row_founds(gap, groups, gap),
{
    let none = Seq::<char>::empty();
    let text = gap + row(pieces, gap, tail);
    lemma_row_matches(tag, gap, pieces, groups, gap, tail);
    lemma_spaces_quiet(tag, none, gap, row(pieces, gap, tail));
    assert(none + gap + row(pieces, gap, tail) =~= text);
    lemma_matches_behind(tag, text, 0, gap.len() as int, row_founds(gap, groups, gap));
    lemma_matches_all(tag, text, row_founds(gap, groups, gap));
}

// ---------------------------------------------------------------------------
// MiniMax M2
// ---------------------------------------------------------------------------

/// A call as it is written: the name of the function, and the names and texts of its parameters.
pub struct WrittenCall {
    pub name: Seq<char>,
    pub params: Seq<(Seq<char>, Seq<char>)>,
}

/// A MiniMax parameter as it is written.
pub open spec fn minimax_parameter(param: (Seq<char>, Seq<char>)) -> Seq<char> {
    named_head(Tag::MinimaxParameter, one_space(), param.0, Seq::empty()) + (param.1 + closing(
        Tag::MinimaxParameter,
    ))
}

/// MiniMax parameters as they are written.
pub open spec fn minimax_parameters(params: Seq<(Seq<char>, Seq<char>)>) -> Seq<Seq<char>> {
    params.map_values(|p: (Seq<char>, Seq<char>)| minimax_parameter(p))
}

/// What stands in a MiniMax invocation, with `gap` between its parameters.
pub open spec fn minimax_body(call: WrittenCall, gap: Seq<char>) -> Seq<char> {
    gap + row(minimax_parameters(call.params), gap, Seq::empty())
}

/// A MiniMax invocation as it is written.
pub open spec fn minimax_invoke(call: WrittenCall, gap: Seq<char>) -> Seq<char> {
    named_head(Tag::MinimaxInvoke, one_space(), call.name, Seq::empty()) + (minimax_body(call, gap)
        + closing(Tag::MinimaxInvoke))
}

/// MiniMax invocations as they are written.
pub open spec fn minimax_invokes(calls: Seq<WrittenCall>, gap: Seq<char>) -> Seq<Seq<char>> {
    calls.map_values(|c: WrittenCall| minimax_invoke(c, gap))
}

/// What stands in a MiniMax block, with `gap` between its invocations.
pub open spec fn minimax_calls(calls: Seq<WrittenCall>, gap: Seq<char>) -> Seq<char> {
    gap + row(minimax_invokes(calls, gap), gap, Seq::empty())
}

/// A MiniMax block as it is written.
pub open spec fn minimax_block(calls: Seq<WrittenCall>, gap: Seq<char>) -> Seq<char> {
    block_text(Tag::MinimaxBlock, minimax_calls(calls, gap))
}

/// The call can be written: its names can stand in quotation marks, and no closing tag stands
/// where it would close too early.
pub open spec fn minimax_writable(call: WrittenCall, gap: Seq<char>) -> bool {
    &&& is_quotable(call.name)
    &&& forall|i: int|
        0 <= i < call.params.len() ==> is_quotable((#[trigger] call.params[i]).0) && closes_first(
            call.params[i].1,
            closing(Tag::MinimaxParameter),
        )
    &&& closes_first(minimax_body(call, gap), closing(Tag::MinimaxInvoke))
}

/// The parameters of a call of `func` as the parser reads them: each under its name, with the
/// value that its text has in a stream or in a whole text.
pub open spec fn read_params(
    params: Seq<(Seq<char>, Seq<char>)>,
    func: Seq<char>,
    tools: Seq<Tool>,
    streaming: bool,
) -> Seq<(Seq<char>, ParamView)>
    decreases params.len(),
{
    if params.len() == 0 {
        Seq::empty()
    } else {
        let key = trim(params.last().0);
        let text = crate::minimax::decoded(params.last().1);
        with_value(
            read_params(params.drop_last(), func, tools, streaming),
            key,
            if streaming {
                crate::minimax::streamed_value(tools, func, key, text)
            } else {
                crate::minimax::complete_value(tools, func, key, text)
            },
        )
    }
}

/// The call as the parser reads it.
pub open spec fn read_call(call: WrittenCall, tools: Seq<Tool>) -> CallView {
    CallView {
        name: trim(call.name),
        arguments: python_object_text(read_params(call.params, trim(call.name), tools, false)),
    }
}

/// The groups that a MiniMax parameter gives.
spec fn minimax_param_groups(params: Seq<(Seq<char>, Seq<char>)>) -> Seq<Seq<Seq<char>>> {
    params.map_values(|p: (Seq<char>, Seq<char>)| seq![minimax_parameter(p), p.0, p.1])
}

/// The groups that a MiniMax invocation gives.
spec fn minimax_invoke_groups(calls: Seq<WrittenCall>, gap: Seq<char>) -> Seq<Seq<Seq<char>>> {
    calls.map_values(|c: WrittenCall| seq![minimax_invoke(c, gap), c.name, minimax_body(c, gap)])
}

/// A MiniMax tag with a name is an opening tag.
pub proof fn lemma_minimax_head(tag: Tag, name: Seq<char>)
    requires
        tag is MinimaxInvoke || tag is MinimaxParameter,
        is_quotable(name),
    ensures
        is_head(tag, named_head(tag, one_space(), name, Seq::empty()), seq![name]),
{
    assert(is_spaces(one_space()));
    assert(seq![name][0] == name);
    assert(named_head(tag, one_space(), seq![name][0], Seq::empty()) == named_head(
        tag,
        one_space(),
        name,
        Seq::empty(),
    ));
}

/// The parameters of a call match.
proof fn lemma_minimax_param_pieces(call: WrittenCall, gap: Seq<char>)
    requires
        minimax_writable(call, gap),
    ensures
        forall|i: int|
            0 <= i < call.params.len() ==> is_piece(
                Tag::MinimaxParameter,
                #[trigger] minimax_parameters(call.params)[i],
                minimax_param_groups(call.params)[i],
            ),
{
    let tag = Tag::MinimaxParameter;
    let pieces = minimax_parameters(call.params);
    let groups = minimax_param_groups(call.params);
    assert forall|i: int| 0 <= i < pieces.len() implies is_piece(tag, #[trigger] pieces[i], groups[i]) by {
        let (k, v) = call.params[i];
        let head = named_head(tag, one_space(), k, Seq::empty());
        lemma_minimax_head(tag, k);
        lemma_closed_piece(tag, head, seq![k], v);
        assert(groups_of(tag, head, seq![k], v, closing(tag)) =~= seq![pieces[i], k, v]);
    }
}

/// The parameters of a call are found in its body, and read, where none begins in what follows
/// it.
pub proof fn lemma_minimax_body_read(
    call: WrittenCall,
    gap: Seq<char>,
    tail: Seq<char>,
    func: Seq<char>,
    tools: Seq<Tool>,
    streaming: bool,
)
    requires
        is_spaces(gap),
        minimax_writable(call, gap),
        is_quiet(
            Tag::MinimaxParameter,
            minimax_body(call, gap) + tail,
            minimax_body(call, gap).len() as int,
            (minimax_body(call, gap) + tail).len() as int,
        ),
    ensures
        crate::minimax::matched_params(
            tag_matches(Tag::MinimaxParameter, minimax_body(call, gap) + tail),
            func,
            tools,
            streaming,
        ) == read_params(call.params, func, tools, streaming),
{
    let tag = Tag::MinimaxParameter;
    let pieces = minimax_parameters(call.params);
    let groups = minimax_param_groups(call.params);
    let founds = row_founds(gap, groups, gap);
    lemma_minimax_param_pieces(call, gap);
    lemma_row_tail(pieces, gap, tail);
    assert(minimax_body(call, gap) + tail =~= gap + row(pieces, gap, tail));
    lemma_body_matches(tag, pieces, groups, gap, tail);
    lemma_row_founds(gap, groups, gap);
    assert forall|i: int| 0 <= i < founds.len() implies (#[trigger] founds[i]).group(1) == call.params[i].0
        && founds[i].group(2) == call.params[i].1 by {
        assert(founds[i].groups == groups[i]);
    }
    lemma_minimax_params_read(founds, call.params, func, tools, streaming);
}

/// What parameters are read from depends on their names and texts alone.
pub proof fn lemma_minimax_params_read(
    founds: Seq<FoundView>,
    params: Seq<(Seq<char>, Seq<char>)>,
    func: Seq<char>,
    tools: Seq<Tool>,
    streaming: bool,
)
    requires
        founds.len() == params.len(),
        forall|i: int|
            0 <= i < founds.len() ==> (#[trigger] founds[i]).group(1) == params[i].0 && founds[i].group(2)
                == params[i].1,
    ensures
        crate::minimax::matched_params(founds, func, tools, streaming) == read_params(
            params,
            func,
            tools,
            streaming,
        ),
    decreases founds.len(),
{
    if founds.len() > 0 {
        assert forall|i: int| 0 <= i < founds.drop_last().len() implies (#[trigger] founds.drop_last()[i]).group(
        1) == params.drop_last()[i].0 && founds.drop_last()[i].group(2) == params.drop_last()[i].1 by {
            assert(founds[i].group(1) == params[i].0);
        }
        lemma_minimax_params_read(founds.drop_last(), params.drop_last(), func, tools, streaming);
        assert(founds[founds.len() - 1].group(1) == params[params.len() - 1].0);
    }
}

/// A call that is written is the call that is read.
proof fn lemma_minimax_call_read(call: WrittenCall, gap: Seq<char>, found: FoundView, tools: Seq<Tool>)
    requires
        is_spaces(gap),
        minimax_writable(call, gap),
        found.groups == seq![minimax_invoke(call, gap), call.name, minimax_body(call, gap)],
    ensures
        crate::minimax::matched_call(found, tools) == read_call(call, tools),
{
    let body = minimax_body(call, gap);
    assert(found.group(1) == call.name);
    assert(found.group(2) == body);
    assert(body + Seq::<char>::empty() =~= body);
    lemma_minimax_body_read(call, gap, Seq::empty(), trim(call.name), tools, false);
}

/// An invocation matches.
pub proof fn lemma_minimax_invoke_piece(call: WrittenCall, gap: Seq<char>)
    requires
        minimax_writable(call, gap),
    ensures
        is_piece(
            Tag::MinimaxInvoke,
            minimax_invoke(call, gap),
            seq![minimax_invoke(call, gap), call.name, minimax_body(call, gap)],
        ),
{
    let tag = Tag::MinimaxInvoke;
    let head = named_head(tag, one_space(), call.name, Seq::empty());
    let body = minimax_body(call, gap);
    lemma_minimax_head(tag, call.name);
    lemma_closed_piece(tag, head, seq![call.name], body);
    assert(groups_of(tag, head, seq![call.name], body, closing(tag)) =~= seq![
        minimax_invoke(call, gap),
        call.name,
        body,
    ]);
}

/// The pieces of a block are found in it.
proof fn lemma_block_matches(
    tag: Tag,
    start: Seq<char>,
    end: Seq<char>,
    pieces: Seq<Seq<char>>,
    groups: Seq<Seq<Seq<char>>>,
    gap: Seq<char>,
)
    requires
        is_spaces(gap),
        pieces.len() == groups.len(),
        forall|i: int| 0 <= i < pieces.len() ==> is_piece(tag, #[trigger] pieces[i], groups[i]),
        differs(tag, start),
        differs(tag, end),
    ensures
        tag_matches(tag, start + ((gap + row(pieces, gap, Seq::empty())) + end)) == row_founds(
            start + gap,
            groups,
            gap,
        ),
{
    let none = Seq::<char>::empty();
    let before = start + gap;
    let last = row(pieces, gap, end);
    let text = before + last;
    let founds = row_founds(before, groups, gap);
    lemma_row_tail(pieces, gap, end);
    assert(start + ((gap + row(pieces, gap, none)) + end) =~= text);
    assert(text =~= (before + row(pieces, gap, none)) + (end + none));
    lemma_differs_quiet(tag, before + row(pieces, gap, none), end, none);
    assert(last.len() == row(pieces, gap, none).len() + end.len());
    lemma_row_matches(tag, before, pieces, groups, gap, end);
    lemma_spaces_quiet(tag, start, gap, last);
    lemma_matches_behind(tag, text, start.len() as int, before.len() as int, founds);
    assert(text =~= none + (start + (gap + last)));
    lemma_differs_quiet(tag, none, start, gap + last);
    lemma_matches_behind(tag, text, 0, start.len() as int, founds);
    lemma_matches_all(tag, text, founds);
}

/// No match of the tag can begin in `other`: it has an angle bracket at its beginning alone, and
/// what follows differs from what the tag begins with.
pub open spec fn differs(tag: Tag, other: Seq<char>) -> bool {
    &&& opening(tag).len() > 0 && opening(tag)[0] == '<'
    &&& forall|i: int| 0 < i < other.len() ==> #[trigger] other[i] != '<'
    &&& exists|k: int|
        0 <= k < other.len() && k < opening(tag).len() && #[trigger] other[k] != opening(tag)[k]
}

/// No match begins in a text that differs from what the tag begins with.
pub proof fn lemma_differs_quiet(tag: Tag, before: Seq<char>, other: Seq<char>, after: Seq<char>)
    requires
        differs(tag, other),
    ensures
        is_quiet(
            tag,
            before + (other + after),
            before.len() as int,
            (before.len() + other.len()) as int,
        ),
{
    let text = before + (other + after);
    let open = opening(tag);
    assert forall|at: int| before.len() <= at < before.len() + other.len() implies !open.is_prefix_of(
        #[trigger] text.skip(at),
    ) by {
        if open.is_prefix_of(text.skip(at)) {
            assert(text.skip(at)[0] == open[0]);
            assert(text.skip(at)[0] == other[at - before.len()]);
            assert(at == before.len());
            let k = choose|k: int| 0 <= k < other.len() && k < open.len() && #[trigger] other[k] != open[k];
            assert(text.skip(at)[k] == open[k]);
            assert(text.skip(at)[k] == other[k]);
        }
    }
}

/// The tags of a MiniMax block are none of an invocation.
proof fn lemma_minimax_differs()
    ensures
        differs(Tag::MinimaxInvoke, opening(Tag::MinimaxBlock)),
        differs(Tag::MinimaxInvoke, closing(Tag::MinimaxBlock)),
{
    reveal_strlit("<minimax:tool_call>");
    reveal_strlit("</minimax:tool_call>");
    reveal_strlit("<invoke");
    assert(opening(Tag::MinimaxBlock)[1] != opening(Tag::MinimaxInvoke)[1]);
    assert(closing(Tag::MinimaxBlock)[1] != opening(Tag::MinimaxInvoke)[1]);
}

/// The invocations of a block are found in it.
proof fn lemma_minimax_invokes_found(calls: Seq<WrittenCall>, gap: Seq<char>)
    requires
        is_spaces(gap),
        forall|i: int| 0 <= i < calls.len() ==> minimax_writable(#[trigger] calls[i], gap),
    ensures
        tag_matches(Tag::MinimaxInvoke, minimax_block(calls, gap)) == row_founds(
            opening(Tag::MinimaxBlock) + gap,
            minimax_invoke_groups(calls, gap),
            gap,
        ),
{
    let tag = Tag::MinimaxInvoke;
    let pieces = minimax_invokes(calls, gap);
    let groups = minimax_invoke_groups(calls, gap);
    assert forall|i: int| 0 <= i < pieces.len() implies is_piece(tag, #[trigger] pieces[i], groups[i]) by {
        assert(minimax_writable(calls[i], gap));
        lemma_minimax_invoke_piece(calls[i], gap);
    }
    lemma_minimax_differs();
    lemma_block_matches(
        tag,
        opening(Tag::MinimaxBlock),
        closing(Tag::MinimaxBlock),
        pieces,
        groups,
        gap,
    );
}

/// A block as it is written.
pub open spec fn block_text(tag: Tag, body: Seq<char>) -> Seq<char> {
    opening(tag) + (body + closing(tag))
}

/// Blocks as they are written.
pub open spec fn block_texts(tag: Tag, bodies: Seq<Seq<char>>) -> Seq<Seq<char>> {
    bodies.map_values(|b: Seq<char>| block_text(tag, b))
}

/// A text with blocks that begin behind `before`, have `gap` behind each, and end before `after`.
pub open spec fn text_with_blocks(
    tag: Tag,
    before: Seq<char>,
    bodies: Seq<Seq<char>>,
    gap: Seq<char>,
    after: Seq<char>,
) -> Seq<char> {
    before + row(block_texts(tag, bodies), gap, after)
}

/// No tag of a block stands where it would begin or end a block too early, or begin one more.
pub open spec fn well_set(tag: Tag, before: Seq<char>, bodies: Seq<Seq<char>>, after: Seq<char>) -> bool {
    &&& closes_first(before, opening(tag))
    &&& forall|i: int| 0 <= i < bodies.len() ==> closes_first(#[trigger] bodies[i], closing(tag))
    &&& !contains(after, opening(tag))
}

/// Nothing that a text ends with holds `open`, so it begins nowhere in it.
pub proof fn lemma_not_contained(text: Seq<char>, after: Seq<char>, open: Seq<char>, at: int)
    requires
        after.len() <= text.len(),
        text.skip(text.len() - after.len()) == after,
        text.len() - after.len() <= at < text.len(),
        !contains(after, open),
    ensures
        !open.is_prefix_of(text.skip(at)),
{
    let i = at - (text.len() - after.len());
    if open.is_prefix_of(text.skip(at)) {
        assert(after.subrange(i, i + open.len()) =~= text.skip(at).subrange(0, open.len() as int));
        assert(occurs_at(after, open, i));
    }
}

/// What follows `body` for the first time occurs behind it, and nowhere before.
pub proof fn lemma_first_close(body: Seq<char>, close: Seq<char>)
    requires
        closes_first(body, close),
    ensures
        first_at(body + close, close, body.len() as int),
{
    lemma_find(body + close, close);
}

/// What stands where the rest of a text begins occurs there, in every longer beginning of it.
pub proof fn lemma_prefix_occurs(text: Seq<char>, short: Seq<char>, open: Seq<char>, at: int)
    requires
        short.is_prefix_of(text),
        0 <= at,
        at + open.len() <= short.len(),
        open.is_prefix_of(text.skip(at)),
    ensures
        occurs_at(short, open, at),
{
    assert(short.subrange(at, at + open.len()) =~= text.skip(at).subrange(0, open.len() as int)) by {
        assert forall|k: int| 0 <= k < open.len() implies short[at + k] == text.skip(at)[k] by {
            assert(short[at + k] == text.subrange(0, short.len() as int)[at + k]);
        }
    }
}

/// `open` begins nowhere in `before` where it follows it for the first time.
proof fn lemma_not_before(text: Seq<char>, before: Seq<char>, open: Seq<char>, at: int)
    requires
        (before + open).is_prefix_of(text),
        first_at(before + open, open, before.len() as int),
        0 <= at < before.len(),
    ensures
        !open.is_prefix_of(text.skip(at)),
{
    if open.is_prefix_of(text.skip(at)) {
        lemma_prefix_occurs(text, before + open, open, at);
    }
}

/// The groups that blocks give.
spec fn block_groups(tag: Tag, bodies: Seq<Seq<char>>) -> Seq<Seq<Seq<char>>> {
    bodies.map_values(
        |b: Seq<char>| groups_of(tag, opening(tag), Seq::empty(), b, closing(tag)),
    )
}

/// The blocks that are written in a text are the ones that are found there.
proof fn lemma_blocks_found(
    tag: Tag,
    before: Seq<char>,
    bodies: Seq<Seq<char>>,
    gap: Seq<char>,
    after: Seq<char>,
)
    requires
        tag is MinimaxBlock || tag is DsmlBlock,
        bodies.len() > 0,
        is_spaces(gap),
        well_set(tag, before, bodies, after),
    ensures
        ({
            let founds = tag_matches(tag, text_with_blocks(tag, before, bodies, gap, after));
            &&& founds.len() == bodies.len()
            &&& founds[0].before == before
            &&& forall|i: int|
                0 <= i < bodies.len() ==> (#[trigger] founds[i]).groups == groups_of(
                    tag,
                    opening(tag),
                    Seq::empty(),
                    bodies[i],
                    closing(tag),
                )
        }),
{
    let none = Seq::<char>::empty();
    let open = opening(tag);
    let pieces = block_texts(tag, bodies);
    let groups = block_groups(tag, bodies);
    let last = row(pieces, gap, after);
    let text = before + last;
    let founds = row_founds(before, groups, gap);
    assert forall|i: int| 0 <= i < pieces.len() implies is_piece(tag, #[trigger] pieces[i], groups[i]) by {
        assert(closes_first(bodies[i], closing(tag)));
        lemma_closed_piece(tag, open, Seq::empty(), bodies[i]);
    }
    lemma_row_tail(pieces, gap, after);
    assert(last.len() >= after.len());
    assert(text.skip(text.len() - after.len()) =~= after);
    assert forall|at: int| text.len() - after.len() <= at < text.len() implies !open.is_prefix_of(
        #[trigger] text.skip(at),
    ) by {
        lemma_not_contained(text, after, open, at);
    }
    lemma_row_matches(tag, before, pieces, groups, gap, after);
    assert(pieces[0] == open + (bodies[0] + closing(tag)));
    assert((before + open).is_prefix_of(text));
    lemma_first_close(before, open);
    assert forall|at: int| 0 <= at < before.len() implies !open.is_prefix_of(#[trigger] text.skip(at)) by {
        lemma_not_before(text, before, open, at);
    }
    lemma_matches_behind(tag, text, 0, before.len() as int, founds);
    lemma_matches_all(tag, text, founds);
    lemma_row_founds(before, groups, gap);
    assert(founds[0].before == before);
    assert forall|i: int| 0 <= i < bodies.len() implies (#[trigger] founds[i]).groups == groups_of(
        tag,
        open,
        Seq::empty(),
        bodies[i],
        closing(tag),
    ) by {
        assert(founds[i].groups == groups[i]);
    }
}

/// What stands in MiniMax blocks.
pub open spec fn minimax_bodies(blocks: Seq<Seq<WrittenCall>>, gap: Seq<char>) -> Seq<Seq<char>> {
    blocks.map_values(|calls: Seq<WrittenCall>| minimax_calls(calls, gap))
}

/// The calls as the parser reads them.
pub open spec fn read_calls(calls: Seq<WrittenCall>, tools: Seq<Tool>) -> Seq<CallView> {
    calls.map_values(|c: WrittenCall| read_call(c, tools))
}

/// The calls of all blocks, one after another, as the parser reads them.
pub open spec fn read_blocks(blocks: Seq<Seq<WrittenCall>>, tools: Seq<Tool>) -> Seq<CallView>
    decreases blocks.len(),
{
    if blocks.len() == 0 {
        Seq::empty()
    } else {
        read_blocks(blocks.drop_last(), tools) + read_calls(blocks.last(), tools)
    }
}

/// The calls of a block that is written are the calls that are read.
proof fn lemma_minimax_block_read(calls: Seq<WrittenCall>, gap: Seq<char>, tools: Seq<Tool>)
    requires
        is_spaces(gap),
        forall|i: int| 0 <= i < calls.len() ==> minimax_writable(#[trigger] calls[i], gap),
    ensures
        crate::minimax::block_calls(minimax_block(calls, gap), tools) == read_calls(calls, tools),
{
    let before = opening(Tag::MinimaxBlock) + gap;
    let groups = minimax_invoke_groups(calls, gap);
    let founds = row_founds(before, groups, gap);
    lemma_minimax_invokes_found(calls, gap);
    lemma_row_founds(before, groups, gap);
    let read = crate::minimax::block_calls(minimax_block(calls, gap), tools);
    assert forall|i: int| 0 <= i < calls.len() implies #[trigger] read[i] == read_calls(calls, tools)[i] by {
        assert(founds[i].groups == groups[i]);
        assert(minimax_writable(calls[i], gap));
        lemma_minimax_call_read(calls[i], gap, founds[i], tools);
    }
    assert(read =~= read_calls(calls, tools));
}

/// The calls of all blocks are read, and the first block is the first with a call.
proof fn lemma_minimax_blocks_read(
    founds: Seq<FoundView>,
    blocks: Seq<Seq<WrittenCall>>,
    gap: Seq<char>,
    tools: Seq<Tool>,
)
    requires
        is_spaces(gap),
        founds.len() == blocks.len(),
        forall|i: int, j: int|
            0 <= i < blocks.len() && 0 <= j < blocks[i].len() ==> minimax_writable(
                #[trigger] blocks[i][j],
                gap,
            ),
        forall|i: int| 0 <= i < blocks.len() ==> (#[trigger] blocks[i]).len() > 0,
        forall|i: int|
            0 <= i < blocks.len() ==> (#[trigger] founds[i]).group(0) == minimax_block(blocks[i], gap),
    ensures
        crate::minimax::blocks_calls(founds, tools) == read_blocks(blocks, tools),
        blocks.len() > 0 ==> crate::minimax::first_block(founds, tools) == Some(founds[0]),
        blocks.len() == 0 ==> crate::minimax::first_block(founds, tools) is None,
        read_blocks(blocks, tools).len() >= blocks.len(),
    decreases blocks.len(),
{
    if blocks.len() > 0 {
        let n = blocks.len() - 1;
        let shorter = founds.drop_last();
        assert forall|i: int, j: int|
            0 <= i < blocks.drop_last().len() && 0 <= j < blocks.drop_last()[i].len() implies minimax_writable(
            #[trigger] blocks.drop_last()[i][j],
            gap,
        ) by {
            assert(minimax_writable(blocks[i][j], gap));
        }
        assert forall|i: int| 0 <= i < blocks.drop_last().len() implies (#[trigger] shorter[i]).group(0)
            == minimax_block(blocks.drop_last()[i], gap) by {
            assert(shorter[i] == founds[i]);
            assert(blocks.drop_last()[i] == blocks[i]);
        }
        lemma_minimax_blocks_read(shorter, blocks.drop_last(), gap, tools);
        assert(founds[n].group(0) == minimax_block(blocks[n], gap));
        assert forall|j: int| 0 <= j < blocks[n].len() implies minimax_writable(
            #[trigger] blocks[n][j],
            gap,
        ) by {}
        lemma_minimax_block_read(blocks[n], gap, tools);
        assert(read_calls(blocks[n], tools).len() > 0);
    }
}

/// What is written is what is read: where blocks of calls stand in a text, behind `before` and
/// with nothing but white space behind each, a complete parse gives `before` as the text, and
/// the calls of the blocks in their order, each with its name and with the values that the texts
/// of its parameters have.
pub proof fn law_minimax_read_back(
    before: Seq<char>,
    blocks: Seq<Seq<WrittenCall>>,
    gap: Seq<char>,
    between: Seq<char>,
    after: Seq<char>,
    tools: Seq<Tool>,
)
    requires
        is_spaces(gap),
        is_spaces(between),
        blocks.len() > 0,
        forall|i: int| 0 <= i < blocks.len() ==> (#[trigger] blocks[i]).len() > 0,
        forall|i: int, j: int|
            0 <= i < blocks.len() && 0 <= j < blocks[i].len() ==> minimax_writable(
                #[trigger] blocks[i][j],
                gap,
            ),
        well_set(Tag::MinimaxBlock, before, minimax_bodies(blocks, gap), after),
    ensures
        crate::minimax::complete_parse(
            text_with_blocks(Tag::MinimaxBlock, before, minimax_bodies(blocks, gap), between, after),
            tools,
        ) == (before, read_blocks(blocks, tools)),
{
    let tag = Tag::MinimaxBlock;
    let bodies = minimax_bodies(blocks, gap);
    let text = text_with_blocks(tag, before, bodies, between, after);
    let founds = tag_matches(tag, text);
    lemma_blocks_found(tag, before, bodies, between, after);
    assert forall|i: int| 0 <= i < blocks.len() implies (#[trigger] founds[i]).group(0) == minimax_block(
        blocks[i],
        gap,
    ) by {
        assert(founds[i].groups == groups_of(tag, opening(tag), Seq::empty(), bodies[i], closing(tag)));
        assert(bodies[i] == minimax_calls(blocks[i], gap));
    }
    lemma_minimax_blocks_read(founds, blocks, gap, tools);
    let texts = block_texts(tag, bodies);
    assert(texts[0] == opening(tag) + (bodies[0] + closing(tag)));
    let n = before.len() as int;
    assert(text.subrange(n, n + opening(tag).len()) =~= opening(tag));
    assert(occurs_at(text, opening(tag), n));
    assert(contains(text, opening(tag)));
}

// ---------------------------------------------------------------------------
// DeepSeek V3.2
// ---------------------------------------------------------------------------

/// A DSML parameter as it is written: its name, whether it is a string, and its text.
pub struct DsmlParam {
    pub name: Seq<char>,
    pub is_string: bool,
    pub text: Seq<char>,
}

/// A DSML call as it is written.
pub struct DsmlCall {
    pub name: Seq<char>,
    pub params: Seq<DsmlParam>,
}

/// The flag of a parameter.
pub open spec fn dsml_flag(param: DsmlParam) -> Seq<char> {
    if param.is_string {
        "true"@
    } else {
        "false"@
    }
}

/// The opening tag of a DSML parameter.
pub open spec fn dsml_head(param: DsmlParam) -> Seq<char> {
    flagged_head(
        Tag::DsmlParameter,
        one_space(),
        param.name,
        one_space(),
        dsml_flag(param),
        Seq::empty(),
    )
}

/// A DSML parameter as it is written.
pub open spec fn dsml_parameter(param: DsmlParam) -> Seq<char> {
    dsml_head(param) + (param.text + closing(Tag::DsmlParameter))
}

/// DSML parameters as they are written.
pub open spec fn dsml_parameters(params: Seq<DsmlParam>) -> Seq<Seq<char>> {
    params.map_values(|p: DsmlParam| dsml_parameter(p))
}

/// What stands in a DSML invocation, with `gap` between its parameters.
pub open spec fn dsml_body(call: DsmlCall, gap: Seq<char>) -> Seq<char> {
    gap + row(dsml_parameters(call.params), gap, Seq::empty())
}

/// A DSML invocation as it is written.
pub open spec fn dsml_invoke(call: DsmlCall, gap: Seq<char>) -> Seq<char> {
    named_head(Tag::DsmlInvoke, one_space(), call.name, Seq::empty()) + (dsml_body(call, gap) + closing(
        Tag::DsmlInvoke,
    ))
}

/// DSML invocations as they are written.
pub open spec fn dsml_invokes(calls: Seq<DsmlCall>, gap: Seq<char>) -> Seq<Seq<char>> {
    calls.map_values(|c: DsmlCall| dsml_invoke(c, gap))
}

/// What stands in a DSML block, with `gap` between its invocations.
pub open spec fn dsml_calls(calls: Seq<DsmlCall>, gap: Seq<char>) -> Seq<char> {
    gap + row(dsml_invokes(calls, gap), gap, Seq::empty())
}

/// What stands in DSML blocks.
pub open spec fn dsml_bodies(blocks: Seq<Seq<DsmlCall>>, gap: Seq<char>) -> Seq<Seq<char>> {
    blocks.map_values(|calls: Seq<DsmlCall>| dsml_calls(calls, gap))
}

/// The call can be written: its names can stand in quotation marks, and no closing tag stands
/// where it would close too early.
pub open spec fn dsml_writable(call: DsmlCall, gap: Seq<char>) -> bool {
    &&& is_quotable(call.name)
    &&& forall|i: int|
        0 <= i < call.params.len() ==> is_quotable((#[trigger] call.params[i]).name) && closes_first(
            call.params[i].text,
            closing(Tag::DsmlParameter),
        )
    &&& closes_first(dsml_body(call, gap), closing(Tag::DsmlInvoke))
}

/// The value of a DSML parameter: the text of a string as it stands, and of any other the JSON
/// value that it holds, or the text where it holds none.
pub open spec fn dsml_read_value(param: DsmlParam) -> ParamView {
    if param.is_string {
        ParamView::Text(param.text)
    } else {
        match json_value(trim(param.text)) {
            Some(value) => value,
            None => ParamView::Text(param.text),
        }
    }
}

/// DSML parameters as the parser reads them, each under its name.
pub open spec fn dsml_read_params(params: Seq<DsmlParam>) -> Seq<(Seq<char>, ParamView)>
    decreases params.len(),
{
    if params.len() == 0 {
        Seq::empty()
    } else {
        with_value(
            dsml_read_params(params.drop_last()),
            params.last().name,
            dsml_read_value(params.last()),
        )
    }
}

/// The DSML call as the parser reads it.
pub open spec fn dsml_read_call(call: DsmlCall) -> CallView {
    CallView { name: trim(call.name), arguments: object_text(dsml_read_params(call.params)) }
}

/// The DSML calls as the parser reads them.
pub open spec fn dsml_read_calls(calls: Seq<DsmlCall>) -> Seq<CallView> {
    calls.map_values(|c: DsmlCall| dsml_read_call(c))
}

/// The calls of all DSML blocks, one after another, as the parser reads them.
pub open spec fn dsml_read_blocks(blocks: Seq<Seq<DsmlCall>>) -> Seq<CallView>
    decreases blocks.len(),
{
    if blocks.len() == 0 {
        Seq::empty()
    } else {
        dsml_read_blocks(blocks.drop_last()) + dsml_read_calls(blocks.last())
    }
}

/// The groups that DSML parameters give.
pub open spec fn dsml_param_groups(params: Seq<DsmlParam>) -> Seq<Seq<Seq<char>>> {
    params.map_values(|p: DsmlParam| seq![dsml_parameter(p), p.name, dsml_flag(p), p.text])
}

/// The groups that DSML invocations give.
spec fn dsml_invoke_groups(calls: Seq<DsmlCall>, gap: Seq<char>) -> Seq<Seq<Seq<char>>> {
    calls.map_values(|c: DsmlCall| seq![dsml_invoke(c, gap), c.name, dsml_body(c, gap)])
}

/// The opening tag of a DSML parameter is one.
pub proof fn lemma_dsml_head(param: DsmlParam)
    requires
        is_quotable(param.name),
    ensures
        is_head(Tag::DsmlParameter, dsml_head(param), seq![param.name, dsml_flag(param)]),
{
    let attributes = seq![param.name, dsml_flag(param)];
    assert(is_spaces(one_space()));
    assert(is_spaces(Seq::<char>::empty()));
    assert(attributes[0] == param.name && attributes[1] == dsml_flag(param));
    assert(dsml_head(param) == flagged_head(
        Tag::DsmlParameter,
        one_space(),
        attributes[0],
        one_space(),
        attributes[1],
        Seq::empty(),
    ));
}

/// The parameters of a DSML call match.
pub proof fn lemma_dsml_param_pieces(call: DsmlCall, gap: Seq<char>)
    requires
        dsml_writable(call, gap),
    ensures
        forall|i: int|
            0 <= i < call.params.len() ==> is_piece(
                Tag::DsmlParameter,
                #[trigger] dsml_parameters(call.params)[i],
                dsml_param_groups(call.params)[i],
            ),
{
    let tag = Tag::DsmlParameter;
    let pieces = dsml_parameters(call.params);
    let groups = dsml_param_groups(call.params);
    assert forall|i: int| 0 <= i < pieces.len() implies is_piece(tag, #[trigger] pieces[i], groups[i]) by {
        let p = call.params[i];
        let attributes = seq![p.name, dsml_flag(p)];
        lemma_dsml_head(p);
        lemma_closed_piece(tag, dsml_head(p), attributes, p.text);
        assert(groups_of(tag, dsml_head(p), attributes, p.text, closing(tag)) =~= seq![
            pieces[i],
            p.name,
            dsml_flag(p),
            p.text,
        ]);
    }
}

/// The parameters of a DSML call are found in its body.
proof fn lemma_dsml_params_found(call: DsmlCall, gap: Seq<char>)
    requires
        is_spaces(gap),
        dsml_writable(call, gap),
    ensures
        tag_matches(Tag::DsmlParameter, dsml_body(call, gap)) == row_founds(
            gap,
            dsml_param_groups(call.params),
            gap,
        ),
{
    lemma_dsml_param_pieces(call, gap);
    lemma_body_matches(
        Tag::DsmlParameter,
        dsml_parameters(call.params),
        dsml_param_groups(call.params),
        gap,
        Seq::empty(),
    );
}

/// What DSML parameters are read from depends on their names, flags and texts alone.
pub proof fn lemma_dsml_params_read(founds: Seq<FoundView>, params: Seq<DsmlParam>)
    requires
        founds.len() == params.len(),
        forall|i: int|
            0 <= i < founds.len() ==> (#[trigger] founds[i]).groups == dsml_param_groups(params)[i],
    ensures
        crate::deepseek::dsml_params(founds) == dsml_read_params(params),
    decreases founds.len(),
{
    if founds.len() > 0 {
        let n = founds.len() - 1;
        assert forall|i: int| 0 <= i < founds.drop_last().len() implies (#[trigger] founds.drop_last()[i]).groups
            == dsml_param_groups(params.drop_last())[i] by {
            assert(founds[i].groups == dsml_param_groups(params)[i]);
        }
        lemma_dsml_params_read(founds.drop_last(), params.drop_last());
        assert(founds[n].groups == dsml_param_groups(params)[n]);
        let p = params[n];
        crate::deepseek::law_declared_string(p.text, json_value(trim(p.text)));
        assert(founds[n].group(1) == p.name);
        assert(founds[n].group(2) == dsml_flag(p));
        assert(founds[n].group(3) == p.text);
    }
}

/// White space before a text is trimmed.
proof fn lemma_trim_start_spaces(gap: Seq<char>, rest: Seq<char>)
    requires
        is_spaces(gap),
    ensures
        trim_start(gap + rest) == trim_start(rest),
    decreases gap.len(),
{
    if gap.len() == 0 {
        assert(gap + rest =~= rest);
    } else {
        assert((gap + rest).drop_first() =~= gap.drop_first() + rest);
        assert((gap + rest).first() == gap[0]);
        lemma_trim_start_spaces(gap.drop_first(), rest);
    }
}

/// What stands in a DSML invocation is no JSON object.
proof fn lemma_dsml_body_no_object(call: DsmlCall, gap: Seq<char>)
    requires
        is_spaces(gap),
    ensures
        !"{"@.is_prefix_of(trim(dsml_body(call, gap))),
{
    let texts = dsml_parameters(call.params);
    let rest = row(texts, gap, Seq::empty());
    lemma_trim_start_spaces(gap, rest);
    reveal_strlit("{");
    reveal_strlit("<｜DSML｜parameter");
    if call.params.len() > 0 {
        assert(texts[0] == dsml_parameter(call.params[0]));
        assert(rest[0] == opening(Tag::DsmlParameter)[0]);
        assert(trim_start(rest) == rest);
        lemma_trim_end(rest);
        let trimmed = trim_end(rest);
        if "{"@.is_prefix_of(trimmed) {
            assert(trimmed.subrange(0, 1)[0] == trimmed[0]);
            assert("{"@[0] == '{');
        }
    }
}

/// A DSML call that is written is the call that is read.
pub proof fn lemma_dsml_call_read(call: DsmlCall, gap: Seq<char>, found: FoundView)
    requires
        is_spaces(gap),
        dsml_writable(call, gap),
        found.groups == seq![dsml_invoke(call, gap), call.name, dsml_body(call, gap)],
    ensures
        crate::deepseek::invoke_call(found) == dsml_read_call(call),
{
    let groups = dsml_param_groups(call.params);
    let founds = row_founds(gap, groups, gap);
    lemma_dsml_params_found(call, gap);
    lemma_row_founds(gap, groups, gap);
    assert(found.group(1) == call.name);
    assert(found.group(2) == dsml_body(call, gap));
    lemma_dsml_params_read(founds, call.params);
    lemma_dsml_body_no_object(call, gap);
}

/// The calls of a DSML block that is written are the calls that are read.
proof fn lemma_dsml_block_read(calls: Seq<DsmlCall>, gap: Seq<char>)
    requires
        is_spaces(gap),
        forall|i: int| 0 <= i < calls.len() ==> dsml_writable(#[trigger] calls[i], gap),
    ensures
        crate::deepseek::body_calls(dsml_calls(calls, gap)) == dsml_read_calls(calls),
{
    let tag = Tag::DsmlInvoke;
    let pieces = dsml_invokes(calls, gap);
    let groups = dsml_invoke_groups(calls, gap);
    let founds = row_founds(gap, groups, gap);
    assert forall|i: int| 0 <= i < pieces.len() implies is_piece(tag, #[trigger] pieces[i], groups[i]) by {
        let call = calls[i];
        let head = named_head(tag, one_space(), call.name, Seq::empty());
        let body = dsml_body(call, gap);
        let attributes = seq![call.name];
        assert(dsml_writable(call, gap));
        assert(is_spaces(one_space()));
        assert(is_spaces(Seq::<char>::empty()));
        assert(head == named_head(tag, one_space(), attributes[0], Seq::empty()));
        assert(is_head(tag, head, attributes));
        lemma_closed_piece(tag, head, attributes, body);
        assert(groups_of(tag, head, attributes, body, closing(tag)) =~= seq![pieces[i], call.name, body]);
    }
    lemma_body_matches(tag, pieces, groups, gap, Seq::empty());
    lemma_row_founds(gap, groups, gap);
    let read = crate::deepseek::body_calls(dsml_calls(calls, gap));
    assert forall|i: int| 0 <= i < calls.len() implies #[trigger] read[i] == dsml_read_calls(calls)[i] by {
        assert(founds[i].groups == groups[i]);
        assert(dsml_writable(calls[i], gap));
        lemma_dsml_call_read(calls[i], gap, founds[i]);
    }
    assert(read =~= dsml_read_calls(calls));
}

/// The calls of all DSML blocks are read.
proof fn lemma_dsml_blocks_read(founds: Seq<FoundView>, blocks: Seq<Seq<DsmlCall>>, gap: Seq<char>)
    requires
        is_spaces(gap),
        founds.len() == blocks.len(),
        forall|i: int, j: int|
            0 <= i < blocks.len() && 0 <= j < blocks[i].len() ==> dsml_writable(
                #[trigger] blocks[i][j],
                gap,
            ),
        forall|i: int|
            0 <= i < blocks.len() ==> (#[trigger] founds[i]).group(1) == dsml_calls(blocks[i], gap),
    ensures
        crate::deepseek::blocks_calls(founds) == dsml_read_blocks(blocks),
    decreases blocks.len(),
{
    if blocks.len() > 0 {
        let n = blocks.len() - 1;
        let shorter = founds.drop_last();
        assert forall|i: int, j: int|
            0 <= i < blocks.drop_last().len() && 0 <= j < blocks.drop_last()[i].len() implies dsml_writable(
            #[trigger] blocks.drop_last()[i][j],
            gap,
        ) by {
            assert(dsml_writable(blocks[i][j], gap));
        }
        assert forall|i: int| 0 <= i < blocks.drop_last().len() implies (#[trigger] shorter[i]).group(1)
            == dsml_calls(blocks.drop_last()[i], gap) by {
            assert(shorter[i] == founds[i]);
            assert(blocks.drop_last()[i] == blocks[i]);
        }
        lemma_dsml_blocks_read(shorter, blocks.drop_last(), gap);
        assert(founds[n].group(1) == dsml_calls(blocks[n], gap));
        assert forall|j: int| 0 <= j < blocks[n].len() implies dsml_writable(#[trigger] blocks[n][j], gap) by {}
        lemma_dsml_block_read(blocks[n], gap);
    }
}

/// What is written is what is read: where blocks of DSML calls stand in a text, behind `before`
/// and with nothing but white space behind each, a complete parse gives `before`, without the
/// white space at its end, as the text, and the calls of the blocks in their order, each with its
/// name and with the values that its parameters have.
pub proof fn law_dsml_read_back(
    before: Seq<char>,
    blocks: Seq<Seq<DsmlCall>>,
    gap: Seq<char>,
    between: Seq<char>,
    after: Seq<char>,
)
    requires
        is_spaces(gap),
        is_spaces(between),
        blocks.len() > 0,
        dsml_read_blocks(blocks).len() > 0,
        forall|i: int, j: int|
            0 <= i < blocks.len() && 0 <= j < blocks[i].len() ==> dsml_writable(
                #[trigger] blocks[i][j],
                gap,
            ),
        well_set(Tag::DsmlBlock, before, dsml_bodies(blocks, gap), after),
    ensures
        crate::deepseek::complete_parse(
            text_with_blocks(Tag::DsmlBlock, before, dsml_bodies(blocks, gap), between, after),
        ) == (trim_end(before), dsml_read_blocks(blocks)),
{
    let tag = Tag::DsmlBlock;
    let open = opening(tag);
    let bodies = dsml_bodies(blocks, gap);
    let texts = block_texts(tag, bodies);
    let text = text_with_blocks(tag, before, bodies, between, after);
    let founds = tag_matches(tag, text);
    lemma_blocks_found(tag, before, bodies, between, after);
    assert forall|i: int| 0 <= i < blocks.len() implies (#[trigger] founds[i]).group(1) == dsml_calls(
        blocks[i],
        gap,
    ) by {
        assert(founds[i].groups == groups_of(tag, open, Seq::empty(), bodies[i], closing(tag)));
        assert(bodies[i] == dsml_calls(blocks[i], gap));
    }
    lemma_dsml_blocks_read(founds, blocks, gap);
    assert(texts[0] == open + (bodies[0] + closing(tag)));
    let rest = text.skip((before.len() + open.len()) as int);
    assert(text =~= before + (open + rest));
    lemma_closes_first(before, open, rest);
}

} // verus!
