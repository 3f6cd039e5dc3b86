//! Calls that come in as a stream, and what the parsers make of them.

use vstd::prelude::*;

#[allow(unused_imports)]
use crate::deepseek;
#[allow(unused_imports)]
use crate::deepseek::{dsml_params, DsmlState};
#[allow(unused_imports)]
use crate::minimax::{
    chunk_run, follow, lemma_step_shrinks, lemma_step_valid, opening_fragment, remaining, run, step, streamed_object,
    valid, wants_brace, Follow, MinimaxState, INVOKE_END,
};
#[allow(unused_imports)]
use crate::params::{has_name, lemma_named, position_of, same_values, ParamView};
#[allow(unused_imports)]
use crate::pattern::{
    closes_first, closing, groups_of, is_head, is_piece, is_quiet, is_quotable, is_spaces, is_tail,
    lemma_closes_first, lemma_head_unique, lemma_match_first, lemma_match_stands, lemma_matches_all,
    lemma_matches_behind, lemma_matches_exist, lemma_no_matches, lemma_opening, lemma_row_founds,
    lemma_spaces_quiet, match_at, matches_from, matches_here, named_head, opening, row, row_founds,
    tag_matches, FoundView, Tag,
};
#[allow(unused_imports)]
use crate::text::{contains, find, first_at, is_white_space, lemma_find, occurs_at, trim};
#[allow(unused_imports)]
use crate::tool::{fragment_items, has_tool, name_item, nothing, CallView, ItemView, StreamView, Tool};
#[allow(unused_imports)]
use crate::written::{
    differs, dsml_body, dsml_flag, dsml_head, dsml_invoke, dsml_param_groups, dsml_parameter, dsml_parameters,
    dsml_read_call, dsml_read_params, dsml_read_value, dsml_writable, lemma_differs_quiet,
    lemma_dsml_call_read, lemma_dsml_head, lemma_dsml_param_pieces, lemma_dsml_params_read,
    lemma_first_close, lemma_minimax_body_read, lemma_minimax_head, lemma_minimax_invoke_piece,
    lemma_not_contained, lemma_row_tail, minimax_body, minimax_invoke,
    minimax_writable, one_space, read_params, DsmlCall, DsmlParam, WrittenCall,
};

verus! {

/// No angle bracket stands in the name.
pub open spec fn is_tame(name: Seq<char>) -> bool {
    forall|i: int| 0 <= i < name.len() ==> #[trigger] name[i] != '<' && name[i] != '>'
}

/// The opening tag of an invocation.
pub open spec fn minimax_invoke_head(call: WrittenCall) -> Seq<char> {
    named_head(Tag::MinimaxInvoke, one_space(), call.name, Seq::empty())
}

/// An opening tag has one angle bracket at its beginning and one at its end.
proof fn lemma_invoke_brackets(call: WrittenCall)
    requires
        is_tame(call.name),
    ensures
        ({
            let head = minimax_invoke_head(call);
            &&& head.len() > 0
            &&& head[head.len() - 1] == '>'
            &&& forall|i: int| 0 < i < head.len() ==> #[trigger] head[i] != '<'
            &&& forall|i: int| 0 <= i < head.len() - 1 ==> #[trigger] head[i] != '>'
        }),
{
    reveal_strlit("<invoke");
    reveal_strlit("name=\"");
    reveal_strlit("\"");
    reveal_strlit(">");
    let n = call.name.len() as int;
    let head = minimax_invoke_head(call);
    assert(head.len() == 16 + n);
    assert forall|i: int| 0 <= i < head.len() implies (#[trigger] head[i] == if i < 7 {
        "<invoke"@[i]
    } else if i == 7 {
        ' '
    } else if i < 14 {
        "name=\""@[i - 8]
    } else if i < 14 + n {
        call.name[i - 14]
    } else if i == 14 + n {
        '"'
    } else {
        '>'
    }) by {}
}

/// The first closing bracket behind white space and in front of a body is that of the opening
/// tag.
proof fn lemma_head_end(call: WrittenCall, gap: Seq<char>, rest: Seq<char>)
    requires
        is_spaces(gap),
        is_tame(call.name),
    ensures
        find(gap + (minimax_invoke_head(call) + rest), ">"@) == Some(
            gap.len() + minimax_invoke_head(call).len() - 1,
        ),
{
    let head = minimax_invoke_head(call);
    let text = gap + (head + rest);
    let p = gap.len() + head.len() - 1;
    lemma_invoke_brackets(call);
    reveal_strlit(">");
    assert(text[p] == '>');
    assert(text.subrange(p, p + 1) =~= ">"@);
    assert forall|j: int| 0 <= j < p implies !occurs_at(text, ">"@, j) by {
        if occurs_at(text, ">"@, j) {
            assert(text.subrange(j, j + 1)[0] == '>');
            assert(text[j] == '>');
            if j < gap.len() {
                assert(is_white_space(gap[j]));
            } else {
                assert(text[j] == head[j - gap.len()]);
            }
        }
    }
    lemma_find(text, ">"@);
    assert(first_at(text, ">"@, p));
}

/// The first invocation in a text that begins with one, behind white space.
proof fn lemma_first_invoke(call: WrittenCall, gap: Seq<char>, rest: Seq<char>)
    requires
        is_spaces(gap),
        minimax_writable(call, gap),
    ensures
        ({
            let founds = tag_matches(Tag::MinimaxInvoke, gap + (minimax_invoke(call, gap) + rest));
            founds.len() > 0 && founds[0].group(1) == call.name
        }),
{
    let tag = Tag::MinimaxInvoke;
    let piece = minimax_invoke(call, gap);
    let groups = seq![piece, call.name, minimax_body(call, gap)];
    let text = gap + (piece + rest);
    let at = gap.len() as int;
    lemma_minimax_invoke_piece(call, gap);
    assert(text.skip(at) =~= piece + rest);
    assert(match_at(tag, text, at, groups));
    let others = lemma_matches_exist(tag, text, at + piece.len());
    lemma_match_first(tag, text, at, groups, others);
    let founds = seq![FoundView { before: text.take(at), groups }] + others;
    lemma_spaces_quiet(tag, Seq::empty(), gap, piece + rest);
    assert(Seq::<char>::empty() + gap + (piece + rest) =~= text);
    lemma_matches_behind(tag, text, 0, at, founds);
    lemma_matches_all(tag, text, founds);
    assert(founds[0].groups == groups);
}

/// An opening tag that begins somewhere in the beginning of a text with an opening tag, behind
/// white space, ends no sooner than that.
proof fn lemma_early_head(
    tag: Tag,
    gap: Seq<char>,
    own: Seq<char>,
    own_attributes: Seq<Seq<char>>,
    last: Seq<char>,
    short: Seq<char>,
    at: int,
    head: Seq<char>,
    attributes: Seq<Seq<char>>,
)
    requires
        is_spaces(gap),
        is_head(tag, own, own_attributes),
        is_bracketed(own),
        short.is_prefix_of(gap + (own + last)),
        0 <= at <= short.len(),
        is_head(tag, head, attributes),
        head.is_prefix_of(short.skip(at)),
    ensures
        at + head.len() >= gap.len() + own.len(),
{
    let text = gap + (own + last);
    let n = opening(tag).len() as int;
    lemma_opening(tag);
    assert(head.len() > 0 && head[0] == '<') by {
        assert(opening(tag).is_prefix_of(head));
        assert(head.subrange(0, n)[0] == head[0]);
    }
    assert(short.skip(at).subrange(0, head.len() as int)[0] == short[at]);
    assert(text.subrange(0, short.len() as int)[at] == text[at]);
    assert(text[at] == '<');
    if at < gap.len() {
        assert(is_white_space(gap[at]));
    } else if at == gap.len() {
        let rest = text.skip(at);
        assert(rest =~= own + last);
        assert(own.is_prefix_of(rest));
        assert(short.skip(at) =~= rest.subrange(0, short.len() - at));
        assert(head =~= rest.subrange(0, head.len() as int));
        lemma_head_unique(tag, rest, head, attributes, own, own_attributes);
    } else if at < gap.len() + own.len() {
        assert(text[at] == own[at - gap.len()]);
    }
}

/// A match has an opening tag where it begins, and a closing tag somewhere behind it.
proof fn lemma_match_parts(tag: Tag, rest: Seq<char>, groups: Seq<Seq<char>>) -> (parts: (
    Seq<char>,
    Seq<Seq<char>>,
    int,
))
    requires
        matches_here(tag, rest, groups),
        !(tag is DsmlOpenParameter) && !(tag is DsmlOpenInvoke),
    ensures
        is_head(tag, parts.0, parts.1),
        parts.0.is_prefix_of(rest),
        parts.0.len() <= parts.2,
        occurs_at(rest, closing(tag), parts.2),
{
    reveal(matches_here);
    let (head, attributes, body, end) = choose|
        head: Seq<char>,
        attributes: Seq<Seq<char>>,
        body: Seq<char>,
        end: Seq<char>,
    |
        {
            &&& is_head(tag, head, attributes)
            &&& head.is_prefix_of(rest)
            &&& is_tail(tag, rest.skip(head.len() as int), body, end)
            &&& groups == #[trigger] groups_of(tag, head, attributes, body, end)
        };
    let tail = rest.skip(head.len() as int);
    let n = body.len() as int;
    let close = closing(tag);
    lemma_find(tail, close);
    assert(occurs_at(tail, close, n));
    let q = head.len() + n;
    assert(rest.subrange(q, q + close.len()) =~= tail.subrange(n, n + close.len()));
    (head, attributes, q)
}

/// What occurs in a part of a text occurs in the text.
proof fn lemma_occurs_within(text: Seq<char>, from: int, to: int, word: Seq<char>, i: int)
    requires
        0 <= from <= to <= text.len(),
        occurs_at(text.subrange(from, to), word, i),
    ensures
        occurs_at(text, word, from + i),
{
    let part = text.subrange(from, to);
    assert(text.subrange(from + i, from + i + word.len()) =~= part.subrange(i, i + word.len()));
}

/// What occurs in a text behind a position occurs in what is behind it.
proof fn lemma_occurs_behind(text: Seq<char>, from: int, word: Seq<char>, i: int)
    requires
        0 <= from <= i,
        occurs_at(text, word, i),
    ensures
        occurs_at(text.skip(from), word, i - from),
{
    let rest = text.skip(from);
    assert(rest.subrange(i - from, i - from + word.len()) =~= text.subrange(i, i + word.len()));
}

/// Nothing matches in the beginning of what matches, behind white space.
proof fn lemma_no_match_at(
    tag: Tag,
    gap: Seq<char>,
    own: Seq<char>,
    own_attributes: Seq<Seq<char>>,
    body: Seq<char>,
    short: Seq<char>,
    at: int,
    groups: Seq<Seq<char>>,
)
    requires
        !(tag is DsmlOpenParameter) && !(tag is DsmlOpenInvoke),
        is_spaces(gap),
        is_head(tag, own, own_attributes),
        is_bracketed(own),
        closes_first(body, closing(tag)),
        short.is_prefix_of(gap + (own + (body + closing(tag)))),
        0 <= at <= short.len(),
        matches_here(tag, short.skip(at), groups),
    ensures
        short.len() >= (gap + (own + (body + closing(tag)))).len(),
{
    let close = closing(tag);
    let text = gap + (own + (body + close));
    let (head, attributes, q) = lemma_match_parts(tag, short.skip(at), groups);
    lemma_early_head(tag, gap, own, own_attributes, body + close, short, at, head, attributes);
    let from = (gap.len() + own.len()) as int;
    assert(short.skip(at) =~= text.subrange(at, short.len() as int));
    lemma_occurs_within(text, at, short.len() as int, close, q);
    lemma_occurs_behind(text, from, close, at + q);
    assert(text.skip(from) =~= body + close);
    lemma_first_close(body, close);
    assert(at + q - from >= body.len());
    assert(at + q + close.len() <= short.len());
}

/// Nothing matches in the text.
pub open spec fn is_silent(tag: Tag, text: Seq<char>) -> bool {
    matches_from(tag, text, 0, Seq::empty())
}

/// What is not complete does not match, behind white space.
proof fn lemma_no_match_yet(
    tag: Tag,
    gap: Seq<char>,
    own: Seq<char>,
    own_attributes: Seq<Seq<char>>,
    body: Seq<char>,
    short: Seq<char>,
)
    requires
        !(tag is DsmlOpenParameter) && !(tag is DsmlOpenInvoke),
        is_spaces(gap),
        is_head(tag, own, own_attributes),
        is_bracketed(own),
        closes_first(body, closing(tag)),
        short.is_prefix_of(gap + (own + (body + closing(tag)))),
        short.len() < (gap + (own + (body + closing(tag)))).len(),
    ensures
        is_silent(tag, short),
{
    assert forall|at: int, groups: Seq<Seq<char>>| 0 <= at implies !#[trigger] match_at(
        tag,
        short,
        at,
        groups,
    ) by {
        if match_at(tag, short, at, groups) {
            lemma_no_match_at(tag, gap, own, own_attributes, body, short, at, groups);
        }
    }
}

/// No angle bracket opens in the text.
pub open spec fn is_unopened(text: Seq<char>) -> bool {
    forall|i: int| 0 <= i < text.len() ==> #[trigger] text[i] != '<'
}

/// No angle bracket opens behind the beginning of the text.
pub open spec fn is_bracketed(text: Seq<char>) -> bool {
    forall|i: int| 0 < i < text.len() ==> #[trigger] text[i] != '<'
}

/// No angle bracket opens in a text where none does in its parts.
proof fn lemma_unopened(a: Seq<char>, b: Seq<char>)
    requires
        is_unopened(b),
    ensures
        is_unopened(a) ==> is_unopened(a + b),
        is_bracketed(a) && a.len() > 0 ==> is_bracketed(a + b),
{
}

/// A tag has an angle bracket at its beginning alone.
proof fn lemma_opening_bracketed(tag: Tag)
    ensures
        is_bracketed(opening(tag)),
        opening(tag).len() > 0,
        is_unopened("name=\""@),
        is_unopened("string=\""@),
        is_unopened("\""@),
        is_unopened(">"@),
        is_unopened("true"@),
        is_unopened("false"@),
        is_unopened(one_space()),
{
    reveal_strlit("<minimax:tool_call>");
    reveal_strlit("<invoke");
    reveal_strlit("<parameter");
    reveal_strlit("<｜DSML｜function_calls>");
    reveal_strlit("<｜DSML｜invoke");
    reveal_strlit("<｜DSML｜parameter");
    reveal_strlit("name=\"");
    reveal_strlit("string=\"");
    reveal_strlit("\"");
    reveal_strlit(">");
    reveal_strlit("true");
    reveal_strlit("false");
}

/// An opening tag with a name has an angle bracket at its beginning alone.
pub proof fn lemma_named_bracketed(tag: Tag, name: Seq<char>)
    requires
        is_unopened(name),
    ensures
        is_bracketed(named_head(tag, one_space(), name, Seq::empty())),
{
    lemma_opening_bracketed(tag);
    let e = Seq::<char>::empty() + ">"@;
    assert(is_unopened(e));
    lemma_unopened("\""@, e);
    lemma_unopened(name, "\""@ + e);
    lemma_unopened("name=\""@, name + ("\""@ + e));
    lemma_unopened(one_space(), "name=\""@ + (name + ("\""@ + e)));
    lemma_unopened(opening(tag), one_space() + ("name=\""@ + (name + ("\""@ + e))));
}

/// An invocation that is not complete is none.
pub proof fn lemma_no_invoke_yet(call: WrittenCall, gap: Seq<char>, short: Seq<char>)
    requires
        is_spaces(gap),
        minimax_writable(call, gap),
        is_tame(call.name),
        short.is_prefix_of(gap + minimax_invoke(call, gap)),
        short.len() < (gap + minimax_invoke(call, gap)).len(),
    ensures
        tag_matches(Tag::MinimaxInvoke, short).len() == 0,
{
    let tag = Tag::MinimaxInvoke;
    lemma_minimax_head(tag, call.name);
    lemma_named_bracketed(tag, call.name);
    lemma_no_match_yet(
        tag,
        gap,
        minimax_invoke_head(call),
        seq![call.name],
        minimax_body(call, gap),
        short,
    );
    lemma_matches_all(tag, short, Seq::empty());
}

/// A step, and every step behind it, leaves what was sent of a closed call as it is, and gives
/// what it gives behind what was given.
pub proof fn lemma_step_keeps(st: MinimaxState, out: StreamView, tools: Seq<Tool>, i: int)
    requires
        valid(st),
        st.tool is Some,
        0 <= i < st.tool->0,
    ensures
        ({
            let next = step(st, out, tools);
            &&& next.state.tool is Some
            &&& st.tool->0 <= next.state.tool->0
            &&& next.state.streamed[i] == st.streamed[i]
            &&& next.state.records[i] == st.records[i]
            &&& out.calls.is_prefix_of(next.out.calls)
        }),
{
}

/// Every run leaves what was sent of a closed call as it is, and gives what it gives behind what
/// was given.
proof fn lemma_run_keeps(st: MinimaxState, out: StreamView, tools: Seq<Tool>, i: int)
    requires
        valid(st),
        st.tool is Some,
        0 <= i < st.tool->0,
    ensures
        ({
            let (next, given) = run(st, out, tools);
            &&& next.streamed[i] == st.streamed[i]
            &&& next.records[i] == st.records[i]
            &&& out.calls.is_prefix_of(given.calls)
        }),
    decreases remaining(st),
{
    reveal(run);
    lemma_step_keeps(st, out, tools, i);
    lemma_step_valid(st, out, tools);
    lemma_step_shrinks(st, out, tools);
    let next = step(st, out, tools);
    if next.more {
        lemma_run_keeps(next.state, next.out, tools, i);
        let given = run(next.state, next.out, tools).1;
        assert(out.calls =~= given.calls.subrange(0, out.calls.len() as int));
    }
}

/// The parser is in a block, and before the name of a call.
pub open spec fn before_name(st: MinimaxState) -> bool {
    valid(st) && st.in_tool_call && !st.waiting && !st.name_sent
}

/// The number of the call that comes next.
pub open spec fn next_call(st: MinimaxState) -> nat {
    match st.tool {
        Some(id) => id,
        None => 0,
    }
}

/// What is sent of the arguments of a call with these parameters: the object that they make up,
/// or nothing where there are none.
pub open spec fn sent_object(params: Seq<(Seq<char>, ParamView)>) -> Seq<char> {
    if params.len() > 0 {
        streamed_object(params)
    } else {
        Seq::empty()
    }
}

/// The record of a call with these parameters.
pub open spec fn sent_record(name: Seq<char>, params: Seq<(Seq<char>, ParamView)>) -> Option<CallView> {
    if params.len() > 0 {
        Some(CallView { name, arguments: streamed_object(params) })
    } else {
        None
    }
}

/// The pieces that send a call: its name, and where it has parameters, the object that they make
/// up, with the brace that closes it as the last piece.
pub open spec fn sent_items(id: nat, name: Seq<char>, params: Seq<(Seq<char>, ParamView)>) -> Seq<ItemView> {
    if params.len() > 0 {
        seq![name_item(id, name)] + fragment_items(id, opening_fragment(params)) + fragment_items(id, "}"@)
    } else {
        seq![name_item(id, name)]
    }
}

/// Behind the name of a call, its body is what is left.
pub proof fn lemma_name_taken(
    st: MinimaxState,
    out: StreamView,
    call: WrittenCall,
    gap: Seq<char>,
    rest: Seq<char>,
    tools: Seq<Tool>,
)
    requires
        before_name(st),
        is_spaces(gap),
        minimax_writable(call, gap),
        is_tame(call.name),
        has_tool(tools, trim(call.name)),
        st.buffer == gap + (minimax_invoke(call, gap) + rest),
    ensures
        ({
            let next = step(st, out, tools);
            let id = next_call(st);
            &&& next.more
            &&& next.state.buffer == minimax_body(call, gap) + (closing(Tag::MinimaxInvoke) + rest)
            &&& next.state.tool == Some(id)
            &&& next.state.name_sent && next.state.in_tool_call && !next.state.waiting
            &&& next.state.function_name == trim(call.name)
            &&& next.state.parameters.len() == 0
            &&& next.out == StreamView {
                calls: out.calls.push(name_item(id, trim(call.name))),
                ..out
            }
        }),
{
    let head = minimax_invoke_head(call);
    let last = minimax_body(call, gap) + (closing(Tag::MinimaxInvoke) + rest);
    lemma_first_invoke(call, gap, rest);
    assert(st.buffer =~= gap + (head + last));
    lemma_head_end(call, gap, last);
    let p = gap.len() + head.len() - 1;
    assert(st.buffer.skip(p + 1) =~= last);
}

/// No parameter begins behind the body of a call where none is in what follows its invocation.
proof fn lemma_tail_quiet(body: Seq<char>, rest: Seq<char>)
    requires
        !contains(rest, opening(Tag::MinimaxParameter)),
    ensures
        ({
            let tail = closing(Tag::MinimaxInvoke) + rest;
            is_quiet(Tag::MinimaxParameter, body + tail, body.len() as int, (body + tail).len() as int)
        }),
{
    let tag = Tag::MinimaxParameter;
    let close = closing(Tag::MinimaxInvoke);
    let text = body + (close + rest);
    reveal_strlit("</invoke>");
    reveal_strlit("<parameter");
    assert(close[1] != opening(tag)[1]);
    assert(differs(tag, close));
    lemma_differs_quiet(tag, body, close, rest);
    assert forall|at: int| body.len() <= at < text.len() implies !opening(tag).is_prefix_of(
        #[trigger] text.skip(at),
    ) by {
        if at >= body.len() + close.len() {
            assert(text.skip(text.len() - rest.len()) =~= rest);
            lemma_not_contained(text, rest, opening(tag), at);
        }
    }
}

/// The state behind a call that is closed, before `rest`.
pub open spec fn closed_state(
    st: MinimaxState,
    rest: Seq<char>,
    name: Seq<char>,
    params: Seq<(Seq<char>, ParamView)>,
) -> MinimaxState {
    let id = st.tool->0;
    MinimaxState {
        buffer: rest,
        streamed: st.streamed.update(id as int, sent_object(params)),
        records: st.records.update(id as int, sent_record(name, params)),
        tool: Some(id + 1),
        name_sent: false,
        function_name: Seq::empty(),
        parameters: Seq::empty(),
        ..st
    }
}

/// The body of a call gives its parameters, and the call is closed.
pub proof fn lemma_params_taken(
    st: MinimaxState,
    out: StreamView,
    call: WrittenCall,
    gap: Seq<char>,
    rest: Seq<char>,
    tools: Seq<Tool>,
)
    requires
        valid(st),
        st.name_sent,
        st.function_name == trim(call.name),
        st.parameters.len() == 0,
        is_spaces(gap),
        minimax_writable(call, gap),
        st.buffer == minimax_body(call, gap) + (closing(Tag::MinimaxInvoke) + rest),
        !contains(rest, opening(Tag::MinimaxParameter)),
        ({
            let params = read_params(call.params, trim(call.name), tools, true);
            params.len() > 0 ==> wants_brace(opening_fragment(params))
        }),
    ensures
        ({
            let params = read_params(call.params, trim(call.name), tools, true);
            let next = step(st, out, tools);
            let id = st.tool->0;
            &&& next.state.tool == Some(id + 1)
            &&& next.state.streamed[id as int] == sent_object(params)
            &&& next.state.records[id as int] == sent_record(trim(call.name), params)
            &&& next.out.normal_text == out.normal_text
            &&& match follow(rest) {
                Follow::Invoke => next.more && next.state == closed_state(
                    st,
                    rest,
                    trim(call.name),
                    params,
                ),
                Follow::End(e) => next.more && next.state == MinimaxState {
                    in_tool_call: false,
                    ..closed_state(st, rest.skip(e), trim(call.name), params)
                },
                Follow::Open => !next.more && next.state == MinimaxState {
                    waiting: true,
                    ..closed_state(st, rest, trim(call.name), params)
                },
            }
            &&& out.calls.push(name_item(id, trim(call.name))) =~= out.calls + seq![
                name_item(id, trim(call.name)),
            ]
            &&& next.out.calls == out.calls + if params.len() > 0 {
                fragment_items(id, opening_fragment(params)) + fragment_items(id, "}"@)
            } else {
                Seq::empty()
            }
        }),
{
    let body = minimax_body(call, gap);
    let close = closing(Tag::MinimaxInvoke);
    let params = read_params(call.params, trim(call.name), tools, true);
    let founds = tag_matches(Tag::MinimaxParameter, st.buffer);
    let id = st.tool->0 as int;
    lemma_tail_quiet(body, rest);
    lemma_minimax_body_read(call, gap, close + rest, trim(call.name), tools, true);
    lemma_closes_first(body, close, rest);
    lemma_find(st.buffer, close);
    assert(st.buffer.skip((body.len() + close.len()) as int) =~= rest);
    let next = step(st, out, tools).state;
    if params.len() > 0 {
        assert(contains(st.buffer, INVOKE_END@));
        crate::minimax::law_closed_call(st, out, founds, tools);
        assert(!same_values(params, st.parameters));
        assert(st.streamed[id] + opening_fragment(params) =~= opening_fragment(params));
        let items = fragment_items(st.tool->0, opening_fragment(params));
        let last = fragment_items(st.tool->0, "}"@);
        assert(out.calls + items + last =~= out.calls + (items + last));
        assert(next.streamed =~= st.streamed.update(id, sent_object(params)));
        assert(next.records =~= st.records.update(id, sent_record(trim(call.name), params)));
    } else {
        assert(st.streamed[id].len() == 0);
        assert(st.streamed[id] =~= Seq::empty());
        assert(!wants_brace(st.streamed[id]));
        assert(st.streamed[id] + Seq::<char>::empty() =~= Seq::empty());
        assert(next.streamed =~= st.streamed.update(id, sent_object(params)));
        assert(next.records =~= st.records.update(id, sent_record(trim(call.name), params)));
        assert(out.calls + Seq::<ItemView>::empty() + Seq::<ItemView>::empty() =~= out.calls + Seq::<
            ItemView,
        >::empty());
    }
}

/// The parameters of the call as a stream gives them.
pub open spec fn stream_params(call: WrittenCall, tools: Seq<Tool>) -> Seq<(Seq<char>, ParamView)> {
    read_params(call.params, trim(call.name), tools, true)
}

/// The call can be streamed: it can be written, without angle brackets in its name; there is a
/// tool of its name; and the object that its parameters begin is one that is closed with a brace.
#[verifier::opaque]
pub open spec fn is_streamable(call: WrittenCall, gap: Seq<char>, tools: Seq<Tool>) -> bool {
    &&& is_spaces(gap)
    &&& minimax_writable(call, gap)
    &&& is_tame(call.name)
    &&& has_tool(tools, trim(call.name))
    &&& stream_params(call, tools).len() > 0 ==> wants_brace(
        opening_fragment(stream_params(call, tools)),
    )
}

/// A chunk that does not complete an invocation is held.
proof fn lemma_call_held(
    st: MinimaxState,
    call: WrittenCall,
    gap: Seq<char>,
    chunk: Seq<char>,
    tools: Seq<Tool>,
)
    requires
        before_name(st),
        is_streamable(call, gap, tools),
        (st.buffer + chunk).is_prefix_of(gap + minimax_invoke(call, gap)),
        (st.buffer + chunk).len() < (gap + minimax_invoke(call, gap)).len(),
    ensures
        chunk_run(st, chunk, tools) == (MinimaxState { buffer: st.buffer + chunk, ..st }, nothing()),
{
    reveal(run);
    reveal(is_streamable);
    lemma_no_invoke_yet(call, gap, st.buffer + chunk);
}

/// Two steps close a call, and the run goes on behind them.
proof fn lemma_two_steps(st: MinimaxState, out: StreamView, tools: Seq<Tool>, id: int)
    requires
        valid(st),
        step(st, out, tools).more,
        ({
            let named = step(st, out, tools);
            let closed = step(named.state, named.out, tools);
            closed.state.tool is Some && 0 <= id < closed.state.tool->0
        }),
    ensures
        ({
            let named = step(st, out, tools);
            let closed = step(named.state, named.out, tools);
            let (end, sent) = run(st, out, tools);
            &&& end.streamed[id] == closed.state.streamed[id]
            &&& end.records[id] == closed.state.records[id]
            &&& closed.out.calls.is_prefix_of(sent.calls)
        }),
{
    reveal(run);
    let named = step(st, out, tools);
    let closed = step(named.state, named.out, tools);
    lemma_step_valid(st, out, tools);
    lemma_step_valid(named.state, named.out, tools);
    assert(run(st, out, tools) == run(named.state, named.out, tools));
    if closed.more {
        assert(run(named.state, named.out, tools) == run(closed.state, closed.out, tools));
        lemma_run_keeps(closed.state, closed.out, tools, id);
    } else {
        assert(closed.out.calls =~= closed.out.calls.subrange(0, closed.out.calls.len() as int));
    }
}

/// A complete invocation is sent.
proof fn lemma_call_sent(
    st: MinimaxState,
    call: WrittenCall,
    gap: Seq<char>,
    rest: Seq<char>,
    tools: Seq<Tool>,
)
    requires
        before_name(st),
        is_streamable(call, gap, tools),
        st.buffer == gap + (minimax_invoke(call, gap) + rest),
        !contains(rest, opening(Tag::MinimaxParameter)),
    ensures
        ({
            let name = trim(call.name);
            let params = stream_params(call, tools);
            let id = next_call(st);
            let (end, sent) = run(st, nothing(), tools);
            &&& sent_items(id, name, params).is_prefix_of(sent.calls)
            &&& end.streamed[id as int] == sent_object(params)
            &&& end.records[id as int] == sent_record(name, params)
        }),
{
    reveal(is_streamable);
    let name = trim(call.name);
    let params = stream_params(call, tools);
    let id = next_call(st);
    lemma_name_taken(st, nothing(), call, gap, rest, tools);
    lemma_step_valid(st, nothing(), tools);
    let named = step(st, nothing(), tools);
    lemma_params_taken(named.state, named.out, call, gap, rest, tools);
    let closed = step(named.state, named.out, tools);
    assert(closed.out.calls =~= sent_items(id, name, params));
    lemma_two_steps(st, nothing(), tools, id as int);
}

/// A call streams as it is written, however it is cut into chunks: as long as its invocation is
/// not complete, what came in is held and nothing is given. The chunk that completes it gives
/// the name of the call, and the object that its parameters make up, and this is what is recorded
/// of it from then on, whatever else the chunk holds but the parameters of another call.
pub proof fn law_call_streams(
    st: MinimaxState,
    call: WrittenCall,
    gap: Seq<char>,
    first: Seq<char>,
    second: Seq<char>,
    rest: Seq<char>,
    tools: Seq<Tool>,
)
    requires
        before_name(st),
        is_streamable(call, gap, tools),
        st.buffer + first + second == gap + (minimax_invoke(call, gap) + rest),
        (st.buffer + first).len() < (gap + minimax_invoke(call, gap)).len(),
        !contains(rest, opening(Tag::MinimaxParameter)),
    ensures
        ({
            let name = trim(call.name);
            let params = stream_params(call, tools);
            let id = next_call(st);
            let (held, given) = chunk_run(st, first, tools);
            let (end, sent) = chunk_run(held, second, tools);
            &&& held == MinimaxState { buffer: st.buffer + first, ..st }
            &&& given == nothing()
            &&& sent_items(id, name, params).is_prefix_of(sent.calls)
            &&& end.streamed[id as int] == sent_object(params)
            &&& end.records[id as int] == sent_record(name, params)
        }),
{
    let text = gap + minimax_invoke(call, gap);
    let short = st.buffer + first;
    assert(text + rest =~= gap + (minimax_invoke(call, gap) + rest));
    lemma_cut(short, second, text, rest);
    lemma_call_held(st, call, gap, first, tools);
    let held = MinimaxState { buffer: short, ..st };
    let full = MinimaxState { buffer: short + second, ..held };
    lemma_call_sent(full, call, gap, rest, tools);
}

// ---------------------------------------------------------------------------
// DeepSeek V3.2
// ---------------------------------------------------------------------------

/// The piece does not match before it is complete.
pub open spec fn is_late(tag: Tag, piece: Seq<char>) -> bool {
    forall|short: Seq<char>|
        #![trigger short.is_prefix_of(piece)]
        short.is_prefix_of(piece) && short.len() < piece.len() ==> is_silent(tag, short)
}

/// Where nothing matches in the end of a text, nothing matches in the text from there on.
proof fn lemma_silent_end(tag: Tag, text: Seq<char>, from: int)
    requires
        0 <= from <= text.len(),
        is_silent(tag, text.skip(from)),
    ensures
        matches_from(tag, text, from, Seq::empty()),
{
    let rest = text.skip(from);
    assert forall|at: int, groups: Seq<Seq<char>>| from <= at implies !#[trigger] match_at(
        tag,
        text,
        at,
        groups,
    ) by {
        if match_at(tag, text, at, groups) {
            assert(rest.skip(at - from) =~= text.skip(at));
            assert(match_at(tag, rest, at - from, groups));
        }
    }
}

/// Nothing matches in white space.
proof fn lemma_spaces_silent(tag: Tag, gap: Seq<char>)
    requires
        is_spaces(gap),
    ensures
        is_silent(tag, gap),
{
    let none = Seq::<char>::empty();
    lemma_spaces_quiet(tag, none, gap, none);
    assert(none + gap + none =~= gap);
    lemma_no_matches(tag, gap, 0);
}

/// The matches in the beginning of pieces in a row are the pieces that are complete.
proof fn lemma_partial_row(
    tag: Tag,
    before: Seq<char>,
    pieces: Seq<Seq<char>>,
    groups: Seq<Seq<Seq<char>>>,
    gap: Seq<char>,
    tail: Seq<char>,
    short: Seq<char>,
) -> (m: int)
    requires
        is_spaces(gap),
        pieces.len() == groups.len(),
        forall|i: int|
            0 <= i < pieces.len() ==> is_piece(tag, #[trigger] pieces[i], groups[i]) && is_late(
                tag,
                pieces[i],
            ),
        is_late(tag, tail),
        is_silent(tag, tail),
        before.is_prefix_of(short),
        short.is_prefix_of(before + row(pieces, gap, tail)),
    ensures
        0 <= m <= groups.len(),
        matches_from(tag, short, before.len() as int, row_founds(before, groups.take(m), gap)),
    decreases pieces.len(),
{
    let from = before.len() as int;
    let text = before + row(pieces, gap, tail);
    let rest = short.skip(from);
    assert(short =~= text.take(short.len() as int));
    assert(rest =~= text.skip(from).take(rest.len() as int));
    assert(groups.take(0) =~= Seq::empty());
    if pieces.len() == 0 {
        assert(text.skip(from) =~= tail);
        assert(rest.is_prefix_of(tail));
        if rest.len() == tail.len() {
            assert(rest =~= tail);
        }
        lemma_silent_end(tag, short, from);
        0
    } else {
        let piece = pieces[0];
        let others = row(pieces.drop_first(), gap, tail);
        assert(is_piece(tag, pieces[0], groups[0]) && is_late(tag, pieces[0]));
        assert(text.skip(from) =~= piece + (gap + others));
        if rest.len() < piece.len() {
            assert(rest =~= piece.subrange(0, rest.len() as int));
            assert(rest.is_prefix_of(piece));
            lemma_silent_end(tag, short, from);
            0
        } else {
            let next = before + piece + gap;
            let behind = from + piece.len();
            let after = rest.skip(piece.len() as int);
            assert(rest =~= piece + after);
            assert(matches_here(tag, piece + after, groups[0]));
            assert(match_at(tag, short, from, groups[0]));
            assert(short.take(from) =~= before);
            if short.len() <= next.len() {
                assert(short.skip(behind) =~= gap.take(short.len() - behind));
                lemma_spaces_silent(tag, short.skip(behind));
                lemma_silent_end(tag, short, behind);
                lemma_match_first(tag, short, from, groups[0], Seq::empty());
                let one = groups.take(1);
                assert(one[0] == groups[0]);
                assert(one.drop_first() =~= Seq::empty());
                assert(row_founds(before + one[0][0] + gap, one.drop_first(), gap) =~= Seq::empty());
                1
            } else {
                assert(next + others =~= text);
                assert(next =~= short.take(next.len() as int));
                assert forall|i: int| 0 <= i < pieces.drop_first().len() implies is_piece(
                    tag,
                    #[trigger] pieces.drop_first()[i],
                    groups.drop_first()[i],
                ) && is_late(tag, pieces.drop_first()[i]) by {
                    assert(is_piece(tag, pieces[i + 1], groups[i + 1]) && is_late(tag, pieces[i + 1]));
                }
                let m = lemma_partial_row(
                    tag,
                    next,
                    pieces.drop_first(),
                    groups.drop_first(),
                    gap,
                    tail,
                    short,
                );
                let founds = row_founds(next, groups.drop_first().take(m), gap);
                let last = short.skip(next.len() as int);
                lemma_spaces_quiet(tag, before + piece, gap, last);
                assert(before + piece + gap + last =~= short);
                lemma_matches_behind(tag, short, behind, next.len() as int, founds);
                lemma_match_first(tag, short, from, groups[0], founds);
                assert(groups.take(m + 1).drop_first() =~= groups.drop_first().take(m));
                m + 1
            }
        }
    }
}

/// The matches in the beginning of pieces in a row behind white space are the pieces that are
/// complete.
proof fn lemma_partial_body(
    tag: Tag,
    pieces: Seq<Seq<char>>,
    groups: Seq<Seq<Seq<char>>>,
    gap: Seq<char>,
    tail: Seq<char>,
    short: Seq<char>,
) -> (m: int)
    requires
        is_spaces(gap),
        pieces.len() == groups.len(),
        forall|i: int|
            0 <= i < pieces.len() ==> is_piece(tag, #[trigger] pieces[i], groups[i]) && is_late(
                tag,
                pieces[i],
            ),
        is_late(tag, tail),
        is_silent(tag, tail),
        short.is_prefix_of(gap + row(pieces, gap, tail)),
    ensures
        0 <= m <= groups.len(),
        tag_matches(tag, short) == row_founds(gap, groups.take(m), gap),
{
    let text = gap + row(pieces, gap, tail);
    assert(short =~= text.take(short.len() as int));
    if short.len() < gap.len() {
        assert(short =~= gap.take(short.len() as int));
        lemma_spaces_silent(tag, short);
        lemma_matches_all(tag, short, Seq::empty());
        assert(groups.take(0) =~= Seq::empty());
        0
    } else {
        let none = Seq::<char>::empty();
        assert(gap =~= short.take(gap.len() as int));
        let m = lemma_partial_row(tag, gap, pieces, groups, gap, tail, short);
        let founds = row_founds(gap, groups.take(m), gap);
        let rest = short.skip(gap.len() as int);
        lemma_spaces_quiet(tag, none, gap, rest);
        assert(none + gap + rest =~= short);
        lemma_matches_behind(tag, short, 0, gap.len() as int, founds);
        lemma_matches_all(tag, short, founds);
        m
    }
}

/// The opening tag of a DSML parameter has an angle bracket at its beginning alone.
proof fn lemma_flagged_bracketed(param: DsmlParam)
    requires
        is_unopened(param.name),
    ensures
        is_bracketed(dsml_head(param)),
{
    let tag = Tag::DsmlParameter;
    let flag = dsml_flag(param);
    lemma_opening_bracketed(tag);
    let a = Seq::<char>::empty() + ">"@;
    assert(is_unopened(a));
    let b = "\""@ + a;
    lemma_unopened("\""@, a);
    let c = flag + b;
    lemma_unopened(flag, b);
    let d = "string=\""@ + c;
    lemma_unopened("string=\""@, c);
    let e = one_space() + d;
    lemma_unopened(one_space(), d);
    let f = "\""@ + e;
    lemma_unopened("\""@, e);
    let g = param.name + f;
    lemma_unopened(param.name, f);
    let h = "name=\""@ + g;
    lemma_unopened("name=\""@, g);
    lemma_unopened(one_space(), h);
    lemma_unopened(opening(tag), one_space() + h);
}

/// The parameters of a DSML call do not match before they are complete.
proof fn lemma_dsml_param_late(param: DsmlParam)
    requires
        is_quotable(param.name),
        is_unopened(param.name),
        closes_first(param.text, closing(Tag::DsmlParameter)),
    ensures
        is_late(Tag::DsmlParameter, dsml_parameter(param)),
{
    let tag = Tag::DsmlParameter;
    let none = Seq::<char>::empty();
    let piece = dsml_parameter(param);
    lemma_dsml_head(param);
    lemma_flagged_bracketed(param);
    assert(none + piece =~= piece);
    assert forall|short: Seq<char>|
        #![trigger short.is_prefix_of(piece)]
        short.is_prefix_of(piece) && short.len() < piece.len() implies is_silent(tag, short) by {
        lemma_no_match_yet(
            tag,
            none,
            dsml_head(param),
            seq![param.name, dsml_flag(param)],
            param.text,
            short,
        );
    }
}

/// No DSML parameter matches in the closing tag of an invocation.
proof fn lemma_dsml_close_silent(short: Seq<char>)
    requires
        short.is_prefix_of(closing(Tag::DsmlInvoke)),
    ensures
        is_silent(Tag::DsmlParameter, short),
{
    let tag = Tag::DsmlParameter;
    let close = closing(Tag::DsmlInvoke);
    reveal_strlit("</｜DSML｜invoke>");
    reveal_strlit("<｜DSML｜parameter");
    assert forall|at: int| 0 <= at < short.len() implies !opening(tag).is_prefix_of(
        #[trigger] short.skip(at),
    ) by {
        if opening(tag).is_prefix_of(short.skip(at)) {
            let part = short.skip(at).subrange(0, opening(tag).len() as int);
            assert(part[0] == short[at]);
            assert(part[1] == short[at + 1]);
            assert(close.subrange(0, short.len() as int)[at] == close[at]);
            assert(close.subrange(0, short.len() as int)[at + 1] == close[at + 1]);
        }
    }
    lemma_no_matches(tag, short, 0);
}

/// The parameters of the call have names of their own, in which no angle bracket opens.
pub open spec fn has_own_names(call: DsmlCall) -> bool {
    &&& forall|i: int| 0 <= i < call.params.len() ==> is_unopened((#[trigger] call.params[i]).name)
    &&& forall|i: int, j: int|
        0 <= i < j < call.params.len() ==> (#[trigger] call.params[i]).name != (
        #[trigger] call.params[j]).name
}

/// What is read in the beginning of the body of a DSML call are its first parameters.
proof fn lemma_dsml_partial(call: DsmlCall, gap: Seq<char>, short: Seq<char>) -> (m: int)
    requires
        is_spaces(gap),
        dsml_writable(call, gap),
        has_own_names(call),
        short.is_prefix_of(dsml_body(call, gap) + closing(Tag::DsmlInvoke)),
    ensures
        0 <= m <= call.params.len(),
        dsml_params(tag_matches(Tag::DsmlParameter, short)) == dsml_read_params(call.params.take(m)),
{
    let tag = Tag::DsmlParameter;
    let pieces = dsml_parameters(call.params);
    let groups = dsml_param_groups(call.params);
    let tail = closing(Tag::DsmlInvoke);
    lemma_dsml_param_pieces(call, gap);
    assert forall|i: int| 0 <= i < pieces.len() implies is_piece(tag, #[trigger] pieces[i], groups[i])
        && is_late(tag, pieces[i]) by {
        assert(is_quotable(call.params[i].name));
        assert(is_unopened(call.params[i].name));
        lemma_dsml_param_late(call.params[i]);
    }
    assert forall|q: Seq<char>|
        #![trigger q.is_prefix_of(tail)]
        q.is_prefix_of(tail) && q.len() < tail.len() implies is_silent(tag, q) by {
        lemma_dsml_close_silent(q);
    }
    assert(tail.is_prefix_of(tail));
    lemma_dsml_close_silent(tail);
    lemma_row_tail(pieces, gap, tail);
    assert(dsml_body(call, gap) + tail =~= gap + row(pieces, gap, tail));
    let m = lemma_partial_body(tag, pieces, groups, gap, tail, short);
    let founds = row_founds(gap, groups.take(m), gap);
    lemma_row_founds(gap, groups.take(m), gap);
    assert forall|i: int| 0 <= i < founds.len() implies (#[trigger] founds[i]).groups == dsml_param_groups(
        call.params.take(m),
    )[i] by {
        assert(founds[i].groups == groups.take(m)[i]);
    }
    lemma_dsml_params_read(founds, call.params.take(m));
    m
}

/// Parameters with names of their own are read one by one.
proof fn lemma_own_params(params: Seq<DsmlParam>)
    requires
        forall|i: int, j: int|
            0 <= i < j < params.len() ==> (#[trigger] params[i]).name != (#[trigger] params[j]).name,
    ensures
        dsml_read_params(params) == params.map_values(
            |p: DsmlParam| (p.name, dsml_read_value(p)),
        ),
    decreases params.len(),
{
    let f = |p: DsmlParam| (p.name, dsml_read_value(p));
    if params.len() > 0 {
        let shorter = params.drop_last();
        let n = params.len() - 1;
        assert forall|i: int, j: int| 0 <= i < j < shorter.len() implies (#[trigger] shorter[i]).name != (
        #[trigger] shorter[j]).name by {
            assert(params[i].name != params[j].name);
        }
        lemma_own_params(shorter);
        let read = dsml_read_params(shorter);
        lemma_named(read, params[n].name);
        if has_name(read, params[n].name) {
            let k = position_of(read, params[n].name);
            assert(read[k] == f(shorter[k]));
            assert(params[k].name != params[n].name);
        }
        assert(dsml_read_params(params) =~= params.map_values(f));
    } else {
        assert(dsml_read_params(params) =~= params.map_values(f));
    }
}

/// The first parameters of a call with names of their own are the first that are read.
proof fn lemma_first_params(call: DsmlCall, m: int)
    requires
        has_own_names(call),
        0 <= m <= call.params.len(),
    ensures
        dsml_read_params(call.params.take(m)).is_prefix_of(dsml_read_params(call.params)),
{
    let first = call.params.take(m);
    let f = |p: DsmlParam| (p.name, dsml_read_value(p));
    assert forall|i: int, j: int| 0 <= i < j < first.len() implies (#[trigger] first[i]).name != (
    #[trigger] first[j]).name by {
        assert(call.params[i].name != call.params[j].name);
    }
    lemma_own_params(first);
    lemma_own_params(call.params);
    assert(first.map_values(f) =~= call.params.map_values(f).subrange(0, m));
}

/// The opening tag of a DSML invocation.
pub open spec fn dsml_invoke_head(call: DsmlCall) -> Seq<char> {
    named_head(Tag::DsmlInvoke, one_space(), call.name, Seq::empty())
}

/// The opening tag of a DSML invocation is one, whether the invocation may be open or not.
proof fn lemma_dsml_invoke_head(call: DsmlCall)
    requires
        is_quotable(call.name),
        is_unopened(call.name),
    ensures
        is_head(Tag::DsmlOpenInvoke, dsml_invoke_head(call), seq![call.name]),
        is_bracketed(dsml_invoke_head(call)),
        dsml_invoke_head(call).len() > 1,
        dsml_invoke_head(call)[0] == '<',
        dsml_invoke_head(call)[1] != '/',
{
    let tag = Tag::DsmlOpenInvoke;
    let attributes = seq![call.name];
    assert(is_spaces(one_space()));
    assert(is_spaces(Seq::<char>::empty()));
    assert(dsml_invoke_head(call) == named_head(tag, one_space(), attributes[0], Seq::empty()));
    lemma_named_bracketed(Tag::DsmlInvoke, call.name);
    reveal_strlit("<｜DSML｜invoke");
}

/// A match has an opening tag where it begins.
proof fn lemma_match_head(tag: Tag, rest: Seq<char>, groups: Seq<Seq<char>>) -> (parts: (
    Seq<char>,
    Seq<Seq<char>>,
))
    requires
        matches_here(tag, rest, groups),
    ensures
        is_head(tag, parts.0, parts.1),
        parts.0.is_prefix_of(rest),
{
    reveal(matches_here);
    let (head, attributes, body, end) = choose|
        head: Seq<char>,
        attributes: Seq<Seq<char>>,
        body: Seq<char>,
        end: Seq<char>,
    |
        {
            &&& is_head(tag, head, attributes)
            &&& head.is_prefix_of(rest)
            &&& is_tail(tag, rest.skip(head.len() as int), body, end)
            &&& groups == #[trigger] groups_of(tag, head, attributes, body, end)
        };
    (head, attributes)
}

/// Nothing matches before an opening tag is complete, behind white space.
proof fn lemma_no_head_yet(
    tag: Tag,
    gap: Seq<char>,
    own: Seq<char>,
    own_attributes: Seq<Seq<char>>,
    short: Seq<char>,
)
    requires
        is_spaces(gap),
        is_head(tag, own, own_attributes),
        is_bracketed(own),
        short.is_prefix_of(gap + own),
        short.len() < (gap + own).len(),
    ensures
        is_silent(tag, short),
{
    let none = Seq::<char>::empty();
    assert(gap + (own + none) =~= gap + own);
    assert forall|at: int, groups: Seq<Seq<char>>| 0 <= at implies !#[trigger] match_at(
        tag,
        short,
        at,
        groups,
    ) by {
        if match_at(tag, short, at, groups) {
            let (head, attributes) = lemma_match_head(tag, short.skip(at), groups);
            lemma_early_head(tag, gap, own, own_attributes, none, short, at, head, attributes);
        }
    }
}

/// The first invocation that may be open in a text that begins with one, behind white space.
proof fn lemma_first_open_invoke(
    call: DsmlCall,
    gap: Seq<char>,
    rest: Seq<char>,
    body: Seq<char>,
    end: Seq<char>,
)
    requires
        is_spaces(gap),
        is_quotable(call.name),
        is_unopened(call.name),
        is_tail(Tag::DsmlOpenInvoke, rest, body, end),
    ensures
        ({
            let founds = tag_matches(Tag::DsmlOpenInvoke, gap + (dsml_invoke_head(call) + rest));
            &&& founds.len() > 0
            &&& founds[0].before == gap
            &&& founds[0].groups == seq![dsml_invoke_head(call) + (body + end), call.name, body, end]
        }),
{
    let tag = Tag::DsmlOpenInvoke;
    let own = dsml_invoke_head(call);
    let text = gap + (own + rest);
    let at = gap.len() as int;
    let groups = groups_of(tag, own, seq![call.name], body, end);
    lemma_dsml_invoke_head(call);
    assert(text.skip(at) =~= own + rest);
    assert((own + rest).skip(own.len() as int) =~= rest);
    assert(matches_here(tag, own + rest, groups)) by {
        reveal(matches_here);
        assert(own.is_prefix_of(own + rest));
    }
    assert(groups =~= seq![own + (body + end), call.name, body, end]);
    assert(match_at(tag, text, at, groups));
    lemma_match_stands(tag, own + rest, groups);
    let others = lemma_matches_exist(tag, text, at + groups[0].len());
    lemma_match_first(tag, text, at, groups, others);
    let founds = seq![FoundView { before: text.take(at), groups }] + others;
    lemma_spaces_quiet(tag, Seq::empty(), gap, own + rest);
    assert(Seq::<char>::empty() + gap + (own + rest) =~= text);
    lemma_matches_behind(tag, text, 0, at, founds);
    lemma_matches_all(tag, text, founds);
    assert(text.take(at) =~= gap);
}

/// A block does not end before the invocation that comes in begins.
proof fn lemma_block_end_later(call: DsmlCall, gap: Seq<char>, last: Seq<char>, short: Seq<char>, e: int)
    requires
        is_spaces(gap),
        is_quotable(call.name),
        is_unopened(call.name),
        short.is_prefix_of(gap + (dsml_invoke_head(call) + last)),
        occurs_at(short, closing(Tag::DsmlBlock), e),
    ensures
        e >= gap.len() + dsml_invoke_head(call).len(),
{
    let own = dsml_invoke_head(call);
    let text = gap + (own + last);
    let word = closing(Tag::DsmlBlock);
    reveal_strlit("</｜DSML｜function_calls>");
    lemma_dsml_invoke_head(call);
    let part = short.subrange(e, e + word.len());
    assert(part[0] == short[e] && part[1] == short[e + 1]);
    assert(text.subrange(0, short.len() as int)[e] == text[e]);
    assert(text.subrange(0, short.len() as int)[e + 1] == text[e + 1]);
    assert(text[e] == '<' && text[e + 1] == '/');
    if e < gap.len() {
        assert(is_white_space(gap[e]));
    } else if e == gap.len() {
        assert(text[e + 1] == own[1]);
    } else if e < gap.len() + own.len() {
        assert(text[e] == own[e - gap.len()]);
    }
}

/// What may be sent while a DSML call comes in is the beginning of its arguments.
proof fn lemma_opened_beginning(call: DsmlCall, gap: Seq<char>, short: Seq<char>)
    requires
        is_spaces(gap),
        dsml_writable(call, gap),
        has_own_names(call),
        short.is_prefix_of(dsml_body(call, gap) + closing(Tag::DsmlInvoke)),
    ensures
        deepseek::opened_arguments(short, tag_matches(Tag::DsmlParameter, short)).is_prefix_of(
            dsml_read_call(call).arguments,
        ),
{
    let m = lemma_dsml_partial(call, gap, short);
    lemma_first_params(call, m);
    deepseek::law_opened_is_beginning(
        dsml_read_params(call.params.take(m)),
        dsml_read_params(call.params),
    );
}

/// The pieces that name a call.
pub open spec fn names_of(items: Seq<ItemView>) -> Seq<ItemView>
    decreases items.len(),
{
    if items.len() == 0 {
        Seq::empty()
    } else if items.last().name is Some {
        names_of(items.drop_last()).push(items.last())
    } else {
        names_of(items.drop_last())
    }
}

/// The pieces that name a call in two rows are those of the first, and behind them those of the
/// second.
pub proof fn lemma_names(a: Seq<ItemView>, b: Seq<ItemView>)
    ensures
        names_of(a + b) == names_of(a) + names_of(b),
    decreases b.len(),
{
    if b.len() == 0 {
        assert(a + b =~= a);
        assert(names_of(a) + names_of(b) =~= names_of(a));
    } else {
        assert((a + b).drop_last() =~= a + b.drop_last());
        lemma_names(a, b.drop_last());
        assert(names_of(a + b) =~= names_of(a) + names_of(b));
    }
}

/// The piece that names the call that comes in, where it was not sent before.
pub open spec fn first_name(st: DsmlState, name: Seq<char>) -> Seq<ItemView> {
    if st.name_sent {
        Seq::empty()
    } else {
        seq![name_item(deepseek::call_number(st), name)]
    }
}

/// What is sent of a call names it once.
proof fn lemma_first_name(st: DsmlState, name: Seq<char>, calls: Seq<ItemView>, id: nat, fragment: Seq<char>)
    ensures
        names_of(calls + (deepseek::named_call(st, name).1 + fragment_items(id, fragment))) == names_of(calls)
            + first_name(st, name),
{
    let first = deepseek::named_call(st, name).1;
    let second = fragment_items(id, fragment);
    lemma_names(calls, first + second);
    lemma_names(first, second);
    assert(names_of(Seq::<ItemView>::empty()) =~= Seq::empty());
    assert(names_of(second) =~= Seq::empty()) by {
        if fragment.len() > 0 {
            assert(second.drop_last() =~= Seq::empty());
        }
    }
    assert(names_of(first) =~= first_name(st, name)) by {
        if !st.name_sent {
            assert(first.drop_last() =~= Seq::empty());
        }
    }
    assert(first_name(st, name) + Seq::<ItemView>::empty() =~= first_name(st, name));
}

/// The parser is in a block, at a call with these arguments: of which it has sent a beginning.
pub open spec fn at_call(st: DsmlState, arguments: Seq<char>) -> bool {
    &&& deepseek::valid(st)
    &&& st.in_block
    &&& st.name_sent ==> st.streamed.last().is_prefix_of(arguments)
}

/// The call can be streamed: it can be written, and no angle bracket opens in its names, of
/// which those of its parameters differ.
#[verifier::opaque]
pub open spec fn dsml_streamable(call: DsmlCall, gap: Seq<char>) -> bool {
    dsml_writable(call, gap) && is_unopened(call.name) && has_own_names(call)
}

/// A chunk that does not complete the opening tag of an invocation is held.
proof fn lemma_dsml_head_held(
    st: DsmlState,
    out: StreamView,
    call: DsmlCall,
    gap: Seq<char>,
    tools: Seq<Tool>,
)
    requires
        st.in_block,
        is_spaces(gap),
        dsml_streamable(call, gap),
        st.buffer.is_prefix_of(gap + dsml_invoke_head(call)),
        st.buffer.len() < (gap + dsml_invoke_head(call)).len(),
    ensures
        deepseek::run(st, out, tools) == (st, out),
{
    reveal(deepseek::run);
    reveal(dsml_streamable);
    let own = dsml_invoke_head(call);
    let none = Seq::<char>::empty();
    let word = closing(Tag::DsmlBlock);
    lemma_dsml_invoke_head(call);
    lemma_no_head_yet(Tag::DsmlOpenInvoke, gap, own, seq![call.name], st.buffer);
    lemma_matches_all(Tag::DsmlOpenInvoke, st.buffer, Seq::empty());
    lemma_find(st.buffer, word);
    assert(gap + (own + none) =~= gap + own);
    if let Some(e) = find(st.buffer, word) {
        lemma_block_end_later(call, gap, none, st.buffer, e);
    }
}

/// An invocation that is not complete is found, before the block ends, and what may be sent of it
/// is the beginning of its arguments.
proof fn lemma_dsml_part_found(call: DsmlCall, gap: Seq<char>, short: Seq<char>)
    requires
        is_spaces(gap),
        dsml_streamable(call, gap),
        short.is_prefix_of(dsml_body(call, gap) + closing(Tag::DsmlInvoke)),
        short.len() < (dsml_body(call, gap) + closing(Tag::DsmlInvoke)).len(),
    ensures
        ({
            let text = gap + (dsml_invoke_head(call) + short);
            let founds = tag_matches(Tag::DsmlOpenInvoke, text);
            let end = find(text, closing(Tag::DsmlBlock));
            &&& founds.len() > 0
            &&& founds[0].before == gap
            &&& founds[0].groups.len() == 4
            &&& founds[0].groups[1] == call.name
            &&& founds[0].groups[2] == short
            &&& founds[0].groups[3] == Seq::<char>::empty()
            &&& end is None || gap.len() < end->0
            &&& deepseek::opened_arguments(short, tag_matches(Tag::DsmlParameter, short)).is_prefix_of(
                dsml_read_call(call).arguments,
            )
        }),
{
    reveal(dsml_streamable);
    let own = dsml_invoke_head(call);
    let body = dsml_body(call, gap);
    let close = closing(Tag::DsmlInvoke);
    let none = Seq::<char>::empty();
    let word = closing(Tag::DsmlBlock);
    let text = gap + (own + short);
    assert(find(short, close) is None) by {
        lemma_find(short, close);
        if let Some(q) = find(short, close) {
            assert(occurs_at(short, close, q));
            assert(short =~= (body + close).subrange(0, short.len() as int));
            lemma_occurs_within(body + close, 0, short.len() as int, close, q);
            lemma_first_close(body, close);
        }
    }
    lemma_first_open_invoke(call, gap, short, short, none);
    lemma_find(text, word);
    lemma_dsml_invoke_head(call);
    if let Some(e) = find(text, word) {
        assert(text.is_prefix_of(gap + (own + short)));
        lemma_block_end_later(call, gap, short, text, e);
    }
    lemma_opened_beginning(call, gap, short);
}

/// The step at an invocation that is not complete keeps what was sent a beginning of the
/// arguments.
proof fn lemma_part_step(
    st: DsmlState,
    out: StreamView,
    found: FoundView,
    founds: Seq<FoundView>,
    opens: Seq<FoundView>,
    tools: Seq<Tool>,
    arguments: Seq<char>,
)
    requires
        at_call(st, arguments),
        found.group(3).len() == 0,
        has_tool(tools, trim(found.group(1))),
        deepseek::opened_arguments(found.group(2), founds).is_prefix_of(arguments),
    ensures
        ({
            let next = deepseek::invoke_step(st, out, found, founds, opens, tools);
            &&& !next.more
            &&& at_call(next.state, arguments)
            &&& next.state.buffer == st.buffer
            &&& deepseek::call_number(next.state) == deepseek::call_number(st)
            &&& next.state.name_sent
            &&& next.out.normal_text == out.normal_text
            &&& names_of(next.out.calls) == names_of(out.calls) + first_name(st, trim(found.group(1)))
        }),
{
    let name = trim(found.group(1));
    let target = deepseek::opened_arguments(found.group(2), founds);
    let (begun, first) = deepseek::named_call(st, name);
    let id = deepseek::call_number(begun) as int;
    let sent = begun.streamed[id];
    assert(sent.is_prefix_of(arguments));
    let fragment = deepseek::rest_of(sent, target);
    assert((sent + fragment).is_prefix_of(arguments)) by {
        if sent.is_prefix_of(target) {
            assert(sent + fragment =~= target);
        } else {
            assert(sent + fragment =~= sent);
        }
    }
    let next = deepseek::invoke_step(st, out, found, founds, opens, tools);
    assert(next.state.streamed.last() == sent + fragment);
    lemma_first_name(st, name, out.calls, deepseek::call_number(begun), fragment);
}

/// Of a call that comes in, a beginning of the arguments was sent.
proof fn lemma_dsml_part_sent(
    st: DsmlState,
    out: StreamView,
    call: DsmlCall,
    gap: Seq<char>,
    short: Seq<char>,
    tools: Seq<Tool>,
)
    requires
        at_call(st, dsml_read_call(call).arguments),
        is_spaces(gap),
        dsml_streamable(call, gap),
        has_tool(tools, trim(call.name)),
        st.buffer == gap + (dsml_invoke_head(call) + short),
        short.is_prefix_of(dsml_body(call, gap) + closing(Tag::DsmlInvoke)),
        short.len() < (dsml_body(call, gap) + closing(Tag::DsmlInvoke)).len(),
    ensures
        ({
            let (next, given) = deepseek::run(st, out, tools);
            &&& at_call(next, dsml_read_call(call).arguments)
            &&& next.buffer == st.buffer
            &&& deepseek::call_number(next) == deepseek::call_number(st)
            &&& next.name_sent
            &&& given.normal_text == out.normal_text
            &&& names_of(given.calls) == names_of(out.calls) + first_name(st, trim(call.name))
        }),
{
    reveal(deepseek::run);
    let arguments = dsml_read_call(call).arguments;
    lemma_dsml_part_found(call, gap, short);
    let found = tag_matches(Tag::DsmlOpenInvoke, st.buffer)[0];
    assert(found.group(1) == call.name);
    assert(found.group(2) == short);
    assert(found.group(3) == Seq::<char>::empty());
    let founds = tag_matches(Tag::DsmlParameter, short);
    let opens = deepseek::open_matches(short, founds);
    lemma_part_step(st, out, found, founds, opens, tools, arguments);
    assert(deepseek::step(st, out, tools) == deepseek::invoke_step(st, out, found, founds, opens, tools));
}

/// A step leaves what was sent of a closed call as it is.
pub proof fn lemma_dsml_step_keeps(st: DsmlState, out: StreamView, tools: Seq<Tool>, i: int)
    requires
        deepseek::valid(st),
        st.tool is Some,
        0 <= i < st.tool->0,
    ensures
        ({
            let next = deepseek::step(st, out, tools);
            &&& deepseek::valid(next.state)
            &&& next.state.tool is Some
            &&& st.tool->0 <= next.state.tool->0
            &&& next.state.streamed[i] == st.streamed[i]
            &&& next.state.records[i] == st.records[i]
        }),
{
}

/// Every run leaves what was sent of a closed call as it is.
pub proof fn lemma_dsml_run_keeps(st: DsmlState, out: StreamView, tools: Seq<Tool>, i: int)
    requires
        deepseek::valid(st),
        st.tool is Some,
        0 <= i < st.tool->0,
    ensures
        ({
            let (next, given) = deepseek::run(st, out, tools);
            &&& next.streamed[i] == st.streamed[i]
            &&& next.records[i] == st.records[i]
        }),
    decreases st.buffer.len(),
{
    reveal(deepseek::run);
    lemma_dsml_step_keeps(st, out, tools, i);
    deepseek::lemma_step_shrinks(st, out, tools);
    let next = deepseek::step(st, out, tools);
    if next.more {
        lemma_dsml_run_keeps(next.state, next.out, tools, i);
    }
}

/// A complete invocation is found, before the block ends.
proof fn lemma_dsml_complete_found(call: DsmlCall, gap: Seq<char>, rest: Seq<char>)
    requires
        is_spaces(gap),
        dsml_streamable(call, gap),
    ensures
        ({
            let text = gap + (dsml_invoke(call, gap) + rest);
            let founds = tag_matches(Tag::DsmlOpenInvoke, text);
            let end = find(text, closing(Tag::DsmlBlock));
            &&& founds.len() > 0
            &&& founds[0].before == gap
            &&& founds[0].groups == seq![
                dsml_invoke(call, gap),
                call.name,
                dsml_body(call, gap),
                closing(Tag::DsmlInvoke),
            ]
            &&& end is None || gap.len() < end->0
        }),
{
    reveal(dsml_streamable);
    let own = dsml_invoke_head(call);
    let body = dsml_body(call, gap);
    let close = closing(Tag::DsmlInvoke);
    let last = body + (close + rest);
    let word = closing(Tag::DsmlBlock);
    let text = gap + (dsml_invoke(call, gap) + rest);
    assert(text =~= gap + (own + last));
    lemma_closes_first(body, close, rest);
    assert(is_tail(Tag::DsmlOpenInvoke, last, body, close));
    lemma_first_open_invoke(call, gap, last, body, close);
    lemma_find(text, word);
    lemma_dsml_invoke_head(call);
    if let Some(e) = find(text, word) {
        assert(text.is_prefix_of(gap + (own + last)));
        lemma_block_end_later(call, gap, last, text, e);
    }
}

/// What stands behind the beginning of a text stands in it.
proof fn lemma_stands(before: Seq<char>, piece: Seq<char>, rest: Seq<char>)
    ensures
        (before + piece).is_prefix_of(before + (piece + rest)),
{
    let text = before + (piece + rest);
    assert(before + piece =~= text.subrange(0, (before + piece).len() as int));
}

/// The arguments that the body of a DSML call gives are those that are read.
proof fn lemma_dsml_arguments(call: DsmlCall, gap: Seq<char>)
    requires
        is_spaces(gap),
        dsml_streamable(call, gap),
    ensures
        deepseek::dsml_arguments(dsml_body(call, gap), false) == dsml_read_call(call).arguments,
        dsml_read_call(call).name == trim(call.name),
{
    reveal(dsml_streamable);
    let body = dsml_body(call, gap);
    let whole = FoundView { before: gap, groups: seq![dsml_invoke(call, gap), call.name, body] };
    lemma_dsml_call_read(call, gap, whole);
    assert(whole.group(1) == call.name && whole.group(2) == body);
}

/// A closed invocation has sent its arguments, and the parser is valid behind it.
proof fn lemma_named_closed(
    st: DsmlState,
    out: StreamView,
    found: FoundView,
    founds: Seq<FoundView>,
    opens: Seq<FoundView>,
    tools: Seq<Tool>,
)
    requires
        at_call(st, deepseek::arguments_of(found.group(2), founds, opens, false)),
        found.stands_in(st.buffer),
        found.group(3).len() > 0,
        found.end() > 0,
        has_tool(tools, trim(found.group(1))),
    ensures
        ({
            let id = deepseek::call_number(st);
            let arguments = deepseek::arguments_of(found.group(2), founds, opens, false);
            let next = deepseek::invoke_step(st, out, found, founds, opens, tools);
            &&& deepseek::valid(next.state)
            &&& next.state.tool == Some(id + 1)
            &&& next.state.streamed[id as int] == arguments
            &&& next.state.records[id as int] == Some(CallView { name: trim(found.group(1)), arguments })
            &&& next.more
            &&& next.state.in_block && !next.state.name_sent
            &&& next.state.buffer == st.buffer.skip(found.end())
            &&& next.out.normal_text == out.normal_text
            &&& names_of(next.out.calls) == names_of(out.calls) + first_name(st, trim(found.group(1)))
        }),
{
    deepseek::law_closed_invocation(st, out, found, founds, opens, tools);
    let name = trim(found.group(1));
    let begun = deepseek::named_call(st, name).0;
    let id = deepseek::call_number(begun);
    let fragment = deepseek::rest_of(
        begun.streamed[id as int],
        deepseek::arguments_of(found.group(2), founds, opens, false),
    );
    lemma_first_name(st, name, out.calls, id, fragment);
}

/// The step at a complete invocation sends the rest of its arguments.
pub proof fn lemma_dsml_call_closed(
    st: DsmlState,
    out: StreamView,
    call: DsmlCall,
    gap: Seq<char>,
    rest: Seq<char>,
    tools: Seq<Tool>,
)
    requires
        at_call(st, dsml_read_call(call).arguments),
        is_spaces(gap),
        dsml_streamable(call, gap),
        has_tool(tools, trim(call.name)),
        st.buffer == gap + (dsml_invoke(call, gap) + rest),
    ensures
        ({
            let next = deepseek::step(st, out, tools);
            let id = deepseek::call_number(st);
            &&& deepseek::valid(next.state)
            &&& next.state.tool == Some(id + 1)
            &&& next.state.streamed[id as int] == dsml_read_call(call).arguments
            &&& next.state.records[id as int] == Some(dsml_read_call(call))
            &&& next.more
            &&& next.state.in_block && !next.state.name_sent
            &&& next.state.buffer == rest
            &&& next.out.normal_text == out.normal_text
            &&& names_of(next.out.calls) == names_of(out.calls) + first_name(st, trim(call.name))
        }),
{
    let body = dsml_body(call, gap);
    let invoke = dsml_invoke(call, gap);
    lemma_dsml_complete_found(call, gap, rest);
    let found = tag_matches(Tag::DsmlOpenInvoke, st.buffer)[0];
    assert(found.group(0) == invoke);
    assert(found.group(1) == call.name);
    assert(found.group(2) == body);
    assert(found.group(3) == closing(Tag::DsmlInvoke));
    lemma_opening(Tag::DsmlInvoke);
    lemma_stands(gap, invoke, rest);
    assert(found.stands_in(st.buffer));
    assert(st.buffer.skip(found.end()) =~= rest);
    lemma_dsml_arguments(call, gap);
    let founds = tag_matches(Tag::DsmlParameter, body);
    let opens = deepseek::open_matches(body, founds);
    lemma_named_closed(st, out, found, founds, opens, tools);
    assert(deepseek::step(st, out, tools) == deepseek::invoke_step(st, out, found, founds, opens, tools));
}

/// A call whose invocation is complete has sent its arguments, all of them.
proof fn lemma_dsml_call_sent(
    st: DsmlState,
    out: StreamView,
    call: DsmlCall,
    gap: Seq<char>,
    rest: Seq<char>,
    tools: Seq<Tool>,
)
    requires
        at_call(st, dsml_read_call(call).arguments),
        is_spaces(gap),
        dsml_streamable(call, gap),
        has_tool(tools, trim(call.name)),
        st.buffer == gap + (dsml_invoke(call, gap) + rest),
    ensures
        ({
            let (end, given) = deepseek::run(st, out, tools);
            let id = deepseek::call_number(st) as int;
            &&& end.streamed[id] == dsml_read_call(call).arguments
            &&& end.records[id] == Some(dsml_read_call(call))
        }),
{
    reveal(deepseek::run);
    lemma_dsml_call_closed(st, out, call, gap, rest, tools);
    let next = deepseek::step(st, out, tools);
    if next.more {
        assert(deepseek::run(st, out, tools) == deepseek::run(next.state, next.out, tools));
        lemma_dsml_run_keeps(next.state, next.out, tools, deepseek::call_number(st) as int);
    }
}

/// Of a call that comes in, what came in is held, and a beginning of the arguments was sent.
pub proof fn lemma_dsml_call_held(
    st: DsmlState,
    out: StreamView,
    call: DsmlCall,
    gap: Seq<char>,
    tools: Seq<Tool>,
)
    requires
        at_call(st, dsml_read_call(call).arguments),
        is_spaces(gap),
        dsml_streamable(call, gap),
        has_tool(tools, trim(call.name)),
        st.buffer.is_prefix_of(gap + dsml_invoke(call, gap)),
        st.buffer.len() < (gap + dsml_invoke(call, gap)).len(),
    ensures
        ({
            let (held, given) = deepseek::run(st, out, tools);
            &&& at_call(held, dsml_read_call(call).arguments)
            &&& held.buffer == st.buffer
            &&& deepseek::call_number(held) == deepseek::call_number(st)
            &&& st.name_sent ==> held.name_sent
            &&& given.normal_text == out.normal_text
            &&& names_of(given.calls) == if held.name_sent {
                names_of(out.calls) + first_name(st, trim(call.name))
            } else {
                names_of(out.calls)
            }
        }),
{
    let own = dsml_invoke_head(call);
    let last = dsml_body(call, gap) + closing(Tag::DsmlInvoke);
    let short = st.buffer;
    let text = gap + dsml_invoke(call, gap);
    assert(text =~= gap + own + last);
    assert(short =~= text.subrange(0, short.len() as int));
    if short.len() < (gap + own).len() {
        assert(short =~= (gap + own).subrange(0, short.len() as int));
        lemma_dsml_head_held(st, out, call, gap, tools);
        assert(names_of(out.calls) + Seq::<ItemView>::empty() =~= names_of(out.calls));
    } else {
        let part = short.skip((gap + own).len() as int);
        assert(short =~= gap + (own + part));
        assert(part =~= last.subrange(0, part.len() as int));
        lemma_dsml_part_sent(st, out, call, gap, part, tools);
    }
}

/// Where a text is cut in two ways, the shorter beginning is one of the longer.
pub proof fn lemma_cut(short: Seq<char>, second: Seq<char>, text: Seq<char>, rest: Seq<char>)
    requires
        short + second == text + rest,
        short.len() <= text.len(),
    ensures
        short.is_prefix_of(text),
{
    assert(short =~= (short + second).subrange(0, short.len() as int));
    assert(short =~= text.subrange(0, short.len() as int));
}

/// A DSML call streams as it is written, however it is cut into chunks: as long as its invocation
/// is not complete, what came in is held, and what was sent of its arguments is a beginning of
/// them. The chunk that completes it sends the rest: then the arguments that it has in a whole
/// text were sent, letter for letter, and they are recorded under its name.
pub proof fn law_dsml_call_streams(
    st: DsmlState,
    call: DsmlCall,
    gap: Seq<char>,
    first: Seq<char>,
    second: Seq<char>,
    rest: Seq<char>,
    tools: Seq<Tool>,
)
    requires
        at_call(st, dsml_read_call(call).arguments),
        is_spaces(gap),
        dsml_streamable(call, gap),
        has_tool(tools, trim(call.name)),
        st.buffer + first + second == gap + (dsml_invoke(call, gap) + rest),
        (st.buffer + first).len() < (gap + dsml_invoke(call, gap)).len(),
    ensures
        ({
            let id = deepseek::call_number(st);
            let (held, given) = deepseek::chunk_run(st, first, tools);
            let (end, sent) = deepseek::chunk_run(held, second, tools);
            &&& at_call(held, dsml_read_call(call).arguments)
            &&& held.buffer == st.buffer + first
            &&& deepseek::call_number(held) == id
            &&& end.streamed[id as int] == dsml_read_call(call).arguments
            &&& end.records[id as int] == Some(dsml_read_call(call))
        }),
{
    let short = st.buffer + first;
    let text = gap + dsml_invoke(call, gap);
    let begun = DsmlState { buffer: short, ..st };
    assert(text + rest =~= gap + (dsml_invoke(call, gap) + rest));
    lemma_cut(short, second, text, rest);
    assert(at_call(begun, dsml_read_call(call).arguments));
    lemma_dsml_call_held(begun, nothing(), call, gap, tools);
    let (held, given) = deepseek::run(begun, nothing(), tools);
    let full = DsmlState { buffer: held.buffer + second, ..held };
    lemma_dsml_call_sent(full, nothing(), call, gap, rest, tools);
}

} // verus!
