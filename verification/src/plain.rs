//! Calls whose names and values are plain: in a stream they are what they are in a whole text.

use vstd::prelude::*;

#[allow(unused_imports)]
use crate::chunked::{
    are_scalar, call_in_block, chunks_run, chunks_text, is_brace_free, is_brace_free_value, is_read_alike,
    law_brace_closes, law_stream_like_whole_text,
};
#[allow(unused_imports)]
use crate::minimax::{complete_parse, decoded, initial, streamed_value};
#[allow(unused_imports)]
use crate::params::{fits_json, is_number_text, is_scalar, json_value, lemma_named, ParamView};
#[allow(unused_imports)]
use crate::pattern::{closes_first, closing, is_quotable, is_spaces, named_head, opening, row, Tag};
#[allow(unused_imports)]
use crate::schema::param_schema;
#[allow(unused_imports)]
use crate::streamed::{is_bracketed, is_streamable, is_tame, is_unopened, lemma_named_bracketed, stream_params};
#[allow(unused_imports)]
use crate::text::{
    decimal, decimal_int, digit_char, first_at, is_white_space, lemma_find, lemma_trim_end, occurs_at, trim,
};
#[allow(unused_imports)]
use crate::tool::{has_tool, name_item, sent_args, Tool};
#[allow(unused_imports)]
use crate::written::{
    minimax_body, minimax_calls, minimax_invoke, minimax_invokes, minimax_parameter, minimax_parameters,
    minimax_writable, one_space, read_params, WrittenCall,
};

verus! {

/// A name of a function or a parameter: it holds no angle bracket, brace or quotation mark.
pub open spec fn is_plain_name(name: Seq<char>) -> bool {
    &&& name.len() > 0
    &&& forall|i: int|
        0 <= i < name.len() ==> #[trigger] name[i] != '<' && name[i] != '>' && name[i] != '{' && name[i] != '}'
            && name[i] != '"'
}

/// The text of a value: it holds no angle bracket that opens; and what it stands for holds no
/// brace or square bracket that opens, and no quotation mark together with a backslash.
pub open spec fn is_plain_text(text: Seq<char>) -> bool {
    &&& is_unopened(text)
    &&& is_flat(decoded(text))
}

/// The text holds no brace or square bracket that opens, and no quotation mark together with a
/// backslash.
pub open spec fn is_flat(text: Seq<char>) -> bool {
    &&& is_brace_free(text)
    &&& !text.contains('[')
    &&& !(text.contains('"') && text.contains('\\'))
}

/// The names and values of the call are plain.
pub open spec fn is_plain_call(call: WrittenCall) -> bool {
    &&& is_plain_name(call.name)
    &&& forall|i: int|
        0 <= i < call.params.len() ==> is_plain_name((#[trigger] call.params[i]).0) && is_plain_text(
            call.params[i].1,
        )
}

// ---------------------------------------------------------------------------
// Closing tags
// ---------------------------------------------------------------------------

/// Wherever an angle bracket opens in the text, the text goes on otherwise than the word.
#[verifier::opaque]
spec fn shuns(text: Seq<char>, word: Seq<char>) -> bool {
    forall|i: int| 0 <= i < text.len() && #[trigger] text[i] == '<' ==> parts_from(text, word, i)
}

/// The text goes on at `i` otherwise than the word.
spec fn parts_from(text: Seq<char>, word: Seq<char>, i: int) -> bool {
    (i + 1 < text.len() && text[i + 1] != word[1]) || (i + 2 < text.len() && text[i + 2] != word[2])
}

/// Two texts that shun a word make up one.
proof fn lemma_shuns(a: Seq<char>, b: Seq<char>, word: Seq<char>)
    requires
        shuns(a, word),
        shuns(b, word),
    ensures
        shuns(a + b, word),
{
    reveal(shuns);
    let text = a + b;
    assert forall|i: int| 0 <= i < text.len() && #[trigger] text[i] == '<' implies parts_from(text, word, i) by {
        if i < a.len() {
            assert(a[i] == '<');
            assert(parts_from(a, word, i));
        } else {
            assert(b[i - a.len()] == '<');
            assert(parts_from(b, word, i - a.len()));
        }
    }
}

/// A text in which no angle bracket opens shuns every word.
proof fn lemma_unopened_shuns(text: Seq<char>, word: Seq<char>)
    requires
        is_unopened(text),
    ensures
        shuns(text, word),
{
    reveal(shuns);
}

/// Texts in a row that shun a word.
proof fn lemma_row_shuns(pieces: Seq<Seq<char>>, gap: Seq<char>, word: Seq<char>)
    requires
        is_unopened(gap),
        forall|i: int| 0 <= i < pieces.len() ==> shuns(#[trigger] pieces[i], word),
    ensures
        shuns(row(pieces, gap, Seq::empty()), word),
    decreases pieces.len(),
{
    if pieces.len() == 0 {
        lemma_unopened_shuns(Seq::empty(), word);
    } else {
        let rest = pieces.drop_first();
        assert forall|i: int| 0 <= i < rest.len() implies shuns(#[trigger] rest[i], word) by {
            assert(rest[i] == pieces[i + 1]);
        }
        lemma_row_shuns(rest, gap, word);
        lemma_unopened_shuns(gap, word);
        lemma_shuns(gap, row(rest, gap, Seq::empty()), word);
        assert(shuns(pieces[0], word));
        lemma_shuns(pieces[0], gap + row(rest, gap, Seq::empty()), word);
    }
}

/// A tag that is no beginning of the word shuns it.
proof fn lemma_tag_shuns(tag: Seq<char>, word: Seq<char>)
    requires
        is_bracketed(tag),
        tag.len() > 2,
        tag[1] != word[1] || tag[2] != word[2],
    ensures
        shuns(tag, word),
{
    reveal(shuns);
}

/// A word that a text shuns stands behind it for the first time.
proof fn lemma_shuns_closes(text: Seq<char>, word: Seq<char>)
    requires
        shuns(text, word),
        word.len() > 2,
        word[0] == '<',
    ensures
        closes_first(text, word),
{
    reveal(shuns);
    let all = text + word;
    let n = text.len() as int;
    assert(all.subrange(n, n + word.len()) =~= word);
    assert forall|j: int| 0 <= j < n implies !occurs_at(all, word, j) by {
        if occurs_at(all, word, j) {
            let part = all.subrange(j, j + word.len());
            assert(part[0] == all[j] && part[1] == all[j + 1] && part[2] == all[j + 2]);
            assert(text[j] == '<');
            assert(parts_from(text, word, j));
        }
    }
    assert(first_at(all, word, n));
    lemma_find(all, word);
}

/// White space opens no angle bracket.
proof fn lemma_spaces_unopened(gap: Seq<char>)
    requires
        is_spaces(gap),
    ensures
        is_unopened(gap),
{
    assert forall|i: int| 0 <= i < gap.len() implies #[trigger] gap[i] != '<' by {
        assert(is_white_space(gap[i]));
    }
}

/// An opening tag with a name shuns the closing tags.
proof fn lemma_head_shuns(tag: Tag, name: Seq<char>, word: Seq<char>)
    requires
        tag is MinimaxInvoke || tag is MinimaxParameter,
        is_unopened(name),
        word[1] == '/',
    ensures
        shuns(named_head(tag, one_space(), name, Seq::empty()), word),
{
    let head = named_head(tag, one_space(), name, Seq::empty());
    lemma_named_bracketed(tag, name);
    reveal_strlit("<invoke");
    reveal_strlit("<parameter");
    assert(head[1] == opening(tag)[1]);
    lemma_tag_shuns(head, word);
}

/// A plain parameter shuns the tags that close an invocation or a block.
proof fn lemma_parameter_shuns(param: (Seq<char>, Seq<char>), word: Seq<char>)
    requires
        is_plain_name(param.0),
        is_plain_text(param.1),
        word[1] == '/',
        word[2] != 'p',
    ensures
        shuns(minimax_parameter(param), word),
{
    let tag = Tag::MinimaxParameter;
    let close = closing(tag);
    let head = named_head(tag, one_space(), param.0, Seq::empty());
    assert(is_unopened(param.0));
    lemma_head_shuns(tag, param.0, word);
    reveal_strlit("</parameter>");
    lemma_tag_shuns(close, word);
    lemma_unopened_shuns(param.1, word);
    lemma_shuns(param.1, close, word);
    lemma_shuns(head, param.1 + close, word);
}

/// The body of a plain call shuns the tags that close an invocation or a block.
proof fn lemma_body_shuns(call: WrittenCall, gap: Seq<char>, word: Seq<char>)
    requires
        is_spaces(gap),
        is_plain_call(call),
        word[1] == '/',
        word[2] != 'p',
    ensures
        shuns(minimax_body(call, gap), word),
{
    let texts = minimax_parameters(call.params);
    lemma_spaces_unopened(gap);
    assert forall|i: int| 0 <= i < texts.len() implies shuns(#[trigger] texts[i], word) by {
        assert(is_plain_name(call.params[i].0));
        lemma_parameter_shuns(call.params[i], word);
    }
    lemma_row_shuns(texts, gap, word);
    lemma_unopened_shuns(gap, word);
    lemma_shuns(gap, row(texts, gap, Seq::empty()), word);
}

/// A plain call can be written.
proof fn lemma_plain_writable(call: WrittenCall, gap: Seq<char>)
    requires
        is_spaces(gap),
        is_plain_call(call),
    ensures
        minimax_writable(call, gap),
        is_tame(call.name),
{
    let parameter = closing(Tag::MinimaxParameter);
    let invoke = closing(Tag::MinimaxInvoke);
    reveal_strlit("</parameter>");
    reveal_strlit("</invoke>");
    assert(is_quotable(call.name));
    assert forall|i: int| 0 <= i < call.params.len() implies is_quotable((#[trigger] call.params[i]).0)
        && closes_first(call.params[i].1, parameter) by {
        assert(is_plain_name(call.params[i].0));
        lemma_unopened_shuns(call.params[i].1, parameter);
        lemma_shuns_closes(call.params[i].1, parameter);
    }
    lemma_body_shuns(call, gap, invoke);
    lemma_shuns_closes(minimax_body(call, gap), invoke);
}

/// A plain invocation shuns the tag that closes a block.
proof fn lemma_invoke_shuns(call: WrittenCall, gap: Seq<char>)
    requires
        is_spaces(gap),
        is_plain_call(call),
    ensures
        shuns(minimax_invoke(call, gap), closing(Tag::MinimaxBlock)),
{
    let invoke = closing(Tag::MinimaxInvoke);
    let block = closing(Tag::MinimaxBlock);
    let head = named_head(Tag::MinimaxInvoke, one_space(), call.name, Seq::empty());
    let body = minimax_body(call, gap);
    reveal_strlit("</invoke>");
    reveal_strlit("</minimax:tool_call>");
    assert(is_unopened(call.name));
    lemma_head_shuns(Tag::MinimaxInvoke, call.name, block);
    lemma_body_shuns(call, gap, block);
    lemma_tag_shuns(invoke, block);
    lemma_shuns(body, invoke, block);
    lemma_shuns(head, body + invoke, block);
}

/// The block of a plain call is closed by its own closing tag.
proof fn lemma_plain_block(call: WrittenCall, gap: Seq<char>)
    requires
        is_spaces(gap),
        is_plain_call(call),
    ensures
        closes_first(minimax_calls(seq![call], gap), closing(Tag::MinimaxBlock)),
{
    let block = closing(Tag::MinimaxBlock);
    let texts = minimax_invokes(seq![call], gap);
    reveal_strlit("</minimax:tool_call>");
    lemma_invoke_shuns(call, gap);
    assert forall|i: int| 0 <= i < texts.len() implies shuns(#[trigger] texts[i], block) by {
        assert(texts[i] == minimax_invoke(call, gap));
    }
    lemma_spaces_unopened(gap);
    lemma_row_shuns(texts, gap, block);
    lemma_unopened_shuns(gap, block);
    lemma_shuns(gap, row(texts, gap, Seq::empty()), block);
    lemma_shuns_closes(minimax_calls(seq![call], gap), block);
}

// ---------------------------------------------------------------------------
// Values
// ---------------------------------------------------------------------------

/// A number in decimal notation is written with the letters of numbers.
proof fn lemma_decimal_text(n: nat)
    ensures
        is_number_text(decimal(n)),
    decreases n,
{
    if n >= 10 {
        lemma_decimal_text(n / 10);
        lemma_digit(n % 10);
    } else {
        lemma_digit(n);
    }
}

/// A digit is a letter of numbers.
proof fn lemma_digit(n: nat)
    requires
        n < 10,
    ensures
        '0' <= digit_char(n) <= '9',
{
}

/// An integer is written with the letters of numbers.
proof fn lemma_integer_text(n: int)
    ensures
        is_number_text(decimal_int(n)),
{
    if n < 0 {
        lemma_decimal_text((-n) as nat);
    } else {
        lemma_decimal_text(n as nat);
    }
}

/// A value that is no array and no object, and is written without a brace.
spec fn is_simple(value: ParamView) -> bool {
    is_scalar(value) && is_brace_free_value(value)
}

/// The number that a text denotes is simple.
proof fn lemma_number_simple(s: Seq<char>)
    requires
        is_number_text(s),
    ensures
        is_simple(ParamView::Number(s)),
{
}

/// The JSON value that a flat text denotes is simple.
proof fn lemma_json_simple(text: Seq<char>)
    requires
        is_flat(text),
    ensures
        json_value(text) matches Some(value) ==> is_simple(value),
{
    if let Some(value) = json_value(text) {
        assert(fits_json(text, value));
        match value {
            ParamView::Number(s) => {
                lemma_number_simple(s);
            },
            ParamView::Text(s) => {
                assert forall|i: int| 0 <= i < s.len() implies #[trigger] s[i] != '{' && s[i] != '}' by {
                    assert(text.contains(s[i]));
                    let k = choose|k: int| 0 <= k < text.len() && text[k] == s[i];
                    assert(text[k] != '{' && text[k] != '}');
                }
            },
            ParamView::Nested(_) => {
                assert(text.contains('{'));
                let k = choose|k: int| 0 <= k < text.len() && text[k] == '{';
                assert(text[k] != '{');
            },
            _ => {},
        }
    }
}

/// The value of a flat text is simple.
proof fn lemma_value_simple(tools: Seq<Tool>, func: Seq<char>, key: Seq<char>, text: Seq<char>)
    requires
        is_flat(text),
    ensures
        is_simple(streamed_value(tools, func, key, text)),
        !("{"@.is_prefix_of(text) || "["@.is_prefix_of(text)),
{
    reveal_strlit("{");
    reveal_strlit("[");
    if "{"@.is_prefix_of(text) {
        assert(text.subrange(0, 1)[0] == text[0]);
        assert("{"@[0] == '{');
    }
    if "["@.is_prefix_of(text) {
        assert(text.subrange(0, 1)[0] == text[0]);
        assert("["@[0] == '[');
        assert(text.contains('['));
    }
    lemma_json_simple(text);
    if let Some(n) = crate::text::parsed_i64(text) {
        lemma_integer_text(n as int);
        lemma_number_simple(decimal_int(n as int));
    }
    if let Some(s) = crate::params::finite_number(text) {
        lemma_number_simple(s);
    }
    assert(is_simple(ParamView::Text(text)));
}

/// What is trimmed of a text without a brace has none.
proof fn lemma_trim_free(s: Seq<char>)
    requires
        is_brace_free(s),
    ensures
        is_brace_free(trim(s)),
    decreases s.len(),
{
    if s.len() > 0 && is_white_space(s.first()) {
        let rest = s.drop_first();
        assert(is_brace_free(rest)) by {
            assert forall|i: int| 0 <= i < rest.len() implies #[trigger] rest[i] != '{' && rest[i] != '}' by {
                assert(rest[i] == s[i + 1]);
            }
        }
        lemma_trim_free(rest);
    } else {
        lemma_trim_end(s);
        assert forall|i: int| 0 <= i < trim(s).len() implies #[trigger] trim(s)[i] != '{' && trim(s)[i] != '}' by {
            assert(s.subrange(0, trim(s).len() as int)[i] == s[i]);
        }
    }
}

/// The parameters of a plain call are simple, and have names without a brace.
proof fn lemma_params_simple(params: Seq<(Seq<char>, Seq<char>)>, func: Seq<char>, tools: Seq<Tool>)
    requires
        forall|i: int|
            0 <= i < params.len() ==> is_plain_name((#[trigger] params[i]).0) && is_plain_text(params[i].1),
    ensures
        ({
            let read = read_params(params, func, tools, true);
            forall|i: int|
                0 <= i < read.len() ==> is_brace_free((#[trigger] read[i]).0) && is_simple(read[i].1)
        }),
    decreases params.len(),
{
    if params.len() > 0 {
        let n = params.len() - 1;
        let shorter = params.drop_last();
        assert forall|i: int| 0 <= i < shorter.len() implies is_plain_name((#[trigger] shorter[i]).0)
            && is_plain_text(shorter[i].1) by {
            assert(shorter[i] == params[i]);
        }
        lemma_params_simple(shorter, func, tools);
        let key = trim(params[n].0);
        let text = decoded(params[n].1);
        assert(is_plain_name(params[n].0));
        lemma_trim_free(params[n].0);
        lemma_value_simple(tools, func, key, text);
        lemma_named(read_params(shorter, func, tools, true), key);
    }
}

/// A plain call can be streamed, and its parameters are read alike in a stream and in a whole
/// text.
proof fn lemma_plain_streamable(call: WrittenCall, gap: Seq<char>, tools: Seq<Tool>)
    requires
        is_spaces(gap),
        is_plain_call(call),
        has_tool(tools, trim(call.name)),
    ensures
        is_streamable(call, gap, tools),
        is_read_alike(call, tools),
        are_scalar(stream_params(call, tools)),
{
    let func = trim(call.name);
    lemma_plain_writable(call, gap);
    lemma_params_simple(call.params, func, tools);
    law_brace_closes(stream_params(call, tools));
    assert(is_streamable(call, gap, tools)) by {
        reveal(is_streamable);
    }
    assert forall|i: int| 0 <= i < call.params.len() implies param_schema(
        tools,
        func,
        trim((#[trigger] call.params[i]).0),
    ) is Some || !("{"@.is_prefix_of(decoded(call.params[i].1)) || "["@.is_prefix_of(
        decoded(call.params[i].1),
    )) by {
        assert(is_plain_text(call.params[i].1));
        lemma_value_simple(tools, func, trim(call.params[i].0), decoded(call.params[i].1));
    }
}

/// How the text of a plain call is cut does not matter: a call with parameters that is alone in
/// its block, with plain names and values, comes in to a new parser in any chunks. Together they
/// give no text; one piece with a name, that of the only call that the whole text has; and pieces
/// of arguments that make up, letter for letter, the arguments which that call has.
pub proof fn law_plain_call_streams(
    call: WrittenCall,
    gap: Seq<char>,
    chunks: Seq<Seq<char>>,
    tools: Seq<Tool>,
)
    requires
        is_spaces(gap),
        is_plain_call(call),
        call.params.len() > 0,
        has_tool(tools, trim(call.name)),
        chunks_text(chunks) == call_in_block(call, gap),
    ensures
        ({
            let (end, given) = chunks_run(initial(), chunks, tools);
            let (text, calls) = complete_parse(chunks_text(chunks), tools);
            &&& text.len() == 0 && given.normal_text.len() == 0
            &&& calls.len() == 1 && calls[0].name == trim(call.name)
            &&& given.calls.len() > 0 && given.calls[0] == name_item(0, calls[0].name)
            &&& forall|i: int| 0 < i < given.calls.len() ==> (#[trigger] given.calls[i]).name is None
            &&& sent_args(given.calls, 0) == calls[0].arguments
        }),
{
    lemma_plain_block(call, gap);
    lemma_plain_streamable(call, gap, tools);
    law_stream_like_whole_text(call, gap, chunks, tools);
}

} // verus!
