//! The arguments of calls in a whole text: which values the parameters have, and that they are read
//! back from the arguments.

use vstd::prelude::*;

#[allow(unused_imports)]
use crate::deepseek;
#[allow(unused_imports)]
use crate::json::{field, member, JsonValue};
#[allow(unused_imports)]
use crate::minimax;
#[allow(unused_imports)]
use crate::minimax::decoded;
#[allow(unused_imports)]
use crate::params::{json_value, law_value_set, with_value, ParamView};
#[allow(unused_imports)]
use crate::pattern::{is_spaces, Tag};
#[allow(unused_imports)]
use crate::reading::{is_json, law_arguments_read_back, law_python_arguments_read_back, read_object};
#[allow(unused_imports)]
use crate::schema::{param_schema, plain_value, schema_types, schema_value};
#[allow(unused_imports)]
use crate::several::are_json;
#[allow(unused_imports)]
use crate::text::{trim, trim_end};
#[allow(unused_imports)]
use crate::tool::{has_tool, tool_at, Tool};
#[allow(unused_imports)]
use crate::written::{
    dsml_bodies, dsml_read_blocks, dsml_read_call, dsml_read_calls, dsml_read_params, dsml_writable,
    law_dsml_read_back, law_minimax_read_back, minimax_bodies, minimax_writable, read_blocks, read_call,
    read_calls, read_params, text_with_blocks, well_set, DsmlCall, DsmlParam, WrittenCall,
};

verus! {

/// The schema of a parameter is the one that stands under its name in the properties of the first
/// tool with the name of the function; there is none where there is no such tool, or where the tool
/// has no such property.
pub proof fn law_param_schema(tools: Seq<Tool>, func: Seq<char>, param: Seq<char>, i: int)
    requires
        0 <= i < tools.len(),
        tools[i].function.name@ == func,
        forall|j: int| 0 <= j < i ==> (#[trigger] tools[j]).function.name@ != func,
    ensures
        field(tools[i].function.parameters, "properties"@) matches Some(properties) ==> param_schema(
            tools,
            func,
            param,
        ) == field(properties, param),
        field(tools[i].function.parameters, "properties"@) is None ==> param_schema(tools, func, param)
            is None,
{
    assert(tool_at(tools, func, i));
    let k = choose|k: int| tool_at(tools, func, k);
    assert(tool_at(tools, func, k));
    assert(k == i) by {
        if k < i {
            assert(tools[k].function.name@ != func);
        }
        if i < k {
            assert(tools[i].function.name@ != func);
        }
    }
}

/// A parameter of a function that is not among the tools has no schema.
pub proof fn law_no_schema(tools: Seq<Tool>, func: Seq<char>, param: Seq<char>)
    requires
        forall|j: int| 0 <= j < tools.len() ==> (#[trigger] tools[j]).function.name@ != func,
    ensures
        param_schema(tools, func, param) is None,
{
}

/// The names of the parameters differ.
pub open spec fn have_own_names(params: Seq<(Seq<char>, Seq<char>)>) -> bool {
    forall|i: int, j: int|
        0 <= i < j < params.len() ==> trim((#[trigger] params[i]).0) != trim((#[trigger] params[j]).0)
}

/// The value of a parameter of MiniMax M2 is what its text, with the entities decoded, stands for
/// under the types that its schema allows. Without a schema it is what the text stands for by
/// itself; in a stream a text that begins like an array or an object is then read as JSON, where
/// it is JSON.
pub open spec fn has_value(
    value: ParamView,
    tools: Seq<Tool>,
    func: Seq<char>,
    param: (Seq<char>, Seq<char>),
    streaming: bool,
) -> bool {
    let text = decoded(param.1);
    let nested = text.len() > 0 && (text[0] == '{' || text[0] == '[');
    let schema = param_schema(tools, func, trim(param.0));
    &&& schema is Some ==> value == schema_value(text, schema_types(schema->0))
    &&& schema is None && (!streaming || !nested || json_value(text) is None) ==> value == plain_value(text)
    &&& schema is None && streaming && nested && json_value(text) is Some ==> value == json_value(text)->0
}

/// The parameters of a call of MiniMax M2 are read one by one, each under its trimmed name and in
/// its place.
pub proof fn law_parameters_read(
    params: Seq<(Seq<char>, Seq<char>)>,
    func: Seq<char>,
    tools: Seq<Tool>,
    streaming: bool,
)
    requires
        have_own_names(params),
    ensures
        read_params(params, func, tools, streaming).len() == params.len(),
        forall|i: int|
            0 <= i < params.len() ==> {
                let read = #[trigger] read_params(params, func, tools, streaming)[i];
                read.0 == trim(params[i].0) && has_value(read.1, tools, func, params[i], streaming)
            },
    decreases params.len(),
{
    if params.len() > 0 {
        let n = params.len() - 1;
        let shorter = params.drop_last();
        let before = read_params(shorter, func, tools, streaming);
        let key = trim(params[n].0);
        let text = decoded(params[n].1);
        assert(have_own_names(shorter)) by {
            assert forall|i: int, j: int| 0 <= i < j < shorter.len() implies trim((#[trigger] shorter[i]).0)
                != trim((#[trigger] shorter[j]).0) by {
                assert(trim(params[i].0) != trim(params[j].0));
            }
        }
        law_parameters_read(shorter, func, tools, streaming);
        let value = if streaming {
            minimax::streamed_value(tools, func, key, text)
        } else {
            minimax::complete_value(tools, func, key, text)
        };
        reveal_strlit("{");
        reveal_strlit("[");
        assert("{"@.is_prefix_of(text) <==> text.len() > 0 && text[0] == '{') by {
            if text.len() > 0 && text[0] == '{' {
                assert(text.subrange(0, 1) =~= "{"@);
            }
            if "{"@.is_prefix_of(text) {
                assert(text.subrange(0, 1)[0] == text[0]);
            }
        }
        assert("["@.is_prefix_of(text) <==> text.len() > 0 && text[0] == '[') by {
            if text.len() > 0 && text[0] == '[' {
                assert(text.subrange(0, 1) =~= "["@);
            }
            if "["@.is_prefix_of(text) {
                assert(text.subrange(0, 1)[0] == text[0]);
            }
        }
        assert(has_value(value, tools, func, params[n], streaming));
        law_value_set(before, key, value);
        assert forall|j: int| 0 <= j < before.len() implies (#[trigger] before[j]).0 != key by {
            assert(before[j].0 == trim(shorter[j].0));
            assert(trim(params[j].0) != trim(params[n].0));
        }
        assert(read_params(params, func, tools, streaming) == before.push((key, value)));
        assert forall|i: int| 0 <= i < params.len() implies {
            let read = #[trigger] read_params(params, func, tools, streaming)[i];
            read.0 == trim(params[i].0) && has_value(read.1, tools, func, params[i], streaming)
        } by {
            if i < n {
                assert(before[i].0 == trim(shorter[i].0));
            }
        }
    }
}

/// A whole text with one block of calls gives the text before the block and the calls in it, each
/// with its name; from its arguments its parameters are read back, where none of them is an array
/// or an object.
pub proof fn law_whole_calls(
    before: Seq<char>,
    calls: Seq<WrittenCall>,
    gap: Seq<char>,
    after: Seq<char>,
    tools: Seq<Tool>,
)
    requires
        is_spaces(gap),
        calls.len() > 0,
        forall|j: int| 0 <= j < calls.len() ==> minimax_writable(#[trigger] calls[j], gap),
        well_set(Tag::MinimaxBlock, before, minimax_bodies(seq![calls], gap), after),
    ensures
        ({
            let (text, found) = minimax::complete_parse(
                text_with_blocks(
                    Tag::MinimaxBlock,
                    before,
                    minimax_bodies(seq![calls], gap),
                    Seq::empty(),
                    after,
                ),
                tools,
            );
            &&& text == before
            &&& found.len() == calls.len()
            &&& forall|i: int|
                0 <= i < calls.len() ==> {
                    let params = read_params(calls[i].params, trim(calls[i].name), tools, false);
                    &&& (#[trigger] found[i]).name == trim(calls[i].name)
                    &&& are_flat(params) ==> read_object(found[i].arguments) == Some(params)
                }
        }),
{
    let blocks = seq![calls];
    assert forall|i: int, j: int| 0 <= i < blocks.len() && 0 <= j < blocks[i].len() implies minimax_writable(
        #[trigger] blocks[i][j],
        gap,
    ) by {
        assert(blocks[i] == calls);
        assert(minimax_writable(calls[j], gap));
    }
    law_minimax_read_back(before, blocks, gap, Seq::empty(), after, tools);
    assert(blocks.drop_last() =~= Seq::empty());
    assert(read_blocks(blocks.drop_last(), tools) =~= Seq::empty());
    assert(read_blocks(blocks, tools) =~= read_calls(calls, tools));
    assert forall|i: int| 0 <= i < calls.len() implies {
        let params = read_params(calls[i].params, trim(calls[i].name), tools, false);
        &&& (#[trigger] read_calls(calls, tools)[i]).name == trim(calls[i].name)
        &&& are_flat(params) ==> read_object(read_calls(calls, tools)[i].arguments) == Some(params)
    } by {
        let params = read_params(calls[i].params, trim(calls[i].name), tools, false);
        if are_flat(params) {
            law_python_arguments_read_back(params);
        }
    }
}

/// Each of the values is printed as JSON, and none is an array or an object.
pub open spec fn are_flat(params: Seq<(Seq<char>, ParamView)>) -> bool {
    forall|i: int| 0 <= i < params.len() ==> is_json((#[trigger] params[i]).1) && !(params[i].1 is Nested)
}

/// The parameters of a DSML call are read one by one, each under its name and in its place: one
/// that is declared a string as its text, letter for letter; any other as the JSON value that its
/// text denotes, white space round it aside, or as its text where it denotes none.
pub proof fn law_dsml_parameters_read(params: Seq<DsmlParam>)
    requires
        forall|i: int, j: int|
            0 <= i < j < params.len() ==> (#[trigger] params[i]).name != (#[trigger] params[j]).name,
    ensures
        dsml_read_params(params).len() == params.len(),
        forall|i: int|
            0 <= i < params.len() ==> {
                let read = #[trigger] dsml_read_params(params)[i];
                let json = json_value(trim(params[i].text));
                &&& read.0 == params[i].name
                &&& params[i].is_string ==> read.1 == ParamView::Text(params[i].text)
                &&& !params[i].is_string && json is Some ==> read.1 == json->0
                &&& !params[i].is_string && json is None ==> read.1 == ParamView::Text(params[i].text)
            },
    decreases params.len(),
{
    if params.len() > 0 {
        let n = params.len() - 1;
        let shorter = params.drop_last();
        let before = dsml_read_params(shorter);
        assert forall|i: int, j: int| 0 <= i < j < shorter.len() implies (#[trigger] shorter[i]).name != (
        #[trigger] shorter[j]).name by {
            assert(params[i].name != params[j].name);
        }
        law_dsml_parameters_read(shorter);
        let value = crate::written::dsml_read_value(params[n]);
        law_value_set(before, params[n].name, value);
        assert forall|j: int| 0 <= j < before.len() implies (#[trigger] before[j]).0 != params[n].name by {
            assert(before[j].0 == shorter[j].name);
            assert(params[j].name != params[n].name);
        }
        assert(dsml_read_params(params) == before.push((params[n].name, value)));
        assert forall|i: int| 0 <= i < params.len() implies {
            let read = #[trigger] dsml_read_params(params)[i];
            let json = json_value(trim(params[i].text));
            &&& read.0 == params[i].name
            &&& params[i].is_string ==> read.1 == ParamView::Text(params[i].text)
            &&& !params[i].is_string && json is Some ==> read.1 == json->0
            &&& !params[i].is_string && json is None ==> read.1 == ParamView::Text(params[i].text)
        } by {
            if i < n {
                assert(before[i].0 == shorter[i].name);
            }
        }
    }
}

/// A whole text with one block of DSML calls gives the text before the block, without the white
/// space at its end, and the calls in it, each with its name; from its arguments its parameters are
/// read back.
pub proof fn law_dsml_whole_calls(before: Seq<char>, calls: Seq<DsmlCall>, gap: Seq<char>, after: Seq<char>)
    requires
        is_spaces(gap),
        calls.len() > 0,
        forall|j: int| 0 <= j < calls.len() ==> dsml_writable(#[trigger] calls[j], gap),
        well_set(Tag::DsmlBlock, before, dsml_bodies(seq![calls], gap), after),
    ensures
        ({
            let (text, found) = deepseek::complete_parse(
                text_with_blocks(Tag::DsmlBlock, before, dsml_bodies(seq![calls], gap), Seq::empty(), after),
            );
            &&& text == trim_end(before)
            &&& found.len() == calls.len()
            &&& forall|i: int|
                0 <= i < calls.len() ==> {
                    let params = dsml_read_params(calls[i].params);
                    &&& (#[trigger] found[i]).name == trim(calls[i].name)
                    &&& are_json(params) ==> read_object(found[i].arguments) == Some(params)
                }
        }),
{
    let blocks = seq![calls];
    assert forall|i: int, j: int| 0 <= i < blocks.len() && 0 <= j < blocks[i].len() implies dsml_writable(
        #[trigger] blocks[i][j],
        gap,
    ) by {
        assert(blocks[i] == calls);
        assert(dsml_writable(calls[j], gap));
    }
    assert(blocks.drop_last() =~= Seq::empty());
    assert(dsml_read_blocks(blocks.drop_last()) =~= Seq::empty());
    assert(dsml_read_blocks(blocks) =~= dsml_read_calls(calls));
    law_dsml_read_back(before, blocks, gap, Seq::empty(), after);
    assert forall|i: int| 0 <= i < calls.len() implies {
        let params = dsml_read_params(calls[i].params);
        &&& (#[trigger] dsml_read_calls(calls)[i]).name == trim(calls[i].name)
        &&& are_json(params) ==> read_object(dsml_read_calls(calls)[i].arguments) == Some(params)
    } by {
        let params = dsml_read_params(calls[i].params);
        if are_json(params) {
            law_arguments_read_back(params);
        }
    }
}

} // verus!
