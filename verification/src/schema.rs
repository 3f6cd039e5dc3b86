//! Values of parameters read from text, guided by the JSON schema of a tool.

use vstd::prelude::*;
use vstd::string::*;

use crate::json::{find_member, JsonValue};
#[allow(unused_imports)]
use crate::json::{array_member, field, lemma_parts_smaller, member, text_field};
use crate::minimax::MinimaxM2Parser;
use crate::params::{finite_number_text, json_from_str, ParamValue};
#[allow(unused_imports)]
use crate::params::{finite_number, json_value, optional_value, ParamView};
use crate::text::{
    chars_of, contains_text, decimal_int_text, lowercase_text, parse_i64, same_ignoring_ascii_case,
    same_text, trim_text,
};
#[allow(unused_imports)]
use crate::text::{
    ascii_lower, ascii_lower_all, contains, decimal_int, is_digit, law_decimal_read_back, law_lowercase,
    lowercase, occurs_at, optional_text, parsed_i64, texts, trim,
};
use crate::tool::{find_tool, Tool};
#[allow(unused_imports)]
use crate::tool::{has_tool, tool_at};

verus! {

// ---------------------------------------------------------------------------
// Values without a schema
// ---------------------------------------------------------------------------

/// The value that a text stands for where no schema says: one of the words for true, false and
/// null, an integer, another number, or else the text itself. `number` is the number that the
/// text denotes, if it denotes one.
pub open spec fn worded_value(text: Seq<char>, number: Option<Seq<char>>) -> ParamView {
    if text == "true"@ || text == "True"@ {
        ParamView::Bool(true)
    } else if text == "false"@ || text == "False"@ {
        ParamView::Bool(false)
    } else if text == "null"@ || text == "None"@ {
        ParamView::Null
    } else if parsed_i64(text) is Some {
        ParamView::Number(decimal_int(parsed_i64(text)->0 as int))
    } else if number is Some {
        ParamView::Number(number->0)
    } else {
        ParamView::Text(text)
    }
}

/// The value that a text stands for where no schema says.
pub open spec fn plain_value(text: Seq<char>) -> ParamView {
    worded_value(text, finite_number(text))
}

/// The value that a text stands for where no schema says, given the number that it denotes.
pub fn value_of_word(text: &str, number: Option<String>) -> (r: ParamValue)
    ensures
        r@ == worded_value(text@, optional_text(number)),
{
    if same_text(text, "true") || same_text(text, "True") {
        return ParamValue::Bool(true);
    }
    if same_text(text, "false") || same_text(text, "False") {
        return ParamValue::Bool(false);
    }
    if same_text(text, "null") || same_text(text, "None") {
        return ParamValue::Null;
    }
    if let Some(n) = parse_i64(text) {
        return ParamValue::Number(decimal_int_text(n));
    }
    if let Some(n) = number {
        return ParamValue::Number(n);
    }
    ParamValue::Text(text.to_owned())
}

impl MinimaxM2Parser {
    /// The value that a text stands for where no schema says.
    pub fn parse_value(text: &str) -> (r: ParamValue)
        ensures
            r@ == plain_value(text@),
    {
        let number: Option<String> = finite_number_text(text);
        value_of_word(text, number)
    }
}

// ---------------------------------------------------------------------------
// Ordered sets of names
// ---------------------------------------------------------------------------

/// `a` stands before `b` in the order of their characters.
pub open spec fn text_less(a: Seq<char>, b: Seq<char>) -> bool {
    exists|k: int| #[trigger] differ_at(a, b, k) && (k == a.len() || (k < b.len() && a[k] < b[k]))
}

/// The two agree before `k`; one of them ends at `k`, or they differ there.
pub open spec fn differ_at(a: Seq<char>, b: Seq<char>, k: int) -> bool {
    &&& 0 <= k <= a.len()
    &&& k <= b.len()
    &&& forall|j: int| 0 <= j < k ==> a[j] == b[j]
    &&& !(k == a.len() && k == b.len())
    &&& k < a.len() && k < b.len() ==> a[k] != b[k]
}

/// Names in ascending order, none twice.
pub open spec fn ascending(names: Seq<Seq<char>>) -> bool {
    forall|i: int, j: int| 0 <= i < j < names.len() ==> text_less(#[trigger] names[i], #[trigger] names[j])
}

/// The order is transitive.
proof fn lemma_less_transitive(a: Seq<char>, b: Seq<char>, c: Seq<char>)
    requires
        text_less(a, b),
        text_less(b, c),
    ensures
        text_less(a, c),
{
    let i = choose|k: int| #[trigger] differ_at(a, b, k) && (k == a.len() || (k < b.len() && a[k] < b[k]));
    let j = choose|k: int| #[trigger] differ_at(b, c, k) && (k == b.len() || (k < c.len() && b[k] < c[k]));
    if i < j {
        assert(differ_at(a, c, i));
    } else {
        assert(differ_at(a, c, j));
    }
}

/// How two names stand to each other.
enum Order {
    Before,
    Same,
    Behind,
}

/// How `a` stands to `b`.
fn order_of(a: &str, b: &str) -> (r: Order)
    ensures
        match r {
            Order::Before => text_less(a@, b@),
            Order::Same => a@ == b@,
            Order::Behind => text_less(b@, a@),
        },
{
    let x: Vec<char> = chars_of(a);
    let y: Vec<char> = chars_of(b);
    let mut i: usize = 0;
    while i < x.len() && i < y.len()
        invariant
            x@ == a@,
            y@ == b@,
            i <= x@.len(),
            i <= y@.len(),
            forall|j: int| 0 <= j < i ==> a@[j] == b@[j],
        decreases x.len() - i,
    {
        if x[i] != y[i] {
            assert(differ_at(a@, b@, i as int));
            assert(differ_at(b@, a@, i as int));
            if x[i] < y[i] {
                return Order::Before;
            } else {
                return Order::Behind;
            }
        }
        i = i + 1;
    }
    if x.len() == y.len() {
        assert(a@ =~= b@);
        Order::Same
    } else if x.len() < y.len() {
        assert(differ_at(a@, b@, i as int));
        Order::Before
    } else {
        assert(differ_at(b@, a@, i as int));
        Order::Behind
    }
}

/// Puts `name` where it belongs, unless it is there.
fn insert_name(names: &mut Vec<String>, name: String)
    requires
        ascending(texts(old(names)@)),
    ensures
        ascending(texts(final(names)@)),
        texts(final(names)@).to_set() == texts(old(names)@).to_set().insert(name@),
        final(names)@.len() > 0,
{
    let ghost before = texts(names@);
    let mut i: usize = 0;
    while i < names.len()
        invariant
            names@ == old(names)@,
            before == texts(names@),
            ascending(before),
            i <= names@.len(),
            forall|j: int| 0 <= j < i ==> text_less(#[trigger] before[j], name@),
        decreases names.len() - i,
    {
        assert(before[i as int] == names@[i as int]@);
        match order_of(names[i].as_str(), name.as_str()) {
            Order::Before => {},
            Order::Same => {
                assert(before.contains(name@));
                assert(before.to_set() =~= before.to_set().insert(name@));
                return ;
            },
            Order::Behind => {
                names.insert(i, name);
                proof {
                    let after = texts(names@);
                    assert(after =~= before.insert(i as int, name@));
                    assert forall|p: int, q: int| 0 <= p < q < after.len() implies text_less(
                        #[trigger] after[p],
                        #[trigger] after[q],
                    ) by {
                        if q < i {
                            assert(text_less(before[p], before[q]));
                        } else if q == i {
                            assert(text_less(before[p], name@));
                        } else if p < i {
                            assert(text_less(before[p], before[q - 1]));
                        } else if p == i {
                            if q - 1 > i {
                                assert(text_less(before[i as int], before[q - 1]));
                                lemma_less_transitive(name@, before[i as int], before[q - 1]);
                            }
                        } else {
                            assert(text_less(before[p - 1], before[q - 1]));
                        }
                    }
                    lemma_insert_set(before, i as int, name@);
                }
                return ;
            },
        }
        i = i + 1;
    }
    names.push(name);
    proof {
        let after = texts(names@);
        assert(after =~= before.push(name@));
        assert(after =~= before.insert(before.len() as int, name@));
        lemma_insert_set(before, before.len() as int, name@);
    }
}

/// What is put into a row is added to what it holds.
proof fn lemma_insert_set(s: Seq<Seq<char>>, i: int, x: Seq<char>)
    requires
        0 <= i <= s.len(),
    ensures
        s.insert(i, x).to_set() == s.to_set().insert(x),
{
    let after = s.insert(i, x);
    assert forall|y: Seq<char>| after.to_set().contains(y) == s.to_set().insert(x).contains(y) by {
        if after.contains(y) {
            let k = choose|k: int| 0 <= k < after.len() && after[k] == y;
            if k < i {
                assert(s[k] == y);
            } else if k > i {
                assert(s[k - 1] == y);
            }
        }
        if y == x {
            assert(after[i] == x);
        }
        if s.contains(y) {
            let k = choose|k: int| 0 <= k < s.len() && s[k] == y;
            if k < i {
                assert(after[k] == y);
            } else {
                assert(after[k + 1] == y);
            }
        }
    }
    assert(after.to_set() =~= s.to_set().insert(x));
}

// ---------------------------------------------------------------------------
// The types that a schema allows
// ---------------------------------------------------------------------------

/// The type that a schema names a JSON value by.
pub open spec fn json_type(value: JsonValue) -> Seq<char> {
    match value {
        JsonValue::Null => "null"@,
        JsonValue::Bool(_) => "boolean"@,
        JsonValue::Integer(_) => "integer"@,
        JsonValue::Float(_) => "number"@,
        JsonValue::Text(_) => "string"@,
        JsonValue::Array(_) => "array"@,
        JsonValue::Object(_) => "object"@,
    }
}

/// The types under `type`: the one named there, or each one named in the list there.
pub open spec fn named_types(members: Seq<(String, JsonValue)>) -> Set<Seq<char>> {
    match member(members, "type"@) {
        Some(JsonValue::Text(s)) => set![s@],
        Some(JsonValue::Array(items)) => listed_types(items@),
        _ => Set::empty(),
    }
}

/// The texts among the items.
pub open spec fn listed_types(items: Seq<JsonValue>) -> Set<Seq<char>> {
    Set::new(|t: Seq<char>| exists|i: int| 0 <= i < items.len() && is_text(#[trigger] items[i], t))
}

/// The value is the text `t`.
pub open spec fn is_text(value: JsonValue, t: Seq<char>) -> bool {
    value matches JsonValue::Text(s) && s@ == t
}

/// The types of the items.
pub open spec fn item_types(items: Seq<JsonValue>) -> Set<Seq<char>> {
    Set::new(|t: Seq<char>| exists|i: int| 0 <= i < items.len() && json_type(#[trigger] items[i]) == t)
}

/// Every type that a schema lets a value have: those under `type`, those of the values under
/// `enum`, and those of the schemas under `anyOf`, `oneOf` and `allOf`. A schema that names
/// none, or that is no object, lets it be a string.
pub open spec fn schema_types(schema: JsonValue) -> Set<Seq<char>>
    decreases schema, 1int,
{
    proof {
        lemma_parts_smaller(schema);
    }
    match schema {
        JsonValue::Object(members) => {
            let found = named_types(members@) + item_types(array_member(members@, "enum"@))
                + alternative_types(schema, "anyOf"@) + alternative_types(schema, "oneOf"@)
                + alternative_types(schema, "allOf"@);
            if found.is_empty() {
                set!["string"@]
            } else {
                found
            }
        },
        _ => set!["string"@],
    }
}

/// The types that the schemas in the list under `key` allow.
pub open spec fn alternative_types(schema: JsonValue, key: Seq<char>) -> Set<Seq<char>>
    decreases schema, 0int,
{
    match schema {
        JsonValue::Object(members) => Set::new(
            |t: Seq<char>|
                exists|i: int|
                    {
                        proof {
                            lemma_parts_smaller(schema);
                        }
                        0 <= i < array_member(members@, key).len() && schema_types(
                            #[trigger] array_member(members@, key)[i],
                        ).contains(t)
                    },
        ),
        _ => Set::empty(),
    }
}

/// Adds each of `more`.
fn insert_names(names: &mut Vec<String>, more: &Vec<String>)
    requires
        ascending(texts(old(names)@)),
    ensures
        ascending(texts(final(names)@)),
        texts(final(names)@).to_set() == texts(old(names)@).to_set() + texts(more@).to_set(),
{
    let ghost before = texts(names@).to_set();
    let mut i: usize = 0;
    assert(before + texts(more@).take(0).to_set() =~= before);
    while i < more.len()
        invariant
            i <= more@.len(),
            ascending(texts(names@)),
            texts(names@).to_set() == before + texts(more@).take(i as int).to_set(),
        decreases more.len() - i,
    {
        insert_name(names, more[i].clone());
        proof {
            let held = texts(more@).take(i as int);
            let next = texts(more@).take(i + 1);
            assert(next =~= held.insert(i as int, more@[i as int]@));
            lemma_insert_set(held, i as int, more@[i as int]@);
            assert(before + next.to_set() =~= (before + held.to_set()).insert(more@[i as int]@));
        }
        i = i + 1;
    }
    assert(texts(more@).take(i as int) =~= texts(more@));
}

/// Adds the types that are named under `type`.
fn insert_named_types(members: &Vec<(String, JsonValue)>, names: &mut Vec<String>)
    requires
        ascending(texts(old(names)@)),
    ensures
        ascending(texts(final(names)@)),
        texts(final(names)@).to_set() == texts(old(names)@).to_set() + named_types(members@),
{
    let ghost before = texts(names@).to_set();
    match find_member(members, "type") {
        Some(JsonValue::Text(s)) => {
            insert_name(names, s.clone());
            assert(texts(names@).to_set() =~= before + named_types(members@));
        },
        Some(JsonValue::Array(items)) => {
            let mut i: usize = 0;
            assert(before =~= before + listed_types(items@.take(0)));
            while i < items.len()
                invariant
                    i <= items@.len(),
                    ascending(texts(names@)),
                    texts(names@).to_set() == before + listed_types(items@.take(i as int)),
                decreases items.len() - i,
            {
                let ghost held = items@.take(i as int);
                let ghost next = items@.take(i + 1);
                assert(forall|k: int| 0 <= k < i ==> #[trigger] next[k] == held[k]);
                assert(next[i as int] == items@[i as int]);
                match &items[i] {
                    JsonValue::Text(s) => {
                        insert_name(names, s.clone());
                        assert forall|t: Seq<char>| listed_types(next).contains(t) == listed_types(
                            held,
                        ).insert(s@).contains(t) by {
                            if listed_types(held).contains(t) {
                                let k = choose|k: int| 0 <= k < held.len() && is_text(#[trigger] held[k], t);
                                assert(is_text(next[k], t));
                            }
                            if t == s@ {
                                assert(is_text(next[i as int], t));
                            }
                            if listed_types(next).contains(t) {
                                let k = choose|k: int| 0 <= k < next.len() && is_text(#[trigger] next[k], t);
                                if k < i {
                                    assert(is_text(held[k], t));
                                }
                            }
                        }
                        assert(texts(names@).to_set() =~= before + listed_types(next));
                    },
                    _ => {
                        assert forall|t: Seq<char>| listed_types(next).contains(t) == listed_types(
                            held,
                        ).contains(t) by {
                            if listed_types(held).contains(t) {
                                let k = choose|k: int| 0 <= k < held.len() && is_text(#[trigger] held[k], t);
                                assert(is_text(next[k], t));
                            }
                            if listed_types(next).contains(t) {
                                let k = choose|k: int| 0 <= k < next.len() && is_text(#[trigger] next[k], t);
                                assert(is_text(held[k], t));
                            }
                        }
                        assert(listed_types(next) =~= listed_types(held));
                    },
                }
                i = i + 1;
            }
            assert(items@.take(i as int) =~= items@);
        },
        _ => {
            assert(before =~= before + named_types(members@));
        },
    }
}

/// The type that a schema names a JSON value by.
fn json_type_text(value: &JsonValue) -> (r: String)
    ensures
        r@ == json_type(*value),
{
    match value {
        JsonValue::Null => "null".to_owned(),
        JsonValue::Bool(_) => "boolean".to_owned(),
        JsonValue::Integer(_) => "integer".to_owned(),
        JsonValue::Float(_) => "number".to_owned(),
        JsonValue::Text(_) => "string".to_owned(),
        JsonValue::Array(_) => "array".to_owned(),
        JsonValue::Object(_) => "object".to_owned(),
    }
}

/// Adds the types of the values under `enum`.
fn insert_enum_types(members: &Vec<(String, JsonValue)>, names: &mut Vec<String>)
    requires
        ascending(texts(old(names)@)),
    ensures
        ascending(texts(final(names)@)),
        texts(final(names)@).to_set() == texts(old(names)@).to_set() + item_types(
            array_member(members@, "enum"@),
        ),
{
    let ghost before = texts(names@).to_set();
    match find_member(members, "enum") {
        Some(JsonValue::Array(items)) => {
            let mut i: usize = 0;
            assert(before =~= before + item_types(items@.take(0)));
            while i < items.len()
                invariant
                    i <= items@.len(),
                    ascending(texts(names@)),
                    texts(names@).to_set() == before + item_types(items@.take(i as int)),
                decreases items.len() - i,
            {
                let ghost held = items@.take(i as int);
                let ghost next = items@.take(i + 1);
                let name: String = json_type_text(&items[i]);
                insert_name(names, name);
                proof {
                    assert(forall|k: int| 0 <= k < i ==> #[trigger] next[k] == held[k]);
                    assert(next[i as int] == items@[i as int]);
                    assert forall|t: Seq<char>| item_types(next).contains(t) == item_types(held).insert(
                        name@,
                    ).contains(t) by {
                        if item_types(held).contains(t) {
                            let k = choose|k: int| 0 <= k < held.len() && json_type(#[trigger] held[k]) == t;
                            assert(json_type(next[k]) == t);
                        }
                        if t == name@ {
                            assert(json_type(next[i as int]) == t);
                        }
                        if item_types(next).contains(t) {
                            let k = choose|k: int| 0 <= k < next.len() && json_type(#[trigger] next[k]) == t;
                            if k < i {
                                assert(json_type(held[k]) == t);
                            }
                        }
                    }
                    assert(texts(names@).to_set() =~= before + item_types(next));
                }
                i = i + 1;
            }
            assert(items@.take(i as int) =~= items@);
        },
        _ => {
            assert(before =~= before + item_types(array_member(members@, "enum"@)));
        },
    }
}

/// The types that the first `n` schemas in the list under `key` allow.
spec fn alternatives_below(schema: JsonValue, key: Seq<char>, n: int) -> Set<Seq<char>> {
    Set::new(
        |t: Seq<char>|
            exists|i: int|
                0 <= i < n && i < array_member(schema->Object_0@, key).len() && schema_types(
                    #[trigger] array_member(schema->Object_0@, key)[i],
                ).contains(t),
    )
}

/// Adds the types that the schemas in the list under `key` allow.
fn insert_alternative_types(schema: &JsonValue, key: &str, names: &mut Vec<String>)
    requires
        *schema is Object,
        ascending(texts(old(names)@)),
    ensures
        ascending(texts(final(names)@)),
        texts(final(names)@).to_set() == texts(old(names)@).to_set() + alternative_types(*schema, key@),
    decreases *schema, 0int,
{
    let ghost before = texts(names@).to_set();
    match schema.get(key) {
        Some(JsonValue::Array(items)) => {
            let mut i: usize = 0;
            assert(before =~= before + alternatives_below(*schema, key@, 0));
            while i < items.len()
                invariant
                    *schema is Object,
                    array_member(schema->Object_0@, key@) == items@,
                    i <= items@.len(),
                    ascending(texts(names@)),
                    texts(names@).to_set() == before + alternatives_below(*schema, key@, i as int),
                decreases items.len() - i,
            {
                proof {
                    lemma_parts_smaller(*schema);
                    let sub = array_member(schema->Object_0@, key@)[i as int];
                    assert(decreases_to!(*schema => sub));
                }
                let more: Vec<String> = MinimaxM2Parser::extract_types_from_schema(&items[i]);
                insert_names(names, &more);
                proof {
                    let held = alternatives_below(*schema, key@, i as int);
                    let next = alternatives_below(*schema, key@, i + 1);
                    let sub = array_member(schema->Object_0@, key@)[i as int];
                    assert forall|t: Seq<char>| next.contains(t) == (held + schema_types(sub)).contains(
                        t,
                    ) by {
                        if schema_types(sub).contains(t) {
                            assert(schema_types(array_member(schema->Object_0@, key@)[i as int]).contains(t));
                        }
                    }
                    assert(texts(names@).to_set() =~= before + next);
                }
                i = i + 1;
            }
            assert(alternatives_below(*schema, key@, i as int) =~= alternative_types(*schema, key@));
        },
        _ => {
            assert(before =~= before + alternative_types(*schema, key@));
        },
    }
}

impl MinimaxM2Parser {
    /// Every type that a schema lets a value have, in ascending order.
    pub fn extract_types_from_schema(schema: &JsonValue) -> (r: Vec<String>)
        ensures
            ascending(texts(r@)),
            texts(r@).to_set() == schema_types(*schema),
            r@.len() > 0,
        decreases *schema, 1int,
    {
        let mut names: Vec<String> = Vec::new();
        assert(texts(names@).to_set() =~= Set::empty());
        if let JsonValue::Object(members) = schema {
            insert_named_types(members, &mut names);
            insert_enum_types(members, &mut names);
            insert_alternative_types(schema, "anyOf", &mut names);
            insert_alternative_types(schema, "oneOf", &mut names);
            insert_alternative_types(schema, "allOf", &mut names);
            proof {
                let found = named_types(members@) + item_types(array_member(members@, "enum"@))
                    + alternative_types(*schema, "anyOf"@) + alternative_types(*schema, "oneOf"@)
                    + alternative_types(*schema, "allOf"@);
                assert(texts(names@).to_set() =~= found);
                if names@.len() > 0 {
                    assert(texts(names@).contains(texts(names@)[0]));
                    assert(found.contains(texts(names@)[0]));
                } else {
                    assert(found =~= Set::empty());
                }
            }
        }
        if names.len() == 0 {
            insert_name(&mut names, "string".to_owned());
            assert(texts(names@).to_set() =~= set!["string"@]);
        }
        names
    }
}

/// The schema of parameter `param` of the function `func`, where the tools have one.
pub open spec fn param_schema(tools: Seq<Tool>, func: Seq<char>, param: Seq<char>) -> Option<JsonValue> {
    if has_tool(tools, func) {
        let tool = tools[choose|i: int| tool_at(tools, func, i)];
        match field(tool.function.parameters, "properties"@) {
            Some(JsonValue::Object(properties)) => member(properties@, param),
            _ => None,
        }
    } else {
        None
    }
}

impl MinimaxM2Parser {
    /// The types that the tools declare for parameter `param` of the function `func`; none where
    /// they declare nothing for it.
    pub fn schema_types_for_param(tools: &[Tool], func: &str, param: &str) -> (r: Vec<String>)
        ensures
            ascending(texts(r@)),
            match param_schema(tools@, func@, param@) {
                Some(schema) => texts(r@).to_set() == schema_types(schema) && r@.len() > 0,
                None => r@.len() == 0,
            },
    {
        match find_tool(tools, func) {
            Some(i) => {
                proof {
                    let k = choose|k: int| tool_at(tools@, func@, k);
                    assert(tool_at(tools@, func@, k));
                    assert(k == i) by {
                        if k < i {
                            assert(tools@[k].function.name@ != func@);
                        }
                        if i < k {
                            assert(tools@[i as int].function.name@ != func@);
                        }
                    }
                }
                match tools[i].function.parameters.get("properties") {
                    Some(JsonValue::Object(properties)) => {
                        match find_member(properties, param) {
                            Some(schema) => Self::extract_types_from_schema(schema),
                            None => Vec::new(),
                        }
                    },
                    _ => Vec::new(),
                }
            },
            None => Vec::new(),
        }
    }
}

// ---------------------------------------------------------------------------
// Values with a schema
// ---------------------------------------------------------------------------

/// One of the types is `name`, in whatever letter case.
pub open spec fn accepts(types: Set<Seq<char>>, name: Seq<char>) -> bool {
    exists|t: Seq<char>| types.contains(t) && #[trigger] lowercase(t) == name
}

/// The text is one of the words for null, in whatever letter case.
pub open spec fn looks_null(text: Seq<char>) -> bool {
    ||| ascii_lower_all(text) == ascii_lower_all("null"@)
    ||| ascii_lower_all(text) == ascii_lower_all("none"@)
    ||| ascii_lower_all(text) == ascii_lower_all("nil"@)
}

/// The integer that the text denotes.
pub open spec fn integer_reading(text: Seq<char>) -> Option<ParamView> {
    match parsed_i64(text) {
        Some(n) => Some(ParamView::Number(decimal_int(n as int))),
        None => None,
    }
}

/// The number that the text denotes: an integer where it is written as one, or else `number`.
pub open spec fn number_reading(text: Seq<char>, number: Option<Seq<char>>) -> Option<ParamView> {
    if !contains(text, "."@) && !contains(text, "e"@) && !contains(text, "E"@) && parsed_i64(
        text,
    ) is Some {
        integer_reading(text)
    } else {
        match number {
            Some(n) => Some(ParamView::Number(n)),
            None => None,
        }
    }
}

/// The truth value that the text denotes.
pub open spec fn bool_reading(text: Seq<char>) -> Option<ParamView> {
    let word = trim(lowercase(text));
    if word == "true"@ || word == "1"@ || word == "yes"@ || word == "on"@ {
        Some(ParamView::Bool(true))
    } else if word == "false"@ || word == "0"@ || word == "no"@ || word == "off"@ {
        Some(ParamView::Bool(false))
    } else {
        None
    }
}

/// The value that a text stands for under the types that the schema allows, given the number
/// and the JSON value that it denotes. Null comes first, and only where the schema allows it;
/// then the first of integer, number, boolean, object or array, and string that is allowed and
/// that the text can be read as; then whatever JSON value the text denotes; then the text
/// itself.
pub open spec fn typed_value(
    text: Seq<char>,
    types: Set<Seq<char>>,
    number: Option<Seq<char>>,
    json: Option<ParamView>,
) -> ParamView {
    if looks_null(text) && accepts(types, "null"@) {
        ParamView::Null
    } else if (accepts(types, "integer"@) || accepts(types, "int"@)) && integer_reading(text) is Some {
        integer_reading(text)->0
    } else if (accepts(types, "number"@) || accepts(types, "float"@)) && number_reading(
        text,
        number,
    ) is Some {
        number_reading(text, number)->0
    } else if (accepts(types, "boolean"@) || accepts(types, "bool"@)) && bool_reading(text) is Some {
        bool_reading(text)->0
    } else if (accepts(types, "object"@) || accepts(types, "array"@)) && json is Some {
        json->0
    } else if accepts(types, "string"@) || accepts(types, "str"@) || accepts(types, "text"@) {
        ParamView::Text(text)
    } else if json is Some {
        json->0
    } else {
        ParamView::Text(text)
    }
}

/// The value that a text stands for under the types that the schema allows.
pub open spec fn schema_value(text: Seq<char>, types: Set<Seq<char>>) -> ParamView {
    typed_value(text, types, finite_number(text), json_value(text))
}

/// Whether one of the types is `name`, in whatever letter case.
fn accepts_type(types: &[String], name: &str) -> (r: bool)
    ensures
        r == accepts(texts(types@).to_set(), name@),
{
    let mut i: usize = 0;
    while i < types.len()
        invariant
            i <= types@.len(),
            forall|j: int| 0 <= j < i ==> lowercase(#[trigger] texts(types@)[j]) != name@,
        decreases types.len() - i,
    {
        let lower: String = lowercase_text(types[i].as_str());
        assert(texts(types@)[i as int] == types@[i as int]@);
        if same_text(lower.as_str(), name) {
            assert(texts(types@).contains(types@[i as int]@));
            assert(lowercase(types@[i as int]@) == name@);
            return true;
        }
        i = i + 1;
    }
    proof {
        if accepts(texts(types@).to_set(), name@) {
            let t = choose|t: Seq<char>| texts(types@).to_set().contains(t) && #[trigger] lowercase(t) == name@;
            let j = choose|j: int| 0 <= j < texts(types@).len() && texts(types@)[j] == t;
            assert(lowercase(texts(types@)[j]) != name@);
        }
    }
    false
}

/// The truth value that the text denotes.
fn read_bool(text: &str) -> (r: Option<bool>)
    ensures
        r matches Some(b) ==> bool_reading(text@) == Some(ParamView::Bool(b)),
        r is None ==> bool_reading(text@) is None,
{
    let lower: String = lowercase_text(text);
    let word: String = trim_text(lower.as_str());
    if same_text(word.as_str(), "true") || same_text(word.as_str(), "1") || same_text(
        word.as_str(),
        "yes",
    ) || same_text(word.as_str(), "on") {
        Some(true)
    } else if same_text(word.as_str(), "false") || same_text(word.as_str(), "0") || same_text(
        word.as_str(),
        "no",
    ) || same_text(word.as_str(), "off") {
        Some(false)
    } else {
        None
    }
}

/// The number that the text denotes, as it is printed.
fn read_number(text: &str, number: Option<String>) -> (r: Option<String>)
    ensures
        r matches Some(n) ==> number_reading(text@, optional_text(number)) == Some(
            ParamView::Number(n@),
        ),
        r is None ==> number_reading(text@, optional_text(number)) is None,
{
    if !contains_text(text, ".") && !contains_text(text, "e") && !contains_text(text, "E") {
        if let Some(n) = parse_i64(text) {
            return Some(decimal_int_text(n));
        }
    }
    number
}

/// The value that a text stands for under the types that the schema allows, given the number
/// and the JSON value that it denotes.
pub fn value_of_types(
    value: &str,
    param_types: &[String],
    number: Option<String>,
    json: Option<ParamValue>,
) -> (r: ParamValue)
    ensures
        r@ == typed_value(
            value@,
            texts(param_types@).to_set(),
            optional_text(number),
            optional_value(json),
        ),
{
    let null_word: bool = same_ignoring_ascii_case(value, "null") || same_ignoring_ascii_case(
        value,
        "none",
    ) || same_ignoring_ascii_case(value, "nil");
    if null_word && accepts_type(param_types, "null") {
        return ParamValue::Null;
    }
    if accepts_type(param_types, "integer") || accepts_type(param_types, "int") {
        if let Some(n) = parse_i64(value) {
            return ParamValue::Number(decimal_int_text(n));
        }
    }
    if accepts_type(param_types, "number") || accepts_type(param_types, "float") {
        if let Some(n) = read_number(value, number) {
            return ParamValue::Number(n);
        }
    }
    if accepts_type(param_types, "boolean") || accepts_type(param_types, "bool") {
        if let Some(b) = read_bool(value) {
            return ParamValue::Bool(b);
        }
    }
    if accepts_type(param_types, "object") || accepts_type(param_types, "array") {
        if let Some(v) = json {
            return v;
        }
    }
    if accepts_type(param_types, "string") || accepts_type(param_types, "str") || accepts_type(
        param_types,
        "text",
    ) {
        return ParamValue::Text(value.to_owned());
    }
    match json {
        Some(v) => v,
        None => ParamValue::Text(value.to_owned()),
    }
}

impl MinimaxM2Parser {
    /// The value that a text stands for under the types that the schema allows.
    pub fn convert_with_schema(value: &str, param_types: &[String]) -> (r: ParamValue)
        ensures
            r@ == schema_value(value@, texts(param_types@).to_set()),
    {
        let number: Option<String> = finite_number_text(value);
        let json: Option<ParamValue> = json_from_str(value);
        value_of_types(value, param_types, number, json)
    }
}

// ---------------------------------------------------------------------------
// Laws
// ---------------------------------------------------------------------------

/// A text that denotes an integer is a row of digits, with at most a sign before them.
proof fn lemma_integer_chars(s: Seq<char>)
    requires
        parsed_i64(s) is Some,
    ensures
        s.len() > 0,
        forall|i: int|
            0 <= i < s.len() ==> is_digit(#[trigger] s[i]) || (i == 0 && (s[i] == '-' || s[i] == '+')),
{
    if s.first() == '-' || s.first() == '+' {
        let rest = s.drop_first();
        assert forall|i: int| 0 <= i < s.len() implies is_digit(#[trigger] s[i]) || (i == 0 && (s[i] == '-'
            || s[i] == '+')) by {
            if i > 0 {
                assert(is_digit(rest[i - 1]));
            }
        }
    }
}

/// A parameter that the schema declares a string, and nothing else, keeps its text as it is,
/// whatever the text looks like.
pub proof fn law_string_keeps_text(text: Seq<char>, types: Set<Seq<char>>)
    requires
        accepts(types, "string"@) || accepts(types, "str"@) || accepts(types, "text"@),
        !accepts(types, "null"@),
        !accepts(types, "integer"@) && !accepts(types, "int"@),
        !accepts(types, "number"@) && !accepts(types, "float"@),
        !accepts(types, "boolean"@) && !accepts(types, "bool"@),
        !accepts(types, "object"@) && !accepts(types, "array"@),
    ensures
        schema_value(text, types) == ParamView::Text(text),
{
}

/// Under the schema type `string` alone a text is kept as it is.
pub proof fn law_string_type(text: Seq<char>)
    ensures
        schema_value(text, set!["string"@]) == ParamView::Text(text),
{
    let types = set!["string"@];
    reveal_strlit("string");
    reveal_strlit("null");
    reveal_strlit("integer");
    reveal_strlit("int");
    reveal_strlit("number");
    reveal_strlit("float");
    reveal_strlit("boolean");
    reveal_strlit("bool");
    reveal_strlit("object");
    reveal_strlit("array");
    assert(lowercase("string"@) =~= "string"@);
    assert(types.contains("string"@));
    assert(accepts(types, "string"@));
    assert("string"@[0] == 's');
    assert(!accepts(types, "null"@));
    law_string_keeps_text(text, types);
}

/// A word for null is read as null where the schema allows null. Where it does not, null comes
/// only of a text that is the JSON null itself, and only where the schema does not allow a
/// string.
pub proof fn law_null_where_allowed(text: Seq<char>, types: Set<Seq<char>>)
    ensures
        looks_null(text) && accepts(types, "null"@) ==> schema_value(text, types) is Null,
        schema_value(text, types) is Null ==> (looks_null(text) && accepts(types, "null"@)) || json_value(
            text,
        ) == Some(ParamView::Null),
        schema_value(text, types) is Null && !accepts(types, "null"@) && !accepts(types, "object"@)
            && !accepts(types, "array"@) ==> !accepts(types, "string"@),
{
}

/// A text that denotes an integer stays one where the schema allows an integer or any number:
/// it does not become a number with a fraction.
pub proof fn law_integer_stays_integer(text: Seq<char>, types: Set<Seq<char>>)
    requires
        parsed_i64(text) is Some,
        accepts(types, "integer"@) || accepts(types, "int"@) || accepts(types, "number"@) || accepts(
            types,
            "float"@,
        ),
    ensures
        schema_value(text, types) == ParamView::Number(decimal_int(parsed_i64(text)->0 as int)),
{
    lemma_integer_chars(text);
    reveal_strlit(".");
    reveal_strlit("e");
    reveal_strlit("E");
    reveal_strlit("null");
    reveal_strlit("none");
    reveal_strlit("nil");
    assert(!looks_null(text)) by {
        assert(ascii_lower_all(text)[0] == ascii_lower(text[0]));
        assert(ascii_lower_all("null"@)[0] == 'n');
        assert(ascii_lower_all("none"@)[0] == 'n');
        assert(ascii_lower_all("nil"@)[0] == 'n');
        assert(is_digit(text[0]) || text[0] == '-' || text[0] == '+');
    }
    assert forall|c: &str, i: int| #[trigger] occurs_at(text, c@, i) && (c == "." || c == "e" || c == "E") implies false by {
        assert(text.subrange(i, i + c@.len())[0] == text[i]);
        assert(is_digit(text[i]) || text[i] == '-' || text[i] == '+');
    }
    assert(!contains(text, "."@));
    assert(!contains(text, "e"@));
    assert(!contains(text, "E"@));
}

/// Some type that the schema allows is `name`, in whatever letter case.
pub open spec fn allows(types: Set<Seq<char>>, name: Seq<char>) -> bool {
    exists|t: Seq<char>| #![trigger types.contains(t)] types.contains(t) && lowercase(t) == name
}

/// The schema allows neither null, nor an integer, nor any number, nor a truth value.
pub open spec fn allows_no_word(types: Set<Seq<char>>) -> bool {
    &&& !allows(types, "null"@)
    &&& !allows(types, "integer"@) && !allows(types, "int"@)
    &&& !allows(types, "number"@) && !allows(types, "float"@)
    &&& !allows(types, "boolean"@) && !allows(types, "bool"@)
}

/// A type is accepted where it is one of the types, in whatever letter case, and nowhere else.
proof fn lemma_accepts(types: Set<Seq<char>>, name: Seq<char>)
    ensures
        accepts(types, name) == allows(types, name),
{
    if accepts(types, name) {
        let t = choose|t: Seq<char>| types.contains(t) && #[trigger] lowercase(t) == name;
        assert(types.contains(t));
    }
    if allows(types, name) {
        let t = choose|t: Seq<char>| #![trigger types.contains(t)] types.contains(t) && lowercase(t) == name;
        assert(lowercase(t) == name);
    }
}

/// The names that the types are compared with.
proof fn lemma_accepted(types: Set<Seq<char>>)
    ensures
        accepts(types, "null"@) == allows(types, "null"@),
        accepts(types, "integer"@) == allows(types, "integer"@),
        accepts(types, "int"@) == allows(types, "int"@),
        accepts(types, "number"@) == allows(types, "number"@),
        accepts(types, "float"@) == allows(types, "float"@),
        accepts(types, "boolean"@) == allows(types, "boolean"@),
        accepts(types, "bool"@) == allows(types, "bool"@),
        accepts(types, "object"@) == allows(types, "object"@),
        accepts(types, "array"@) == allows(types, "array"@),
        accepts(types, "string"@) == allows(types, "string"@),
        accepts(types, "str"@) == allows(types, "str"@),
        accepts(types, "text"@) == allows(types, "text"@),
{
    lemma_accepts(types, "null"@);
    lemma_accepts(types, "integer"@);
    lemma_accepts(types, "int"@);
    lemma_accepts(types, "number"@);
    lemma_accepts(types, "float"@);
    lemma_accepts(types, "boolean"@);
    lemma_accepts(types, "bool"@);
    lemma_accepts(types, "object"@);
    lemma_accepts(types, "array"@);
    lemma_accepts(types, "string"@);
    lemma_accepts(types, "str"@);
    lemma_accepts(types, "text"@);
}

/// Where the schema allows an array or an object, and neither null nor a number nor a truth value,
/// a text that denotes a JSON value is read as that value, whether a string is allowed or not; one
/// that denotes none is kept as a text.
pub proof fn law_array_or_object(text: Seq<char>, types: Set<Seq<char>>)
    requires
        allows(types, "array"@) || allows(types, "object"@),
        allows_no_word(types),
    ensures
        json_value(text) matches Some(value) ==> schema_value(text, types) == value,
        json_value(text) is None ==> schema_value(text, types) == ParamView::Text(text),
{
    lemma_accepted(types);
}

/// Where the schema allows a string, and neither null nor a number nor a truth value nor an array
/// nor an object, every text is kept as it is, under each of the names of that type.
pub proof fn law_text_kept(text: Seq<char>, types: Set<Seq<char>>)
    requires
        allows(types, "string"@) || allows(types, "str"@) || allows(types, "text"@),
        allows_no_word(types),
        !allows(types, "array"@) && !allows(types, "object"@),
    ensures
        schema_value(text, types) == ParamView::Text(text),
{
    lemma_accepted(types);
}

/// Where the schema allows an integer, each integer that fits 64 bits, in decimal notation, is read
/// as that integer, whatever else the schema allows.
pub proof fn law_integer_read(n: i64, types: Set<Seq<char>>)
    requires
        allows(types, "integer"@) || allows(types, "int"@) || allows(types, "number"@) || allows(
            types,
            "float"@,
        ),
    ensures
        schema_value(decimal_int(n as int), types) == ParamView::Number(decimal_int(n as int)),
{
    lemma_accepted(types);
    law_decimal_read_back(n as int);
    law_integer_stays_integer(decimal_int(n as int), types);
}

/// Where the schema allows a number, and a text is no integer, the number that it denotes is read;
/// under an integer alone it is not.
pub proof fn law_number_read(text: Seq<char>, types: Set<Seq<char>>)
    requires
        parsed_i64(text) is None,
        finite_number(text) is Some,
        !looks_null(text) || !allows(types, "null"@),
    ensures
        allows(types, "number"@) || allows(types, "float"@) ==> schema_value(text, types)
            == ParamView::Number(finite_number(text)->0),
        !allows(types, "number"@) && !allows(types, "float"@) && !allows(types, "boolean"@) && !allows(
            types,
            "bool"@,
        ) && !allows(types, "array"@) && !allows(types, "object"@) && (allows(types, "string"@)
            || allows(types, "str"@) || allows(types, "text"@)) ==> schema_value(text, types)
            == ParamView::Text(text),
{
    lemma_accepted(types);
}

/// Where the schema allows a truth value, and neither null nor a number, the words for true and for
/// false are read as such, in whatever letter case and with white space round them; any other text
/// is not read as a truth value, unless it is one in JSON.
pub proof fn law_truth_read(text: Seq<char>, types: Set<Seq<char>>)
    requires
        allows(types, "boolean"@) || allows(types, "bool"@),
        !allows(types, "null"@),
        !allows(types, "integer"@) && !allows(types, "int"@),
        !allows(types, "number"@) && !allows(types, "float"@),
    ensures
        ({
            let word = trim(lowercase(text));
            let yes = word == "true"@ || word == "yes"@ || word == "on"@ || word == "1"@;
            let no = word == "false"@ || word == "no"@ || word == "off"@ || word == "0"@;
            &&& yes ==> schema_value(text, types) == ParamView::Bool(true)
            &&& no ==> schema_value(text, types) == ParamView::Bool(false)
            &&& !yes && !no && json_value(text) is None ==> schema_value(text, types) == ParamView::Text(
                text,
            )
        }),
{
    lemma_accepted(types);
    let word = trim(lowercase(text));
    reveal_strlit("true");
    reveal_strlit("yes");
    reveal_strlit("on");
    reveal_strlit("1");
    reveal_strlit("false");
    reveal_strlit("no");
    reveal_strlit("off");
    reveal_strlit("0");
    assert("true"@[0] == 't' && "yes"@[0] == 'y' && "on"@.len() == 2 && "1"@[0] == '1');
    assert("false"@[0] == 'f' && "no"@[0] == 'n' && "off"@.len() == 3 && "0"@[0] == '0');
    assert("on"@[0] == 'o' && "off"@[0] == 'o');
}

/// Where the schema allows null, its words are read as null, in whatever letter case, whatever else
/// the schema allows; where it does not, and allows a string and no other JSON, they are texts.
pub proof fn law_null_read(text: Seq<char>, types: Set<Seq<char>>)
    requires
        ascii_lower_all(text) == "null"@ || ascii_lower_all(text) == "none"@ || ascii_lower_all(text)
            == "nil"@,
    ensures
        allows(types, "null"@) ==> schema_value(text, types) == ParamView::Null,
        allows_no_word(types) && !allows(types, "array"@) && !allows(types, "object"@) && (allows(
            types,
            "string"@,
        ) || allows(types, "str"@) || allows(types, "text"@)) ==> schema_value(text, types)
            == ParamView::Text(text),
{
    lemma_accepted(types);
    reveal_strlit("null");
    reveal_strlit("none");
    reveal_strlit("nil");
    assert(ascii_lower_all("null"@) =~= "null"@);
    assert(ascii_lower_all("none"@) =~= "none"@);
    assert(ascii_lower_all("nil"@) =~= "nil"@);
}

/// Where the schema allows none of the types that values are read as, a text is read as the JSON
/// value that it denotes, or is kept.
pub proof fn law_other_types(text: Seq<char>, types: Set<Seq<char>>)
    requires
        allows_no_word(types),
        !allows(types, "string"@) && !allows(types, "str"@) && !allows(types, "text"@),
    ensures
        json_value(text) matches Some(value) ==> schema_value(text, types) == value,
        json_value(text) is None ==> schema_value(text, types) == ParamView::Text(text),
{
    lemma_accepted(types);
}

/// The letter case of a type of ASCII letters does not matter.
pub proof fn law_type_in_any_case(types: Set<Seq<char>>, t: Seq<char>, name: Seq<char>)
    requires
        types.contains(t),
        vstd::utf8::is_ascii_chars(t),
        t.len() == name.len(),
        forall|i: int|
            0 <= i < t.len() ==> #[trigger] name[i] == t[i] && !('A' <= t[i] <= 'Z') || ('A' <= t[i] <= 'Z'
                && name[i] as int == t[i] as int + 32),
    ensures
        allows(types, name),
        accepts(types, name),
{
    assert(lowercase(t) =~= name) by {
        assert forall|i: int| 0 <= i < t.len() implies lowercase(t)[i] == name[i] by {
            law_lowercase(t, i);
        }
    }
    lemma_accepts(types, name);
}

/// A text for which no schema says: the words for true, false and null as JSON and as Python write
/// them, an integer, or another number is read as such; and any other text is kept.
pub proof fn law_plain_value(text: Seq<char>)
    ensures
        text == "true"@ || text == "True"@ ==> plain_value(text) == ParamView::Bool(true),
        text == "false"@ || text == "False"@ ==> plain_value(text) == ParamView::Bool(false),
        text == "null"@ || text == "None"@ ==> plain_value(text) == ParamView::Null,
        forall|n: i64|
            text == #[trigger] decimal_int(n as int) ==> plain_value(text) == ParamView::Number(text),
        plain_value(text) is Bool ==> text == "true"@ || text == "True"@ || text == "false"@ || text
            == "False"@,
        plain_value(text) is Null ==> text == "null"@ || text == "None"@,
        !(plain_value(text) is Bool) && !(plain_value(text) is Null) && parsed_i64(text) is None
            && finite_number(text) is Some ==> plain_value(text) == ParamView::Number(
            finite_number(text)->0,
        ),
        !(plain_value(text) is Bool) && !(plain_value(text) is Null) && parsed_i64(text) is None
            && finite_number(text) is None ==> plain_value(text) == ParamView::Text(text),
{
    reveal_strlit("true");
    reveal_strlit("True");
    reveal_strlit("false");
    reveal_strlit("False");
    reveal_strlit("null");
    reveal_strlit("None");
    assert("true"@[0] == 't' && "True"@[0] == 'T' && "false"@[0] == 'f' && "False"@[0] == 'F' && "null"@[0]
        == 'n' && "None"@[0] == 'N');
    assert forall|n: i64| text == #[trigger] decimal_int(n as int) implies plain_value(text)
        == ParamView::Number(text) by {
        law_decimal_read_back(n as int);
        lemma_integer_chars(text);
        assert(is_digit(text[0]) || text[0] == '-' || text[0] == '+');
    }
}

/// A schema that names one type allows that type and no other, where it has no list of values and
/// no alternatives.
pub proof fn law_declared_type(schema: JsonValue, t: Seq<char>)
    requires
        text_field(schema, "type"@) == Some(t),
        field(schema, "enum"@) is None,
        field(schema, "anyOf"@) is None,
        field(schema, "oneOf"@) is None,
        field(schema, "allOf"@) is None,
    ensures
        schema_types(schema) == set![t],
{
    let members = schema->Object_0@;
    assert(alternative_types(schema, "anyOf"@) =~= Set::empty());
    assert(alternative_types(schema, "oneOf"@) =~= Set::empty());
    assert(alternative_types(schema, "allOf"@) =~= Set::empty());
    assert(item_types(array_member(members, "enum"@)) =~= Set::empty());
    assert(named_types(members) =~= set![t]);
    let found = named_types(members) + item_types(array_member(members, "enum"@)) + alternative_types(
        schema,
        "anyOf"@,
    ) + alternative_types(schema, "oneOf"@) + alternative_types(schema, "allOf"@);
    assert(found =~= set![t]);
    assert(found.contains(t));
}

/// Every type that a schema names, in a list or alone, is allowed; so is the type of each value
/// that it lists, and each type that an alternative of it allows.
pub proof fn law_types_allowed(schema: JsonValue, members: Vec<(String, JsonValue)>)
    requires
        schema == JsonValue::Object(members),
    ensures
        text_field(schema, "type"@) matches Some(t) ==> schema_types(schema).contains(t),
        forall|i: int|
            0 <= i < array_member(members@, "type"@).len() ==> (
            #[trigger] array_member(members@, "type"@)[i] matches JsonValue::Text(t) ==> schema_types(
                schema,
            ).contains(t@)),
        forall|i: int|
            0 <= i < array_member(members@, "enum"@).len() ==> schema_types(schema).contains(
                json_type(#[trigger] array_member(members@, "enum"@)[i]),
            ),
        forall|key: Seq<char>, i: int, t: Seq<char>|
            (key == "anyOf"@ || key == "oneOf"@ || key == "allOf"@) && 0 <= i < array_member(
                members@,
                key,
            ).len() && schema_types(#[trigger] array_member(members@, key)[i]).contains(t)
                ==> #[trigger] schema_types(schema).contains(t),
        schema_types(schema).len() > 0 || !schema_types(schema).finite(),
{
    let all = schema_types(schema);
    let found = named_types(members@) + item_types(array_member(members@, "enum"@)) + alternative_types(
        schema,
        "anyOf"@,
    ) + alternative_types(schema, "oneOf"@) + alternative_types(schema, "allOf"@);
    assert(forall|t: Seq<char>| found.contains(t) ==> all.contains(t));
    assert forall|i: int| 0 <= i < array_member(members@, "type"@).len() implies (
    #[trigger] array_member(members@, "type"@)[i] matches JsonValue::Text(t) ==> all.contains(t@)) by {
        if let JsonValue::Text(t) = array_member(members@, "type"@)[i] {
            assert(is_text(array_member(members@, "type"@)[i], t@));
            assert(named_types(members@).contains(t@));
        }
    }
    assert forall|i: int| 0 <= i < array_member(members@, "enum"@).len() implies all.contains(
        json_type(#[trigger] array_member(members@, "enum"@)[i]),
    ) by {
        assert(item_types(array_member(members@, "enum"@)).contains(
            json_type(array_member(members@, "enum"@)[i]),
        ));
    }
    assert forall|key: Seq<char>, i: int, t: Seq<char>|
        (key == "anyOf"@ || key == "oneOf"@ || key == "allOf"@) && 0 <= i < array_member(
            members@,
            key,
        ).len() && schema_types(#[trigger] array_member(members@, key)[i]).contains(
            t,
        ) implies #[trigger] schema_types(schema).contains(t) by {
        assert(alternative_types(schema, key).contains(t));
    }
}

/// A schema that allows nothing by name, or that is no object, allows a string.
pub proof fn law_no_type_is_string(schema: JsonValue)
    requires
        field(schema, "type"@) is None,
        field(schema, "enum"@) is None,
        field(schema, "anyOf"@) is None,
        field(schema, "oneOf"@) is None,
        field(schema, "allOf"@) is None,
    ensures
        schema_types(schema) == set!["string"@],
{
    if let JsonValue::Object(members) = schema {
        assert(alternative_types(schema, "anyOf"@) =~= Set::empty());
        assert(alternative_types(schema, "oneOf"@) =~= Set::empty());
        assert(alternative_types(schema, "allOf"@) =~= Set::empty());
        assert(item_types(array_member(members@, "enum"@)) =~= Set::empty());
        assert(named_types(members@) =~= Set::empty());
        let found = named_types(members@) + item_types(array_member(members@, "enum"@)) + alternative_types(
            schema,
            "anyOf"@,
        ) + alternative_types(schema, "oneOf"@) + alternative_types(schema, "allOf"@);
        assert(found =~= Set::empty());
    }
}

/// A value that a schema lists has the type that JSON gives it.
pub proof fn law_json_type(value: JsonValue)
    ensures
        value is Null ==> json_type(value) == "null"@,
        value is Bool ==> json_type(value) == "boolean"@,
        value is Integer ==> json_type(value) == "integer"@,
        value is Float ==> json_type(value) == "number"@,
        value is Text ==> json_type(value) == "string"@,
        value is Array ==> json_type(value) == "array"@,
        value is Object ==> json_type(value) == "object"@,
{
}

/// Under a schema that declares an array or an object, and nothing else, a text that denotes a JSON
/// value is read as that value.
pub proof fn law_declared_array(schema: JsonValue, text: Seq<char>, t: Seq<char>)
    requires
        text_field(schema, "type"@) == Some(t),
        t == "array"@ || t == "object"@,
        field(schema, "enum"@) is None,
        field(schema, "anyOf"@) is None,
        field(schema, "oneOf"@) is None,
        field(schema, "allOf"@) is None,
    ensures
        json_value(text) matches Some(value) ==> schema_value(text, schema_types(schema)) == value,
        json_value(text) is None ==> schema_value(text, schema_types(schema)) == ParamView::Text(text),
{
    law_declared_type(schema, t);
    let types = schema_types(schema);
    reveal_strlit("array");
    reveal_strlit("object");
    reveal_strlit("null");
    reveal_strlit("integer");
    reveal_strlit("int");
    reveal_strlit("number");
    reveal_strlit("float");
    reveal_strlit("boolean");
    reveal_strlit("bool");
    assert(lowercase(t) =~= t);
    assert(types.contains(t));
    assert(allows(types, t));
    assert("array"@.len() == 5 && "object"@.len() == 6);
    assert("float"@[0] == 'f' && "array"@[0] == 'a');
    assert("number"@[0] == 'n' && "object"@[0] == 'o');
    assert(forall|u: Seq<char>| types.contains(u) ==> u == t);
    assert(allows_no_word(types));
    law_array_or_object(text, types);
}

/// Names are put in the order of their characters: a name stands before each that goes on behind
/// it, and before each that has a later character where they first differ; never before itself.
pub proof fn law_name_order(start: Seq<char>, a: Seq<char>, b: Seq<char>, x: char, y: char)
    ensures
        a.len() > 0 ==> text_less(start, start + a),
        x < y ==> text_less(start + (seq![x] + a), start + (seq![y] + b)),
        !text_less(a, a),
{
    if a.len() > 0 {
        assert(differ_at(start, start + a, start.len() as int));
    }
    if x < y {
        let p = start + (seq![x] + a);
        let q = start + (seq![y] + b);
        let k = start.len() as int;
        assert(p[k] == x && q[k] == y);
        assert(differ_at(p, q, k));
    }
    assert(!text_less(a, a)) by {
        if text_less(a, a) {
            let k = choose|k: int|
                #[trigger] differ_at(a, a, k) && (k == a.len() || (k < a.len() && a[k] < a[k]));
            assert(false);
        }
    }
}

/// A text that is none of the words for null is no null, though the schema allows it: under null and
/// a string alone it is kept.
pub proof fn law_no_null(text: Seq<char>)
    requires
        ascii_lower_all(text) != "null"@ && ascii_lower_all(text) != "none"@ && ascii_lower_all(text)
            != "nil"@,
    ensures
        schema_value(text, set!["null"@, "string"@]) == ParamView::Text(text),
{
    let types = set!["null"@, "string"@];
    reveal_strlit("null");
    reveal_strlit("none");
    reveal_strlit("nil");
    reveal_strlit("string");
    reveal_strlit("integer");
    reveal_strlit("int");
    reveal_strlit("number");
    reveal_strlit("float");
    reveal_strlit("boolean");
    reveal_strlit("bool");
    reveal_strlit("object");
    reveal_strlit("array");
    assert(ascii_lower_all("null"@) =~= "null"@);
    assert(ascii_lower_all("none"@) =~= "none"@);
    assert(ascii_lower_all("nil"@) =~= "nil"@);
    assert(lowercase("null"@) =~= "null"@);
    assert(lowercase("string"@) =~= "string"@);
    assert(types.contains("string"@));
    assert("null"@[0] == 'n' && "string"@[0] == 's' && "null"@.len() == 4 && "string"@.len() == 6);
    assert("number"@[0] == 'n' && "number"@.len() == 6);
    assert forall|t: Seq<char>| types.contains(t) implies lowercase(t) == "null"@ || lowercase(t)
        == "string"@ by {}
    lemma_accepted(types);
    assert(allows(types, "string"@));
    assert(!allows(types, "integer"@) && !allows(types, "int"@) && !allows(types, "number"@) && !allows(
        types,
        "float"@,
    ));
    assert(!allows(types, "boolean"@) && !allows(types, "bool"@) && !allows(types, "object"@) && !allows(
        types,
        "array"@,
    ));
}

} // verus!
