//! JSON: the trees that other parts of the gateway hand over, and the values that the
//! parameters of a tool call take.

use vstd::prelude::*;
use vstd::string::*;

use crate::text::{join_texts, same_text};
#[allow(unused_imports)]
use crate::text::{hex_digit, joined, optional_text, texts};

verus! {

// ---------------------------------------------------------------------------
// Trees
// ---------------------------------------------------------------------------

/// A JSON value. The members of an object stand in the order in which they were written.
#[derive(Debug)]
pub enum JsonValue {
    Null,
    Bool(bool),
    /// A number that fits a 64-bit integer, in decimal notation.
    Integer(String),
    /// Any other number, as it is printed.
    Float(String),
    Text(String),
    Array(Vec<JsonValue>),
    Object(Vec<(String, JsonValue)>),
}

/// `k` is the first position of a member named `key`.
pub open spec fn member_at(members: Seq<(String, JsonValue)>, key: Seq<char>, k: int) -> bool {
    &&& 0 <= k < members.len()
    &&& members[k].0@ == key
    &&& forall|j: int| 0 <= j < k ==> (#[trigger] members[j]).0@ != key
}

/// The first member named `key`.
pub open spec fn member(members: Seq<(String, JsonValue)>, key: Seq<char>) -> Option<JsonValue> {
    if exists|k: int| member_at(members, key, k) {
        Some(members[choose|k: int| member_at(members, key, k)].1)
    } else {
        None
    }
}

/// The member of an object named `key`; nothing for any other value.
pub open spec fn field(value: JsonValue, key: Seq<char>) -> Option<JsonValue> {
    match value {
        JsonValue::Object(members) => member(members@, key),
        _ => None,
    }
}

/// The items of the array that the member `key` holds; none where it holds anything else.
pub open spec fn array_member(members: Seq<(String, JsonValue)>, key: Seq<char>) -> Seq<JsonValue> {
    match member(members, key) {
        Some(JsonValue::Array(items)) => items@,
        _ => Seq::empty(),
    }
}

/// The text of a JSON string; nothing for any other value.
pub open spec fn as_text(value: Option<JsonValue>) -> Option<Seq<char>> {
    match value {
        Some(JsonValue::Text(s)) => Some(s@),
        _ => None,
    }
}

/// The text of the member `key`, where that member is a JSON string.
pub open spec fn text_field(value: JsonValue, key: Seq<char>) -> Option<Seq<char>> {
    as_text(field(value, key))
}

/// A value is larger than each item of it, and than each item of a member of it.
pub proof fn lemma_parts_smaller(value: JsonValue)
    ensures
        value matches JsonValue::Array(items) ==> forall|i: int|
            0 <= i < items@.len() ==> decreases_to!(value => #[trigger] items@[i]),
        value matches JsonValue::Object(members) ==> forall|i: int|
            0 <= i < members@.len() ==> decreases_to!(value => (#[trigger] members@[i]).1),
        value matches JsonValue::Object(members) ==> forall|key: Seq<char>, i: int|
            0 <= i < array_member(members@, key).len() ==> decreases_to!(value => #[trigger] array_member(
                members@,
                key,
            )[i]),
{
    match value {
        JsonValue::Array(items) => {
            assert(decreases_to!(value => value->Array_0));
            assert(decreases_to!(items => items@));
            assert forall|i: int| 0 <= i < items@.len() implies decreases_to!(value => #[trigger] items@[i]) by {
                assert(decreases_to!(items@ => items@[i]));
            }
        },
        JsonValue::Object(members) => {
            assert(decreases_to!(value => value->Object_0));
            assert(decreases_to!(members => members@));
            assert forall|i: int| 0 <= i < members@.len() implies decreases_to!(value => (
            #[trigger] members@[i]).1) by {
                assert(decreases_to!(members@ => members@[i]));
                assert(decreases_to!(members@[i] => members@[i].1));
            }
            assert forall|key: Seq<char>, i: int|
                0 <= i < array_member(members@, key).len() implies decreases_to!(value => #[trigger] array_member(
                members@,
                key,
            )[i]) by {
                let k = choose|k: int| member_at(members@, key, k);
                assert(member_at(members@, key, k));
                assert(decreases_to!(value => members@[k].1));
                let items = members@[k].1->Array_0;
                assert(decreases_to!(members@[k].1 => members@[k].1->Array_0));
                assert(decreases_to!(items => items@));
                assert(decreases_to!(items@ => items@[i]));
            }
        },
        _ => {},
    }
}

impl JsonValue {
    /// The member named `key`, where the value is an object that has one.
    pub fn get(&self, key: &str) -> (r: Option<&JsonValue>)
        ensures
            r is Some <==> field(*self, key@) is Some,
            r matches Some(m) ==> field(*self, key@) == Some(*m),
    {
        match self {
            JsonValue::Object(members) => find_member(members, key),
            _ => None,
        }
    }

    /// The text of the member named `key`, where that member is a JSON string.
    pub fn get_text(&self, key: &str) -> (r: Option<String>)
        ensures
            optional_text(r) == text_field(*self, key@),
    {
        match self.get(key) {
            Some(JsonValue::Text(s)) => Some(s.clone()),
            _ => None,
        }
    }
}

/// The first member named `key`.
pub fn find_member<'a>(members: &'a Vec<(String, JsonValue)>, key: &str) -> (r: Option<&'a JsonValue>)
    ensures
        r is Some <==> member(members@, key@) is Some,
        r matches Some(m) ==> member(members@, key@) == Some(*m),
{
    let mut i: usize = 0;
    while i < members.len()
        invariant
            i <= members@.len(),
            forall|j: int| 0 <= j < i ==> (#[trigger] members@[j]).0@ != key@,
        decreases members.len() - i,
    {
        if same_text(members[i].0.as_str(), key) {
            assert(member_at(members@, key@, i as int));
            let ghost k = choose|k: int| member_at(members@, key@, k);
            assert(k == i);
            return Some(&members[i].1);
        }
        i = i + 1;
    }
    None
}

// ---------------------------------------------------------------------------
// Printing
// ---------------------------------------------------------------------------

/// A character as it stands in a JSON string: a quotation mark, a backslash and a control
/// character are escaped.
pub open spec fn escaped_char(c: char) -> Seq<char> {
    if c == '"' || c == '\\' {
        seq!['\\', c]
    } else if c == '\u{8}' {
        seq!['\\', 'b']
    } else if c == '\t' {
        seq!['\\', 't']
    } else if c == '\n' {
        seq!['\\', 'n']
    } else if c == '\u{c}' {
        seq!['\\', 'f']
    } else if c == '\r' {
        seq!['\\', 'r']
    } else if 0x1f >= c as int {
        seq!['\\', 'u', '0', '0', hex_digit(c as int / 16), hex_digit(c as int % 16)]
    } else {
        seq![c]
    }
}

/// A text as it stands in a JSON string.
pub open spec fn escaped(s: Seq<char>) -> Seq<char>
    decreases s.len(),
{
    if s.len() == 0 {
        Seq::empty()
    } else {
        escaped_char(s.first()) + escaped(s.drop_first())
    }
}

/// A text as a JSON string: in quotation marks, escaped where JSON asks for it.
pub open spec fn json_string(s: Seq<char>) -> Seq<char> {
    seq!['"'] + escaped(s) + seq!['"']
}

/// `serde_json::to_string` on a text: the text in quotation marks, with a backslash before a
/// quotation mark and a backslash, short escapes for the control characters that have one,
/// `\u` and four digits for the others, and every other character as it is.
#[verifier::external_body]
pub(crate) fn json_string_text(s: &str) -> (r: String)
    ensures
        r@ == json_string(s@),
{
    serde_json::to_string(s).unwrap_or_default()
}

/// `name` and `text` as a member of an object, `sep` between them.
pub open spec fn member_text(name: Seq<char>, sep: Seq<char>, text: Seq<char>) -> Seq<char> {
    json_string(name) + sep + text
}

/// A JSON value printed without white space.
pub open spec fn compact(value: JsonValue) -> Seq<char>
    decreases value,
{
    proof {
        lemma_parts_smaller(value);
    }
    match value {
        JsonValue::Null => "null"@,
        JsonValue::Bool(b) => if b {
            "true"@
        } else {
            "false"@
        },
        JsonValue::Integer(s) => s@,
        JsonValue::Float(s) => s@,
        JsonValue::Text(s) => json_string(s@),
        JsonValue::Array(items) => "["@ + joined(compact_items(items@), ","@) + "]"@,
        JsonValue::Object(members) => "{"@ + joined(compact_members(members@), ","@) + "}"@,
    }
}

/// The items of an array printed without white space.
pub open spec fn compact_items(items: Seq<JsonValue>) -> Seq<Seq<char>>
    decreases items,
{
    if items.len() == 0 {
        Seq::empty()
    } else {
        compact_items(items.drop_last()).push(compact(items.last()))
    }
}

/// The members of an object printed without white space.
pub open spec fn compact_members(members: Seq<(String, JsonValue)>) -> Seq<Seq<char>>
    decreases members,
{
    if members.len() == 0 {
        Seq::empty()
    } else {
        compact_members(members.drop_last()).push(
            member_text(members.last().0@, ":"@, compact(members.last().1)),
        )
    }
}

/// A JSON value printed without white space.
pub fn compact_text(value: &JsonValue) -> (r: String)
    ensures
        r@ == compact(*value),
    decreases *value,
{
    match value {
        JsonValue::Null => "null".to_owned(),
        JsonValue::Bool(b) => if *b {
            "true".to_owned()
        } else {
            "false".to_owned()
        },
        JsonValue::Integer(s) => s.clone(),
        JsonValue::Float(s) => s.clone(),
        JsonValue::Text(s) => json_string_text(s.as_str()),
        JsonValue::Array(items) => {
            let mut parts: Vec<String> = Vec::new();
            let mut i: usize = 0;
            while i < items.len()
                invariant
                    *value == JsonValue::Array(*items),
                    i <= items@.len(),
                    texts(parts@) == compact_items(items@.take(i as int)),
                decreases items.len() - i,
            {
                proof {
                    lemma_parts_smaller(*value);
                    let item = value->Array_0@[i as int];
                    assert(decreases_to!(*value => item));
                }
                let text: String = compact_text(&items[i]);
                parts.push(text);
                i = i + 1;
                assert(items@.take(i as int).drop_last() =~= items@.take(i - 1));
                assert(texts(parts@) =~= compact_items(items@.take(i as int)));
            }
            assert(items@.take(i as int) =~= items@);
            let body: String = join_texts(&parts, ",");
            "[".to_owned().concat(body.as_str()).concat("]")
        },
        JsonValue::Object(members) => {
            let mut parts: Vec<String> = Vec::new();
            let mut i: usize = 0;
            while i < members.len()
                invariant
                    *value == JsonValue::Object(*members),
                    i <= members@.len(),
                    texts(parts@) == compact_members(members@.take(i as int)),
                decreases members.len() - i,
            {
                proof {
                    lemma_parts_smaller(*value);
                    let item = value->Object_0@[i as int].1;
                    assert(decreases_to!(*value => item));
                }
                let name: String = json_string_text(members[i].0.as_str());
                let text: String = compact_text(&members[i].1);
                parts.push(name.concat(":").concat(text.as_str()));
                i = i + 1;
                assert(members@.take(i as int).drop_last() =~= members@.take(i - 1));
                assert(texts(parts@) =~= compact_members(members@.take(i as int)));
            }
            assert(members@.take(i as int) =~= members@);
            let body: String = join_texts(&parts, ",");
            "{".to_owned().concat(body.as_str()).concat("}")
        },
    }
}

// ---------------------------------------------------------------------------
// Laws
// ---------------------------------------------------------------------------

/// A member of an object is found under its name, where no member before it has that name; nothing
/// is found under a name that no member has, nor in a value that is no object.
pub proof fn law_member_found(value: JsonValue, members: Vec<(String, JsonValue)>, k: int)
    requires
        value == JsonValue::Object(members),
        0 <= k < members@.len(),
        forall|j: int| 0 <= j < k ==> (#[trigger] members@[j]).0@ != members@[k].0@,
    ensures
        field(value, members@[k].0@) == Some(members@[k].1),
        members@[k].1 matches JsonValue::Text(s) ==> text_field(value, members@[k].0@) == Some(s@),
        !(members@[k].1 is Text) ==> text_field(value, members@[k].0@) is None,
{
    let key = members@[k].0@;
    assert(member_at(members@, key, k));
    let i = choose|i: int| member_at(members@, key, i);
    assert(i == k) by {
        if i < k {
            assert(members@[i].0@ != key);
        }
        if k < i {
            assert(members@[k].0@ != key);
        }
    }
}

/// Nothing is found under a name that no member has, nor in a value that is no object.
pub proof fn law_no_member(value: JsonValue, key: Seq<char>)
    requires
        value matches JsonValue::Object(members) ==> forall|j: int|
            0 <= j < members@.len() ==> (#[trigger] members@[j]).0@ != key,
    ensures
        field(value, key) is None,
        text_field(value, key) is None,
{
}

/// An array is printed item by item, in brackets and with commas between the items; an object
/// member by member, in braces, with a colon behind each name.
pub proof fn law_compact_grows(
    shorter: JsonValue,
    longer: JsonValue,
    items: Vec<JsonValue>,
    more: Vec<JsonValue>,
    members: Vec<(String, JsonValue)>,
    others: Vec<(String, JsonValue)>,
)
    ensures
        shorter == JsonValue::Array(items) && items@.len() == 0 ==> compact(shorter) == seq!['[', ']'],
        shorter == JsonValue::Array(items) && longer == JsonValue::Array(more) && more@.len() == items@.len()
            + 1 && more@.drop_last() == items@ ==> compact(longer) == compact(shorter).drop_last() + (
        if items@.len() > 0 {
            seq![',']
        } else {
            Seq::empty()
        }) + compact(more@.last()) + seq![']'],
        shorter == JsonValue::Object(members) && members@.len() == 0 ==> compact(shorter) == seq!['{', '}'],
        shorter == JsonValue::Object(members) && longer == JsonValue::Object(others) && others@.len()
            == members@.len() + 1 && others@.drop_last() == members@ ==> compact(longer) == compact(
            shorter,
        ).drop_last() + (if members@.len() > 0 {
            seq![',']
        } else {
            Seq::empty()
        }) + json_string(others@.last().0@) + seq![':'] + compact(others@.last().1) + seq!['}'],
{
    reveal_strlit("[");
    reveal_strlit("]");
    reveal_strlit("{");
    reveal_strlit("}");
    reveal_strlit(",");
    reveal_strlit(":");
    assert("["@ =~= seq!['['] && "]"@ =~= seq![']'] && "{"@ =~= seq!['{'] && "}"@ =~= seq!['}']);
    assert(","@ =~= seq![','] && ":"@ =~= seq![':']);
    if shorter == JsonValue::Array(items) {
        let rows = compact_items(items@);
        lemma_compact_len(items@);
        let body = joined(rows, ","@);
        assert(compact(shorter) =~= seq!['['] + body + seq![']']);
        assert(compact(shorter).drop_last() =~= seq!['['] + body);
        if longer == JsonValue::Array(more) && more@.len() == items@.len() + 1 && more@.drop_last() == items@ {
            let grown = compact_items(more@);
            assert(grown =~= rows.push(compact(more@.last())));
            assert(grown.drop_last() =~= rows);
            assert(compact(longer) =~= compact(shorter).drop_last() + (if items@.len() > 0 {
                seq![',']
            } else {
                Seq::empty()
            }) + compact(more@.last()) + seq![']']);
        }
    }
    if shorter == JsonValue::Object(members) {
        let rows = compact_members(members@);
        lemma_compact_members_len(members@);
        let body = joined(rows, ","@);
        assert(compact(shorter) =~= seq!['{'] + body + seq!['}']);
        assert(compact(shorter).drop_last() =~= seq!['{'] + body);
        if longer == JsonValue::Object(others) && others@.len() == members@.len() + 1 && others@.drop_last()
            == members@ {
            let grown = compact_members(others@);
            let last = member_text(others@.last().0@, ":"@, compact(others@.last().1));
            assert(grown =~= rows.push(last));
            assert(grown.drop_last() =~= rows);
            assert(compact(longer) =~= compact(shorter).drop_last() + (if members@.len() > 0 {
                seq![',']
            } else {
                Seq::empty()
            }) + json_string(others@.last().0@) + seq![':'] + compact(others@.last().1) + seq!['}']);
        }
    }
}

/// Each item is printed.
proof fn lemma_compact_len(items: Seq<JsonValue>)
    ensures
        compact_items(items).len() == items.len(),
    decreases items.len(),
{
    if items.len() > 0 {
        lemma_compact_len(items.drop_last());
    }
}

/// Each member is printed.
proof fn lemma_compact_members_len(members: Seq<(String, JsonValue)>)
    ensures
        compact_members(members).len() == members.len(),
    decreases members.len(),
{
    if members.len() > 0 {
        lemma_compact_members_len(members.drop_last());
    }
}

} // verus!
