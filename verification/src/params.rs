//! The parameters of a tool call: named values, printed as a JSON object.

use vstd::prelude::*;
use vstd::string::*;

use crate::json::json_string_text;
#[allow(unused_imports)]
use crate::json::{escaped, escaped_char, json_string, member_text};
use crate::text::{chars_of, join_texts, same_text};
#[allow(unused_imports)]
use crate::text::{hex_digit, joined, texts};

verus! {

/// The value of a parameter.
#[derive(Debug, PartialEq, Eq)]
pub enum ParamValue {
    Null,
    Bool(bool),
    /// A number, as it is printed: an integer in decimal notation, any other number with a
    /// fraction or an exponent.
    Number(String),
    Text(String),
    /// An array or an object, as JSON without white space.
    Nested(String),
}

/// What a [`ParamValue`] holds.
pub enum ParamView {
    Null,
    Bool(bool),
    Number(Seq<char>),
    Text(Seq<char>),
    Nested(Seq<char>),
}

impl View for ParamValue {
    type V = ParamView;

    open spec fn view(&self) -> ParamView {
        match self {
            ParamValue::Null => ParamView::Null,
            ParamValue::Bool(b) => ParamView::Bool(*b),
            ParamValue::Number(s) => ParamView::Number(s@),
            ParamValue::Text(s) => ParamView::Text(s@),
            ParamValue::Nested(s) => ParamView::Nested(s@),
        }
    }
}

impl Clone for ParamValue {
    fn clone(&self) -> (r: Self)
        ensures
            r@ == self@,
    {
        match self {
            ParamValue::Null => ParamValue::Null,
            ParamValue::Bool(b) => ParamValue::Bool(*b),
            ParamValue::Number(s) => ParamValue::Number(s.clone()),
            ParamValue::Text(s) => ParamValue::Text(s.clone()),
            ParamValue::Nested(s) => ParamValue::Nested(s.clone()),
        }
    }
}

// ---------------------------------------------------------------------------
// Reading values
// ---------------------------------------------------------------------------

/// What the parser of JSON makes of a text; nothing where the text is not JSON.
pub uninterp spec fn parsed_json(text: Seq<char>) -> Option<ParamView>;

/// The text of a number as it is printed: digits, signs, a point and the mark of an exponent.
pub open spec fn is_number_text(text: Seq<char>) -> bool {
    forall|i: int|
        0 <= i < text.len() ==> '0' <= #[trigger] text[i] <= '9' || text[i] == '-' || text[i] == '+' || text[i]
            == '.' || text[i] == 'e'
}

/// What holds of a value that a JSON text denotes: a number is printed as one; a string stands in
/// quotation marks in the text, letter for letter where the text has no escapes; an array or an
/// object stands in brackets.
pub open spec fn fits_json(text: Seq<char>, value: ParamView) -> bool {
    match value {
        ParamView::Number(s) => is_number_text(s),
        ParamView::Text(s) => text.contains('"') && (text.contains('\\') || forall|i: int|
            0 <= i < s.len() ==> text.contains(#[trigger] s[i])),
        ParamView::Nested(_) => text.contains('[') || text.contains('{'),
        _ => true,
    }
}

/// The value that a JSON text denotes; nothing where the text is not JSON. Every value that is
/// parsed fits its text, so none is left out.
pub open spec fn json_value(text: Seq<char>) -> Option<ParamView> {
    match parsed_json(text) {
        Some(value) => if fits_json(text, value) {
            Some(value)
        } else {
            None
        },
        None => None,
    }
}

/// What a parsed value is, where there is one.
pub open spec fn optional_value(value: Option<ParamValue>) -> Option<ParamView> {
    match value {
        Some(v) => Some(v@),
        None => None,
    }
}

/// `serde_json::from_str` into a `serde_json::Value`: the value that the text denotes, a
/// function of the text alone. Which texts are JSON, and what they denote, is left to the
/// name, but for this: a number is printed with the letters of numbers alone; a string comes of a
/// text with a quotation mark, and has the letters of the text where that holds no backslash; an
/// array or an object comes of a text with an opening bracket. Arrays and objects are kept in the
/// form in which `serde_json` prints them.
#[verifier::external_body]
pub(crate) fn json_from_str(text: &str) -> (r: Option<ParamValue>)
    ensures
        optional_value(r) == parsed_json(text@),
        r matches Some(value) ==> fits_json(text@, value@),
{
    serde_json::from_str::<serde_json::Value>(text).ok().map(|value| match value {
        serde_json::Value::Null => ParamValue::Null,
        serde_json::Value::Bool(b) => ParamValue::Bool(b),
        serde_json::Value::Number(n) => ParamValue::Number(n.to_string()),
        serde_json::Value::String(s) => ParamValue::Text(s),
        nested => ParamValue::Nested(nested.to_string()),
    })
}

/// The JSON number next to the decimal notation in `text`, as it is printed; nothing where `text`
/// is not a number or has no finite value.
pub uninterp spec fn printed_number(text: Seq<char>) -> Option<Seq<char>>;

/// The JSON number next to the decimal notation in `text`; nothing where `text` is not a
/// number or has no finite value. Every number is printed as one, so none is left out.
pub open spec fn finite_number(text: Seq<char>) -> Option<Seq<char>> {
    match printed_number(text) {
        Some(s) => if is_number_text(s) {
            Some(s)
        } else {
            None
        },
        None => None,
    }
}

/// `serde_json::Number::from_f64` on the number that `str::parse` reads from `text`, as it is
/// printed: a function of the text alone. Which texts are read as a number, and how it is
/// rounded and printed, is left to the name, but for this: it is printed with digits, signs, a
/// point and the mark of an exponent alone.
#[verifier::external_body]
pub(crate) fn finite_number_text(text: &str) -> (r: Option<String>)
    ensures
        crate::text::optional_text(r) == printed_number(text@),
        r matches Some(s) ==> is_number_text(s@),
{
    text.parse().ok().and_then(serde_json::Number::from_f64).map(|n| n.to_string())
}

/// Two JSON texts denote the same value.
pub uninterp spec fn json_equal(a: Seq<char>, b: Seq<char>) -> bool;

/// `serde_json::Value` compared with `==`: whether two JSON texts denote the same value, a
/// function of the two texts alone. When they do is left to the name.
#[verifier::external_body]
fn json_equal_texts(a: &str, b: &str) -> (r: bool)
    ensures
        r == json_equal(a@, b@),
{
    serde_json::from_str::<serde_json::Value>(a).ok() == serde_json::from_str::<serde_json::Value>(b).ok()
}

/// A zero with a sign or without one, as a number that is no integer is printed.
pub open spec fn is_float_zero(text: Seq<char>) -> bool {
    text == "0.0"@ || text == "-0.0"@
}

/// The two texts, as numbers are printed, are of one number: they are the same, but for the sign
/// of a zero.
pub open spec fn same_number(a: Seq<char>, b: Seq<char>) -> bool {
    a == b || (is_float_zero(a) && is_float_zero(b))
}

/// The two values are the same JSON value.
pub open spec fn same_value(a: ParamView, b: ParamView) -> bool {
    match (a, b) {
        (ParamView::Null, ParamView::Null) => true,
        (ParamView::Bool(x), ParamView::Bool(y)) => x == y,
        (ParamView::Number(x), ParamView::Number(y)) => same_number(x, y),
        (ParamView::Text(x), ParamView::Text(y)) => x == y,
        (ParamView::Nested(x), ParamView::Nested(y)) => json_equal(x, y),
        _ => false,
    }
}

/// Whether the text is a zero with a sign or without one.
fn float_zero(text: &str) -> (r: bool)
    ensures
        r == is_float_zero(text@),
{
    same_text(text, "0.0") || same_text(text, "-0.0")
}

/// Whether the two texts, as numbers are printed, are of one number.
fn same_number_text(a: &str, b: &str) -> (r: bool)
    ensures
        r == same_number(a@, b@),
{
    same_text(a, b) || (float_zero(a) && float_zero(b))
}

/// Whether the two values are the same JSON value.
pub fn same_param_value(a: &ParamValue, b: &ParamValue) -> (r: bool)
    ensures
        r == same_value(a@, b@),
{
    match (a, b) {
        (ParamValue::Null, ParamValue::Null) => true,
        (ParamValue::Bool(x), ParamValue::Bool(y)) => *x == *y,
        (ParamValue::Number(x), ParamValue::Number(y)) => same_number_text(x.as_str(), y.as_str()),
        (ParamValue::Text(x), ParamValue::Text(y)) => same_text(x.as_str(), y.as_str()),
        (ParamValue::Nested(x), ParamValue::Nested(y)) => json_equal_texts(x.as_str(), y.as_str()),
        _ => false,
    }
}

// ---------------------------------------------------------------------------
// Named values
// ---------------------------------------------------------------------------

/// Named values in the order in which their names first came.
pub type Params = Vec<(String, ParamValue)>;

/// What named values hold.
pub open spec fn params_view(params: Seq<(String, ParamValue)>) -> Seq<(Seq<char>, ParamView)> {
    params.map_values(|p: (String, ParamValue)| (p.0@, p.1@))
}

/// No name occurs twice.
pub open spec fn distinct_names<V>(params: Seq<(Seq<char>, V)>) -> bool {
    forall|i: int, j: int| 0 <= i < j < params.len() ==> (#[trigger] params[i]).0 != (#[trigger] params[j]).0
}

/// The name `key` stands at position `k`, and at no position before it.
pub open spec fn named_at<V>(params: Seq<(Seq<char>, V)>, key: Seq<char>, k: int) -> bool {
    &&& 0 <= k < params.len()
    &&& params[k].0 == key
    &&& forall|j: int| 0 <= j < k ==> (#[trigger] params[j]).0 != key
}

/// There is a value named `key`.
pub open spec fn has_name<V>(params: Seq<(Seq<char>, V)>, key: Seq<char>) -> bool {
    exists|k: int| named_at(params, key, k)
}

/// The position of the value named `key`.
pub open spec fn position_of<V>(params: Seq<(Seq<char>, V)>, key: Seq<char>) -> int {
    choose|k: int| named_at(params, key, k)
}

/// The values with `value` under `key`: in place of the one that was there, or behind all.
pub open spec fn with_value<V>(params: Seq<(Seq<char>, V)>, key: Seq<char>, value: V) -> Seq<
    (Seq<char>, V),
> {
    if has_name(params, key) {
        params.update(position_of(params, key), (key, value))
    } else {
        params.push((key, value))
    }
}

/// The first position of a name is the only first one.
pub proof fn lemma_named<V>(params: Seq<(Seq<char>, V)>, key: Seq<char>)
    ensures
        forall|k: int| named_at(params, key, k) ==> has_name(params, key) && position_of(params, key) == k,
        has_name(params, key) ==> named_at(params, key, position_of(params, key)),
        !has_name(params, key) ==> forall|j: int| 0 <= j < params.len() ==> (#[trigger] params[j]).0 != key,
{
    if !has_name(params, key) {
        assert forall|j: int| 0 <= j < params.len() implies (#[trigger] params[j]).0 != key by {
            if params[j].0 == key {
                lemma_first_named(params, key, j);
            }
        }
    }
    assert forall|k: int| named_at(params, key, k) implies position_of(params, key) == k by {
        let p = position_of(params, key);
        assert(named_at(params, key, p));
        if p < k {
            assert(params[p].0 != key);
        }
        if k < p {
            assert(params[k].0 != key);
        }
    }
}

/// A name that occurs has a first position.
proof fn lemma_first_named<V>(params: Seq<(Seq<char>, V)>, key: Seq<char>, j: int)
    requires
        0 <= j < params.len(),
        params[j].0 == key,
    ensures
        has_name(params, key),
    decreases j,
{
    if exists|i: int| 0 <= i < j && (#[trigger] params[i]).0 == key {
        let i = choose|i: int| 0 <= i < j && (#[trigger] params[i]).0 == key;
        lemma_first_named(params, key, i);
    } else {
        assert(named_at(params, key, j));
    }
}

/// Setting a value keeps the names apart.
pub proof fn lemma_with_value_distinct<V>(params: Seq<(Seq<char>, V)>, key: Seq<char>, value: V)
    requires
        distinct_names(params),
    ensures
        distinct_names(with_value(params, key, value)),
        with_value(params, key, value).len() > 0,
{
    lemma_named(params, key);
}

/// The position of the value named `key`.
pub fn find_param(params: &Params, key: &str) -> (r: Option<usize>)
    ensures
        r is Some <==> has_name(params_view(params@), key@),
        r matches Some(i) ==> named_at(params_view(params@), key@, i as int) && i < params@.len()
            && position_of(params_view(params@), key@) == i,
{
    proof {
        lemma_named(params_view(params@), key@);
    }
    let mut i: usize = 0;
    while i < params.len()
        invariant
            i <= params@.len(),
            forall|j: int| 0 <= j < i ==> (#[trigger] params_view(params@)[j]).0 != key@,
            forall|k: int|
                named_at(params_view(params@), key@, k) ==> has_name(params_view(params@), key@)
                    && position_of(params_view(params@), key@) == k,
        decreases params.len() - i,
    {
        assert(params_view(params@)[i as int].0 == params@[i as int].0@);
        if same_text(params[i].0.as_str(), key) {
            assert(named_at(params_view(params@), key@, i as int));
            return Some(i);
        }
        i = i + 1;
    }
    None
}

/// Sets the value named `key`.
pub fn set_param(params: &mut Params, key: String, value: ParamValue)
    ensures
        params_view(final(params)@) == with_value(params_view(old(params)@), key@, value@),
{
    match find_param(&*params, key.as_str()) {
        Some(i) => {
            params.set(i, (key, value));
            assert(params_view(params@) =~= with_value(params_view(old(params)@), key@, value@));
        },
        None => {
            params.push((key, value));
            assert(params_view(params@) =~= with_value(params_view(old(params)@), key@, value@));
        },
    }
}

/// The two hold the same names with the same values, in whatever order.
pub open spec fn same_values(a: Seq<(Seq<char>, ParamView)>, b: Seq<(Seq<char>, ParamView)>) -> bool {
    &&& a.len() == b.len()
    &&& forall|i: int|
        0 <= i < a.len() ==> has_name(b, (#[trigger] a[i]).0) && same_value(
            a[i].1,
            b[position_of(b, a[i].0)].1,
        )
}

/// Whether the two hold the same names with the same values.
pub fn same_params(a: &Params, b: &Params) -> (r: bool)
    ensures
        r == same_values(params_view(a@), params_view(b@)),
{
    if a.len() != b.len() {
        return false;
    }
    let ghost x = params_view(a@);
    let ghost y = params_view(b@);
    let mut i: usize = 0;
    while i < a.len()
        invariant
            x == params_view(a@),
            y == params_view(b@),
            a@.len() == b@.len(),
            i <= a@.len(),
            forall|j: int|
                0 <= j < i ==> has_name(y, (#[trigger] x[j]).0) && same_value(
                    x[j].1,
                    y[position_of(y, x[j].0)].1,
                ),
        decreases a.len() - i,
    {
        assert(x[i as int] == (a@[i as int].0@, a@[i as int].1@));
        match find_param(b, a[i].0.as_str()) {
            Some(k) => {
                assert(y[k as int] == (b@[k as int].0@, b@[k as int].1@));
                if !same_param_value(&a[i].1, &b[k].1) {
                    return false;
                }
            },
            None => {
                return false;
            },
        }
        i = i + 1;
    }
    true
}

// ---------------------------------------------------------------------------
// Printing
// ---------------------------------------------------------------------------

/// A value as JSON without white space.
pub open spec fn value_text(value: ParamView) -> Seq<char> {
    match value {
        ParamView::Null => "null"@,
        ParamView::Bool(b) => if b {
            "true"@
        } else {
            "false"@
        },
        ParamView::Number(s) => s,
        ParamView::Text(s) => json_string(s),
        ParamView::Nested(s) => s,
    }
}

/// A value as JSON without white space.
pub fn value_json(value: &ParamValue) -> (r: String)
    ensures
        r@ == value_text(value@),
{
    match value {
        ParamValue::Null => "null".to_owned(),
        ParamValue::Bool(b) => if *b {
            "true".to_owned()
        } else {
            "false".to_owned()
        },
        ParamValue::Number(s) => s.clone(),
        ParamValue::Text(s) => json_string_text(s.as_str()),
        ParamValue::Nested(s) => s.clone(),
    }
}

/// Each named value as a member of an object, `sep` between the name and the value.
pub open spec fn members_of(params: Seq<(Seq<char>, ParamView)>, sep: Seq<char>) -> Seq<Seq<char>> {
    params.map_values(|p: (Seq<char>, ParamView)| member_text(p.0, sep, value_text(p.1)))
}

/// Named values as a JSON object without white space.
pub open spec fn object_text(params: Seq<(Seq<char>, ParamView)>) -> Seq<char> {
    "{"@ + joined(members_of(params, ":"@), ","@) + "}"@
}

/// Each named value as a member of an object, `sep` between the name and the value.
pub fn member_texts(params: &Params, sep: &str) -> (r: Vec<String>)
    ensures
        texts(r@) == members_of(params_view(params@), sep@),
{
    let mut parts: Vec<String> = Vec::new();
    let mut i: usize = 0;
    while i < params.len()
        invariant
            i <= params@.len(),
            texts(parts@) == members_of(params_view(params@), sep@).take(i as int),
        decreases params.len() - i,
    {
        let name: String = json_string_text(params[i].0.as_str());
        let value: String = value_json(&params[i].1);
        let ghost before = parts@;
        let part: String = name.concat(sep).concat(value.as_str());
        assert(part@ == members_of(params_view(params@), sep@)[i as int]);
        parts.push(part);
        i = i + 1;
        assert(texts(parts@) =~= texts(before).push(part@));
        assert(texts(parts@) =~= members_of(params_view(params@), sep@).take(i as int));
    }
    assert(texts(parts@) =~= members_of(params_view(params@), sep@));
    parts
}

/// Named values as a JSON object without white space.
pub fn object_json(params: &Params) -> (r: String)
    ensures
        r@ == object_text(params_view(params@)),
{
    let parts: Vec<String> = member_texts(params, ":");
    let body: String = join_texts(&parts, ",");
    "{".to_owned().concat(body.as_str()).concat("}")
}

/// JSON without white space, with a space put behind each comma and each colon that does not
/// stand in a string. `quoted` and `escaped` tell where the text begins: in a string, and
/// behind a backslash in it.
pub open spec fn spaced(text: Seq<char>, quoted: bool, escaped: bool) -> Seq<char>
    decreases text.len(),
{
    if text.len() == 0 {
        Seq::empty()
    } else {
        let c = text.first();
        let rest = text.drop_first();
        if quoted {
            seq![c] + spaced(rest, escaped || c != '"', !escaped && c == '\\')
        } else if c == ',' || c == ':' {
            seq![c, ' '] + spaced(rest, false, false)
        } else {
            seq![c] + spaced(rest, c == '"', false)
        }
    }
}

/// JSON without white space, with a space put behind each comma and each colon that does not
/// stand in a string.
pub fn spaced_text(text: &str) -> (r: String)
    ensures
        r@ == spaced(text@, false, false),
{
    let chars: Vec<char> = chars_of(text);
    let mut out: String = String::new();
    let mut quoted: bool = false;
    let mut escaped: bool = false;
    let mut i: usize = 0;
    assert(text@.skip(0) =~= text@);
    while i < chars.len()
        invariant
            chars@ == text@,
            i <= chars@.len(),
            out@ + spaced(text@.skip(i as int), quoted, escaped) == spaced(text@, false, false),
        decreases chars.len() - i,
    {
        let c: char = chars[i];
        let ghost before = out@;
        let ghost rest = text@.skip(i as int);
        assert(rest.drop_first() =~= text@.skip(i + 1));
        out.push(c);
        if quoted {
            quoted = escaped || c != '"';
            escaped = !escaped && c == '\\';
            assert(before + (seq![c] + spaced(rest.drop_first(), quoted, escaped)) =~= out@ + spaced(
                rest.drop_first(),
                quoted,
                escaped,
            ));
        } else if c == ',' || c == ':' {
            out.push(' ');
            escaped = false;
            assert(before + (seq![c, ' '] + spaced(rest.drop_first(), false, false)) =~= out@ + spaced(
                rest.drop_first(),
                false,
                false,
            ));
        } else {
            quoted = c == '"';
            escaped = false;
            assert(before + (seq![c] + spaced(rest.drop_first(), quoted, false)) =~= out@ + spaced(
                rest.drop_first(),
                quoted,
                false,
            ));
        }
        i = i + 1;
    }
    assert(text@.skip(i as int).len() == 0);
    assert(out@ =~= spaced(text@, false, false));
    out
}

/// Named values as a JSON object with the spacing of Python's `json.dumps`: a space behind
/// each comma and each colon.
pub open spec fn python_object_text(params: Seq<(Seq<char>, ParamView)>) -> Seq<char> {
    spaced(object_text(params), false, false)
}

/// Named values as a JSON object with the spacing of Python's `json.dumps`.
pub fn python_json_to_string(params: &Params) -> (r: String)
    ensures
        r@ == python_object_text(params_view(params@)),
{
    let text: String = object_json(params);
    spaced_text(text.as_str())
}

// ---------------------------------------------------------------------------
// Laws
// ---------------------------------------------------------------------------

/// A text in which nothing is spaced out or quoted.
pub open spec fn is_plain(text: Seq<char>) -> bool {
    forall|i: int| 0 <= i < text.len() ==> (#[trigger] text[i]) != ',' && text[i] != ':' && text[i] != '"'
}

/// A plain text is not changed by spacing.
proof fn lemma_spaced_plain(text: Seq<char>, rest: Seq<char>)
    requires
        is_plain(text),
    ensures
        spaced(text + rest, false, false) == text + spaced(rest, false, false),
    decreases text.len(),
{
    if text.len() == 0 {
        assert(text + rest =~= rest);
        assert(text + spaced(rest, false, false) =~= spaced(rest, false, false));
    } else {
        let tail = text.drop_first();
        assert forall|i: int| 0 <= i < tail.len() implies (#[trigger] tail[i]) != ',' && tail[i] != ':'
            && tail[i] != '"' by {
            assert(tail[i] == text[i + 1]);
        }
        lemma_spaced_plain(tail, rest);
        assert((text + rest).drop_first() =~= tail + rest);
        assert((text + rest).first() == text[0]);
        assert(seq![text[0]] + (tail + spaced(rest, false, false)) =~= text + spaced(rest, false, false));
    }
}

/// What stands in a string is not changed by spacing.
proof fn lemma_spaced_escaped(s: Seq<char>, rest: Seq<char>)
    ensures
        spaced(escaped(s) + rest, true, false) == escaped(s) + spaced(rest, true, false),
    decreases s.len(),
{
    if s.len() == 0 {
        assert(escaped(s) + rest =~= rest);
        assert(escaped(s) + spaced(rest, true, false) =~= spaced(rest, true, false));
    } else {
        let c = s.first();
        let tail = escaped(s.drop_first()) + rest;
        lemma_spaced_escaped(s.drop_first(), rest);
        lemma_spaced_char(c, tail);
        assert(escaped(s) + rest =~= escaped_char(c) + tail);
        assert(escaped_char(c) + (escaped(s.drop_first()) + spaced(rest, true, false)) =~= escaped(s)
            + spaced(rest, true, false));
    }
}

/// A character in a string is not changed by spacing.
proof fn lemma_spaced_char(c: char, rest: Seq<char>)
    ensures
        spaced(escaped_char(c) + rest, true, false) == escaped_char(c) + spaced(rest, true, false),
{
    let e = escaped_char(c);
    lemma_spaced_quoted(e[0], e.drop_first() + rest, false);
    assert(e + rest =~= seq![e[0]] + (e.drop_first() + rest));
    if e.len() == 2 {
        lemma_spaced_quoted(e[1], rest, true);
        assert(e.drop_first() + rest =~= seq![e[1]] + rest);
        assert(seq![e[0]] + (seq![e[1]] + spaced(rest, true, false)) =~= e + spaced(rest, true, false));
    } else if e.len() == 6 {
        let d = c as int;
        assert(hex_digit(d / 16) != '"' && hex_digit(d / 16) != '\\');
        assert(hex_digit(d % 16) != '"' && hex_digit(d % 16) != '\\');
        let t5 = seq![e[5]] + rest;
        let t4 = seq![e[4]] + t5;
        let t3 = seq![e[3]] + t4;
        let t2 = seq![e[2]] + t3;
        let t1 = seq![e[1]] + t2;
        assert(e.drop_first() + rest =~= t1);
        lemma_spaced_quoted(e[1], t2, true);
        lemma_spaced_quoted(e[2], t3, false);
        lemma_spaced_quoted(e[3], t4, false);
        lemma_spaced_quoted(e[4], t5, false);
        lemma_spaced_quoted(e[5], rest, false);
        let tail = spaced(rest, true, false);
        assert(seq![e[0]] + (seq![e[1]] + (seq![e[2]] + (seq![e[3]] + (seq![e[4]] + (seq![e[5]] + tail)))))
            =~= e + tail);
    } else {
        assert(e.drop_first() + rest =~= rest);
        assert(e + spaced(rest, true, false) =~= seq![e[0]] + spaced(rest, true, false));
    }
}

/// One character in a string.
proof fn lemma_spaced_quoted(c: char, rest: Seq<char>, after_backslash: bool)
    ensures
        spaced(seq![c] + rest, true, after_backslash) == seq![c] + spaced(
            rest,
            after_backslash || c != '"',
            !after_backslash && c == '\\',
        ),
{
    assert((seq![c] + rest).drop_first() =~= rest);
    assert((seq![c] + rest).first() == c);
}

/// A JSON string is not changed by spacing.
proof fn lemma_spaced_string(s: Seq<char>, rest: Seq<char>)
    ensures
        spaced(json_string(s) + rest, false, false) == json_string(s) + spaced(rest, false, false),
{
    let all = json_string(s) + rest;
    let tail = escaped(s) + (seq!['"'] + rest);
    assert(all.drop_first() =~= tail);
    assert(all.first() == '"');
    lemma_spaced_escaped(s, seq!['"'] + rest);
    lemma_spaced_quoted('"', rest, false);
    assert(seq!['"'] + (escaped(s) + (seq!['"'] + spaced(rest, false, false))) =~= json_string(s) + spaced(
        rest,
        false,
        false,
    ));
}

/// A value that spacing does not change: any but an array or an object.
pub open spec fn is_scalar(value: ParamView) -> bool {
    match value {
        ParamView::Nested(_) => false,
        ParamView::Number(text) => is_plain(text),
        _ => true,
    }
}

/// A scalar value is not changed by spacing.
proof fn lemma_spaced_value(value: ParamView, rest: Seq<char>)
    requires
        is_scalar(value),
    ensures
        spaced(value_text(value) + rest, false, false) == value_text(value) + spaced(rest, false, false),
{
    match value {
        ParamView::Text(s) => lemma_spaced_string(s, rest),
        _ => {
            reveal_strlit("null");
            reveal_strlit("true");
            reveal_strlit("false");
            lemma_spaced_plain(value_text(value), rest);
        },
    }
}

/// One character between values that is spaced out.
proof fn lemma_spaced_mark(c: char, rest: Seq<char>)
    requires
        c == ',' || c == ':',
    ensures
        spaced(seq![c] + rest, false, false) == seq![c, ' '] + spaced(rest, false, false),
{
    assert((seq![c] + rest).drop_first() =~= rest);
    assert((seq![c] + rest).first() == c);
}

/// A member of an object with a space behind its colon.
proof fn lemma_spaced_member(name: Seq<char>, value: ParamView, rest: Seq<char>)
    requires
        is_scalar(value),
    ensures
        spaced(member_text(name, ":"@, value_text(value)) + rest, false, false) == member_text(
            name,
            ": "@,
            value_text(value),
        ) + spaced(rest, false, false),
{
    reveal_strlit(":");
    reveal_strlit(": ");
    let text = value_text(value);
    lemma_spaced_string(name, seq![':'] + (text + rest));
    lemma_spaced_mark(':', text + rest);
    lemma_spaced_value(value, rest);
    assert(member_text(name, ":"@, text) + rest =~= json_string(name) + (seq![':'] + (text + rest)));
    assert(json_string(name) + (seq![':', ' '] + (text + spaced(rest, false, false))) =~= member_text(
        name,
        ": "@,
        text,
    ) + spaced(rest, false, false));
}

/// Members of an object with spaces behind their colons and the commas between them.
proof fn lemma_spaced_members(params: Seq<(Seq<char>, ParamView)>, rest: Seq<char>)
    requires
        forall|i: int| 0 <= i < params.len() ==> is_scalar((#[trigger] params[i]).1),
    ensures
        spaced(joined(members_of(params, ":"@), ","@) + rest, false, false) == joined(
            members_of(params, ": "@),
            ", "@,
        ) + spaced(rest, false, false),
    decreases params.len(),
{
    let tight = members_of(params, ":"@);
    let wide = members_of(params, ": "@);
    if params.len() == 0 {
        assert(joined(tight, ","@) + rest =~= rest);
        assert(joined(wide, ", "@) + spaced(rest, false, false) =~= spaced(rest, false, false));
    } else {
        let last = params.last();
        assert(is_scalar(params[params.len() - 1].1));
        lemma_spaced_member(last.0, last.1, rest);
        if params.len() > 1 {
            let before = params.drop_last();
            assert forall|i: int| 0 <= i < before.len() implies is_scalar((#[trigger] before[i]).1) by {
                assert(is_scalar(params[i].1));
            }
            reveal_strlit(",");
            reveal_strlit(", ");
            let tail = seq![','] + (tight.last() + rest);
            lemma_spaced_members(before, tail);
            lemma_spaced_mark(',', tight.last() + rest);
            assert(tight.drop_last() =~= members_of(before, ":"@));
            assert(wide.drop_last() =~= members_of(before, ": "@));
            assert(joined(tight, ","@) + rest =~= joined(tight.drop_last(), ","@) + tail);
            assert(joined(wide.drop_last(), ", "@) + (seq![',', ' '] + (wide.last() + spaced(
                rest,
                false,
                false,
            ))) =~= joined(wide, ", "@) + spaced(rest, false, false));
        }
    }
}

/// Arguments are printed with the spacing of Python's `json.dumps`: a space behind each colon and
/// each comma between them, and none put into a name or a text.
pub proof fn law_python_spacing(params: Seq<(Seq<char>, ParamView)>)
    requires
        forall|i: int| 0 <= i < params.len() ==> is_scalar((#[trigger] params[i]).1),
    ensures
        python_object_text(params) == "{"@ + joined(members_of(params, ": "@), ", "@) + "}"@,
{
    reveal_strlit("{");
    reveal_strlit("}");
    let tight = joined(members_of(params, ":"@), ","@);
    let wide = joined(members_of(params, ": "@), ", "@);
    lemma_spaced_plain("{"@, tight + "}"@);
    lemma_spaced_members(params, "}"@);
    lemma_spaced_plain("}"@, Seq::empty());
    assert("}"@ + Seq::<char>::empty() =~= "}"@);
    assert(object_text(params) =~= "{"@ + (tight + "}"@));
    assert("{"@ + (wide + "}"@) =~= "{"@ + wide + "}"@);
}

/// Giving a name a value leaves every other name where it is, with its value.
pub proof fn law_names_kept(params: Seq<(Seq<char>, ParamView)>, key: Seq<char>, value: ParamView, i: int)
    requires
        0 <= i < params.len(),
        params[i].0 != key,
    ensures
        with_value(params, key, value)[i] == params[i],
        has_name(with_value(params, key, value), key),
{
    let after = with_value(params, key, value);
    lemma_named(params, key);
    lemma_named(after, key);
    if has_name(params, key) {
        assert(after[position_of(params, key)].0 == key);
    } else {
        assert(after[params.len() as int].0 == key);
    }
}

/// A value is set under its name: in the place of the one that had the name, or behind all where
/// none had it; so the last value of a name is the one that it has.
pub proof fn law_value_set<V>(params: Seq<(Seq<char>, V)>, key: Seq<char>, value: V)
    ensures
        (forall|j: int| 0 <= j < params.len() ==> (#[trigger] params[j]).0 != key) ==> with_value(
            params,
            key,
            value,
        ) == params.push((key, value)),
        forall|i: int|
            0 <= i < params.len() && (#[trigger] params[i]).0 == key && (forall|j: int|
                0 <= j < i ==> (#[trigger] params[j]).0 != key) ==> with_value(params, key, value)
                == params.update(i, (key, value)),
{
    lemma_named(params, key);
    assert forall|i: int|
        0 <= i < params.len() && (#[trigger] params[i]).0 == key && (forall|j: int|
            0 <= j < i ==> (#[trigger] params[j]).0 != key) implies with_value(params, key, value)
        == params.update(i, (key, value)) by {
        assert(named_at(params, key, i));
    }
}

/// Two values are the same JSON value only where they are of one kind; texts where they are the
/// same text, truth values where they are the same, and every value is the same as itself, but for
/// what the comparison of arrays and objects says.
pub proof fn law_same_value(a: ParamView, b: ParamView)
    ensures
        same_value(a, b) ==> (a is Null <==> b is Null) && (a is Bool <==> b is Bool) && (a is Number <==> b
            is Number) && (a is Text <==> b is Text) && (a is Nested <==> b is Nested),
        !(a is Nested) ==> same_value(a, a),
        (a is Null || a is Bool || a is Text) && same_value(a, b) ==> a == b,
        a matches ParamView::Number(x) ==> (b matches ParamView::Number(y) ==> (same_value(a, b) ==> x == y || (
        x.len() <= 4 && y.len() <= 4))),
        same_value(a, b) && !(a is Nested) ==> same_value(b, a),
{
    reveal_strlit("0.0");
    reveal_strlit("-0.0");
}

/// A text with the spaces taken out that do not stand in a string. `quoted` and `behind` tell where
/// the text begins: in a string, and behind a backslash in it.
pub open spec fn squeezed(text: Seq<char>, quoted: bool, behind: bool) -> Seq<char>
    decreases text.len(),
{
    if text.len() == 0 {
        Seq::empty()
    } else {
        let c = text[0];
        let rest = text.skip(1);
        if quoted {
            seq![c] + squeezed(rest, behind || c != '"', !behind && c == '\\')
        } else if c == ' ' {
            squeezed(rest, false, false)
        } else {
            seq![c] + squeezed(rest, c == '"', false)
        }
    }
}

/// Behind each comma and each colon that does not stand in a string, a space stands.
pub open spec fn is_spaced(text: Seq<char>, quoted: bool, behind: bool) -> bool
    decreases text.len(),
{
    if text.len() == 0 {
        true
    } else {
        let c = text[0];
        let rest = text.skip(1);
        if quoted {
            is_spaced(rest, behind || c != '"', !behind && c == '\\')
        } else {
            &&& c == ',' || c == ':' ==> rest.len() > 0 && rest[0] == ' '
            &&& is_spaced(rest, c == '"', false)
        }
    }
}

/// Spacing puts a space behind each comma and each colon outside the strings of a JSON text, of
/// arrays and objects in it too, and changes nothing else: without the spaces outside its strings
/// the text is as before.
pub proof fn law_spacing(text: Seq<char>, quoted: bool, behind: bool)
    ensures
        is_spaced(spaced(text, quoted, behind), quoted, behind),
        squeezed(spaced(text, quoted, behind), quoted, behind) == squeezed(text, quoted, behind),
    decreases text.len(),
{
    if text.len() > 0 {
        let c = text[0];
        let rest = text.skip(1);
        let all = spaced(text, quoted, behind);
        assert(text.drop_first() =~= rest);
        assert(text.first() == c);
        if quoted {
            law_spacing(rest, behind || c != '"', !behind && c == '\\');
            assert(all.skip(1) =~= spaced(rest, behind || c != '"', !behind && c == '\\'));
            assert(all[0] == c);
        } else if c == ',' || c == ':' {
            law_spacing(rest, false, false);
            let tail = spaced(rest, false, false);
            assert(all =~= seq![c, ' '] + tail);
            assert(all[0] == c);
            assert(all.skip(1)[0] == ' ');
            assert(all.skip(1).skip(1) =~= tail);
            assert(squeezed(all.skip(1), false, false) == squeezed(tail, false, false));
            assert(is_spaced(all.skip(1), false, false));
        } else {
            law_spacing(rest, c == '"', false);
            assert(all.skip(1) =~= spaced(rest, c == '"', false));
            assert(all[0] == c);
        }
    }
}

} // verus!
