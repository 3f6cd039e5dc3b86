//! Reading printed arguments back.
//!
//! What a tool call hands over as its arguments is the text of a JSON object. Here stands how
//! such a text is read, member by member, as JSON is defined, and that reading gives back the
//! parameters that were printed.

use vstd::prelude::*;
use vstd::string::*;

#[allow(unused_imports)]
use crate::json::{compact, escaped, escaped_char, json_string, member_text, JsonValue};
#[allow(unused_imports)]
use crate::params::{
    is_number_text, is_plain, is_scalar, law_python_spacing, members_of, object_text, python_object_text,
    value_text, ParamView,
};
#[allow(unused_imports)]
use crate::text::{hex_digit, joined, lemma_joined_concat};

verus! {

// ---------------------------------------------------------------------------
// Strings
// ---------------------------------------------------------------------------

/// The value of a hexadecimal digit.
pub open spec fn hex_value(c: char) -> Option<int> {
    if '0' <= c <= '9' {
        Some(c as int - '0' as int)
    } else if 'a' <= c <= 'f' {
        Some(c as int - 'a' as int + 10)
    } else if 'A' <= c <= 'F' {
        Some(c as int - 'A' as int + 10)
    } else {
        None
    }
}

/// The character that four hexadecimal digits denote; nothing for half of a surrogate pair.
pub open spec fn read_digits(text: Seq<char>) -> Option<char> {
    match (hex_value(text[0]), hex_value(text[1]), hex_value(text[2]), hex_value(text[3])) {
        (Some(a), Some(b), Some(c), Some(d)) => {
            let n = 4096 * a + 256 * b + 16 * c + d;
            if n < 0xd800 || 0xe000 <= n {
                Some((n as u32) as char)
            } else {
                None
            }
        },
        _ => None,
    }
}

/// The character that stands behind a backslash, where it is escaped by one letter.
pub open spec fn read_escape(c: char) -> Option<char> {
    if c == '"' || c == '\\' || c == '/' {
        Some(c)
    } else if c == 'b' {
        Some('\u{8}')
    } else if c == 'f' {
        Some('\u{c}')
    } else if c == 'n' {
        Some('\n')
    } else if c == 'r' {
        Some('\r')
    } else if c == 't' {
        Some('\t')
    } else {
        None
    }
}

/// What stands in a string up to its closing quotation mark, and what stands behind that mark.
pub open spec fn read_string(text: Seq<char>) -> Option<(Seq<char>, Seq<char>)>
    decreases text.len(),
{
    if text.len() == 0 || (text[0] as int) < 0x20 {
        None
    } else if text[0] == '"' {
        Some((Seq::empty(), text.skip(1)))
    } else if text[0] != '\\' {
        match read_string(text.skip(1)) {
            Some((s, rest)) => Some((seq![text[0]] + s, rest)),
            None => None,
        }
    } else if text.len() >= 2 && read_escape(text[1]) is Some {
        match read_string(text.skip(2)) {
            Some((s, rest)) => Some((seq![read_escape(text[1])->0] + s, rest)),
            None => None,
        }
    } else if text.len() >= 6 && text[1] == 'u' && read_digits(text.skip(2)) is Some {
        match read_string(text.skip(6)) {
            Some((s, rest)) => Some((seq![read_digits(text.skip(2))->0] + s, rest)),
            None => None,
        }
    } else {
        None
    }
}

/// A character of a string is read as it was printed.
proof fn lemma_read_char(c: char, s: Seq<char>, more: Seq<char>, rest: Seq<char>)
    requires
        read_string(more) == Some((s, rest)),
    ensures
        read_string(escaped_char(c) + more) == Some((seq![c] + s, rest)),
{
    let e = escaped_char(c);
    let text = e + more;
    if e.len() == 1 {
        assert(text.skip(1) =~= more);
        assert(text[0] == c);
    } else if e.len() == 2 {
        assert(text.skip(2) =~= more);
        assert(text[0] == '\\');
        assert(text[1] == e[1]);
        assert(read_escape(e[1]) == Some(c));
    } else {
        let d = c as int;
        assert(e.len() == 6);
        assert(text.skip(6) =~= more);
        assert(text[0] == '\\' && text[1] == 'u');
        let digits = text.skip(2);
        assert(digits[0] == '0' && digits[1] == '0');
        assert(digits[2] == hex_digit(d / 16));
        assert(digits[3] == hex_digit(d % 16));
        assert(0 <= d < 0x20);
        assert(hex_value(hex_digit(d / 16)) == Some(d / 16));
        assert(hex_value(hex_digit(d % 16)) == Some(d % 16));
        assert(16 * (d / 16) + d % 16 == d);
        assert(read_digits(digits) == Some(c));
        assert(read_escape('u') is None);
    }
}

/// A text printed as a JSON string is read back, whatever characters it holds and whatever stands
/// behind it.
pub proof fn law_string_read_back(s: Seq<char>, rest: Seq<char>)
    ensures
        read_string(escaped(s) + (seq!['"'] + rest)) == Some((s, rest)),
    decreases s.len(),
{
    let end = seq!['"'] + rest;
    if s.len() == 0 {
        assert(escaped(s) + end =~= end);
        assert(end[0] == '"');
        assert(end.skip(1) =~= rest);
        assert(s =~= Seq::empty());
    } else {
        law_string_read_back(s.drop_first(), rest);
        let more = escaped(s.drop_first()) + end;
        lemma_read_char(s.first(), s.drop_first(), more, rest);
        assert(escaped(s) + end =~= escaped_char(s.first()) + more);
        assert(seq![s.first()] + s.drop_first() =~= s);
    }
}

// ---------------------------------------------------------------------------
// Values
// ---------------------------------------------------------------------------

/// A letter that numbers are written with.
pub open spec fn is_number_char(c: char) -> bool {
    '0' <= c <= '9' || c == '-' || c == '+' || c == '.' || c == 'e'
}

/// How many letters of a number the text begins with.
pub open spec fn number_len(text: Seq<char>) -> nat
    decreases text.len(),
{
    if text.len() > 0 && is_number_char(text[0]) {
        1 + number_len(text.skip(1))
    } else {
        0
    }
}

/// Where the brackets that are open close: behind how many characters. `depth` of them are open
/// where the text begins; `quoted` and `behind` tell whether it begins in a string, and there
/// behind a backslash.
pub open spec fn bracket_end(text: Seq<char>, depth: nat, quoted: bool, behind: bool) -> Option<nat>
    decreases text.len(),
{
    if text.len() == 0 {
        None
    } else {
        let c = text[0];
        let more = text.skip(1);
        let found = if quoted {
            bracket_end(more, depth, behind || c != '"', !behind && c == '\\')
        } else if c == '"' {
            bracket_end(more, depth, true, false)
        } else if c == '[' || c == '{' {
            bracket_end(more, depth + 1, false, false)
        } else if (c == ']' || c == '}') && depth <= 1 {
            Some(0nat)
        } else if c == ']' || c == '}' {
            bracket_end(more, (depth - 1) as nat, false, false)
        } else {
            bracket_end(more, depth, false, false)
        };
        match found {
            Some(n) => Some(n + 1),
            None => None,
        }
    }
}

/// The value that the text begins with, and what stands behind it.
pub open spec fn read_value(text: Seq<char>) -> Option<(ParamView, Seq<char>)> {
    if text.len() == 0 {
        None
    } else if text[0] == '"' {
        match read_string(text.skip(1)) {
            Some((s, rest)) => Some((ParamView::Text(s), rest)),
            None => None,
        }
    } else if text[0] == '[' || text[0] == '{' {
        match bracket_end(text, 0, false, false) {
            Some(n) => Some((ParamView::Nested(text.take(n as int)), text.skip(n as int))),
            None => None,
        }
    } else if seq!['t', 'r', 'u', 'e'].is_prefix_of(text) {
        Some((ParamView::Bool(true), text.skip(4)))
    } else if seq!['f', 'a', 'l', 's', 'e'].is_prefix_of(text) {
        Some((ParamView::Bool(false), text.skip(5)))
    } else if seq!['n', 'u', 'l', 'l'].is_prefix_of(text) {
        Some((ParamView::Null, text.skip(4)))
    } else if number_len(text) > 0 {
        Some(
            (
                ParamView::Number(text.take(number_len(text) as int)),
                text.skip(number_len(text) as int),
            ),
        )
    } else {
        None
    }
}

/// A value that is printed as JSON: a number in the letters of numbers; an array or an object with
/// brackets that close at its end. Truth values, null and texts always are.
pub open spec fn is_json(value: ParamView) -> bool {
    match value {
        ParamView::Number(s) => s.len() > 0 && is_number_text(s),
        ParamView::Nested(s) => s.len() > 0 && (s[0] == '[' || s[0] == '{') && bracket_end(
            s,
            0,
            false,
            false,
        ) == Some(s.len()),
        _ => true,
    }
}

/// A number ends where its letters end.
proof fn lemma_number_len(s: Seq<char>, rest: Seq<char>)
    requires
        is_number_text(s),
        rest.len() == 0 || !is_number_char(rest[0]),
    ensures
        number_len(s + rest) == s.len(),
    decreases s.len(),
{
    if s.len() == 0 {
        assert(s + rest =~= rest);
    } else {
        let tail = s.skip(1);
        assert forall|i: int| 0 <= i < tail.len() implies '0' <= #[trigger] tail[i] <= '9' || tail[i] == '-'
            || tail[i] == '+' || tail[i] == '.' || tail[i] == 'e' by {
            assert(tail[i] == s[i + 1]);
        }
        lemma_number_len(tail, rest);
        assert((s + rest).skip(1) =~= tail + rest);
        assert((s + rest)[0] == s[0]);
    }
}

/// What stands behind the closing bracket does not matter.
proof fn lemma_bracket_end(s: Seq<char>, rest: Seq<char>, depth: nat, quoted: bool, behind: bool)
    requires
        bracket_end(s, depth, quoted, behind) is Some,
    ensures
        bracket_end(s + rest, depth, quoted, behind) == bracket_end(s, depth, quoted, behind),
    decreases s.len(),
{
    let c = s[0];
    let more = s.skip(1);
    assert((s + rest).skip(1) =~= more + rest);
    assert((s + rest)[0] == c);
    if quoted {
        lemma_bracket_end(more, rest, depth, behind || c != '"', !behind && c == '\\');
    } else if c == '"' {
        lemma_bracket_end(more, rest, depth, true, false);
    } else if c == '[' || c == '{' {
        lemma_bracket_end(more, rest, depth + 1, false, false);
    } else if (c == ']' || c == '}') && depth <= 1 {
    } else if c == ']' || c == '}' {
        lemma_bracket_end(more, rest, (depth - 1) as nat, false, false);
    } else {
        lemma_bracket_end(more, rest, depth, false, false);
    }
}

/// A printed value is read back, with whatever stands behind it that is no letter of a number.
pub proof fn law_value_read_back(value: ParamView, rest: Seq<char>)
    requires
        is_json(value),
        rest.len() == 0 || !is_number_char(rest[0]),
    ensures
        read_value(value_text(value) + rest) == Some((value, rest)),
{
    let printed = value_text(value);
    let text = printed + rest;
    match value {
        ParamView::Text(s) => {
            law_string_read_back(s, rest);
            assert(text[0] == '"');
            assert(text.skip(1) =~= escaped(s) + (seq!['"'] + rest));
        },
        ParamView::Nested(s) => {
            lemma_bracket_end(s, rest, 0, false, false);
            assert(text[0] == s[0]);
            assert(text.take(s.len() as int) =~= s);
            assert(text.skip(s.len() as int) =~= rest);
        },
        ParamView::Number(s) => {
            lemma_number_len(s, rest);
            assert(text[0] == s[0]);
            assert(is_number_char(s[0]));
            assert(text.take(s.len() as int) =~= s);
            assert(text.skip(s.len() as int) =~= rest);
        },
        ParamView::Bool(b) => {
            reveal_strlit("true");
            reveal_strlit("false");
            if b {
                assert(seq!['t', 'r', 'u', 'e'] =~= "true"@);
                assert(text.take(4) =~= "true"@);
                assert(text.skip(4) =~= rest);
                assert(text[0] == 't');
            } else {
                assert(seq!['f', 'a', 'l', 's', 'e'] =~= "false"@);
                assert(text.take(5) =~= "false"@);
                assert(text.skip(5) =~= rest);
                assert(text[0] == 'f');
            }
        },
        ParamView::Null => {
            reveal_strlit("null");
            assert(seq!['n', 'u', 'l', 'l'] =~= "null"@);
            assert(text.take(4) =~= "null"@);
            assert(text.skip(4) =~= rest);
            assert(text[0] == 'n');
        },
    }
}

/// Distinct values are printed as distinct texts.
pub proof fn law_values_apart(a: ParamView, b: ParamView)
    requires
        is_json(a),
        is_json(b),
        value_text(a) == value_text(b),
    ensures
        a == b,
{
    law_value_read_back(a, Seq::empty());
    law_value_read_back(b, Seq::empty());
}

/// The truth values and null are printed as the JSON words for them.
pub proof fn law_json_words()
    ensures
        value_text(ParamView::Bool(true)) == seq!['t', 'r', 'u', 'e'],
        value_text(ParamView::Bool(false)) == seq!['f', 'a', 'l', 's', 'e'],
        value_text(ParamView::Null) == seq!['n', 'u', 'l', 'l'],
{
    reveal_strlit("true");
    reveal_strlit("false");
    reveal_strlit("null");
    assert("true"@ =~= seq!['t', 'r', 'u', 'e']);
    assert("false"@ =~= seq!['f', 'a', 'l', 's', 'e']);
    assert("null"@ =~= seq!['n', 'u', 'l', 'l']);
}

/// A scalar of a JSON tree is printed so that it is read back: as the value that it is.
pub proof fn law_compact_read_back(value: JsonValue, rest: Seq<char>)
    requires
        rest.len() == 0 || !is_number_char(rest[0]),
    ensures
        value is Null ==> read_value(compact(value) + rest) == Some((ParamView::Null, rest)),
        value matches JsonValue::Bool(b) ==> read_value(compact(value) + rest) == Some(
            (ParamView::Bool(b), rest),
        ),
        value matches JsonValue::Text(s) ==> read_value(compact(value) + rest) == Some(
            (ParamView::Text(s@), rest),
        ),
        value matches JsonValue::Integer(s) ==> (s@.len() > 0 && is_number_text(s@) ==> read_value(
            compact(value) + rest,
        ) == Some((ParamView::Number(s@), rest))),
        value matches JsonValue::Float(s) ==> (s@.len() > 0 && is_number_text(s@) ==> read_value(
            compact(value) + rest,
        ) == Some((ParamView::Number(s@), rest))),
{
    match value {
        JsonValue::Null => law_value_read_back(ParamView::Null, rest),
        JsonValue::Bool(b) => law_value_read_back(ParamView::Bool(b), rest),
        JsonValue::Text(s) => law_value_read_back(ParamView::Text(s@), rest),
        JsonValue::Integer(s) => if s@.len() > 0 && is_number_text(s@) {
            law_value_read_back(ParamView::Number(s@), rest);
        },
        JsonValue::Float(s) => if s@.len() > 0 && is_number_text(s@) {
            law_value_read_back(ParamView::Number(s@), rest);
        },
        _ => {},
    }
}

// ---------------------------------------------------------------------------
// Objects
// ---------------------------------------------------------------------------

/// The text without the white space of JSON that it begins with.
pub open spec fn past_spaces(text: Seq<char>) -> Seq<char>
    decreases text.len(),
{
    if text.len() > 0 && (text[0] == ' ' || text[0] == '\n' || text[0] == '\r' || text[0] == '\t') {
        past_spaces(text.skip(1))
    } else {
        text
    }
}

/// What stands behind the mark `c`, which the text begins with, but for white space before it and
/// behind it.
pub open spec fn past_mark(text: Seq<char>, c: char) -> Option<Seq<char>> {
    let t = past_spaces(text);
    if t.len() > 0 && t[0] == c {
        Some(past_spaces(t.skip(1)))
    } else {
        None
    }
}

/// The name of a member and its value, and what stands behind them.
pub open spec fn read_member(text: Seq<char>) -> Option<((Seq<char>, ParamView), Seq<char>)> {
    if text.len() > 0 && text[0] == '"' {
        match read_string(text.skip(1)) {
            Some((name, rest)) => match past_mark(rest, ':') {
                Some(more) => match read_value(more) {
                    Some((value, behind)) => Some(((name, value), behind)),
                    None => None,
                },
                None => None,
            },
            None => None,
        }
    } else {
        None
    }
}

/// The members of an object up to its closing brace, and what stands behind that.
pub open spec fn read_members(text: Seq<char>) -> Option<(Seq<(Seq<char>, ParamView)>, Seq<char>)>
    decreases text.len(),
{
    match read_member(text) {
        Some((member, rest)) => match past_mark(rest, '}') {
            Some(behind) => Some((seq![member], behind)),
            None => match past_mark(rest, ',') {
                Some(more) => if more.len() < text.len() {
                    match read_members(more) {
                        Some((members, behind)) => Some((seq![member] + members, behind)),
                        None => None,
                    }
                } else {
                    None
                },
                None => None,
            },
        },
        None => None,
    }
}

/// The members of the object that the text is, in their order; nothing where the text is no object
/// of JSON.
pub open spec fn read_object(text: Seq<char>) -> Option<Seq<(Seq<char>, ParamView)>> {
    match past_mark(text, '{') {
        Some(body) => match past_mark(body, '}') {
            Some(behind) => if behind.len() == 0 {
                Some(Seq::empty())
            } else {
                None
            },
            None => match read_members(body) {
                Some((members, behind)) => if behind.len() == 0 {
                    Some(members)
                } else {
                    None
                },
                None => None,
            },
        },
        None => None,
    }
}

/// A mark, with at most a space behind it.
pub open spec fn is_mark(mark: Seq<char>, c: char) -> bool {
    mark == seq![c] || mark == seq![c, ' ']
}

/// A mark is passed where no white space stands behind it but its own.
proof fn lemma_past_mark(mark: Seq<char>, c: char, rest: Seq<char>)
    requires
        is_mark(mark, c),
        c != ' ' && c != '\n' && c != '\r' && c != '\t',
        past_spaces(rest) == rest,
    ensures
        past_mark(mark + rest, c) == Some(rest),
        past_spaces(mark + rest) == mark + rest,
        forall|d: char| d != c ==> #[trigger] past_mark(mark + rest, d) is None,
{
    let text = mark + rest;
    assert(text[0] == c);
    assert(past_spaces(text) == text);
    if mark.len() == 1 {
        assert(text.skip(1) =~= rest);
    } else {
        assert(text.skip(1)[0] == ' ');
        assert(text.skip(1).skip(1) =~= rest);
        assert(past_spaces(text.skip(1)) == past_spaces(rest));
    }
}

/// No printed value begins with white space.
proof fn lemma_value_start(value: ParamView, rest: Seq<char>)
    requires
        is_json(value),
    ensures
        past_spaces(value_text(value) + rest) == value_text(value) + rest,
{
    let text = value_text(value) + rest;
    match value {
        ParamView::Text(s) => {
            assert(text[0] == '"');
        },
        ParamView::Number(s) => {
            assert(text[0] == s[0]);
        },
        ParamView::Nested(s) => {
            assert(text[0] == s[0]);
        },
        _ => {
            reveal_strlit("true");
            reveal_strlit("false");
            reveal_strlit("null");
            assert(text[0] == 't' || text[0] == 'f' || text[0] == 'n');
        },
    }
}

/// A printed member is read back.
proof fn lemma_member_read(name: Seq<char>, value: ParamView, colon: Seq<char>, rest: Seq<char>)
    requires
        is_json(value),
        is_mark(colon, ':'),
        rest.len() > 0 && !is_number_char(rest[0]),
    ensures
        read_member(member_text(name, colon, value_text(value)) + rest) == Some(((name, value), rest)),
        past_spaces(member_text(name, colon, value_text(value)) + rest) == member_text(
            name,
            colon,
            value_text(value),
        ) + rest,
{
    let printed = value_text(value);
    let text = member_text(name, colon, printed) + rest;
    let more = colon + (printed + rest);
    assert(text[0] == '"');
    assert(text.skip(1) =~= escaped(name) + (seq!['"'] + more));
    law_string_read_back(name, more);
    lemma_value_start(value, rest);
    lemma_past_mark(colon, ':', printed + rest);
    law_value_read_back(value, rest);
}

/// Members joined from the first on.
proof fn lemma_joined_first(parts: Seq<Seq<char>>, sep: Seq<char>)
    requires
        parts.len() > 1,
    ensures
        joined(parts, sep) == parts[0] + (sep + joined(parts.drop_first(), sep)),
{
    let one = seq![parts[0]];
    assert(parts =~= one + parts.drop_first());
    lemma_joined_concat(one, parts.drop_first(), sep);
    assert(one.drop_last() =~= Seq::empty());
    assert(joined(one, sep) =~= parts[0]);
    assert(joined(parts, sep) =~= parts[0] + (sep + joined(parts.drop_first(), sep)));
}

/// Printed members are read back.
proof fn lemma_members_read(params: Seq<(Seq<char>, ParamView)>, colon: Seq<char>, comma: Seq<char>)
    requires
        params.len() > 0,
        forall|i: int| 0 <= i < params.len() ==> is_json((#[trigger] params[i]).1),
        is_mark(colon, ':'),
        is_mark(comma, ','),
    ensures
        read_members(joined(members_of(params, colon), comma) + seq!['}']) == Some(
            (params, Seq::<char>::empty()),
        ),
        past_spaces(joined(members_of(params, colon), comma) + seq!['}']) == joined(
            members_of(params, colon),
            comma,
        ) + seq!['}'],
        joined(members_of(params, colon), comma).len() > 0,
        joined(members_of(params, colon), comma)[0] == '"',
    decreases params.len(),
{
    let parts = members_of(params, colon);
    let end = seq!['}'];
    let name = params[0].0;
    let value = params[0].1;
    assert(is_json(value));
    assert(parts[0] == member_text(name, colon, value_text(value)));
    assert(parts[0][0] == '"');
    assert(past_spaces(Seq::<char>::empty()) == Seq::<char>::empty());
    if params.len() == 1 {
        assert(parts.drop_last() =~= Seq::empty());
        assert(joined(parts, comma) =~= parts[0]);
        lemma_member_read(name, value, colon, end);
        lemma_past_mark(end, '}', Seq::empty());
        assert(end + Seq::<char>::empty() =~= end);
        assert(params =~= seq![(name, value)]);
    } else {
        let tail = params.drop_first();
        assert forall|i: int| 0 <= i < tail.len() implies is_json((#[trigger] tail[i]).1) by {
            assert(tail[i] == params[i + 1]);
        }
        lemma_members_read(tail, colon, comma);
        assert(members_of(tail, colon) =~= parts.drop_first());
        let more = joined(parts.drop_first(), comma) + end;
        lemma_joined_first(parts, comma);
        let text = joined(parts, comma) + end;
        assert(text =~= parts[0] + (comma + more));
        let rest = comma + more;
        assert(rest[0] == ',');
        lemma_member_read(name, value, colon, rest);
        lemma_past_mark(comma, ',', more);
        assert(past_mark(rest, '}') is None);
        assert(more.len() < text.len());
        assert(seq![(name, value)] + tail =~= params);
    }
}

/// Printed arguments are read back: the names and the values, in their order, whatever characters
/// the names and the texts hold, without a space behind the colons and the commas or with one.
pub proof fn law_members_read_back(
    params: Seq<(Seq<char>, ParamView)>,
    colon: Seq<char>,
    comma: Seq<char>,
)
    requires
        forall|i: int| 0 <= i < params.len() ==> is_json((#[trigger] params[i]).1),
        is_mark(colon, ':'),
        is_mark(comma, ','),
    ensures
        read_object("{"@ + joined(members_of(params, colon), comma) + "}"@) == Some(params),
{
    reveal_strlit("{");
    reveal_strlit("}");
    let body = joined(members_of(params, colon), comma) + seq!['}'];
    let text = "{"@ + joined(members_of(params, colon), comma) + "}"@;
    assert("{"@ =~= seq!['{']);
    assert("}"@ =~= seq!['}']);
    assert(text =~= "{"@ + body);
    assert(past_spaces(Seq::<char>::empty()) == Seq::<char>::empty());
    if params.len() == 0 {
        assert(members_of(params, colon).len() == 0);
        assert(body =~= seq!['}'] + Seq::<char>::empty());
        lemma_past_mark(seq!['}'], '}', Seq::empty());
        lemma_past_mark("{"@, '{', body);
        assert(params =~= Seq::empty());
    } else {
        lemma_members_read(params, colon, comma);
        lemma_past_mark("{"@, '{', body);
        assert(body[0] == '"');
        assert(past_mark(body, '}') is None);
    }
}

/// The arguments of a call, printed without white space, are read back as its parameters; so
/// distinct parameters are printed as distinct texts.
pub proof fn law_arguments_read_back(params: Seq<(Seq<char>, ParamView)>)
    requires
        forall|i: int| 0 <= i < params.len() ==> is_json((#[trigger] params[i]).1),
    ensures
        read_object(object_text(params)) == Some(params),
{
    reveal_strlit(":");
    reveal_strlit(",");
    assert(":"@ =~= seq![':']);
    assert(","@ =~= seq![',']);
    law_members_read_back(params, ":"@, ","@);
}

/// The arguments of a call, printed with the spacing of Python, are read back as its parameters.
pub proof fn law_python_arguments_read_back(params: Seq<(Seq<char>, ParamView)>)
    requires
        forall|i: int| 0 <= i < params.len() ==> is_json((#[trigger] params[i]).1) && !(params[i].1 is Nested),
    ensures
        read_object(python_object_text(params)) == Some(params),
{
    reveal_strlit(": ");
    reveal_strlit(", ");
    assert(": "@ =~= seq![':', ' ']);
    assert(", "@ =~= seq![',', ' ']);
    assert forall|i: int| 0 <= i < params.len() implies is_scalar((#[trigger] params[i]).1) by {
        assert(is_json(params[i].1));
    }
    law_python_spacing(params);
    law_members_read_back(params, ": "@, ", "@);
}

} // verus!
