//! The tags of the tool-call formats, found with regular expressions.

use vstd::prelude::*;
use vstd::string::*;

#[allow(unused_imports)]
use crate::text::{find, is_white_space, texts};

verus! {

// ---------------------------------------------------------------------------
// The expressions
// ---------------------------------------------------------------------------

/// A whole MiniMax tool-call block.
pub const MINIMAX_BLOCK: &'static str = r"(?s)<minimax:tool_call>.*?</minimax:tool_call>";

/// A whole MiniMax invocation: its name and its body.
pub const MINIMAX_INVOKE: &'static str = r#"(?s)<invoke\s+name="([^"]+)">(.*?)</invoke>"#;

/// A whole MiniMax parameter: its name and its value.
pub const MINIMAX_PARAMETER: &'static str =
    r#"(?s)<parameter\s+name="([^"]+)">(.*?)</parameter>"#;

/// A whole DSML block: its body.
pub const DSML_BLOCK: &'static str = r"(?s)<｜DSML｜function_calls>(.*?)</｜DSML｜function_calls>";

/// A whole DSML invocation: its name and its body.
pub const DSML_INVOKE: &'static str =
    r#"(?s)<｜DSML｜invoke\s+name="([^"]+)"\s*>(.*?)</｜DSML｜invoke>"#;

/// A whole DSML parameter: its name, whether it is a string, and its value.
pub const DSML_PARAMETER: &'static str =
    r#"(?s)<｜DSML｜parameter\s+name="([^"]+)"\s+string="(true|false)"\s*>(.*?)</｜DSML｜parameter>"#;

/// A DSML parameter that runs to the end of the text.
pub const DSML_OPEN_PARAMETER: &'static str =
    r#"(?s)<｜DSML｜parameter\s+name="([^"]+)"\s+string="(true|false)"\s*>(.*)$"#;

/// A DSML invocation, whole or running to the end of the text: its name, its body, and the tag
/// that closes it.
pub const DSML_OPEN_INVOKE: &'static str =
    r#"(?s)<｜DSML｜invoke\s+name="([^"]+)"\s*>(.*?)(</｜DSML｜invoke>|$)"#;

/// One of the expressions above.
pub open spec fn is_tag_pattern(pattern: Seq<char>) -> bool {
    ||| pattern == MINIMAX_BLOCK@
    ||| pattern == MINIMAX_INVOKE@
    ||| pattern == MINIMAX_PARAMETER@
    ||| pattern == DSML_BLOCK@
    ||| pattern == DSML_INVOKE@
    ||| pattern == DSML_PARAMETER@
    ||| pattern == DSML_OPEN_PARAMETER@
    ||| pattern == DSML_OPEN_INVOKE@
}

/// What the expressions match.
#[derive(Debug, Clone, Copy, PartialEq, Eq, Structural)]
pub enum Tag {
    MinimaxBlock,
    MinimaxInvoke,
    MinimaxParameter,
    DsmlBlock,
    DsmlInvoke,
    DsmlParameter,
    DsmlOpenParameter,
    DsmlOpenInvoke,
}

/// A match: the text before it, and what its groups matched. The first group is the whole
/// match; a group that took no part in it is empty.
#[derive(Debug)]
pub struct Found {
    pub before: String,
    pub groups: Vec<String>,
}

/// What a [`Found`] holds.
#[verifier::ext_equal]
pub struct FoundView {
    pub before: Seq<char>,
    pub groups: Seq<Seq<char>>,
}

impl View for Found {
    type V = FoundView;

    open spec fn view(&self) -> FoundView {
        FoundView { before: self.before@, groups: texts(self.groups@) }
    }
}

impl FoundView {
    /// What group `i` matched.
    pub open spec fn group(self, i: int) -> Seq<char> {
        if 0 <= i < self.groups.len() {
            self.groups[i]
        } else {
            Seq::empty()
        }
    }

    /// The position behind the match.
    pub open spec fn end(self) -> int {
        (self.before.len() + self.group(0).len()) as int
    }

    /// The match stands in `text` behind the text before it.
    pub open spec fn stands_in(self, text: Seq<char>) -> bool {
        (self.before + self.group(0)).is_prefix_of(text)
    }
}

impl Found {
    /// What group `i` matched.
    pub fn group(&self, i: usize) -> (r: &str)
        ensures
            r@ == self@.group(i as int),
    {
        if i < self.groups.len() {
            assert(self@.groups[i as int] == self.groups@[i as int]@);
            self.groups[i].as_str()
        } else {
            proof {
                reveal_strlit("");
                assert(""@ =~= Seq::<char>::empty());
            }
            ""
        }
    }
}

/// What matches hold.
pub open spec fn founds_view(founds: Seq<Found>) -> Seq<FoundView> {
    founds.map_values(|f: Found| f@)
}

// ---------------------------------------------------------------------------
// What they match
// ---------------------------------------------------------------------------

/// White space, or nothing.
pub open spec fn is_spaces(s: Seq<char>) -> bool {
    forall|i: int| 0 <= i < s.len() ==> is_white_space(#[trigger] s[i])
}

/// A value that can stand in quotation marks: at least a character, and none of them a mark.
pub open spec fn is_quotable(s: Seq<char>) -> bool {
    s.len() > 0 && forall|i: int| 0 <= i < s.len() ==> #[trigger] s[i] != '"'
}

/// What an opening tag begins with.
pub open spec fn opening(tag: Tag) -> Seq<char> {
    match tag {
        Tag::MinimaxBlock => "<minimax:tool_call>"@,
        Tag::MinimaxInvoke => "<invoke"@,
        Tag::MinimaxParameter => "<parameter"@,
        Tag::DsmlBlock => "<｜DSML｜function_calls>"@,
        Tag::DsmlInvoke | Tag::DsmlOpenInvoke => "<｜DSML｜invoke"@,
        Tag::DsmlParameter | Tag::DsmlOpenParameter => "<｜DSML｜parameter"@,
    }
}

/// The closing tag.
pub open spec fn closing(tag: Tag) -> Seq<char> {
    match tag {
        Tag::MinimaxBlock => "</minimax:tool_call>"@,
        Tag::MinimaxInvoke => "</invoke>"@,
        Tag::MinimaxParameter => "</parameter>"@,
        Tag::DsmlBlock => "</｜DSML｜function_calls>"@,
        Tag::DsmlInvoke | Tag::DsmlOpenInvoke => "</｜DSML｜invoke>"@,
        Tag::DsmlParameter | Tag::DsmlOpenParameter => "</｜DSML｜parameter>"@,
    }
}

/// An opening tag with a name.
pub open spec fn named_head(tag: Tag, space: Seq<char>, name: Seq<char>, last: Seq<char>) -> Seq<char> {
    opening(tag) + (space + ("name=\""@ + (name + ("\""@ + (last + ">"@)))))
}

/// An opening tag with a name and a flag.
pub open spec fn flagged_head(
    tag: Tag,
    space: Seq<char>,
    name: Seq<char>,
    middle: Seq<char>,
    flag: Seq<char>,
    last: Seq<char>,
) -> Seq<char> {
    opening(tag) + (space + ("name=\""@ + (name + ("\""@ + (middle + ("string=\""@ + (flag + ("\""@ + (
    last + ">"@)))))))))
}

/// `head` is an opening tag, and `attributes` are what its attributes hold.
pub open spec fn is_head(tag: Tag, head: Seq<char>, attributes: Seq<Seq<char>>) -> bool {
    match tag {
        Tag::MinimaxBlock | Tag::DsmlBlock => head == opening(tag) && attributes.len() == 0,
        Tag::MinimaxInvoke | Tag::MinimaxParameter => attributes.len() == 1 && is_quotable(attributes[0])
            && exists|space: Seq<char>|
            space.len() > 0 && is_spaces(space) && head == #[trigger] named_head(
                tag,
                space,
                attributes[0],
                Seq::empty(),
            ),
        Tag::DsmlInvoke | Tag::DsmlOpenInvoke => attributes.len() == 1 && is_quotable(attributes[0])
            && exists|space: Seq<char>, last: Seq<char>|
            space.len() > 0 && is_spaces(space) && is_spaces(last) && head == #[trigger] named_head(
                tag,
                space,
                attributes[0],
                last,
            ),
        Tag::DsmlParameter | Tag::DsmlOpenParameter => attributes.len() == 2 && is_quotable(attributes[0])
            && (attributes[1] == "true"@ || attributes[1] == "false"@) && exists|
            space: Seq<char>,
            middle: Seq<char>,
            last: Seq<char>,
        |
            space.len() > 0 && is_spaces(space) && middle.len() > 0 && is_spaces(middle) && is_spaces(last)
                && head == #[trigger] flagged_head(
                tag,
                space,
                attributes[0],
                middle,
                attributes[1],
                last,
            ),
    }
}

/// `close` stands at the beginning of what follows `body` in `rest`, and nowhere before.
pub open spec fn runs_to(rest: Seq<char>, body: Seq<char>, close: Seq<char>) -> bool {
    find(rest, close) == Some(body.len() as int) && body == rest.take(body.len() as int)
}

/// `body` and `end` follow an opening tag in `rest`: the body runs to the first closing tag; where
/// the tag may be open, to the end of the text if none is there, or in any case.
pub open spec fn is_tail(tag: Tag, rest: Seq<char>, body: Seq<char>, end: Seq<char>) -> bool {
    match tag {
        Tag::DsmlOpenParameter => body == rest && end.len() == 0,
        Tag::DsmlOpenInvoke => if find(rest, closing(tag)) is Some {
            runs_to(rest, body, closing(tag)) && end == closing(tag)
        } else {
            body == rest && end.len() == 0
        },
        _ => runs_to(rest, body, closing(tag)) && end == closing(tag),
    }
}

/// The groups of a match: all of it, its attributes, its body and its end, as far as they are
/// groups.
pub open spec fn groups_of(
    tag: Tag,
    head: Seq<char>,
    attributes: Seq<Seq<char>>,
    body: Seq<char>,
    end: Seq<char>,
) -> Seq<Seq<char>> {
    let whole = seq![head + (body + end)];
    match tag {
        Tag::MinimaxBlock => whole,
        Tag::DsmlOpenInvoke => whole + attributes + seq![body, end],
        _ => whole + attributes + seq![body],
    }
}

/// A match with these groups begins where `rest` begins.
#[verifier::opaque]
pub open spec fn matches_here(tag: Tag, rest: Seq<char>, groups: Seq<Seq<char>>) -> bool {
    exists|head: Seq<char>, attributes: Seq<Seq<char>>, body: Seq<char>, end: Seq<char>|
        {
            &&& is_head(tag, head, attributes)
            &&& head.is_prefix_of(rest)
            &&& is_tail(tag, rest.skip(head.len() as int), body, end)
            &&& groups == #[trigger] groups_of(tag, head, attributes, body, end)
        }
}

/// A match with these groups begins at position `at` of `text`.
pub open spec fn match_at(tag: Tag, text: Seq<char>, at: int, groups: Seq<Seq<char>>) -> bool {
    0 <= at <= text.len() && matches_here(tag, text.skip(at), groups)
}

/// `founds` are the matches in `text`: each is one and none overlaps another; they go from left
/// to right; and wherever a match could begin, one of them begins or goes on.
#[verifier::opaque]
pub open spec fn all_matches(tag: Tag, text: Seq<char>, founds: Seq<FoundView>) -> bool {
    &&& forall|i: int|
        0 <= i < founds.len() ==> (#[trigger] founds[i]).before == text.take(
            founds[i].before.len() as int,
        ) && founds[i].before.len() <= text.len() && match_at(
            tag,
            text,
            founds[i].before.len() as int,
            founds[i].groups,
        )
    &&& forall|i: int, j: int|
        0 <= i < j < founds.len() ==> (#[trigger] founds[i]).end() <= (#[trigger] founds[j]).before.len()
    &&& forall|at: int, groups: Seq<Seq<char>>| #[trigger]
        match_at(tag, text, at, groups) ==> exists|i: int|
            0 <= i < founds.len() && (#[trigger] founds[i]).before.len() <= at < founds[i].end()
}

/// The matches in `text`.
#[verifier::opaque]
pub open spec fn tag_matches(tag: Tag, text: Seq<char>) -> Seq<FoundView> {
    choose|founds: Seq<FoundView>| all_matches(tag, text, founds)
}

/// `regex::Regex::captures_iter`: the matches of the expression in the text, each with the text
/// before it and what its groups matched, from left to right and without overlap. The
/// expressions are those of this module; what each of them matches is an opening tag, a body and
/// a closing tag, as [`matches_here`] says of the tag of the same name. An expression that does
/// not compile is left out: these all do.
#[verifier::external_body]
fn captures_iter(pattern: &str, text: &str) -> (r: Vec<Found>)
    requires
        is_tag_pattern(pattern@),
    ensures
        pattern@ == MINIMAX_BLOCK@ ==> all_matches(Tag::MinimaxBlock, text@, founds_view(r@)),
        pattern@ == MINIMAX_INVOKE@ ==> all_matches(Tag::MinimaxInvoke, text@, founds_view(r@)),
        pattern@ == MINIMAX_PARAMETER@ ==> all_matches(Tag::MinimaxParameter, text@, founds_view(r@)),
        pattern@ == DSML_BLOCK@ ==> all_matches(Tag::DsmlBlock, text@, founds_view(r@)),
        pattern@ == DSML_INVOKE@ ==> all_matches(Tag::DsmlInvoke, text@, founds_view(r@)),
        pattern@ == DSML_PARAMETER@ ==> all_matches(Tag::DsmlParameter, text@, founds_view(r@)),
        pattern@ == DSML_OPEN_PARAMETER@ ==> all_matches(
            Tag::DsmlOpenParameter,
            text@,
            founds_view(r@),
        ),
        pattern@ == DSML_OPEN_INVOKE@ ==> all_matches(Tag::DsmlOpenInvoke, text@, founds_view(r@)),
{
    let expression = regex::Regex::new(pattern).unwrap();
    expression.captures_iter(text).map(|c| Found {
        before: text[..c.get_match().start()].to_string(),
        groups: c.iter().map(|g| g.map_or("", |m| m.as_str()).to_string()).collect(),
    }).collect()
}

// ---------------------------------------------------------------------------
// There is one way to match
// ---------------------------------------------------------------------------

/// Two texts that go on alike, the first parts of characters with a property and what follows
/// without it, part at the same place.
proof fn lemma_split(
    p: spec_fn(char) -> bool,
    a: Seq<char>,
    x: Seq<char>,
    b: Seq<char>,
    y: Seq<char>,
)
    requires
        a + x == b + y,
        x.len() > 0 && y.len() > 0,
        !p(x[0]) && !p(y[0]),
        forall|i: int| 0 <= i < a.len() ==> p(#[trigger] a[i]),
        forall|i: int| 0 <= i < b.len() ==> p(#[trigger] b[i]),
    ensures
        a == b,
        x == y,
{
    if a.len() < b.len() {
        assert((a + x)[a.len() as int] == x[0]);
        assert((b + y)[a.len() as int] == b[a.len() as int]);
        assert(p(b[a.len() as int]));
    } else if b.len() < a.len() {
        assert((b + y)[b.len() as int] == y[0]);
        assert((a + x)[b.len() as int] == a[b.len() as int]);
        assert(p(a[b.len() as int]));
    }
    assert(a =~= b) by {
        assert((a + x).take(a.len() as int) =~= a);
        assert((b + y).take(b.len() as int) =~= b);
    }
    assert(x =~= y) by {
        assert((a + x).skip(a.len() as int) =~= x);
        assert((b + y).skip(b.len() as int) =~= y);
    }
}

/// Two texts that go on alike behind the same letters go on alike behind them.
proof fn lemma_same_start(a: Seq<char>, x: Seq<char>, y: Seq<char>)
    requires
        a + x == a + y,
    ensures
        x == y,
{
    assert((a + x).skip(a.len() as int) =~= x);
    assert((a + y).skip(a.len() as int) =~= y);
}

/// The letters between the parts of an opening tag.
proof fn lemma_marks()
    ensures
        "name=\""@.len() > 0 && "name=\""@[0] == 'n',
        "string=\""@.len() > 0 && "string=\""@[0] == 's',
        "\""@.len() == 1 && "\""@[0] == '"',
        ">"@.len() == 1 && ">"@[0] == '>',
        "true"@.len() == 4 && "true"@[0] == 't',
        "false"@.len() == 5 && "false"@[0] == 'f',
        !is_white_space('n') && !is_white_space('s') && !is_white_space('>'),
{
    reveal_strlit("name=\"");
    reveal_strlit("string=\"");
    reveal_strlit("\"");
    reveal_strlit(">");
    reveal_strlit("true");
    reveal_strlit("false");
}

/// The beginnings of two opening tags that go on alike are alike: the white space before the
/// name, and the name.
proof fn lemma_name_unique(
    tag: Tag,
    a_space: Seq<char>,
    a_name: Seq<char>,
    a_rest: Seq<char>,
    b_space: Seq<char>,
    b_name: Seq<char>,
    b_rest: Seq<char>,
)
    requires
        is_spaces(a_space) && is_spaces(b_space),
        is_quotable(a_name) && is_quotable(b_name),
        opening(tag) + (a_space + ("name=\""@ + (a_name + ("\""@ + a_rest)))) == opening(tag) + (b_space
            + ("name=\""@ + (b_name + ("\""@ + b_rest)))),
    ensures
        a_space == b_space,
        a_name == b_name,
        a_rest == b_rest,
{
    lemma_marks();
    let a1 = a_name + ("\""@ + a_rest);
    let b1 = b_name + ("\""@ + b_rest);
    lemma_same_start(opening(tag), a_space + ("name=\""@ + a1), b_space + ("name=\""@ + b1));
    lemma_split(|c: char| is_white_space(c), a_space, "name=\""@ + a1, b_space, "name=\""@ + b1);
    lemma_same_start("name=\""@, a1, b1);
    lemma_split(|c: char| c != '"', a_name, "\""@ + a_rest, b_name, "\""@ + b_rest);
    lemma_same_start("\""@, a_rest, b_rest);
}

/// The ends of two opening tags that go on alike are alike.
proof fn lemma_last_unique(a_last: Seq<char>, a_rest: Seq<char>, b_last: Seq<char>, b_rest: Seq<char>)
    requires
        is_spaces(a_last) && is_spaces(b_last),
        a_last + (">"@ + a_rest) == b_last + (">"@ + b_rest),
    ensures
        a_last == b_last,
        a_rest == b_rest,
{
    lemma_marks();
    lemma_split(|c: char| is_white_space(c), a_last, ">"@ + a_rest, b_last, ">"@ + b_rest);
    lemma_same_start(">"@, a_rest, b_rest);
}

/// An opening tag can be read in one way.
pub proof fn lemma_head_unique(
    tag: Tag,
    rest: Seq<char>,
    a: Seq<char>,
    a_attributes: Seq<Seq<char>>,
    b: Seq<char>,
    b_attributes: Seq<Seq<char>>,
)
    requires
        is_head(tag, a, a_attributes) && a.is_prefix_of(rest),
        is_head(tag, b, b_attributes) && b.is_prefix_of(rest),
    ensures
        a == b,
        a_attributes == b_attributes,
{
    let x = rest.skip(a.len() as int);
    let y = rest.skip(b.len() as int);
    assert(a + x =~= rest);
    assert(b + y =~= rest);
    match tag {
        Tag::MinimaxBlock | Tag::DsmlBlock => {
            assert(a_attributes =~= b_attributes);
        },
        Tag::MinimaxInvoke | Tag::MinimaxParameter => {
            let s = choose|space: Seq<char>|
                space.len() > 0 && is_spaces(space) && a == #[trigger] named_head(
                    tag,
                    space,
                    a_attributes[0],
                    Seq::empty(),
                );
            let t = choose|space: Seq<char>|
                space.len() > 0 && is_spaces(space) && b == #[trigger] named_head(
                    tag,
                    space,
                    b_attributes[0],
                    Seq::empty(),
                );
            lemma_named_unique(tag, s, a_attributes[0], Seq::empty(), x, t, b_attributes[0], Seq::empty(), y);
            assert(a_attributes =~= b_attributes);
        },
        Tag::DsmlInvoke | Tag::DsmlOpenInvoke => {
            let (s, l) = choose|space: Seq<char>, last: Seq<char>|
                space.len() > 0 && is_spaces(space) && is_spaces(last) && a == #[trigger] named_head(
                    tag,
                    space,
                    a_attributes[0],
                    last,
                );
            let (t, m) = choose|space: Seq<char>, last: Seq<char>|
                space.len() > 0 && is_spaces(space) && is_spaces(last) && b == #[trigger] named_head(
                    tag,
                    space,
                    b_attributes[0],
                    last,
                );
            lemma_named_unique(tag, s, a_attributes[0], l, x, t, b_attributes[0], m, y);
            assert(a_attributes =~= b_attributes);
        },
        Tag::DsmlParameter | Tag::DsmlOpenParameter => {
            let (s, k, l) = choose|space: Seq<char>, middle: Seq<char>, last: Seq<char>|
                space.len() > 0 && is_spaces(space) && middle.len() > 0 && is_spaces(middle) && is_spaces(
                    last,
                ) && a == #[trigger] flagged_head(
                    tag,
                    space,
                    a_attributes[0],
                    middle,
                    a_attributes[1],
                    last,
                );
            let (t, n, m) = choose|space: Seq<char>, middle: Seq<char>, last: Seq<char>|
                space.len() > 0 && is_spaces(space) && middle.len() > 0 && is_spaces(middle) && is_spaces(
                    last,
                ) && b == #[trigger] flagged_head(
                    tag,
                    space,
                    b_attributes[0],
                    middle,
                    b_attributes[1],
                    last,
                );
            lemma_flagged_unique(
                tag,
                (s, a_attributes[0], k, a_attributes[1], l),
                x,
                (t, b_attributes[0], n, b_attributes[1], m),
                y,
            );
            assert(a_attributes =~= b_attributes);
        },
    }
}

/// What stands behind an opening tag with a name stands behind the last letter of it.
proof fn lemma_named_behind(tag: Tag, space: Seq<char>, name: Seq<char>, last: Seq<char>, x: Seq<char>)
    ensures
        named_head(tag, space, name, last) + x == opening(tag) + (space + ("name=\""@ + (name + ("\""@ + (
        last + (">"@ + x)))))),
{
    let e = last + ">"@;
    let d = "\""@ + e;
    let c = name + d;
    let b = "name=\""@ + c;
    lemma_assoc(opening(tag), space + b, x);
    lemma_assoc(space, b, x);
    lemma_assoc("name=\""@, c, x);
    lemma_assoc(name, d, x);
    lemma_assoc("\""@, e, x);
    lemma_assoc(last, ">"@, x);
}

/// An opening tag with a name can be read in one way.
proof fn lemma_named_unique(
    tag: Tag,
    a_space: Seq<char>,
    a_name: Seq<char>,
    a_last: Seq<char>,
    x: Seq<char>,
    b_space: Seq<char>,
    b_name: Seq<char>,
    b_last: Seq<char>,
    y: Seq<char>,
)
    requires
        is_spaces(a_space) && is_spaces(b_space) && is_spaces(a_last) && is_spaces(b_last),
        is_quotable(a_name) && is_quotable(b_name),
        named_head(tag, a_space, a_name, a_last) + x == named_head(tag, b_space, b_name, b_last) + y,
    ensures
        a_space == b_space && a_name == b_name && a_last == b_last,
{
    let a_rest = a_last + (">"@ + x);
    let b_rest = b_last + (">"@ + y);
    lemma_named_behind(tag, a_space, a_name, a_last, x);
    lemma_named_behind(tag, b_space, b_name, b_last, y);
    lemma_name_unique(tag, a_space, a_name, a_rest, b_space, b_name, b_rest);
    lemma_last_unique(a_last, x, b_last, y);
}

/// Three texts are put together in the same way from either end.
proof fn lemma_assoc(a: Seq<char>, b: Seq<char>, c: Seq<char>)
    ensures
        (a + b) + c == a + (b + c),
{
    assert((a + b) + c =~= a + (b + c));
}

/// What stands behind the name in an opening tag with a flag, and `x` behind it.
spec fn behind_name(middle: Seq<char>, flag: Seq<char>, last: Seq<char>, x: Seq<char>) -> Seq<char> {
    middle + ("string=\""@ + (flag + ("\""@ + (last + (">"@ + x)))))
}

/// An opening tag with a name and a flag, and `x` behind it.
proof fn lemma_flagged_behind(
    tag: Tag,
    p: (Seq<char>, Seq<char>, Seq<char>, Seq<char>, Seq<char>),
    x: Seq<char>,
)
    ensures
        flagged_head(tag, p.0, p.1, p.2, p.3, p.4) + x == opening(tag) + (p.0 + ("name=\""@ + (p.1 + (
        "\""@ + behind_name(p.2, p.3, p.4, x))))),
{
    let h1 = p.4 + ">"@;
    let h2 = "\""@ + h1;
    let h3 = p.3 + h2;
    let h4 = "string=\""@ + h3;
    let h5 = p.2 + h4;
    let h6 = "\""@ + h5;
    let h7 = p.1 + h6;
    let h8 = "name=\""@ + h7;
    let h9 = p.0 + h8;
    lemma_assoc(opening(tag), h9, x);
    lemma_assoc(p.0, h8, x);
    lemma_assoc("name=\""@, h7, x);
    lemma_assoc(p.1, h6, x);
    lemma_assoc("\""@, h5, x);
    lemma_assoc(p.2, h4, x);
    lemma_assoc("string=\""@, h3, x);
    lemma_assoc(p.3, h2, x);
    lemma_assoc("\""@, h1, x);
    lemma_assoc(p.4, ">"@, x);
}

/// An opening tag with a name and a flag can be read in one way.
proof fn lemma_flagged_unique(
    tag: Tag,
    a: (Seq<char>, Seq<char>, Seq<char>, Seq<char>, Seq<char>),
    x: Seq<char>,
    b: (Seq<char>, Seq<char>, Seq<char>, Seq<char>, Seq<char>),
    y: Seq<char>,
)
    requires
        is_spaces(a.0) && is_spaces(a.2) && is_spaces(a.4),
        is_spaces(b.0) && is_spaces(b.2) && is_spaces(b.4),
        is_quotable(a.1) && is_quotable(b.1),
        a.3 == "true"@ || a.3 == "false"@,
        b.3 == "true"@ || b.3 == "false"@,
        flagged_head(tag, a.0, a.1, a.2, a.3, a.4) + x == flagged_head(tag, b.0, b.1, b.2, b.3, b.4) + y,
    ensures
        a == b,
{
    lemma_flagged_behind(tag, a, x);
    lemma_flagged_behind(tag, b, y);
    lemma_name_unique(
        tag,
        a.0,
        a.1,
        behind_name(a.2, a.3, a.4, x),
        b.0,
        b.1,
        behind_name(b.2, b.3, b.4, y),
    );
    lemma_flag_unique((a.2, a.3, a.4), x, (b.2, b.3, b.4), y);
}

/// What stands behind the name can be read in one way.
proof fn lemma_flag_unique(
    a: (Seq<char>, Seq<char>, Seq<char>),
    x: Seq<char>,
    b: (Seq<char>, Seq<char>, Seq<char>),
    y: Seq<char>,
)
    requires
        is_spaces(a.0) && is_spaces(a.2),
        is_spaces(b.0) && is_spaces(b.2),
        a.1 == "true"@ || a.1 == "false"@,
        b.1 == "true"@ || b.1 == "false"@,
        behind_name(a.0, a.1, a.2, x) == behind_name(b.0, b.1, b.2, y),
    ensures
        a == b,
{
    lemma_marks();
    let a2 = a.2 + (">"@ + x);
    let b2 = b.2 + (">"@ + y);
    let a1 = a.1 + ("\""@ + a2);
    let b1 = b.1 + ("\""@ + b2);
    lemma_split(|c: char| is_white_space(c), a.0, "string=\""@ + a1, b.0, "string=\""@ + b1);
    lemma_same_start("string=\""@, a1, b1);
    assert(a.1[0] == a1[0] && b.1[0] == b1[0]);
    lemma_same_start(a.1, "\""@ + a2, "\""@ + b2);
    lemma_same_start("\""@, a2, b2);
    lemma_last_unique(a.2, x, b.2, y);
}

/// There is at most one match at a place.
pub proof fn lemma_match_unique(tag: Tag, rest: Seq<char>, a: Seq<Seq<char>>, b: Seq<Seq<char>>)
    requires
        matches_here(tag, rest, a),
        matches_here(tag, rest, b),
    ensures
        a == b,
{
    reveal(matches_here);
    let (h, at, body, end) = choose|
        head: Seq<char>,
        attributes: Seq<Seq<char>>,
        body: Seq<char>,
        end: Seq<char>,
    |
        {
            &&& is_head(tag, head, attributes)
            &&& head.is_prefix_of(rest)
            &&& is_tail(tag, rest.skip(head.len() as int), body, end)
            &&& a == #[trigger] groups_of(tag, head, attributes, body, end)
        };
    let (h2, at2, body2, end2) = choose|
        head: Seq<char>,
        attributes: Seq<Seq<char>>,
        body: Seq<char>,
        end: Seq<char>,
    |
        {
            &&& is_head(tag, head, attributes)
            &&& head.is_prefix_of(rest)
            &&& is_tail(tag, rest.skip(head.len() as int), body, end)
            &&& b == #[trigger] groups_of(tag, head, attributes, body, end)
        };
    lemma_head_unique(tag, rest, h, at, h2, at2);
    assert(end =~= end2);
    assert(body =~= body2);
}

/// A match is not empty, and stands where it is found.
pub proof fn lemma_match_stands(tag: Tag, rest: Seq<char>, groups: Seq<Seq<char>>)
    requires
        matches_here(tag, rest, groups),
    ensures
        groups.len() > 0,
        groups[0].is_prefix_of(rest),
        opening(tag).is_prefix_of(groups[0]),
        opening(tag).len() > 0,
        groups[0].len() > 0,
{
    reveal(matches_here);
    let (h, at, body, end) = choose|
        head: Seq<char>,
        attributes: Seq<Seq<char>>,
        body: Seq<char>,
        end: Seq<char>,
    |
        {
            &&& is_head(tag, head, attributes)
            &&& head.is_prefix_of(rest)
            &&& is_tail(tag, rest.skip(head.len() as int), body, end)
            &&& groups == #[trigger] groups_of(tag, head, attributes, body, end)
        };
    let tail = rest.skip(h.len() as int);
    lemma_opening(tag);
    crate::text::lemma_find(tail, closing(tag));
    assert(groups[0] == h + (body + end));
    assert((body + end).is_prefix_of(tail)) by {
        if end.len() > 0 {
            let n = body.len() as int;
            assert(tail.subrange(n, n + closing(tag).len()) == closing(tag));
            assert(body + end =~= tail.take(n + end.len()));
        } else {
            assert(body + end =~= tail);
        }
    }
    assert(h + (body + end) =~= rest.take((h.len() + (body + end).len()) as int)) by {
        let n = (body + end).len() as int;
        assert(h =~= rest.take(h.len() as int));
        assert(tail.take(n) =~= rest.subrange(h.len() as int, h.len() + n));
    }
    assert(opening(tag).is_prefix_of(h));
}

/// Every tag begins with an angle bracket.
pub proof fn lemma_opening(tag: Tag)
    ensures
        opening(tag).len() > 0,
        opening(tag)[0] == '<',
        closing(tag).len() > 0,
{
    reveal_strlit("</minimax:tool_call>");
    reveal_strlit("</invoke>");
    reveal_strlit("</parameter>");
    reveal_strlit("</｜DSML｜function_calls>");
    reveal_strlit("</｜DSML｜invoke>");
    reveal_strlit("</｜DSML｜parameter>");
    reveal_strlit("<minimax:tool_call>");
    reveal_strlit("<invoke");
    reveal_strlit("<parameter");
    reveal_strlit("<｜DSML｜function_calls>");
    reveal_strlit("<｜DSML｜invoke");
    reveal_strlit("<｜DSML｜parameter");
}

/// Matches that are all there are begin at the same places, one by one.
proof fn lemma_same_place(
    tag: Tag,
    text: Seq<char>,
    a: Seq<FoundView>,
    b: Seq<FoundView>,
    n: int,
)
    requires
        all_matches(tag, text, a),
        all_matches(tag, text, b),
        0 <= n < a.len(),
        n <= b.len(),
        forall|i: int| 0 <= i < n ==> #[trigger] a[i] == b[i],
    ensures
        n < b.len(),
        b[n].before.len() <= a[n].before.len(),
{
    reveal(all_matches);
    let at = a[n].before.len() as int;
    assert(match_at(tag, text, at, a[n].groups));
    let i = choose|i: int| 0 <= i < b.len() && (#[trigger] b[i]).before.len() <= at < b[i].end();
    if i < n {
        assert(a[i] == b[i]);
        assert(a[i].end() <= a[n].before.len());
    } else if i > n {
        assert(b[n].end() <= b[i].before.len());
    }
}

/// A match among all of them.
proof fn lemma_found(tag: Tag, text: Seq<char>, founds: Seq<FoundView>, i: int)
    requires
        all_matches(tag, text, founds),
        0 <= i < founds.len(),
    ensures
        founds[i].before.len() <= text.len(),
        founds[i].before == text.take(founds[i].before.len() as int),
        matches_here(tag, text.skip(founds[i].before.len() as int), founds[i].groups),
{
    reveal(all_matches);
    assert(match_at(tag, text, founds[i].before.len() as int, founds[i].groups));
}

/// There is one row of all matches.
pub proof fn lemma_all_matches_unique(tag: Tag, text: Seq<char>, a: Seq<FoundView>, b: Seq<FoundView>, n: int)
    requires
        all_matches(tag, text, a),
        all_matches(tag, text, b),
        0 <= n <= a.len(),
        n <= b.len(),
        forall|i: int| 0 <= i < n ==> #[trigger] a[i] == b[i],
    ensures
        a == b,
    decreases a.len() - n,
{
    if n < a.len() {
        lemma_same_place(tag, text, a, b, n);
        lemma_same_place(tag, text, b, a, n);
        lemma_found(tag, text, a, n);
        lemma_found(tag, text, b, n);
        let at = a[n].before.len() as int;
        lemma_match_unique(tag, text.skip(at), a[n].groups, b[n].groups);
        assert(a[n] =~= b[n]);
        lemma_all_matches_unique(tag, text, a, b, n + 1);
    } else if n < b.len() {
        lemma_same_place(tag, text, b, a, n);
    } else {
        assert(a =~= b);
    }
}

/// What all matches are is what the matches are.
pub proof fn lemma_tag_matches(tag: Tag, text: Seq<char>, founds: Seq<FoundView>)
    requires
        all_matches(tag, text, founds),
    ensures
        tag_matches(tag, text) == founds,
{
    reveal(tag_matches);
    lemma_all_matches_unique(tag, text, tag_matches(tag, text), founds, 0);
}

/// The matches in a text.
pub fn find_tags(tag: Tag, text: &str) -> (r: Vec<Found>)
    ensures
        founds_view(r@) == tag_matches(tag, text@),
        all_matches(tag, text@, founds_view(r@)),
        forall|i: int|
            0 <= i < r@.len() ==> (#[trigger] r@[i])@.stands_in(text@) && opening(tag).is_prefix_of(
                r@[i]@.group(0),
            ),
{
    let founds: Vec<Found> = match tag {
        Tag::MinimaxBlock => captures_iter(MINIMAX_BLOCK, text),
        Tag::MinimaxInvoke => captures_iter(MINIMAX_INVOKE, text),
        Tag::MinimaxParameter => captures_iter(MINIMAX_PARAMETER, text),
        Tag::DsmlBlock => captures_iter(DSML_BLOCK, text),
        Tag::DsmlInvoke => captures_iter(DSML_INVOKE, text),
        Tag::DsmlParameter => captures_iter(DSML_PARAMETER, text),
        Tag::DsmlOpenParameter => captures_iter(DSML_OPEN_PARAMETER, text),
        Tag::DsmlOpenInvoke => captures_iter(DSML_OPEN_INVOKE, text),
    };
    proof {
        let all = founds_view(founds@);
        lemma_tag_matches(tag, text@, all);
        assert forall|i: int| 0 <= i < founds@.len() implies (#[trigger] founds@[i])@.stands_in(text@)
            && opening(tag).is_prefix_of(founds@[i]@.group(0)) by {
            let f = all[i];
            let at = f.before.len() as int;
            assert(f == founds@[i]@);
            lemma_found(tag, text@, all, i);
            lemma_match_stands(tag, text@.skip(at), f.groups);
            assert(f.group(0) == f.groups[0]);
            assert(f.before + f.group(0) =~= text@.take(f.end())) by {
                assert(f.group(0) =~= text@.skip(at).take(f.group(0).len() as int));
            }
        }
    }
    founds
}

// ---------------------------------------------------------------------------
// Rows of matches
// ---------------------------------------------------------------------------

/// As [`all_matches`], from position `from` on.
pub open spec fn matches_from(tag: Tag, text: Seq<char>, from: int, founds: Seq<FoundView>) -> bool {
    &&& forall|i: int|
        0 <= i < founds.len() ==> from <= (#[trigger] founds[i]).before.len() <= text.len()
            && founds[i].before == text.take(founds[i].before.len() as int) && match_at(
            tag,
            text,
            founds[i].before.len() as int,
            founds[i].groups,
        )
    &&& forall|i: int, j: int|
        0 <= i < j < founds.len() ==> (#[trigger] founds[i]).end() <= (#[trigger] founds[j]).before.len()
    &&& forall|at: int, groups: Seq<Seq<char>>|
        from <= at && #[trigger] match_at(tag, text, at, groups) ==> exists|i: int|
            0 <= i < founds.len() && (#[trigger] founds[i]).before.len() <= at < founds[i].end()
}

/// No match begins in `text` at a position from `from` on and before `to`.
pub open spec fn is_quiet(tag: Tag, text: Seq<char>, from: int, to: int) -> bool {
    forall|at: int| from <= at < to ==> !opening(tag).is_prefix_of(#[trigger] text.skip(at))
}

/// The matches behind a part in which none begins are those from that part on.
pub proof fn lemma_matches_behind(tag: Tag, text: Seq<char>, from: int, to: int, founds: Seq<FoundView>)
    requires
        0 <= from <= to,
        is_quiet(tag, text, from, to),
        matches_from(tag, text, to, founds),
    ensures
        matches_from(tag, text, from, founds),
{
    assert forall|at: int, groups: Seq<Seq<char>>|
        from <= at && #[trigger] match_at(tag, text, at, groups) implies exists|i: int|
        0 <= i < founds.len() && (#[trigger] founds[i]).before.len() <= at < founds[i].end() by {
        if at < to {
            lemma_match_stands(tag, text.skip(at), groups);
            assert(opening(tag).is_prefix_of(text.skip(at))) by {
                assert(opening(tag) =~= text.skip(at).take(opening(tag).len() as int));
            }
        }
    }
}

/// A match, and the matches behind it, are those from the match on.
pub proof fn lemma_match_first(
    tag: Tag,
    text: Seq<char>,
    from: int,
    groups: Seq<Seq<char>>,
    founds: Seq<FoundView>,
)
    requires
        match_at(tag, text, from, groups),
        matches_from(tag, text, from + groups[0].len(), founds),
    ensures
        matches_from(
            tag,
            text,
            from,
            seq![FoundView { before: text.take(from), groups }] + founds,
        ),
{
    let first = FoundView { before: text.take(from), groups };
    let all = seq![first] + founds;
    lemma_match_stands(tag, text.skip(from), groups);
    assert(first.group(0) == groups[0]);
    assert(first.end() == from + groups[0].len());
    assert forall|i: int| 0 <= i < all.len() implies from <= (#[trigger] all[i]).before.len() <= text.len()
        && all[i].before == text.take(all[i].before.len() as int) && match_at(
        tag,
        text,
        all[i].before.len() as int,
        all[i].groups,
    ) by {
        if i > 0 {
            assert(all[i] == founds[i - 1]);
        }
    }
    assert forall|i: int, j: int| 0 <= i < j < all.len() implies (#[trigger] all[i]).end() <= (
    #[trigger] all[j]).before.len() by {
        assert(all[j] == founds[j - 1]);
        if i > 0 {
            assert(all[i] == founds[i - 1]);
            assert(founds[i - 1].end() <= founds[j - 1].before.len());
        }
    }
    assert forall|at: int, g: Seq<Seq<char>>| from <= at && #[trigger] match_at(tag, text, at, g) implies exists|
        i: int,
    | 0 <= i < all.len() && (#[trigger] all[i]).before.len() <= at < all[i].end() by {
        if at < first.end() {
            assert(all[0] == first);
        } else {
            let i = choose|i: int|
                0 <= i < founds.len() && (#[trigger] founds[i]).before.len() <= at < founds[i].end();
            assert(all[i + 1] == founds[i]);
        }
    }
}

/// There are matches from every position on.
pub proof fn lemma_matches_exist(tag: Tag, text: Seq<char>, from: int) -> (founds: Seq<FoundView>)
    requires
        0 <= from <= text.len(),
    ensures
        matches_from(tag, text, from, founds),
    decreases text.len() - from,
{
    if exists|groups: Seq<Seq<char>>| match_at(tag, text, from, groups) {
        let groups = choose|groups: Seq<Seq<char>>| match_at(tag, text, from, groups);
        lemma_match_stands(tag, text.skip(from), groups);
        let rest = lemma_matches_exist(tag, text, from + groups[0].len());
        lemma_match_first(tag, text, from, groups, rest);
        seq![FoundView { before: text.take(from), groups }] + rest
    } else if from < text.len() {
        let rest = lemma_matches_exist(tag, text, from + 1);
        assert forall|at: int, groups: Seq<Seq<char>>|
            from <= at && #[trigger] match_at(tag, text, at, groups) implies from + 1 <= at by {}
        rest
    } else {
        Seq::empty()
    }
}

/// Every text has its matches, and has them in one way.
pub proof fn law_matches(tag: Tag, text: Seq<char>, founds: Seq<FoundView>)
    ensures
        all_matches(tag, text, tag_matches(tag, text)),
        all_matches(tag, text, founds) ==> founds == tag_matches(tag, text),
{
    let all = lemma_matches_exist(tag, text, 0);
    lemma_matches_all(tag, text, all);
    if all_matches(tag, text, founds) {
        lemma_tag_matches(tag, text, founds);
    }
}

/// Where nothing begins to the end of the text, there are no matches.
pub proof fn lemma_no_matches(tag: Tag, text: Seq<char>, from: int)
    requires
        0 <= from,
        is_quiet(tag, text, from, text.len() as int),
    ensures
        matches_from(tag, text, from, Seq::empty()),
{
    assert forall|at: int, groups: Seq<Seq<char>>| from <= at implies !#[trigger] match_at(tag, text, at, groups) by {
        if match_at(tag, text, at, groups) {
            lemma_match_stands(tag, text.skip(at), groups);
            assert(opening(tag).is_prefix_of(text.skip(at))) by {
                assert(opening(tag) =~= text.skip(at).take(opening(tag).len() as int));
            }
        }
    }
}

/// The matches from the beginning on are all.
pub proof fn lemma_matches_all(tag: Tag, text: Seq<char>, founds: Seq<FoundView>)
    requires
        matches_from(tag, text, 0, founds),
    ensures
        all_matches(tag, text, founds),
        tag_matches(tag, text) == founds,
{
    assert(all_matches(tag, text, founds)) by {
        reveal(all_matches);
    }
    lemma_tag_matches(tag, text, founds);
}

/// Pieces in a row, each followed by `gap`, and `tail` behind them.
pub open spec fn row(pieces: Seq<Seq<char>>, gap: Seq<char>, tail: Seq<char>) -> Seq<char>
    decreases pieces.len(),
{
    if pieces.len() == 0 {
        tail
    } else {
        pieces[0] + (gap + row(pieces.drop_first(), gap, tail))
    }
}

/// The matches of pieces in a row behind `before`.
pub open spec fn row_founds(before: Seq<char>, groups: Seq<Seq<Seq<char>>>, gap: Seq<char>) -> Seq<FoundView>
    decreases groups.len(),
{
    if groups.len() == 0 {
        Seq::empty()
    } else {
        seq![FoundView { before, groups: groups[0] }] + row_founds(
            before + groups[0][0] + gap,
            groups.drop_first(),
            gap,
        )
    }
}

/// The piece is a match with these groups, whatever follows it.
pub open spec fn is_piece(tag: Tag, piece: Seq<char>, groups: Seq<Seq<char>>) -> bool {
    groups.len() > 0 && groups[0] == piece && forall|rest: Seq<char>| #[trigger]
        matches_here(tag, piece + rest, groups)
}

/// Nothing begins in white space.
pub proof fn lemma_spaces_quiet(tag: Tag, before: Seq<char>, gap: Seq<char>, after: Seq<char>)
    requires
        is_spaces(gap),
    ensures
        is_quiet(
            tag,
            before + gap + after,
            before.len() as int,
            (before.len() + gap.len()) as int,
        ),
{
    let text = before + gap + after;
    lemma_opening(tag);
    assert forall|at: int| before.len() <= at < before.len() + gap.len() implies !opening(tag).is_prefix_of(
        #[trigger] text.skip(at),
    ) by {
        assert(text.skip(at)[0] == gap[at - before.len()]);
        assert(!is_white_space('<'));
    }
}

/// The matches of pieces in a row, with white space between them, are the pieces.
pub proof fn lemma_row_matches(
    tag: Tag,
    before: Seq<char>,
    pieces: Seq<Seq<char>>,
    groups: Seq<Seq<Seq<char>>>,
    gap: Seq<char>,
    tail: Seq<char>,
)
    requires
        is_spaces(gap),
        pieces.len() == groups.len(),
        forall|i: int| 0 <= i < pieces.len() ==> is_piece(tag, #[trigger] pieces[i], groups[i]),
        is_quiet(
            tag,
            before + row(pieces, gap, tail),
            before.len() + row(pieces, gap, tail).len() - tail.len(),
            (before.len() + row(pieces, gap, tail).len()) as int,
        ),
    ensures
        matches_from(
            tag,
            before + row(pieces, gap, tail),
            before.len() as int,
            row_founds(before, groups, gap),
        ),
    decreases pieces.len(),
{
    let text = before + row(pieces, gap, tail);
    if pieces.len() == 0 {
        lemma_no_matches(tag, text, before.len() as int);
    } else {
        let piece = pieces[0];
        let rest = row(pieces.drop_first(), gap, tail);
        let next = before + piece + gap;
        assert(next + rest =~= text);
        assert forall|i: int| 0 <= i < pieces.drop_first().len() implies is_piece(
            tag,
            #[trigger] pieces.drop_first()[i],
            groups.drop_first()[i],
        ) by {
            assert(is_piece(tag, pieces[i + 1], groups[i + 1]));
        }
        lemma_row_matches(tag, next, pieces.drop_first(), groups.drop_first(), gap, tail);
        let founds = row_founds(next, groups.drop_first(), gap);
        let behind = (before.len() + piece.len()) as int;
        lemma_spaces_quiet(tag, before + piece, gap, rest);
        assert(before + piece + gap + rest =~= text);
        lemma_matches_behind(tag, text, behind, next.len() as int, founds);
        assert(is_piece(tag, pieces[0], groups[0]));
        assert(matches_here(tag, piece + (gap + rest), groups[0]));
        assert(text.skip(before.len() as int) =~= piece + (gap + rest));
        assert(match_at(tag, text, before.len() as int, groups[0]));
        lemma_match_first(tag, text, before.len() as int, groups[0], founds);
        assert(text.take(before.len() as int) =~= before);
    }
}

/// What the matches of pieces in a row hold.
pub proof fn lemma_row_founds(before: Seq<char>, groups: Seq<Seq<Seq<char>>>, gap: Seq<char>)
    ensures
        row_founds(before, groups, gap).len() == groups.len(),
        forall|i: int| 0 <= i < groups.len() ==> (#[trigger] row_founds(before, groups, gap)[i]).groups
            == groups[i],
    decreases groups.len(),
{
    if groups.len() > 0 {
        let next = before + groups[0][0] + gap;
        lemma_row_founds(next, groups.drop_first(), gap);
        assert forall|i: int| 0 <= i < groups.len() implies (#[trigger] row_founds(before, groups, gap)[i]).groups
            == groups[i] by {
            if i > 0 {
                assert(row_founds(before, groups, gap)[i] == row_founds(next, groups.drop_first(), gap)[i
                    - 1]);
                assert(groups.drop_first()[i - 1] == groups[i]);
            }
        }
    }
}

/// The body does not hold the closing tag, nor make one with the beginning of it: the tag behind
/// the body is the first.
pub open spec fn closes_first(body: Seq<char>, close: Seq<char>) -> bool {
    find(body + close, close) == Some(body.len() as int)
}

/// The tag behind such a body is the first, whatever follows it.
pub proof fn lemma_closes_first(body: Seq<char>, close: Seq<char>, rest: Seq<char>)
    requires
        closes_first(body, close),
    ensures
        runs_to(body + (close + rest), body, close),
{
    let short = body + close;
    let long = body + (close + rest);
    let n = body.len() as int;
    crate::text::lemma_find(short, close);
    crate::text::lemma_find(long, close);
    assert(long.subrange(n, n + close.len()) =~= close);
    assert forall|j: int| 0 <= j < n implies !crate::text::occurs_at(long, close, j) by {
        if crate::text::occurs_at(long, close, j) {
            assert(short.subrange(j, j + close.len()) =~= long.subrange(j, j + close.len()));
            assert(crate::text::occurs_at(short, close, j));
        }
    }
    assert(crate::text::first_at(long, close, n));
    assert(body =~= long.take(n));
}

/// A tag that is opened and closed is a match, whatever follows it.
pub proof fn lemma_closed_piece(tag: Tag, head: Seq<char>, attributes: Seq<Seq<char>>, body: Seq<char>)
    requires
        !(tag is DsmlOpenParameter),
        is_head(tag, head, attributes),
        closes_first(body, closing(tag)),
    ensures
        is_piece(
            tag,
            head + (body + closing(tag)),
            groups_of(tag, head, attributes, body, closing(tag)),
        ),
{
    let close = closing(tag);
    let piece = head + (body + close);
    let groups = groups_of(tag, head, attributes, body, close);
    assert forall|rest: Seq<char>| #[trigger] matches_here(tag, piece + rest, groups) by {
        reveal(matches_here);
        let text = piece + rest;
        lemma_closes_first(body, close, rest);
        assert(text.skip(head.len() as int) =~= body + (close + rest));
        assert(head =~= text.take(head.len() as int));
        assert(is_tail(tag, text.skip(head.len() as int), body, close));
    }
}

// ---------------------------------------------------------------------------
// Laws
// ---------------------------------------------------------------------------

/// A tag at the beginning of a text, closed by the first closing tag behind it, is the first
/// match.
proof fn lemma_tag_first(tag: Tag, head: Seq<char>, attributes: Seq<Seq<char>>, body: Seq<char>, rest: Seq<char>)
    requires
        !(tag is DsmlOpenParameter),
        is_head(tag, head, attributes),
        closes_first(body, closing(tag)),
    ensures
        ({
            let founds = tag_matches(tag, head + (body + closing(tag)) + rest);
            &&& founds.len() > 0
            &&& founds[0].before.len() == 0
            &&& founds[0].groups == groups_of(tag, head, attributes, body, closing(tag))
        }),
{
    let piece = head + (body + closing(tag));
    let text = piece + rest;
    let groups = groups_of(tag, head, attributes, body, closing(tag));
    lemma_closed_piece(tag, head, attributes, body);
    assert(text.skip(0) =~= text);
    assert(matches_here(tag, piece + rest, groups));
    assert(match_at(tag, text, 0, groups));
    let others = lemma_matches_exist(tag, text, piece.len() as int);
    lemma_match_first(tag, text, 0, groups, others);
    let founds = seq![FoundView { before: text.take(0), groups }] + others;
    lemma_matches_all(tag, text, founds);
    assert(founds[0].groups == groups);
}

/// The opening tag of an invocation or of a parameter of MiniMax M2 may have any white space
/// before its name; its name is what stands in the quotation marks, and its body all that stands
/// before the first closing tag.
pub proof fn law_minimax_tags(
    tag: Tag,
    space: Seq<char>,
    name: Seq<char>,
    body: Seq<char>,
    rest: Seq<char>,
)
    requires
        tag is MinimaxInvoke || tag is MinimaxParameter,
        space.len() > 0 && is_spaces(space),
        is_quotable(name),
        closes_first(body, closing(tag)),
    ensures
        ({
            let head = opening(tag) + (space + ("name=\""@ + (name + "\">"@)));
            let founds = tag_matches(tag, head + (body + closing(tag)) + rest);
            &&& founds.len() > 0
            &&& founds[0].before.len() == 0
            &&& founds[0].group(0) == head + (body + closing(tag))
            &&& founds[0].group(1) == name
            &&& founds[0].group(2) == body
        }),
{
    reveal_strlit("\">");
    reveal_strlit("\"");
    reveal_strlit(">");
    let none = Seq::<char>::empty();
    let head = opening(tag) + (space + ("name=\""@ + (name + "\">"@)));
    assert("\""@ + (none + ">"@) =~= "\">"@);
    assert(head == named_head(tag, space, name, none));
    assert(seq![name][0] == name);
    assert(is_head(tag, head, seq![name])) by {
        assert(head == named_head(tag, space, seq![name][0], none));
    }
    lemma_tag_first(tag, head, seq![name], body, rest);
    let groups = groups_of(tag, head, seq![name], body, closing(tag));
    assert(groups =~= seq![head + (body + closing(tag)), name, body]);
}

/// The opening tag of a DSML invocation may have any white space before its name, and behind it.
pub proof fn law_dsml_invoke_tags(
    space: Seq<char>,
    name: Seq<char>,
    last: Seq<char>,
    body: Seq<char>,
    rest: Seq<char>,
)
    requires
        space.len() > 0 && is_spaces(space),
        is_spaces(last),
        is_quotable(name),
        closes_first(body, closing(Tag::DsmlInvoke)),
    ensures
        ({
            let tag = Tag::DsmlInvoke;
            let head = opening(tag) + (space + ("name=\""@ + (name + ("\""@ + (last + ">"@)))));
            let founds = tag_matches(tag, head + (body + closing(tag)) + rest);
            let opens = tag_matches(Tag::DsmlOpenInvoke, head + (body + closing(tag)) + rest);
            &&& founds.len() > 0
            &&& founds[0].before.len() == 0
            &&& founds[0].group(1) == name
            &&& founds[0].group(2) == body
            &&& opens.len() > 0
            &&& opens[0].before.len() == 0
            &&& opens[0].group(1) == name
            &&& opens[0].group(2) == body
            &&& opens[0].group(3) == closing(tag)
        }),
{
    let tag = Tag::DsmlInvoke;
    let open = Tag::DsmlOpenInvoke;
    let head = opening(tag) + (space + ("name=\""@ + (name + ("\""@ + (last + ">"@)))));
    assert(seq![name][0] == name);
    assert(is_head(tag, head, seq![name])) by {
        assert(head == named_head(tag, space, seq![name][0], last));
    }
    assert(is_head(open, head, seq![name])) by {
        assert(head == named_head(open, space, seq![name][0], last));
    }
    lemma_tag_first(tag, head, seq![name], body, rest);
    lemma_tag_first(open, head, seq![name], body, rest);
    assert(groups_of(tag, head, seq![name], body, closing(tag)) =~= seq![
        head + (body + closing(tag)),
        name,
        body,
    ]);
    assert(groups_of(open, head, seq![name], body, closing(tag)) =~= seq![
        head + (body + closing(tag)),
        name,
        body,
        closing(tag),
    ]);
}

/// The opening tag of a DSML parameter may have any white space before its name, before its flag,
/// and behind that.
pub proof fn law_dsml_parameter_tags(
    space: Seq<char>,
    name: Seq<char>,
    middle: Seq<char>,
    flag: Seq<char>,
    last: Seq<char>,
    body: Seq<char>,
    rest: Seq<char>,
)
    requires
        space.len() > 0 && is_spaces(space),
        middle.len() > 0 && is_spaces(middle),
        is_spaces(last),
        is_quotable(name),
        flag == "true"@ || flag == "false"@,
        closes_first(body, closing(Tag::DsmlParameter)),
    ensures
        ({
            let tag = Tag::DsmlParameter;
            let head = flagged_head(tag, space, name, middle, flag, last);
            let founds = tag_matches(tag, head + (body + closing(tag)) + rest);
            &&& founds.len() > 0
            &&& founds[0].before.len() == 0
            &&& founds[0].group(1) == name
            &&& founds[0].group(2) == flag
            &&& founds[0].group(3) == body
        }),
{
    let tag = Tag::DsmlParameter;
    let head = flagged_head(tag, space, name, middle, flag, last);
    let attributes = seq![name, flag];
    assert(attributes[0] == name && attributes[1] == flag);
    assert(is_head(tag, head, attributes)) by {
        assert(head == flagged_head(tag, space, attributes[0], middle, attributes[1], last));
    }
    lemma_tag_first(tag, head, attributes, body, rest);
    assert(groups_of(tag, head, attributes, body, closing(tag)) =~= seq![
        head + (body + closing(tag)),
        name,
        flag,
        body,
    ]);
}

} // verus!
