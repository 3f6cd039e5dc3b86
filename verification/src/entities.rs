//! The XML entities in the values of MiniMax M2, and the characters that they stand for.

use vstd::prelude::*;

#[allow(unused_imports)]
use crate::minimax::decoded;
#[allow(unused_imports)]
use crate::text::{
    contains, find, first_at, law_replace_all, lemma_find, lemma_replace_none, occurs_at, replace_all,
};

verus! {

/// A character as it is written in XML: a bracket or a quotation mark as an entity, of those that
/// stage `k` of decoding leaves.
pub open spec fn entity(c: char, k: int) -> Seq<char> {
    if c == '<' && k < 1 {
        seq!['&', 'l', 't', ';']
    } else if c == '>' && k < 2 {
        seq!['&', 'g', 't', ';']
    } else if c == '"' && k < 4 {
        seq!['&', 'q', 'u', 'o', 't', ';']
    } else if c == '\'' && k < 5 {
        seq!['&', 'a', 'p', 'o', 's', ';']
    } else {
        seq![c]
    }
}

/// A text in which each bracket and each quotation mark is written as an entity, of those that
/// stage `k` of decoding leaves.
pub open spec fn with_entities(s: Seq<char>, k: int) -> Seq<char>
    decreases s.len(),
{
    if s.len() == 0 {
        Seq::empty()
    } else {
        entity(s[0], k) + with_entities(s.skip(1), k)
    }
}

/// What stands before the first place where the pattern may stand is kept.
proof fn lemma_replace_past(head: Seq<char>, rest: Seq<char>, pat: Seq<char>, with: Seq<char>)
    requires
        pat.len() > 0,
        forall|i: int| 0 <= i < head.len() ==> !#[trigger] occurs_at(head + rest, pat, i),
    ensures
        replace_all(head + rest, pat, with) == head + replace_all(rest, pat, with),
{
    let text = head + rest;
    let n = head.len() as int;
    lemma_find(text, pat);
    lemma_find(rest, pat);
    assert forall|i: int| n <= i implies occurs_at(text, pat, i) == #[trigger] occurs_at(rest, pat, i - n) by {
        if i + pat.len() <= text.len() {
            assert(text.subrange(i, i + pat.len()) =~= rest.subrange(i - n, i - n + pat.len()));
        }
    }
    if contains(rest, pat) {
        let j = find(rest, pat)->0;
        assert(occurs_at(rest, pat, j));
        assert(occurs_at(rest, pat, (j + n) - n));
        assert(occurs_at(text, pat, j + n));
        assert forall|i: int| 0 <= i < j + n implies !occurs_at(text, pat, i) by {
            if i >= n && occurs_at(text, pat, i) {
                assert(occurs_at(rest, pat, i - n));
            }
        }
        assert(first_at(text, pat, j + n));
        assert(text.take(j + n) =~= head + rest.take(j));
        assert(text.skip(j + n + pat.len()) =~= rest.skip(j + pat.len()));
        let tail = replace_all(rest.skip(j + pat.len()), pat, with);
        assert(head + rest.take(j) + with + tail =~= head + (rest.take(j) + with + tail));
    } else {
        assert(!contains(text, pat)) by {
            if contains(text, pat) {
                let i = choose|i: int| occurs_at(text, pat, i);
                if i >= n {
                    assert(occurs_at(rest, pat, i - n));
                }
            }
        }
        assert(text =~= head + rest);
    }
}

/// The pattern stands at the beginning, and is replaced there.
proof fn lemma_replace_here(rest: Seq<char>, pat: Seq<char>, with: Seq<char>)
    requires
        pat.len() > 0,
    ensures
        replace_all(pat + rest, pat, with) == with + replace_all(rest, pat, with),
{
    let none = Seq::<char>::empty();
    assert(none + pat + rest =~= pat + rest);
    assert((pat + rest).subrange(0, pat.len() as int) =~= pat);
    assert(first_at(pat + rest, pat, 0));
    law_replace_all(none, pat, rest, with);
    assert(none + with + replace_all(rest, pat, with) =~= with + replace_all(rest, pat, with));
}

/// The entity that a stage of decoding replaces, and the character that it stands for.
spec fn stage(k: int) -> (Seq<char>, char) {
    if k == 0 {
        (seq!['&', 'l', 't', ';'], '<')
    } else if k == 1 {
        (seq!['&', 'g', 't', ';'], '>')
    } else if k == 2 {
        (seq!['&', 'a', 'm', 'p', ';'], '&')
    } else if k == 3 {
        (seq!['&', 'q', 'u', 'o', 't', ';'], '"')
    } else {
        (seq!['&', 'a', 'p', 'o', 's', ';'], '\'')
    }
}

/// In one character, written with the entities that are left, no other entity stands.
proof fn lemma_entity_apart(c: char, k: int, rest: Seq<char>, i: int)
    requires
        0 <= k < 5,
        c != '&',
        c != stage(k).1,
        0 <= i < entity(c, k).len(),
    ensures
        !occurs_at(entity(c, k) + rest, stage(k).0, i),
{
    let e = entity(c, k);
    let pat = stage(k).0;
    let text = e + rest;
    if occurs_at(text, pat, i) {
        let part = text.subrange(i, i + pat.len());
        assert(part == pat);
        assert(part[0] == text[i] && text[i] == e[i]);
        assert(pat[0] == '&');
        assert(i == 0);
        assert(part[1] == text[1] && part[2] == text[2]);
        assert(e.len() > 1);
        assert(text[1] == e[1] && text[2] == e[2]);
    }
}

/// A stage of decoding.
proof fn lemma_stage(s: Seq<char>, k: int)
    requires
        0 <= k < 5,
        !s.contains('&'),
    ensures
        replace_all(with_entities(s, k), stage(k).0, seq![stage(k).1]) == with_entities(s, k + 1),
    decreases s.len(),
{
    let pat = stage(k).0;
    let with = seq![stage(k).1];
    if s.len() == 0 {
        let none = Seq::<char>::empty();
        assert(!contains(none, pat));
        lemma_replace_none(none, pat, with);
    } else {
        let c = s[0];
        let rest = s.skip(1);
        assert(s.contains(c));
        assert(!rest.contains('&')) by {
            if rest.contains('&') {
                let i = choose|i: int| 0 <= i < rest.len() && rest[i] == '&';
                assert(s[i + 1] == '&');
            }
        }
        lemma_stage(rest, k);
        let tail = with_entities(rest, k);
        if c == stage(k).1 {
            assert(entity(c, k) == pat);
            lemma_replace_here(tail, pat, with);
            assert(entity(c, k + 1) =~= with);
        } else {
            let e = entity(c, k);
            assert forall|i: int| 0 <= i < e.len() implies !#[trigger] occurs_at(e + tail, pat, i) by {
                lemma_entity_apart(c, k, tail, i);
            }
            lemma_replace_past(e, tail, pat, with);
            assert(entity(c, k + 1) =~= e);
        }
    }
}

/// Where no entity is left, the text is as it is.
proof fn lemma_no_entities(s: Seq<char>)
    ensures
        with_entities(s, 5) == s,
    decreases s.len(),
{
    if s.len() > 0 {
        lemma_no_entities(s.skip(1));
        assert(seq![s[0]] + s.skip(1) =~= s);
    } else {
        assert(with_entities(s, 5) =~= s);
    }
}

/// The words of the entities.
proof fn lemma_words()
    ensures
        "&lt;"@ == stage(0).0 && "<"@ == seq!['<'],
        "&gt;"@ == stage(1).0 && ">"@ == seq!['>'],
        "&amp;"@ == stage(2).0 && "&"@ == seq!['&'],
        "&quot;"@ == stage(3).0 && "\""@ == seq!['"'],
        "&apos;"@ == stage(4).0 && "'"@ == seq!['\''],
{
    reveal_strlit("&lt;");
    reveal_strlit("&gt;");
    reveal_strlit("&amp;");
    reveal_strlit("&quot;");
    reveal_strlit("&apos;");
    reveal_strlit("<");
    reveal_strlit(">");
    reveal_strlit("&");
    reveal_strlit("\"");
    reveal_strlit("'");
    assert("&lt;"@ =~= stage(0).0 && "<"@ =~= seq!['<']);
    assert("&gt;"@ =~= stage(1).0 && ">"@ =~= seq!['>']);
    assert("&amp;"@ =~= stage(2).0 && "&"@ =~= seq!['&']);
    assert("&quot;"@ =~= stage(3).0 && "\""@ =~= seq!['"']);
    assert("&apos;"@ =~= stage(4).0 && "'"@ =~= seq!['\'']);
}

/// A text in which no ampersand stands, written with an entity for each bracket and each quotation
/// mark, is decoded to the text.
pub proof fn law_entities_decoded(s: Seq<char>)
    requires
        !s.contains('&'),
    ensures
        decoded(with_entities(s, 0)) == s,
{
    lemma_words();
    lemma_stage(s, 0);
    lemma_stage(s, 1);
    lemma_stage(s, 2);
    lemma_stage(s, 3);
    lemma_stage(s, 4);
    lemma_no_entities(s);
}

/// A pattern that begins with an ampersand stands only where one stands.
proof fn lemma_at_ampersand(before: Seq<char>, word: Seq<char>, after: Seq<char>, pat: Seq<char>, i: int)
    requires
        !before.contains('&'),
        !after.contains('&'),
        word.len() > 0,
        forall|j: int| 0 < j < word.len() ==> #[trigger] word[j] != '&',
        pat.len() > 0 && pat[0] == '&',
        occurs_at(before + word + after, pat, i),
    ensures
        i == before.len(),
        (word + after).subrange(0, pat.len() as int) == pat,
        pat.len() <= (word + after).len(),
{
    let text = before + word + after;
    let n = before.len() as int;
    assert(text.subrange(i, i + pat.len())[0] == text[i]);
    assert(text[i] == '&');
    if i < n {
        assert(before.contains(before[i]));
    } else if i >= n + word.len() {
        assert(after.contains(after[i - n - word.len()]));
    } else if i > n {
        assert(word[i - n] != '&');
    }
    assert((word + after).subrange(0, pat.len() as int) =~= text.subrange(n, n + pat.len()));
}

/// A pattern that begins with an ampersand, and does not stand where the only one stands, stands
/// nowhere.
proof fn lemma_nowhere(before: Seq<char>, word: Seq<char>, after: Seq<char>, pat: Seq<char>)
    requires
        !before.contains('&'),
        !after.contains('&'),
        word.len() > 0,
        forall|j: int| 0 < j < word.len() ==> #[trigger] word[j] != '&',
        pat.len() > 0 && pat[0] == '&',
        !pat.is_prefix_of(word + after),
    ensures
        !contains(before + word + after, pat),
{
    if contains(before + word + after, pat) {
        let i = choose|i: int| occurs_at(before + word + after, pat, i);
        lemma_at_ampersand(before, word, after, pat, i);
    }
}

/// The first stages of decoding leave the entity of an ampersand.
proof fn lemma_ampersand_stage(before: Seq<char>, after: Seq<char>)
    requires
        !before.contains('&'),
        !after.contains('&'),
    ensures
        ({
            let text = before + stage(2).0 + after;
            &&& replace_all(text, stage(0).0, seq!['<']) == text
            &&& replace_all(text, stage(1).0, seq!['>']) == text
            &&& replace_all(text, stage(2).0, seq!['&']) == before + seq!['&'] + after
        }),
{
    let word = stage(2).0;
    let text = before + word + after;
    let n = before.len() as int;
    assert((word + after)[1] == 'a');
    assert(!stage(0).0.is_prefix_of(word + after)) by {
        if stage(0).0.is_prefix_of(word + after) {
            assert((word + after).subrange(0, 4)[1] == 'a');
        }
    }
    assert(!stage(1).0.is_prefix_of(word + after)) by {
        if stage(1).0.is_prefix_of(word + after) {
            assert((word + after).subrange(0, 4)[1] == 'a');
        }
    }
    lemma_nowhere(before, word, after, stage(0).0);
    lemma_nowhere(before, word, after, stage(1).0);
    lemma_replace_none(text, stage(0).0, seq!['<']);
    lemma_replace_none(text, stage(1).0, seq!['>']);
    assert(text.subrange(n, n + 5) =~= word);
    assert(occurs_at(text, word, n));
    assert forall|i: int| 0 <= i < n implies !occurs_at(text, word, i) by {
        if occurs_at(text, word, i) {
            lemma_at_ampersand(before, word, after, word, i);
        }
    }
    assert(first_at(text, word, n));
    law_replace_all(before, word, after, seq!['&']);
    assert(!contains(after, word)) by {
        if contains(after, word) {
            let i = choose|i: int| occurs_at(after, word, i);
            assert(after.subrange(i, i + 5)[0] == after[i]);
            assert(after.contains(after[i]));
        }
    }
    lemma_replace_none(after, word, seq!['&']);
}

/// An entity that begins with an ampersand is not there where what follows the only ampersand does
/// not make it one.
proof fn lemma_no_entity(before: Seq<char>, after: Seq<char>, pat: Seq<char>)
    requires
        !before.contains('&'),
        !after.contains('&'),
        pat.len() > 1 && pat[0] == '&',
        !pat.skip(1).is_prefix_of(after),
    ensures
        !contains(before + seq!['&'] + after, pat),
{
    let one = seq!['&'];
    assert(!pat.is_prefix_of(one + after)) by {
        if pat.is_prefix_of(one + after) {
            let m = pat.len() as int;
            assert((one + after).subrange(0, m) == pat);
            assert(after.subrange(0, m - 1) =~= pat.skip(1)) by {
                assert forall|j: int| 0 <= j < m - 1 implies after.subrange(0, m - 1)[j] == pat.skip(1)[j] by {
                    assert((one + after).subrange(0, m)[j + 1] == after[j]);
                }
            }
        }
    }
    lemma_nowhere(before, one, after, pat);
}

/// Decoding, stage by stage.
proof fn lemma_decoded(a: Seq<char>, b: Seq<char>, c: Seq<char>, d: Seq<char>, e: Seq<char>, f: Seq<char>)
    requires
        replace_all(a, stage(0).0, seq!['<']) == b,
        replace_all(b, stage(1).0, seq!['>']) == c,
        replace_all(c, stage(2).0, seq!['&']) == d,
        replace_all(d, stage(3).0, seq!['"']) == e,
        replace_all(e, stage(4).0, seq!['\'']) == f,
    ensures
        decoded(a) == f,
{
    lemma_words();
}

/// The last stages of decoding leave an ampersand.
proof fn lemma_ampersand_left(before: Seq<char>, after: Seq<char>)
    requires
        !before.contains('&'),
        !after.contains('&'),
        !"quot;"@.is_prefix_of(after),
        !"apos;"@.is_prefix_of(after),
    ensures
        ({
            let left = before + seq!['&'] + after;
            &&& replace_all(left, stage(3).0, seq!['"']) == left
            &&& replace_all(left, stage(4).0, seq!['\'']) == left
        }),
{
    let left = before + seq!['&'] + after;
    reveal_strlit("quot;");
    reveal_strlit("apos;");
    assert("quot;"@ =~= stage(3).0.skip(1));
    assert("apos;"@ =~= stage(4).0.skip(1));
    lemma_no_entity(before, after, stage(3).0);
    lemma_no_entity(before, after, stage(4).0);
    lemma_replace_none(left, stage(3).0, seq!['"']);
    lemma_replace_none(left, stage(4).0, seq!['\'']);
}

/// The entity of an ampersand is decoded to one, where what follows it does not make it another
/// entity.
pub proof fn law_ampersand_decoded(before: Seq<char>, after: Seq<char>)
    requires
        !before.contains('&'),
        !after.contains('&'),
        !"quot;"@.is_prefix_of(after),
        !"apos;"@.is_prefix_of(after),
    ensures
        decoded(before + "&amp;"@ + after) == before + seq!['&'] + after,
{
    let text = before + stage(2).0 + after;
    let left = before + seq!['&'] + after;
    assert("&amp;"@ == stage(2).0) by {
        lemma_words();
    }
    lemma_ampersand_stage(before, after);
    lemma_ampersand_left(before, after);
    lemma_decoded(text, text, text, left, left, left);
}

} // verus!
