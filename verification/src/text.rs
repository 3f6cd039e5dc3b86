//! Operations on text, stated over the sequence of characters that a string holds.

use vstd::prelude::*;
use vstd::string::*;

verus! {

/// `String::push`: the character is added behind the text, which is otherwise kept.
pub assume_specification[ std::string::String::push ](text: &mut std::string::String, c: char)
    ensures
        final(text)@ == old(text)@.push(c),
;

// ---------------------------------------------------------------------------
// Searching
// ---------------------------------------------------------------------------

/// `pat` stands in `s` at position `i`.
pub open spec fn occurs_at(s: Seq<char>, pat: Seq<char>, i: int) -> bool {
    &&& 0 <= i
    &&& i + pat.len() <= s.len()
    &&& s.subrange(i, i + pat.len()) == pat
}

/// `i` is the first position at which `pat` stands in `s`.
pub open spec fn first_at(s: Seq<char>, pat: Seq<char>, i: int) -> bool {
    &&& occurs_at(s, pat, i)
    &&& forall|j: int| 0 <= j < i ==> !occurs_at(s, pat, j)
}

/// `pat` stands somewhere in `s`.
pub open spec fn contains(s: Seq<char>, pat: Seq<char>) -> bool {
    exists|i: int| occurs_at(s, pat, i)
}

/// The first position at which `pat` stands in `s`.
pub open spec fn find(s: Seq<char>, pat: Seq<char>) -> Option<int> {
    if contains(s, pat) {
        Some(choose|i: int| first_at(s, pat, i))
    } else {
        None
    }
}

/// Where `pat` stands in `s` at all, it has a first position there.
pub proof fn lemma_first_exists(s: Seq<char>, pat: Seq<char>, i: int)
    requires
        occurs_at(s, pat, i),
    ensures
        exists|j: int| first_at(s, pat, j),
    decreases i,
{
    if forall|j: int| 0 <= j < i ==> !occurs_at(s, pat, j) {
        assert(first_at(s, pat, i));
    } else {
        let j = choose|j: int| 0 <= j < i && occurs_at(s, pat, j);
        lemma_first_exists(s, pat, j);
    }
}

/// `find` gives the first position, and the only one.
pub proof fn lemma_find(s: Seq<char>, pat: Seq<char>)
    ensures
        find(s, pat) is None <==> !contains(s, pat),
        find(s, pat) matches Some(i) ==> first_at(s, pat, i) && 0 <= i && i + pat.len() <= s.len(),
        forall|i: int| first_at(s, pat, i) ==> find(s, pat) == Some(i),
{
    if contains(s, pat) {
        let i = choose|i: int| occurs_at(s, pat, i);
        lemma_first_exists(s, pat, i);
    }
    assert forall|i: int| first_at(s, pat, i) implies find(s, pat) == Some(i) by {
        let k = choose|k: int| first_at(s, pat, k);
        assert(first_at(s, pat, k));
        assert(!(k < i)) by {
            if k < i {
                assert(!occurs_at(s, pat, k));
            }
        }
        assert(!(i < k)) by {
            if i < k {
                assert(!occurs_at(s, pat, i));
            }
        }
    }
}

/// The characters of `s`.
pub fn chars_of(s: &str) -> (r: Vec<char>)
    ensures
        r@ == s@,
{
    let mut out: Vec<char> = Vec::new();
    for c in it: s.chars()
        invariant
            it.seq() == s@,
            out@ == s@.take(it.index() as int),
    {
        out.push(c);
    }
    assert(s@.take(s@.len() as int) == s@);
    out
}

/// Whether `pat` stands in `s` at position `at`.
fn matches_at(s: &Vec<char>, pat: &Vec<char>, at: usize) -> (r: bool)
    requires
        at + pat@.len() <= s@.len(),
    ensures
        r == occurs_at(s@, pat@, at as int),
{
    let size: usize = s.len();
    let mut i: usize = 0;
    while i < pat.len()
        invariant
            i <= pat@.len(),
            at + pat@.len() <= s@.len() == size,
            forall|k: int| 0 <= k < i ==> s@[at + k] == pat@[k],
        decreases pat.len() - i,
    {
        if s[at + i] != pat[i] {
            assert(s@.subrange(at as int, at + pat@.len())[i as int] != pat@[i as int]);
            return false;
        }
        i = i + 1;
    }
    assert(s@.subrange(at as int, at + pat@.len()) =~= pat@);
    true
}

/// The first position of `pat` in `s`, counted in characters.
pub fn find_text(s: &str, pat: &str) -> (r: Option<usize>)
    ensures
        r is Some <==> find(s@, pat@) is Some,
        r matches Some(i) ==> find(s@, pat@) == Some(i as int) && i + pat@.len() <= s@.len() <= usize::MAX,
{
    let text: Vec<char> = chars_of(s);
    let word: Vec<char> = chars_of(pat);
    proof {
        lemma_find(s@, pat@);
    }
    let total: usize = text.len();
    if word.len() == 0 {
        assert(s@.subrange(0, 0) =~= pat@);
        assert(first_at(s@, pat@, 0));
        return Some(0);
    }
    if word.len() > total {
        return None;
    }
    let end: usize = total - word.len() + 1;
    let mut i: usize = 0;
    while i < end
        invariant
            text@ == s@,
            word@ == pat@,
            end == total - word@.len() + 1,
            total == text@.len(),
            i <= end,
            forall|j: int| 0 <= j < i ==> !occurs_at(s@, pat@, j),
            forall|k: int| first_at(s@, pat@, k) ==> find(s@, pat@) == Some(k),
        decreases end - i,
    {
        if matches_at(&text, &word, i) {
            assert(first_at(s@, pat@, i as int));
            return Some(i);
        }
        i = i + 1;
    }
    None
}

/// Whether `pat` stands in `s`.
pub fn contains_text(s: &str, pat: &str) -> (r: bool)
    ensures
        r == contains(s@, pat@),
{
    proof {
        lemma_find(s@, pat@);
    }
    find_text(s, pat).is_some()
}

/// Whether the two texts are the same.
pub fn same_text(a: &str, b: &str) -> (r: bool)
    ensures
        r == (a@ == b@),
{
    let x: Vec<char> = chars_of(a);
    let y: Vec<char> = chars_of(b);
    if x.len() != y.len() {
        return false;
    }
    let r: bool = matches_at(&x, &y, 0);
    assert(x@.subrange(0, y@.len() as int) =~= x@);
    r
}

/// Whether `s` begins with `pat`.
pub fn starts_with(s: &str, pat: &str) -> (r: bool)
    ensures
        r == pat@.is_prefix_of(s@),
{
    let x: Vec<char> = chars_of(s);
    let y: Vec<char> = chars_of(pat);
    if y.len() > x.len() {
        return false;
    }
    matches_at(&x, &y, 0)
}

/// Whether `s` ends with `pat`.
pub fn ends_with(s: &str, pat: &str) -> (r: bool)
    ensures
        r == pat@.is_suffix_of(s@),
{
    let x: Vec<char> = chars_of(s);
    let y: Vec<char> = chars_of(pat);
    if y.len() > x.len() {
        return false;
    }
    matches_at(&x, &y, x.len() - y.len())
}

/// The first `n` characters of `s`.
pub fn take_text(s: &str, n: usize) -> (r: String)
    requires
        n <= s@.len(),
    ensures
        r@ == s@.take(n as int),
{
    s.substring_char(0, n).to_owned()
}

/// What is left of `s` behind its first `n` characters.
pub fn skip_text(s: &str, n: usize) -> (r: String)
    requires
        n <= s@.len(),
    ensures
        r@ == s@.skip(n as int),
{
    s.substring_char(n, s.unicode_len()).to_owned()
}

/// `first` with `second` behind it.
pub fn concat2(first: &str, second: &str) -> (r: String)
    ensures
        r@ == first@ + second@,
{
    first.to_owned().concat(second)
}

/// The three texts one behind the other.
pub fn concat3(first: &str, second: &str, third: &str) -> (r: String)
    ensures
        r@ == first@ + second@ + third@,
{
    first.to_owned().concat(second).concat(third)
}

/// The parts one behind the other, with `sep` between each two.
pub open spec fn joined(parts: Seq<Seq<char>>, sep: Seq<char>) -> Seq<char>
    decreases parts.len(),
{
    if parts.len() == 0 {
        Seq::empty()
    } else if parts.len() == 1 {
        parts[0]
    } else {
        joined(parts.drop_last(), sep) + sep + parts.last()
    }
}

/// The first parts joined are the beginning of all of them joined.
pub proof fn lemma_joined_prefix(parts: Seq<Seq<char>>, sep: Seq<char>, n: int)
    requires
        0 <= n <= parts.len(),
    ensures
        joined(parts.take(n), sep).is_prefix_of(joined(parts, sep)),
    decreases parts.len(),
{
    if n == parts.len() {
        assert(parts.take(n) =~= parts);
    } else if n > 0 {
        lemma_joined_prefix(parts.drop_last(), sep, n);
        assert(parts.drop_last().take(n) =~= parts.take(n));
    }
}

/// Parts joined, and more parts joined behind them, are all of them joined.
pub proof fn lemma_joined_concat(first: Seq<Seq<char>>, second: Seq<Seq<char>>, sep: Seq<char>)
    requires
        first.len() > 0,
        second.len() > 0,
    ensures
        joined(first + second, sep) == joined(first, sep) + sep + joined(second, sep),
    decreases second.len(),
{
    assert((first + second).drop_last() =~= first + second.drop_last());
    if second.len() == 1 {
        assert(first + second.drop_last() =~= first);
    } else {
        lemma_joined_concat(first, second.drop_last(), sep);
        assert(joined(first + second, sep) =~= joined(first, sep) + sep + joined(second, sep));
    }
}

/// The texts that the strings hold.
pub open spec fn texts(strings: Seq<String>) -> Seq<Seq<char>> {
    strings.map_values(|s: String| s@)
}

/// The text that the string holds, where there is one.
pub open spec fn optional_text(s: Option<String>) -> Option<Seq<char>> {
    match s {
        Some(t) => Some(t@),
        None => None,
    }
}

/// The texts one behind the other, with `sep` between each two.
pub fn join_texts(parts: &Vec<String>, sep: &str) -> (r: String)
    ensures
        r@ == joined(texts(parts@), sep@),
{
    let mut out: String = String::new();
    let mut i: usize = 0;
    while i < parts.len()
        invariant
            i <= parts@.len(),
            out@ == joined(texts(parts@).take(i as int), sep@),
        decreases parts.len() - i,
    {
        if i > 0 {
            out.append(sep);
        }
        out.append(parts[i].as_str());
        i = i + 1;
        assert(texts(parts@).take(i as int).drop_last() =~= texts(parts@).take(i - 1));
        assert(out@ =~= joined(texts(parts@).take(i as int), sep@));
    }
    assert(texts(parts@).take(i as int) =~= texts(parts@));
    out
}

// ---------------------------------------------------------------------------
// Replacing
// ---------------------------------------------------------------------------

/// `s` with every occurrence of `pat` replaced by `with`, found from left to right and
/// without overlap.
pub open spec fn replace_all(s: Seq<char>, pat: Seq<char>, with: Seq<char>) -> Seq<char>
    decreases s.len(),
{
    match find(s, pat) {
        Some(i) => if 0 < pat.len() && 0 <= i && i + pat.len() <= s.len() {
            s.take(i) + with + replace_all(s.skip(i + pat.len()), pat, with)
        } else {
            s
        },
        None => s,
    }
}

/// `s` with every occurrence of `pat` replaced by `with`.
pub fn replace_text(s: &str, pat: &str, with: &str) -> (r: String)
    requires
        pat@.len() > 0,
    ensures
        r@ == replace_all(s@, pat@, with@),
{
    let mut out: String = String::new();
    let mut rest: String = s.to_owned();
    let size: usize = pat.unicode_len();
    loop
        invariant
            size == pat@.len(),
            size > 0,
            out@ + replace_all(rest@, pat@, with@) == replace_all(s@, pat@, with@),
        decreases rest@.len(),
    {
        match find_text(rest.as_str(), pat) {
            Some(i) => {
                let head: String = take_text(rest.as_str(), i);
                let tail: String = skip_text(rest.as_str(), i + size);
                out.append(head.as_str());
                out.append(with);
                assert(head@ + with@ + replace_all(tail@, pat@, with@) == replace_all(rest@, pat@, with@));
                assert(out@ + replace_all(tail@, pat@, with@) =~= replace_all(s@, pat@, with@));
                rest = tail;
            },
            None => {
                out.append(rest.as_str());
                return out;
            },
        }
    }
}

/// A text in which `pat` does not stand is kept as it is.
pub proof fn lemma_replace_none(s: Seq<char>, pat: Seq<char>, with: Seq<char>)
    requires
        !contains(s, pat),
    ensures
        replace_all(s, pat, with) == s,
{
}

// ---------------------------------------------------------------------------
// White space
// ---------------------------------------------------------------------------

/// The Unicode property White_Space.
pub open spec fn is_white_space(c: char) -> bool {
    ||| '\u{9}' <= c <= '\u{d}'
    ||| c == ' '
    ||| c == '\u{85}'
    ||| c == '\u{a0}'
    ||| c == '\u{1680}'
    ||| '\u{2000}' <= c <= '\u{200a}'
    ||| c == '\u{2028}'
    ||| c == '\u{2029}'
    ||| c == '\u{202f}'
    ||| c == '\u{205f}'
    ||| c == '\u{3000}'
}

/// Whether `c` is white space.
pub fn white_space(c: char) -> (r: bool)
    ensures
        r == is_white_space(c),
{
    ('\u{9}' <= c && c <= '\u{d}') || c == ' ' || c == '\u{85}' || c == '\u{a0}' || c == '\u{1680}' || (
    '\u{2000}' <= c && c <= '\u{200a}') || c == '\u{2028}' || c == '\u{2029}' || c == '\u{202f}' || c
        == '\u{205f}' || c == '\u{3000}'
}

/// `s` without the white space that it begins with.
pub open spec fn trim_start(s: Seq<char>) -> Seq<char>
    decreases s.len(),
{
    if s.len() > 0 && is_white_space(s.first()) {
        trim_start(s.drop_first())
    } else {
        s
    }
}

/// `s` without the white space that it ends with.
pub open spec fn trim_end(s: Seq<char>) -> Seq<char>
    decreases s.len(),
{
    if s.len() > 0 && is_white_space(s.last()) {
        trim_end(s.drop_last())
    } else {
        s
    }
}

/// What is cut off at the end is white space, and nothing else is cut off.
pub proof fn lemma_trim_end(s: Seq<char>)
    ensures
        trim_end(s).is_prefix_of(s),
        forall|i: int| trim_end(s).len() <= i < s.len() ==> is_white_space(#[trigger] s[i]),
        trim_end(s).len() > 0 ==> !is_white_space(trim_end(s).last()),
    decreases s.len(),
{
    if s.len() > 0 && is_white_space(s.last()) {
        lemma_trim_end(s.drop_last());
        assert forall|i: int| trim_end(s).len() <= i < s.len() implies is_white_space(#[trigger] s[i]) by {
            if i < s.len() - 1 {
                assert(s.drop_last()[i] == s[i]);
            }
        }
    }
}

/// `s` without the white space at its two ends.
pub open spec fn trim(s: Seq<char>) -> Seq<char> {
    trim_end(trim_start(s))
}

/// `s` without the white space that it ends with.
pub fn trim_end_text(s: &str) -> (r: String)
    ensures
        r@ == trim_end(s@),
{
    let text: Vec<char> = chars_of(s);
    let mut n: usize = text.len();
    assert(s@.take(n as int) =~= s@);
    while n > 0 && white_space(text[n - 1])
        invariant
            n <= text@.len(),
            text@ == s@,
            trim_end(s@.take(n as int)) == trim_end(s@),
        decreases n,
    {
        assert(s@.take(n as int).drop_last() =~= s@.take(n - 1));
        n = n - 1;
    }
    take_text(s, n)
}

/// `s` without the white space that it begins with.
pub fn trim_start_text(s: &str) -> (r: String)
    ensures
        r@ == trim_start(s@),
{
    let text: Vec<char> = chars_of(s);
    let mut n: usize = 0;
    assert(s@.skip(0) =~= s@);
    while n < text.len() && white_space(text[n])
        invariant
            n <= text@.len(),
            text@ == s@,
            trim_start(s@.skip(n as int)) == trim_start(s@),
        decreases text.len() - n,
    {
        assert(s@.skip(n as int).drop_first() =~= s@.skip(n + 1));
        n = n + 1;
    }
    skip_text(s, n)
}

/// `s` without the white space at its two ends.
pub fn trim_text(s: &str) -> (r: String)
    ensures
        r@ == trim(s@),
{
    trim_end_text(trim_start_text(s).as_str())
}

// ---------------------------------------------------------------------------
// Letter case
// ---------------------------------------------------------------------------

/// The lower-case form of an ASCII capital; any other character is kept.
pub open spec fn ascii_lower(c: char) -> char {
    if 'A' <= c <= 'Z' {
        ((c as u32 + 32) as u32) as char
    } else {
        c
    }
}

/// `s` with its ASCII capitals in lower case.
pub open spec fn ascii_lower_all(s: Seq<char>) -> Seq<char> {
    s.map_values(|c: char| ascii_lower(c))
}

/// The lower-case form of an ASCII capital; any other character is kept.
fn ascii_lower_char(c: char) -> (r: char)
    ensures
        r == ascii_lower(c),
{
    if 'A' <= c && c <= 'Z' {
        ((c as u8) + 32) as char
    } else {
        c
    }
}

/// Whether the two texts are the same but for the case of ASCII letters.
pub fn same_ignoring_ascii_case(a: &str, b: &str) -> (r: bool)
    ensures
        r == (ascii_lower_all(a@) == ascii_lower_all(b@)),
{
    let x: Vec<char> = chars_of(a);
    let y: Vec<char> = chars_of(b);
    if x.len() != y.len() {
        assert(ascii_lower_all(a@).len() != ascii_lower_all(b@).len());
        return false;
    }
    let mut i: usize = 0;
    while i < x.len()
        invariant
            x@ == a@,
            y@ == b@,
            x@.len() == y@.len(),
            i <= x@.len(),
            forall|k: int| 0 <= k < i ==> ascii_lower(a@[k]) == ascii_lower(b@[k]),
        decreases x.len() - i,
    {
        if ascii_lower_char(x[i]) != ascii_lower_char(y[i]) {
            assert(ascii_lower_all(a@)[i as int] != ascii_lower_all(b@)[i as int]);
            return false;
        }
        i = i + 1;
    }
    assert(ascii_lower_all(a@) =~= ascii_lower_all(b@));
    true
}

/// The lower-case form of a text under the Unicode mapping of letters.
pub uninterp spec fn unicode_lowercase(s: Seq<char>) -> Seq<char>;

/// The lower-case form of a text.
pub open spec fn lowercase(s: Seq<char>) -> Seq<char> {
    if vstd::utf8::is_ascii_chars(s) {
        ascii_lower_all(s)
    } else {
        unicode_lowercase(s)
    }
}

/// `str::to_lowercase`: the text in lower case, a function of the text alone. On a text of
/// ASCII characters it changes the capitals and nothing else; what it does to other letters
/// is left to the name.
#[verifier::external_body]
pub(crate) fn lowercase_text(s: &str) -> (r: String)
    ensures
        r@ == (if vstd::utf8::is_ascii_chars(s@) {
            ascii_lower_all(s@)
        } else {
            unicode_lowercase(s@)
        }),
{
    s.to_lowercase()
}

// ---------------------------------------------------------------------------
// Integers
// ---------------------------------------------------------------------------

/// The digit of value `d`.
pub open spec fn digit_char(d: nat) -> char {
    ((d + 48) as u32) as char
}

/// The hexadecimal digit of value `d`, in lower case.
pub open spec fn hex_digit(d: int) -> char {
    if d < 10 {
        ((d + 48) as u32) as char
    } else {
        ((d + 87) as u32) as char
    }
}

/// `n` in decimal notation.
pub open spec fn decimal(n: nat) -> Seq<char>
    decreases n,
{
    if n < 10 {
        seq![digit_char(n)]
    } else {
        decimal(n / 10).push(digit_char(n % 10))
    }
}

/// `n` in decimal notation, with a minus sign where it is negative.
pub open spec fn decimal_int(n: int) -> Seq<char> {
    if n < 0 {
        seq!['-'] + decimal((-n) as nat)
    } else {
        decimal(n as nat)
    }
}

/// `n` in decimal notation.
pub fn decimal_text(n: u64) -> (r: String)
    ensures
        r@ == decimal(n as nat),
    decreases n,
{
    let d: u8 = (n % 10) as u8;
    let c: char = (d + 48) as char;
    let mut out: String = if n < 10 {
        String::new()
    } else {
        decimal_text(n / 10)
    };
    out.push(c);
    assert(n < 10 ==> out@ =~= seq![digit_char(n as nat)]);
    out
}

/// `n` in decimal notation, with a minus sign where it is negative.
pub fn decimal_int_text(n: i64) -> (r: String)
    ensures
        r@ == decimal_int(n as int),
{
    if n < 0 {
        let size: u64 = (-(n + 1)) as u64 + 1;
        let digits: String = decimal_text(size);
        let mut out: String = String::new();
        out.push('-');
        out.append(digits.as_str());
        assert(out@ =~= seq!['-'] + digits@);
        out
    } else {
        decimal_text(n as u64)
    }
}

/// `c` is an ASCII digit.
pub open spec fn is_digit(c: char) -> bool {
    '0' <= c <= '9'
}

/// The number that a row of digits denotes.
pub open spec fn digits_value(s: Seq<char>) -> nat
    decreases s.len(),
{
    if s.len() == 0 {
        0
    } else {
        (digits_value(s.drop_last()) * 10 + (s.last() as u32 - 48)) as nat
    }
}

/// `s` is at least one digit and nothing else.
pub open spec fn all_digits(s: Seq<char>) -> bool {
    s.len() > 0 && forall|i: int| 0 <= i < s.len() ==> is_digit(#[trigger] s[i])
}

/// The integer that `s` denotes: digits, with an optional sign before them.
pub open spec fn integer_value(s: Seq<char>) -> Option<int> {
    if s.len() > 0 && (s.first() == '-' || s.first() == '+') {
        if all_digits(s.drop_first()) {
            if s.first() == '-' {
                Some(-(digits_value(s.drop_first()) as int))
            } else {
                Some(digits_value(s.drop_first()) as int)
            }
        } else {
            None
        }
    } else if all_digits(s) {
        Some(digits_value(s) as int)
    } else {
        None
    }
}

/// The integer that `s` denotes, where it fits 64 bits.
pub open spec fn parsed_i64(s: Seq<char>) -> Option<i64> {
    match integer_value(s) {
        Some(n) => if i64::MIN <= n <= i64::MAX {
            Some(n as i64)
        } else {
            None
        },
        None => None,
    }
}

/// Digits added behind a row of digits do not make its value smaller.
proof fn lemma_digits_grow(s: Seq<char>, n: int)
    requires
        0 <= n <= s.len(),
        forall|i: int| 0 <= i < s.len() ==> is_digit(#[trigger] s[i]),
    ensures
        digits_value(s.take(n)) <= digits_value(s),
    decreases s.len() - n,
{
    if n == s.len() {
        assert(s.take(n) =~= s);
    } else {
        assert(s.take(n + 1).drop_last() =~= s.take(n));
        lemma_digits_grow(s, n + 1);
    }
}

/// The value of the digits `from..`, where they are digits and the value is at most 2^63.
fn digits_number(text: &Vec<char>, from: usize) -> (r: Option<u64>)
    requires
        from <= text@.len(),
    ensures
        r matches Some(n) ==> all_digits(text@.skip(from as int)) && n == digits_value(
            text@.skip(from as int),
        ) && n <= 0x8000_0000_0000_0000,
        r is None ==> (all_digits(text@.skip(from as int)) ==> digits_value(text@.skip(from as int))
            > 0x8000_0000_0000_0000),
{
    let ghost s = text@.skip(from as int);
    if from == text.len() {
        return None;
    }
    let mut value: u64 = 0;
    let mut i: usize = from;
    while i < text.len()
        invariant
            s == text@.skip(from as int),
            from <= i <= text@.len(),
            forall|k: int| 0 <= k < i - from ==> is_digit(#[trigger] s[k]),
            value == digits_value(s.take(i - from)),
            value <= 0x8000_0000_0000_0000,
        decreases text.len() - i,
    {
        let c: char = text[i];
        assert(s[i - from] == c);
        if !('0' <= c && c <= '9') {
            return None;
        }
        let d: u64 = (c as u32 - 48) as u64;
        assert(s.take(i - from + 1).drop_last() =~= s.take(i - from));
        if value > (0x8000_0000_0000_0000 - d) / 10 {
            proof {
                if all_digits(s) {
                    lemma_digits_grow(s, i - from + 1);
                }
            }
            return None;
        }
        value = value * 10 + d;
        i = i + 1;
    }
    assert(s.take(s.len() as int) =~= s);
    Some(value)
}

/// `str::parse::<i64>` as its documentation gives it: an optional sign, then digits only.
pub fn parse_i64(s: &str) -> (r: Option<i64>)
    ensures
        r == parsed_i64(s@),
{
    let text: Vec<char> = chars_of(s);
    assert(text@.skip(0) =~= s@);
    if text.len() > 0 && (text[0] == '-' || text[0] == '+') {
        assert(text@.skip(1) =~= s@.drop_first());
        let negative: bool = text[0] == '-';
        match digits_number(&text, 1) {
            Some(n) => {
                if negative {
                    if n == 0x8000_0000_0000_0000 {
                        Some(i64::MIN)
                    } else {
                        Some(-(n as i64))
                    }
                } else if n < 0x8000_0000_0000_0000 {
                    Some(n as i64)
                } else {
                    None
                }
            },
            None => None,
        }
    } else {
        match digits_number(&text, 0) {
            Some(n) => if n < 0x8000_0000_0000_0000 {
                Some(n as i64)
            } else {
                None
            },
            None => None,
        }
    }
}

// ---------------------------------------------------------------------------
// Laws
// ---------------------------------------------------------------------------

/// An integer in decimal notation is read back, and so is one with a plus sign before it.
pub proof fn law_decimal_read_back(n: int)
    ensures
        integer_value(decimal_int(n)) == Some(n),
        n >= 0 ==> integer_value(seq!['+'] + decimal_int(n)) == Some(n),
        i64::MIN <= n <= i64::MAX ==> parsed_i64(decimal_int(n)) == Some(n as i64),
        n > i64::MAX || n < i64::MIN ==> parsed_i64(decimal_int(n)) is None,
{
    let size = if n < 0 {
        (-n) as nat
    } else {
        n as nat
    };
    lemma_decimal_digits(size);
    let digits = decimal(size);
    assert(is_digit(digits[0]));
    if n < 0 {
        assert(decimal_int(n).drop_first() =~= digits);
    } else {
        assert((seq!['+'] + digits).drop_first() =~= digits);
    }
}

/// A number in decimal notation is digits that denote it.
pub proof fn lemma_decimal_digits(n: nat)
    ensures
        all_digits(decimal(n)),
        digits_value(decimal(n)) == n,
    decreases n,
{
    let s = decimal(n);
    if n < 10 {
        assert(s.drop_last() =~= Seq::empty());
        assert(digits_value(s.drop_last()) == 0);
        assert(s.last() as u32 == n + 48);
    } else {
        lemma_decimal_digits(n / 10);
        assert(s.drop_last() =~= decimal(n / 10));
        assert(s.last() as u32 == n % 10 + 48);
        assert forall|i: int| 0 <= i < s.len() implies is_digit(#[trigger] s[i]) by {
            if i < s.len() - 1 {
                assert(s[i] == decimal(n / 10)[i]);
            }
        }
    }
}

/// What is trimmed is a part of the text that neither begins nor ends with white space, and what
/// stands before it and behind it is white space. No letter, digit or mark of ASCII is cut off.
pub proof fn law_trim(s: Seq<char>) -> (from: int)
    ensures
        0 <= from && from + trim(s).len() <= s.len(),
        s.subrange(from, from + trim(s).len()) == trim(s),
        forall|i: int|
            0 <= i < from || from + trim(s).len() <= i < s.len() ==> is_white_space(#[trigger] s[i]),
        trim(s).len() > 0 ==> !is_white_space(trim(s).first()) && !is_white_space(trim(s).last()),
        forall|i: int|
            0 <= i < s.len() && '!' <= #[trigger] s[i] <= '~' ==> from <= i < from + trim(s).len(),
        trim(trim(s)) == trim(s),
{
    let start = trim_start(s);
    let from = s.len() - start.len();
    lemma_trim_start(s);
    lemma_trim_end(start);
    let t = trim(s);
    assert(t =~= start.subrange(0, t.len() as int));
    assert(s.subrange(from, from + t.len()) =~= t);
    assert forall|i: int| 0 <= i < from || from + t.len() <= i < s.len() implies is_white_space(
        #[trigger] s[i],
    ) by {
        if i >= from {
            assert(s[i] == start[i - from]);
        }
    }
    if t.len() > 0 {
        assert(t[0] == start[0]);
    }
    from
}

/// What is cut off at the beginning is white space, and nothing else is cut off.
proof fn lemma_trim_start(s: Seq<char>)
    ensures
        trim_start(s).len() <= s.len(),
        s.skip(s.len() - trim_start(s).len()) == trim_start(s),
        forall|i: int| 0 <= i < s.len() - trim_start(s).len() ==> is_white_space(#[trigger] s[i]),
        trim_start(s).len() > 0 ==> !is_white_space(trim_start(s).first()),
    decreases s.len(),
{
    if s.len() > 0 && is_white_space(s.first()) {
        let rest = s.drop_first();
        lemma_trim_start(rest);
        assert(s.skip(s.len() - trim_start(s).len()) =~= rest.skip(rest.len() - trim_start(rest).len()));
        assert forall|i: int| 0 <= i < s.len() - trim_start(s).len() implies is_white_space(#[trigger] s[i]) by {
            if i > 0 {
                assert(s[i] == rest[i - 1]);
            }
        }
    } else {
        assert(s.skip(0) =~= s);
    }
}

/// Spaces, tabs and line ends are white space; no letter, digit or mark of ASCII is.
pub proof fn law_white_space(c: char)
    ensures
        c == ' ' || c == '\n' || c == '\t' || c == '\r' ==> is_white_space(c),
        '!' <= c <= '~' ==> !is_white_space(c),
{
}

/// The first place where a text stands in another is one where it stands, and there is none before
/// it; it is found wherever there is one.
pub proof fn law_find(before: Seq<char>, pat: Seq<char>, after: Seq<char>)
    ensures
        find(before + pat + after, pat) is Some,
        0 <= find(before + pat + after, pat)->0 <= before.len(),
        contains(before + pat + after, pat),
        find(before + after, pat) matches Some(i) ==> 0 <= i && i + pat.len() <= (before + after).len() && (
        before + after).subrange(i, i + pat.len()) == pat,
{
    let s = before + pat + after;
    let n = before.len() as int;
    assert(s.subrange(n, n + pat.len()) =~= pat);
    assert(occurs_at(s, pat, n));
    lemma_first_exists(s, pat, n);
    lemma_find(s, pat);
    lemma_find(before + after, pat);
}

/// Each place where the pattern stands is replaced, from left to right, and nothing else changes.
pub proof fn law_replace_all(before: Seq<char>, pat: Seq<char>, after: Seq<char>, with: Seq<char>)
    requires
        pat.len() > 0,
        first_at(before + pat + after, pat, before.len() as int),
    ensures
        replace_all(before + pat + after, pat, with) == before + with + replace_all(after, pat, with),
        replace_all(before, pat, with) == before,
{
    let s = before + pat + after;
    let n = before.len() as int;
    lemma_find(s, pat);
    assert(find(s, pat) == Some(n));
    assert(s.take(n) =~= before);
    assert(s.skip(n + pat.len()) =~= after);
    assert(!contains(before, pat)) by {
        if contains(before, pat) {
            let i = choose|i: int| occurs_at(before, pat, i);
            assert(s.subrange(i, i + pat.len()) =~= before.subrange(i, i + pat.len()));
            assert(occurs_at(s, pat, i));
        }
    }
    lemma_find(before, pat);
}

/// The lower-case form of ASCII: capitals become the letters that they are capitals of, anything
/// else is kept; so the case of letters does not matter.
pub proof fn law_lowercase(s: Seq<char>, i: int)
    requires
        vstd::utf8::is_ascii_chars(s),
        0 <= i < s.len(),
    ensures
        lowercase(s).len() == s.len(),
        'A' <= s[i] <= 'Z' ==> lowercase(s)[i] as int == s[i] as int + 32,
        !('A' <= s[i] <= 'Z') ==> lowercase(s)[i] == s[i],
{
}

/// A number in decimal notation is the digits of a tenth of it, and behind them its last digit.
pub proof fn law_decimal(n: nat, d: nat)
    requires
        d < 10,
    ensures
        n > 0 ==> decimal(10 * n + d) == decimal(n).push(digit_char(d)),
        decimal(d) == seq![digit_char(d)],
        digit_char(d) as int == '0' as int + d,
        n > 0 ==> decimal_int(-(n as int)) == seq!['-'] + decimal(n),
{
    assert((10 * n + d) / 10 == n);
    assert((10 * n + d) % 10 == d);
}

/// Only digits, with at most a sign before them, denote an integer, and zeros before them do not
/// matter.
pub proof fn law_integer_text(s: Seq<char>)
    ensures
        integer_value(s) is Some ==> s.len() > 0 && is_digit(s.last()) && forall|i: int|
            0 <= i < s.len() ==> is_digit(#[trigger] s[i]) || (i == 0 && (s[i] == '-' || s[i] == '+')),
        all_digits(s) ==> integer_value(seq!['0'] + s) == integer_value(s),
        all_digits(s) ==> integer_value(seq!['-'] + s) == Some(-(integer_value(s)->0)),
{
    if integer_value(s) is Some && (s.first() == '-' || s.first() == '+') {
        let rest = s.drop_first();
        assert(rest.last() == s.last());
        assert forall|i: int| 0 <= i < s.len() implies is_digit(#[trigger] s[i]) || (i == 0 && (s[i] == '-'
            || s[i] == '+')) by {
            if i > 0 {
                assert(is_digit(rest[i - 1]));
            }
        }
        assert(is_digit(rest[rest.len() - 1]));
    }
    if all_digits(s) {
        assert(is_digit(s[0]));
        let more = seq!['0'] + s;
        assert forall|i: int| 0 <= i < more.len() implies is_digit(#[trigger] more[i]) by {
            if i > 0 {
                assert(is_digit(s[i - 1]));
            }
        }
        lemma_zero_before(s);
        assert((seq!['-'] + s).drop_first() =~= s);
    }
}

/// A zero before digits does not change what they denote.
proof fn lemma_zero_before(s: Seq<char>)
    ensures
        digits_value(seq!['0'] + s) == digits_value(s),
    decreases s.len(),
{
    let more = seq!['0'] + s;
    if s.len() > 0 {
        lemma_zero_before(s.drop_last());
        assert(more.drop_last() =~= seq!['0'] + s.drop_last());
        assert(more.last() == s.last());
    } else {
        assert(more.drop_last() =~= Seq::empty());
        assert(digits_value(more.drop_last()) == 0);
        assert(more.last() == '0');
    }
}

} // verus!
