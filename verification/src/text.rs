//! Character classes and text operations of the standard library that the lexer and the
//! query engine rely on, with what their documentation promises.

use vstd::prelude::*;

verus! {

/// Whether `char::is_alphabetic` holds of a character beyond ASCII (the Unicode
/// `Alphabetic` property).
pub uninterp spec fn char_is_alphabetic(c: char) -> bool;

/// Whether `char::is_alphanumeric` holds of a character beyond ASCII.
pub uninterp spec fn char_is_alphanumeric(c: char) -> bool;

/// What `str::to_uppercase` returns for a text that is not all ASCII (Unicode upper-case
/// mapping).
pub uninterp spec fn upper_text(s: Seq<char>) -> Seq<char>;

/// `char::is_ascii_digit`, whose documented behaviour is the range `'0'..='9'`.
pub open spec fn is_ascii_digit(c: char) -> bool {
    '0' <= c && c <= '9'
}

pub open spec fn is_ascii_letter(c: char) -> bool {
    ('a' <= c && c <= 'z') || ('A' <= c && c <= 'Z')
}

pub open spec fn is_ascii_char(c: char) -> bool {
    (c as u32) < 128
}

/// The Unicode `White_Space` property, which `char::is_whitespace` tests: tab, line feed,
/// vertical tab, form feed, carriage return, space, next line, no-break space, ogham space
/// mark, the spaces from en quad to hair space, line and paragraph separators, narrow
/// no-break space, medium mathematical space and ideographic space.
pub open spec fn is_white_space(c: char) -> bool {
    ||| '\t' <= c && c <= '\r'
    ||| c == ' '
    ||| c == '\u{85}'
    ||| c == '\u{A0}'
    ||| c == '\u{1680}'
    ||| '\u{2000}' <= c && c <= '\u{200A}'
    ||| c == '\u{2028}'
    ||| c == '\u{2029}'
    ||| c == '\u{202F}'
    ||| c == '\u{205F}'
    ||| c == '\u{3000}'
}

/// `char::is_alphabetic`: among ASCII characters the letters; beyond ASCII the Unicode
/// `Alphabetic` property, named above.
pub open spec fn is_alphabetic(c: char) -> bool {
    if is_ascii_char(c) {
        is_ascii_letter(c)
    } else {
        char_is_alphabetic(c)
    }
}

/// `char::is_alphanumeric`: among ASCII characters the letters and digits; beyond ASCII as
/// named above.
pub open spec fn is_alphanumeric(c: char) -> bool {
    if is_ascii_char(c) {
        is_ascii_letter(c) || is_ascii_digit(c)
    } else {
        char_is_alphanumeric(c)
    }
}

/// The upper case of an ASCII character: `a` to `z` become `A` to `Z`, the rest stay.
pub open spec fn ascii_upper(c: char) -> char {
    if 'a' <= c && c <= 'z' {
        ((c as u32) - 32) as char
    } else {
        c
    }
}

/// `str::to_uppercase`: an ASCII text has each letter upper-cased; any other text is
/// mapped as named above.
pub open spec fn uppercase(s: Seq<char>) -> Seq<char> {
    if forall|i: int| 0 <= i < s.len() ==> is_ascii_char(#[trigger] s[i]) {
        s.map_values(|c: char| ascii_upper(c))
    } else {
        upper_text(s)
    }
}

/// `char::is_whitespace`.
pub fn whitespace(c: char) -> (b: bool)
    ensures
        b == is_white_space(c),
{
    ('\t' <= c && c <= '\r') || c == ' ' || c == '\u{85}' || c == '\u{A0}' || c == '\u{1680}' || (
    '\u{2000}' <= c && c <= '\u{200A}') || c == '\u{2028}' || c == '\u{2029}' || c == '\u{202F}'
        || c == '\u{205F}' || c == '\u{3000}'
}

/// Calls `char::is_alphabetic`. Its documentation gives the `Alphabetic` property, which
/// among ASCII characters holds of the letters alone; beyond ASCII the result is named.
#[verifier::external_body]
pub fn alphabetic(c: char) -> (b: bool)
    ensures
        is_ascii_char(c) ==> (b <==> is_ascii_letter(c)),
        !is_ascii_char(c) ==> b == char_is_alphabetic(c),
{
    c.is_alphabetic()
}

/// Calls `char::is_alphanumeric`. Its documentation defines it as `is_alphabetic() ||
/// is_numeric()`: among ASCII characters the letters and digits; beyond ASCII the result
/// is named, and holds of every alphabetic character.
#[verifier::external_body]
pub fn alphanumeric(c: char) -> (b: bool)
    ensures
        is_ascii_char(c) ==> (b <==> is_ascii_letter(c) || is_ascii_digit(c)),
        !is_ascii_char(c) ==> b == char_is_alphanumeric(c),
        !is_ascii_char(c) && char_is_alphabetic(c) ==> b,
{
    c.is_alphanumeric()
}

/// `char::is_ascii_digit`.
pub fn ascii_digit(c: char) -> (b: bool)
    ensures
        b == is_ascii_digit(c),
{
    '0' <= c && c <= '9'
}

/// Calls `str::to_uppercase`. Its documentation gives the Unicode upper-case mapping, which
/// on ASCII text turns `a` to `z` into `A` to `Z` and keeps every other character; the
/// result for any other text is named.
#[verifier::external_body]
pub fn to_upper(s: &str) -> (r: String)
    ensures
        (forall|i: int| 0 <= i < s@.len() ==> is_ascii_char(#[trigger] s@[i])) ==> r@ == s@.map_values(
            |c: char| ascii_upper(c),
        ),
        !(forall|i: int| 0 <= i < s@.len() ==> is_ascii_char(#[trigger] s@[i])) ==> r@ == upper_text(s@),
{
    s.to_uppercase()
}

/// Calls `String::push`, which appends the character.
#[verifier::external_body]
pub fn push_char(s: &mut String, c: char)
    ensures
        final(s)@ == old(s)@.push(c),
{
    s.push(c)
}

/// Appends the text.
pub fn push_text(s: &mut String, t: &str)
    ensures
        final(s)@ == old(s)@ + t@,
{
    s.append(t);
}

/// Whether two texts hold the same characters.
pub fn same_text(a: &str, b: &str) -> (r: bool)
    ensures
        r == (a@ == b@),
{
    let n = a.unicode_len();
    let m = b.unicode_len();
    if n != m {
        return false;
    }
    let mut i: usize = 0;
    while i < n
        invariant
            n == a@.len(),
            m == b@.len(),
            n == m,
            i <= n,
            forall|j: int| 0 <= j < i ==> a@[j] == b@[j],
        decreases n - i,
    {
        if a.get_char(i) != b.get_char(i) {
            return false;
        }
        i = i + 1;
    }
    assert(a@ =~= b@);
    true
}

/// The characters of a text, in order.
pub fn chars_of(s: &str) -> (v: Vec<char>)
    ensures
        v@ == s@,
{
    let n = s.unicode_len();
    let mut v: Vec<char> = Vec::new();
    let mut i: usize = 0;
    while i < n
        invariant
            n == s@.len(),
            i <= n,
            v@ == s@.subrange(0, i as int),
        decreases n - i,
    {
        v.push(s.get_char(i));
        i = i + 1;
    }
    assert(v@ =~= s@);
    v
}


/// Lexicographic order of texts by character (for UTF-8 text this is the same order as
/// the byte order by which `str` values compare).
pub open spec fn text_lt(a: Seq<char>, b: Seq<char>) -> bool
    decreases a.len(),
{
    if a.len() == 0 {
        b.len() > 0
    } else if b.len() == 0 {
        false
    } else if a[0] != b[0] {
        a[0] < b[0]
    } else {
        text_lt(a.drop_first(), b.drop_first())
    }
}

pub open spec fn text_le(a: Seq<char>, b: Seq<char>) -> bool {
    text_lt(a, b) || a == b
}

pub proof fn lemma_text_lt_irreflexive(a: Seq<char>)
    ensures
        !text_lt(a, a),
    decreases a.len(),
{
    if a.len() > 0 {
        lemma_text_lt_irreflexive(a.drop_first());
    }
}

pub proof fn lemma_text_lt_transitive(a: Seq<char>, b: Seq<char>, c: Seq<char>)
    requires
        text_lt(a, b),
        text_lt(b, c),
    ensures
        text_lt(a, c),
    decreases a.len(),
{
    if a.len() > 0 && b.len() > 0 && c.len() > 0 {
        if a[0] == b[0] && b[0] == c[0] {
            lemma_text_lt_transitive(a.drop_first(), b.drop_first(), c.drop_first());
        }
    }
}

pub proof fn lemma_text_lt_total(a: Seq<char>, b: Seq<char>)
    ensures
        text_lt(a, b) || a == b || text_lt(b, a),
        !(text_lt(a, b) && text_lt(b, a)),
    decreases a.len(),
{
    if a.len() > 0 && b.len() > 0 && a[0] == b[0] {
        lemma_text_lt_total(a.drop_first(), b.drop_first());
        if a.drop_first() == b.drop_first() {
            assert(a =~= seq![a[0]] + a.drop_first());
            assert(b =~= seq![b[0]] + b.drop_first());
        }
    } else if a.len() == 0 && b.len() == 0 {
        assert(a =~= b);
    }
}

/// The ordering facts used about texts, for all texts at once.
pub proof fn lemma_text_order()
    ensures
        forall|a: Seq<char>| !#[trigger] text_lt(a, a),
        forall|a: Seq<char>, b: Seq<char>, c: Seq<char>|
            #[trigger] text_lt(a, b) && #[trigger] text_lt(b, c) ==> text_lt(a, c),
        forall|a: Seq<char>, b: Seq<char>|
            #[trigger] text_lt(a, b) || a == b || #[trigger] text_lt(b, a),
        forall|a: Seq<char>, b: Seq<char>| !(#[trigger] text_lt(a, b) && #[trigger] text_lt(b, a)),
{
    assert forall|a: Seq<char>| !#[trigger] text_lt(a, a) by {
        lemma_text_lt_irreflexive(a);
    }
    assert forall|a: Seq<char>, b: Seq<char>, c: Seq<char>|
        #[trigger] text_lt(a, b) && #[trigger] text_lt(b, c) implies text_lt(a, c) by {
        lemma_text_lt_transitive(a, b, c);
    }
    assert forall|a: Seq<char>, b: Seq<char>|
        #[trigger] text_lt(a, b) || a == b || #[trigger] text_lt(b, a) by {
        lemma_text_lt_total(a, b);
    }
    assert forall|a: Seq<char>, b: Seq<char>| !(#[trigger] text_lt(a, b) && #[trigger] text_lt(b, a)) by {
        lemma_text_lt_total(a, b);
    }
}

/// Whether `a` comes before `b` in the order of texts.
pub fn text_less(a: &str, b: &str) -> (r: bool)
    ensures
        r == text_lt(a@, b@),
{
    let n = a.unicode_len();
    let m = b.unicode_len();
    let mut i: usize = 0;
    assert(a@.skip(0) =~= a@);
    assert(b@.skip(0) =~= b@);
    while i < n && i < m
        invariant
            n == a@.len(),
            m == b@.len(),
            i <= n,
            i <= m,
            a@.subrange(0, i as int) == b@.subrange(0, i as int),
            text_lt(a@, b@) == text_lt(a@.skip(i as int), b@.skip(i as int)),
        decreases n - i,
    {
        let x = a.get_char(i);
        let y = b.get_char(i);
        if x != y {
            return x < y;
        }
        proof {
            assert(a@.skip(i as int).drop_first() =~= a@.skip(i + 1));
            assert(b@.skip(i as int).drop_first() =~= b@.skip(i + 1));
            assert(a@.subrange(0, i + 1) =~= a@.subrange(0, i as int).push(x));
            assert(b@.subrange(0, i + 1) =~= b@.subrange(0, i as int).push(y));
        }
        i = i + 1;
    }
    i == n && i < m
}

/// Whether `a` comes before `b` or equals it.
pub fn text_less_eq(a: &str, b: &str) -> (r: bool)
    ensures
        r == text_le(a@, b@),
{
    text_less(a, b) || same_text(a, b)
}

/// The order of texts is that of `str`: a text comes before every longer text it begins,
/// and otherwise the first character where two texts differ decides.
pub proof fn law_text_order(a: Seq<char>, b: Seq<char>, k: int)
    ensures
        a.len() < b.len() && b.subrange(0, a.len() as int) == a ==> text_lt(a, b),
        0 <= k < a.len() && k < b.len() && a.subrange(0, k) == b.subrange(0, k) && a[k] != b[k] ==> (text_lt(a, b) <==> a[k]
            < b[k]),
    decreases a.len(),
{
    if a.len() > 0 && b.len() > 0 {
        if a.len() < b.len() && b.subrange(0, a.len() as int) == a {
            assert(a[0] == b.subrange(0, a.len() as int)[0]);
            assert(b.drop_first().subrange(0, a.drop_first().len() as int) =~= a.drop_first());
            law_text_order(a.drop_first(), b.drop_first(), k - 1);
        }
        if 0 <= k < a.len() && k < b.len() && a.subrange(0, k) == b.subrange(0, k) && a[k] != b[k] {
            if k > 0 {
                assert(a[0] == a.subrange(0, k)[0]);
                assert(b[0] == b.subrange(0, k)[0]);
                assert(a.drop_first().subrange(0, k - 1) =~= b.drop_first().subrange(0, k - 1)) by {
                    assert forall|j: int| 0 <= j < k - 1 implies a.drop_first()[j] == b.drop_first()[j] by {
                        assert(a[j + 1] == a.subrange(0, k)[j + 1]);
                        assert(b[j + 1] == b.subrange(0, k)[j + 1]);
                    }
                }
                law_text_order(a.drop_first(), b.drop_first(), k - 1);
            }
        }
    }
}

} // verus!
