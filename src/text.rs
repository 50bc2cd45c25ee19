//! Character-level building blocks shared by the other modules.
use vstd::prelude::*;

verus! {

/// Whether `c` belongs to a keyword token: an ASCII letter, an ASCII digit or `_`.
pub open spec fn is_word_char(c: char) -> bool {
    ('a' <= c && c <= 'z') || ('A' <= c && c <= 'Z') || ('0' <= c && c <= '9') || c == '_'
}

/// ASCII punctuation: ``!"#$%&'()*+,-./:;<=>?@[\]^_`{|}~``.
pub open spec fn is_ascii_punct(c: char) -> bool {
    ('!' <= c && c <= '/') || (':' <= c && c <= '@') || ('[' <= c && c <= '`') || ('{' <= c
        && c <= '~')
}

pub open spec fn is_ascii_char(c: char) -> bool {
    (c as u32) < 128
}

/// `A`..`Z` mapped to `a`..`z`, every other character unchanged.
pub open spec fn ascii_lower(c: char) -> char {
    if 'A' <= c && c <= 'Z' {
        ((c as u32) + 32) as char
    } else {
        c
    }
}

/// Number of bytes of `c` in UTF-8.
pub open spec fn utf8_width(c: char) -> nat {
    if (c as u32) < 0x80 {
        1
    } else if (c as u32) < 0x800 {
        2
    } else if (c as u32) < 0x10000 {
        3
    } else {
        4
    }
}

/// Number of bytes of `s` in UTF-8.
pub open spec fn byte_len(s: Seq<char>) -> nat
    decreases s.len(),
{
    if s.len() == 0 {
        0
    } else {
        byte_len(s.drop_last()) + utf8_width(s.last())
    }
}

/// `byte_len` is the length of the UTF-8 encoding.
pub proof fn lemma_byte_len_encoding(s: Seq<char>)
    ensures
        byte_len(s) == vstd::utf8::encode_utf8(s).len(),
    decreases s.len(),
{
    if s.len() > 0 {
        lemma_byte_len_front(s);
        lemma_byte_len_encoding(s.drop_first());
        vstd::utf8::char_is_scalar(s[0]);
    }
}

proof fn lemma_byte_len_front(s: Seq<char>)
    requires
        s.len() > 0,
    ensures
        byte_len(s) == utf8_width(s[0]) + byte_len(s.drop_first()),
    decreases s.len(),
{
    if s.len() > 1 {
        lemma_byte_len_front(s.drop_last());
        assert(s.drop_first().drop_last() =~= s.drop_last().drop_first());
        assert(s.drop_first().last() == s.last());
        assert(s.drop_last()[0] == s[0]);
        assert(byte_len(s.drop_first()) == byte_len(s.drop_first().drop_last()) + utf8_width(
            s.drop_first().last(),
        ));
    } else {
        assert(s.drop_first() =~= Seq::<char>::empty());
        assert(s.drop_last() =~= Seq::<char>::empty());
        assert(byte_len(Seq::<char>::empty()) == 0);
        assert(s.last() == s[0]);
    }
}

/// The byte length of a prefix of `s` is a character boundary of its UTF-8
/// encoding.
pub proof fn lemma_prefix_char_boundary(s: Seq<char>, i: int)
    requires
        0 <= i <= s.len(),
    ensures
        vstd::utf8::is_char_boundary(
            vstd::utf8::encode_utf8(s),
            byte_len(s.subrange(0, i)) as int,
        ),
    decreases i,
{
    let bytes = vstd::utf8::encode_utf8(s);
    vstd::utf8::encode_utf8_valid_utf8(s);
    if i == 0 {
        assert(s.subrange(0, 0) =~= Seq::<char>::empty());
        assert(byte_len(Seq::<char>::empty()) == 0);
    } else {
        vstd::utf8::encode_utf8_first_scalar(s);
        vstd::utf8::char_is_scalar(s[0]);
        let w = vstd::utf8::length_of_first_scalar(bytes);
        assert(vstd::utf8::pop_first_scalar(bytes) =~= vstd::utf8::encode_utf8(s.drop_first()));
        lemma_prefix_char_boundary(s.drop_first(), i - 1);
        let pre = s.subrange(0, i);
        lemma_byte_len_front(pre);
        assert(pre.drop_first() =~= s.drop_first().subrange(0, i - 1));
        assert(pre[0] == s[0]);
        lemma_byte_len_prefix(s, i, s.len() as int);
        assert(s.subrange(0, s.len() as int) =~= s);
        lemma_byte_len_encoding(s);
        assert(w == utf8_width(s[0]));
        assert(byte_len(pre) > 0);
    }
}

/// The byte length of a prefix grows with the prefix.
pub proof fn lemma_byte_len_prefix(s: Seq<char>, i: int, j: int)
    requires
        0 <= i <= j <= s.len(),
    ensures
        byte_len(s.subrange(0, i)) <= byte_len(s.subrange(0, j)),
    decreases j - i,
{
    if i < j {
        lemma_byte_len_prefix(s, i, j - 1);
        assert(s.subrange(0, j).drop_last() =~= s.subrange(0, j - 1));
    }
}

/// The Unicode `White_Space` property of a character.
pub open spec fn is_ws(c: char) -> bool {
    let u = c as u32;
    (0x9 <= u && u <= 0xD) || u == 0x20 || u == 0x85 || u == 0xA0 || u == 0x1680 || (0x2000 <= u
        && u <= 0x200A) || u == 0x2028 || u == 0x2029 || u == 0x202F || u == 0x205F || u == 0x3000
}

/// The ASCII transliteration of one character.
pub uninterp spec fn translit_char(c: char) -> Seq<char>;

/// The Unicode lowercase mapping of one character.
pub uninterp spec fn lower_char(c: char) -> Seq<char>;

/// The lowercase form of one character: `A`..`Z` become `a`..`z`, other
/// ASCII characters stay, and others follow the Unicode lowercase mapping.
pub open spec fn lower_of(c: char) -> Seq<char> {
    if is_ascii_char(c) {
        seq![ascii_lower(c)]
    } else {
        lower_char(c)
    }
}

/// The character of code `c mod 128`: the identity on ASCII characters.
pub open spec fn ascii_fold(c: char) -> char {
    ((c as u32) % 128) as char
}

/// The transliteration of one character: ASCII characters stand for
/// themselves, characters from U+FFFF up have none, and others are looked up
/// in the transliteration table, whose entries are ASCII text.
pub open spec fn translit_of(c: char) -> Seq<char> {
    if is_ascii_char(c) {
        seq![c]
    } else if (c as u32) >= 0xFFFF {
        Seq::empty()
    } else {
        translit_char(c).map_values(|d: char| ascii_fold(d))
    }
}

/// The transliteration of a text: that of each of its characters, in order.
pub open spec fn translit(s: Seq<char>) -> Seq<char>
    decreases s.len(),
{
    if s.len() == 0 {
        Seq::empty()
    } else {
        translit(s.drop_last()) + translit_of(s.last())
    }
}

pub open spec fn all_ascii(s: Seq<char>) -> bool {
    forall|i: int| 0 <= i < s.len() ==> is_ascii_char(#[trigger] s[i])
}

/// Relies on `char::is_whitespace`: whether `c` has the Unicode
/// `White_Space` property.
#[verifier::external_body]
pub fn whitespace(c: char) -> (r: bool)
    ensures
        r == is_ws(c),
{
    c.is_whitespace()
}

/// Relies on `unidecode::unidecode_char`: its table maps each ASCII
/// character to itself, holds ASCII text only, on which `ascii_fold` is the
/// identity, and ends before U+FFFF, past which the result is empty.
#[verifier::external_body]
pub fn transliterate_char(c: char) -> (r: &'static str)
    ensures
        is_ascii_char(c) ==> r@ == seq![c],
        (c as u32) >= 0xFFFF ==> r@.len() == 0,
        !is_ascii_char(c) && (c as u32) < 0xFFFF ==> r@ == translit_char(c).map_values(
            |d: char| ascii_fold(d),
        ),
{
    unidecode::unidecode_char(c)
}

/// Relies on `unidecode::unidecode`: the transliteration of each character
/// of `s`, concatenated in order.
#[verifier::external_body]
pub fn transliterate(s: &str) -> (r: String)
    ensures
        r@ == translit(s@),
{
    unidecode::unidecode(s)
}

/// Relies on `char::to_lowercase`: the characters of the lowercase mapping,
/// which on ASCII is `A`..`Z` to `a`..`z` and the identity elsewhere.
#[verifier::external_body]
pub fn lowercase_char(c: char) -> (r: Vec<char>)
    ensures
        is_ascii_char(c) ==> r@ == seq![ascii_lower(c)],
        !is_ascii_char(c) ==> r@ == lower_char(c),
{
    c.to_lowercase().collect()
}

/// Relies on `str::chars`: the characters of `s` in order.
#[verifier::external_body]
pub fn chars_of(s: &str) -> (r: Vec<char>)
    ensures
        r@ == s@,
{
    s.chars().collect()
}

/// Relies on `String`'s `FromIterator<char>`: the string of these characters.
#[verifier::external_body]
pub fn string_of(v: &[char]) -> (r: String)
    ensures
        r@ == v@,
{
    v.iter().collect()
}

pub fn word_char(c: char) -> (r: bool)
    ensures
        r == is_word_char(c),
{
    ('a' <= c && c <= 'z') || ('A' <= c && c <= 'Z') || ('0' <= c && c <= '9') || c == '_'
}

pub fn ascii_punct(c: char) -> (r: bool)
    ensures
        r == is_ascii_punct(c),
{
    ('!' <= c && c <= '/') || (':' <= c && c <= '@') || ('[' <= c && c <= '`') || ('{' <= c
        && c <= '~')
}

pub fn to_ascii_lower(c: char) -> (r: char)
    ensures
        r == ascii_lower(c),
{
    if 'A' <= c && c <= 'Z' {
        ((c as u8) + 32) as char
    } else {
        c
    }
}

pub fn char_width(c: char) -> (r: usize)
    ensures
        r == utf8_width(c),
{
    if (c as u32) < 0x80 {
        1
    } else if (c as u32) < 0x800 {
        2
    } else if (c as u32) < 0x10000 {
        3
    } else {
        4
    }
}

} // verus!
