//! Normalization: ASCII transliteration, lowercasing, removal of ASCII
//! punctuation and trimming of surrounding whitespace.
use vstd::prelude::*;
use crate::text::{
    ascii_lower, ascii_punct, all_ascii, chars_of, is_ascii_char, is_ascii_punct, is_ws,
    string_of, to_ascii_lower, translit, translit_of, transliterate, whitespace,
};

verus! {

/// What one transliterated character becomes: nothing if it is punctuation,
/// else its ASCII lowercase form.
pub open spec fn clean_char(c: char) -> Seq<char> {
    if is_ascii_punct(c) {
        Seq::empty()
    } else {
        seq![ascii_lower(c)]
    }
}

pub open spec fn clean(s: Seq<char>) -> Seq<char>
    decreases s.len(),
{
    if s.len() == 0 {
        Seq::empty()
    } else {
        clean(s.drop_last()) + clean_char(s.last())
    }
}

pub open spec fn trim_start(s: Seq<char>) -> Seq<char>
    decreases s.len(),
{
    if s.len() > 0 && is_ws(s[0]) {
        trim_start(s.drop_first())
    } else {
        s
    }
}

pub open spec fn trim_end(s: Seq<char>) -> Seq<char>
    decreases s.len(),
{
    if s.len() > 0 && is_ws(s.last()) {
        trim_end(s.drop_last())
    } else {
        s
    }
}

/// `s` without its leading and trailing whitespace.
pub open spec fn trim(s: Seq<char>) -> Seq<char> {
    trim_end(trim_start(s))
}

/// The normalized form of a text.
pub open spec fn normalize_text(s: Seq<char>) -> Seq<char> {
    trim(clean(translit(s)))
}

/// A text that normalization leaves as it is: ASCII, without upper case
/// letters or punctuation.
pub open spec fn is_clean(s: Seq<char>) -> bool {
    forall|i: int|
        0 <= i < s.len() ==> is_ascii_char(#[trigger] s[i]) && !is_ascii_punct(s[i])
            && ascii_lower(s[i]) == s[i]
}

pub proof fn lemma_clean_concat(a: Seq<char>, b: Seq<char>)
    ensures
        clean(a + b) == clean(a) + clean(b),
    decreases b.len(),
{
    if b.len() == 0 {
        assert(a + b =~= a);
        assert(clean(b) =~= Seq::<char>::empty());
        assert(clean(a) + clean(b) =~= clean(a));
    } else {
        lemma_clean_concat(a, b.drop_last());
        assert((a + b).drop_last() =~= a + b.drop_last());
        assert((a + b).last() == b.last());
        assert(clean(a) + clean(b.drop_last()) + clean_char(b.last()) =~= clean(a) + (clean(
            b.drop_last(),
        ) + clean_char(b.last())));
    }
}

proof fn lemma_translit_ascii(s: Seq<char>)
    ensures
        all_ascii(translit(s)),
    decreases s.len(),
{
    if s.len() > 0 {
        lemma_translit_ascii(s.drop_last());
        let t = translit_of(s.last());
        assert(all_ascii(t));
        let whole = translit(s.drop_last()) + t;
        assert forall|i: int| 0 <= i < whole.len() implies is_ascii_char(#[trigger] whole[i]) by {
            if i >= translit(s.drop_last()).len() {
                assert(whole[i] == t[i - translit(s.drop_last()).len()]);
            }
        }
    }
}

proof fn lemma_clean_is_clean(s: Seq<char>)
    requires
        all_ascii(s),
    ensures
        is_clean(clean(s)),
    decreases s.len(),
{
    if s.len() > 0 {
        assert(all_ascii(s.drop_last()));
        lemma_clean_is_clean(s.drop_last());
        let a = clean(s.drop_last());
        let t = clean_char(s.last());
        assert(is_ascii_char(s[s.len() - 1]));
        let whole = a + t;
        assert forall|i: int| 0 <= i < whole.len() implies is_ascii_char(#[trigger] whole[i])
            && !is_ascii_punct(whole[i]) && ascii_lower(whole[i]) == whole[i] by {
            if i >= a.len() {
                assert(whole[i] == t[i - a.len()]);
            }
        }
    }
}

proof fn lemma_translit_clean_text(s: Seq<char>)
    requires
        all_ascii(s),
    ensures
        translit(s) == s,
    decreases s.len(),
{
    if s.len() > 0 {
        assert(all_ascii(s.drop_last()));
        lemma_translit_clean_text(s.drop_last());
        assert(is_ascii_char(s[s.len() - 1]));
        assert(s.drop_last() + seq![s.last()] =~= s);
    }
}

proof fn lemma_clean_of_clean(s: Seq<char>)
    requires
        is_clean(s),
    ensures
        clean(s) == s,
    decreases s.len(),
{
    if s.len() > 0 {
        assert(is_clean(s.drop_last()));
        lemma_clean_of_clean(s.drop_last());
        assert(is_ascii_char(s[s.len() - 1]));
        assert(s.drop_last() + seq![s.last()] =~= s);
    }
}

proof fn lemma_trim_start_shape(s: Seq<char>) -> (k: int)
    ensures
        0 <= k <= s.len(),
        trim_start(s) == s.subrange(k, s.len() as int),
        k < s.len() ==> !is_ws(s[k]),
    decreases s.len(),
{
    if s.len() > 0 && is_ws(s[0]) {
        let k = lemma_trim_start_shape(s.drop_first());
        assert(s.drop_first().subrange(k, s.drop_first().len() as int) =~= s.subrange(
            k + 1,
            s.len() as int,
        ));
        k + 1
    } else {
        assert(s.subrange(0, s.len() as int) =~= s);
        0
    }
}

proof fn lemma_trim_end_shape(s: Seq<char>) -> (k: int)
    ensures
        0 <= k <= s.len(),
        trim_end(s) == s.subrange(0, k),
        k > 0 ==> !is_ws(s[k - 1]),
    decreases s.len(),
{
    if s.len() > 0 && is_ws(s.last()) {
        let k = lemma_trim_end_shape(s.drop_last());
        assert(s.drop_last().subrange(0, k) =~= s.subrange(0, k));
        k
    } else {
        assert(s.subrange(0, s.len() as int) =~= s);
        s.len() as int
    }
}

/// The result of trimming is a stretch `s[lo..hi]` of `s` that neither starts
/// nor ends with whitespace.
pub proof fn lemma_trim_shape(s: Seq<char>) -> (bounds: (int, int))
    ensures
        0 <= bounds.0 <= bounds.1 <= s.len(),
        trim(s) == s.subrange(bounds.0, bounds.1),
        bounds.0 < bounds.1 ==> !is_ws(s[bounds.0]) && !is_ws(s[bounds.1 - 1]),
{
    let lo = lemma_trim_start_shape(s);
    let t = trim_start(s);
    let k = lemma_trim_end_shape(t);
    assert(t.subrange(0, k) =~= s.subrange(lo, lo + k));
    (lo, lo + k)
}

proof fn lemma_trim_trimmed(s: Seq<char>)
    requires
        s.len() > 0 ==> !is_ws(s[0]) && !is_ws(s.last()),
    ensures
        trim(s) == s,
{
    assert(trim_start(s) == s);
    assert(trim_end(s) == s);
}

/// Normalizing a normalized text changes nothing.
pub proof fn lemma_normalize_idempotent(s: Seq<char>)
    ensures
        normalize_text(normalize_text(s)) == normalize_text(s),
{
    let c = clean(translit(s));
    lemma_translit_ascii(s);
    lemma_clean_is_clean(translit(s));
    let (lo, hi) = lemma_trim_shape(c);
    let n = normalize_text(s);
    assert(n == c.subrange(lo, hi));
    assert(is_clean(n)) by {
        assert forall|i: int| 0 <= i < n.len() implies is_ascii_char(#[trigger] n[i])
            && !is_ascii_punct(n[i]) && ascii_lower(n[i]) == n[i] by {
            assert(n[i] == c[lo + i]);
        }
    }
    lemma_translit_clean_text(n);
    lemma_clean_of_clean(n);
    lemma_trim_trimmed(n);
}

/// Transliterated text with punctuation removed and letters lowercased.
pub fn clean_chars(v: &Vec<char>) -> (r: Vec<char>)
    ensures
        r@ == clean(v@),
{
    let mut out: Vec<char> = Vec::new();
    let mut i: usize = 0;
    while i < v.len()
        invariant
            i <= v.len(),
            out@ == clean(v@.subrange(0, i as int)),
        decreases v.len() - i,
    {
        let c = v[i];
        assert(v@.subrange(0, i + 1).drop_last() =~= v@.subrange(0, i as int));
        if !ascii_punct(c) {
            out.push(to_ascii_lower(c));
        }
        i += 1;
        assert(out@ =~= clean(v@.subrange(0, i as int)));
    }
    assert(v@.subrange(0, v.len() as int) =~= v@);
    out
}

/// `v` without its leading and trailing whitespace.
pub fn trim_chars(v: &Vec<char>) -> (r: Vec<char>)
    ensures
        r@ == trim(v@),
{
    let mut lo: usize = 0;
    assert(v@.subrange(0, v.len() as int) =~= v@);
    while lo < v.len() && whitespace(v[lo])
        invariant
            lo <= v.len(),
            trim_start(v@) == trim_start(v@.subrange(lo as int, v.len() as int)),
        decreases v.len() - lo,
    {
        assert(v@.subrange(lo as int, v.len() as int).drop_first() =~= v@.subrange(
            lo + 1,
            v.len() as int,
        ));
        lo += 1;
    }
    let ghost t = v@.subrange(lo as int, v.len() as int);
    assert(trim_start(t) == t);
    let mut hi: usize = v.len();
    assert(t =~= v@.subrange(lo as int, hi as int));
    while hi > lo && whitespace(v[hi - 1])
        invariant
            lo <= hi <= v.len(),
            trim_end(t) == trim_end(v@.subrange(lo as int, hi as int)),
        decreases hi,
    {
        assert(v@.subrange(lo as int, hi as int).drop_last() =~= v@.subrange(
            lo as int,
            hi - 1,
        ));
        hi -= 1;
    }
    let mut out: Vec<char> = Vec::new();
    let mut i: usize = lo;
    while i < hi
        invariant
            lo <= i <= hi <= v.len(),
            out@ == v@.subrange(lo as int, i as int),
        decreases hi - i,
    {
        out.push(v[i]);
        i += 1;
        assert(out@ =~= v@.subrange(lo as int, i as int));
    }
    out
}

/// The normalized characters of `text`.
pub fn normalize_chars(text: &str) -> (r: Vec<char>)
    ensures
        r@ == normalize_text(text@),
{
    let t = transliterate(text);
    let cs = chars_of(t.as_str());
    let cleaned = clean_chars(&cs);
    trim_chars(&cleaned)
}

/// Transliterates `text` to ASCII, lowercases it, removes ASCII punctuation
/// and trims surrounding whitespace.
pub fn rsnormalize(text: &str) -> (r: String)
    ensures
        r@ == normalize_text(text@),
{
    let v = normalize_chars(text);
    string_of(v.as_slice())
}

/// `rsnormalize` applied to each text, in order.
pub fn rsnormalize_many(texts: &Vec<String>) -> (r: Vec<String>)
    ensures
        r.len() == texts.len(),
        forall|i: int| 0 <= i < texts.len() ==> (#[trigger] r[i])@ == normalize_text(texts[i]@),
{
    let mut out: Vec<String> = Vec::new();
    let mut i: usize = 0;
    while i < texts.len()
        invariant
            i <= texts.len(),
            out.len() == i,
            forall|j: int| 0 <= j < i ==> (#[trigger] out[j])@ == normalize_text(texts[j]@),
        decreases texts.len() - i,
    {
        out.push(rsnormalize(texts[i].as_str()));
        i += 1;
    }
    out
}

} // verus!
