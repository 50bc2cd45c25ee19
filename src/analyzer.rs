//! Word n-grams, character n-grams and word-bounded character n-grams.
use vstd::prelude::*;
use crate::text::{chars_of, is_ws, string_of, whitespace};

verus! {

/// The whitespace-separated words of `s`, in order.
pub open spec fn words(s: Seq<char>) -> Seq<Seq<char>>
    decreases s.len(),
{
    if s.len() == 0 {
        Seq::empty()
    } else {
        let w = words(s.drop_last());
        let c = s.last();
        if is_ws(c) {
            w
        } else if s.len() >= 2 && !is_ws(s[s.len() - 2]) {
            w.drop_last().push(w.last().push(c))
        } else {
            w.push(seq![c])
        }
    }
}

/// The words joined with single spaces.
pub open spec fn join(ws: Seq<Seq<char>>) -> Seq<char>
    decreases ws.len(),
{
    if ws.len() == 0 {
        Seq::empty()
    } else if ws.len() == 1 {
        ws[0]
    } else {
        join(ws.drop_last()) + seq![' '] + ws.last()
    }
}

/// The number of windows of size `n` in a sequence of length `len`.
pub open spec fn num_windows(len: nat, n: nat) -> nat {
    if n <= len {
        (len - n + 1) as nat
    } else {
        0
    }
}

/// Each window of `n` consecutive words, joined with single spaces.
pub open spec fn word_windows(ws: Seq<Seq<char>>, n: nat) -> Seq<Seq<char>> {
    Seq::new(num_windows(ws.len(), n), |i: int| join(ws.subrange(i, i + n)))
}

/// Each window of `n` consecutive characters.
pub open spec fn char_windows(s: Seq<char>, n: nat) -> Seq<Seq<char>> {
    Seq::new(num_windows(s.len(), n), |i: int| s.subrange(i, i + n))
}

/// Word n-grams of `text`: for each size in turn, all its windows.
pub open spec fn word_ngrams(text: Seq<char>, sizes: Seq<usize>) -> Seq<Seq<char>>
    decreases sizes.len(),
{
    if sizes.len() == 0 {
        Seq::empty()
    } else {
        word_ngrams(text, sizes.drop_last()) + word_windows(words(text), sizes.last() as nat)
    }
}

/// Character n-grams of `text`: for each size in turn, all its windows.
pub open spec fn char_ngrams(text: Seq<char>, sizes: Seq<usize>) -> Seq<Seq<char>>
    decreases sizes.len(),
{
    if sizes.len() == 0 {
        Seq::empty()
    } else {
        char_ngrams(text, sizes.drop_last()) + char_windows(text, sizes.last() as nat)
    }
}

/// Character n-grams of each word in turn, none crossing a word boundary.
pub open spec fn wb_ngrams(ws: Seq<Seq<char>>, sizes: Seq<usize>) -> Seq<Seq<char>>
    decreases ws.len(),
{
    if ws.len() == 0 {
        Seq::empty()
    } else {
        wb_ngrams(ws.drop_last(), sizes) + char_ngrams(ws.last(), sizes)
    }
}

pub open spec fn positive_sizes(sizes: Seq<usize>) -> bool {
    forall|i: int| 0 <= i < sizes.len() ==> sizes[i] > 0
}

/// Whether `r` holds strings with these contents, in order.
pub open spec fn strings_are(r: Seq<String>, s: Seq<Seq<char>>) -> bool {
    r.len() == s.len() && forall|i: int| 0 <= i < s.len() ==> (#[trigger] r[i])@ == s[i]
}

/// The whitespace-separated words of `text`.
pub fn split_words(text: &Vec<char>) -> (r: Vec<Vec<char>>)
    ensures
        r.len() == words(text@).len(),
        forall|i: int| 0 <= i < r.len() ==> (#[trigger] r[i])@ == words(text@)[i],
{
    let mut out: Vec<Vec<char>> = Vec::new();
    let mut i: usize = 0;
    while i < text.len()
        invariant
            i <= text.len(),
            out.len() == words(text@.subrange(0, i as int)).len(),
            forall|k: int| 0 <= k < out.len() ==> (#[trigger] out[k])@ == words(text@.subrange(0, i as int))[k],
        decreases text.len() - i,
    {
        let c = text[i];
        let ghost pre = text@.subrange(0, i as int);
        let ghost pre1 = text@.subrange(0, i + 1);
        assert(pre1.drop_last() =~= pre);
        assert(pre1.last() == c);
        if whitespace(c) {
        } else if i >= 1 && !whitespace(text[i - 1]) {
            assert(pre1[pre1.len() - 2] == text@[i - 1]);
            let last = out.len() - 1;
            let ghost w = words(pre);
            assert(out.len() > 0) by {
                assert(pre.len() > 0);
                assert(pre.drop_last() =~= text@.subrange(0, i - 1));
                assert(pre.last() == text@[i - 1]);
            }
            out[last].push(c);
            assert forall|k: int| 0 <= k < out.len() implies (#[trigger] out[k])@ == words(pre1)[k] by {
                if k < last {
                    assert(words(pre1)[k] == w[k]);
                }
            }
        } else {
            let mut v: Vec<char> = Vec::new();
            v.push(c);
            assert(v@ =~= seq![c]);
            out.push(v);
            assert forall|k: int| 0 <= k < out.len() implies (#[trigger] out[k])@ == words(pre1)[k] by {
                if k < out.len() - 1 {
                    assert(words(pre1)[k] == words(pre)[k]);
                }
            }
        }
        i += 1;
    }
    assert(text@.subrange(0, text.len() as int) =~= text@);
    out
}

/// The characters `cs[lo..hi]`.
fn window(cs: &Vec<char>, lo: usize, hi: usize) -> (r: Vec<char>)
    requires
        lo <= hi <= cs.len(),
    ensures
        r@ == cs@.subrange(lo as int, hi as int),
{
    let mut out: Vec<char> = Vec::new();
    let mut k: usize = lo;
    while k < hi
        invariant
            lo <= k <= hi <= cs.len(),
            out@ == cs@.subrange(lo as int, k as int),
        decreases hi - k,
    {
        out.push(cs[k]);
        k += 1;
        assert(out@ =~= cs@.subrange(lo as int, k as int));
    }
    out
}

/// A copy of `cs`.
pub(crate) fn copy_chars(cs: &Vec<char>) -> (r: Vec<char>)
    ensures
        r@ == cs@,
{
    let r = window(cs, 0, cs.len());
    assert(cs@.subrange(0, cs@.len() as int) =~= cs@);
    r
}

/// The words `ws[lo..hi]` joined with single spaces.
pub(crate) fn join_range(ws: &Vec<Vec<char>>, lo: usize, hi: usize, Ghost(wv): Ghost<Seq<Seq<char>>>) -> (r:
    Vec<char>)
    requires
        lo <= hi <= ws.len(),
        wv.len() == ws.len(),
        forall|i: int| 0 <= i < ws.len() ==> (#[trigger] ws[i])@ == wv[i],
    ensures
        r@ == join(wv.subrange(lo as int, hi as int)),
{
    let mut out: Vec<char> = Vec::new();
    let mut k: usize = lo;
    assert(wv.subrange(lo as int, lo as int) =~= Seq::<Seq<char>>::empty());
    while k < hi
        invariant
            lo <= k <= hi <= ws.len(),
            wv.len() == ws.len(),
            forall|i: int| 0 <= i < ws.len() ==> (#[trigger] ws[i])@ == wv[i],
            out@ == join(wv.subrange(lo as int, k as int)),
        decreases hi - k,
    {
        let ghost sub1 = wv.subrange(lo as int, k + 1);
        assert(sub1.drop_last() =~= wv.subrange(lo as int, k as int));
        assert(sub1.last() == wv[k as int]);
        if k > lo {
            out.push(' ');
        } else {
            assert(sub1.len() == 1);
        }
        let mut w = copy_chars(&ws[k]);
        out.append(&mut w);
        k += 1;
        assert(out@ =~= join(sub1));
    }
    out
}

/// Appends the character windows of size `n` of `cs` to `out`.
fn push_char_windows(
    out: &mut Vec<String>,
    cs: &Vec<char>,
    n: usize,
    Ghost(prev): Ghost<Seq<Seq<char>>>,
)
    requires
        n > 0,
        strings_are(old(out)@, prev),
    ensures
        strings_are(final(out)@, prev + char_windows(cs@, n as nat)),
{
    let ghost target = char_windows(cs@, n as nat);
    if n > cs.len() {
        assert(prev + target =~= prev);
        return;
    }
    let count = cs.len() - n + 1;
    let mut i: usize = 0;
    while i < count
        invariant
            n <= cs.len(),
            count == cs.len() - n + 1,
            target == char_windows(cs@, n as nat),
            i <= count,
            strings_are(out@, prev + target.subrange(0, i as int)),
        decreases count - i,
    {
        let w = window(cs, i, i + n);
        let sw = string_of(w.as_slice());
        out.push(sw);
        i += 1;
        assert(prev + target.subrange(0, i as int) =~= (prev + target.subrange(0, i - 1)).push(
            target[i - 1],
        ));
    }
    assert(target.subrange(0, count as int) =~= target);
}

/// Appends the character n-grams of `cs`, for each size in turn, to `out`.
fn push_char_ngrams(
    out: &mut Vec<String>,
    cs: &Vec<char>,
    n_sizes: &Vec<usize>,
    Ghost(prev): Ghost<Seq<Seq<char>>>,
)
    requires
        positive_sizes(n_sizes@),
        strings_are(old(out)@, prev),
    ensures
        strings_are(final(out)@, prev + char_ngrams(cs@, n_sizes@)),
{
    let mut j: usize = 0;
    assert(n_sizes@.subrange(0, 0) =~= Seq::<usize>::empty());
    assert(prev + char_ngrams(cs@, Seq::<usize>::empty()) =~= prev);
    while j < n_sizes.len()
        invariant
            j <= n_sizes.len(),
            positive_sizes(n_sizes@),
            strings_are(out@, prev + char_ngrams(cs@, n_sizes@.subrange(0, j as int))),
        decreases n_sizes.len() - j,
    {
        let ghost sub1 = n_sizes@.subrange(0, j + 1);
        assert(sub1.drop_last() =~= n_sizes@.subrange(0, j as int));
        assert(sub1.last() == n_sizes@[j as int]);
        push_char_windows(out, cs, n_sizes[j], Ghost(prev + char_ngrams(cs@, n_sizes@.subrange(0, j as int))));
        j += 1;
        assert(prev + char_ngrams(cs@, sub1) =~= prev + char_ngrams(cs@, sub1.drop_last())
            + char_windows(cs@, sub1.last() as nat));
    }
    assert(n_sizes@.subrange(0, j as int) =~= n_sizes@);
}

/// Word n-grams: for each size, every window of that many consecutive
/// whitespace-separated words, joined with single spaces.
pub fn rssplit_words(text: &str, n_sizes: &Vec<usize>) -> (r: Vec<String>)
    requires
        positive_sizes(n_sizes@),
    ensures
        strings_are(r@, word_ngrams(text@, n_sizes@)),
{
    let cs = chars_of(text);
    let ws = split_words(&cs);
    let ghost wv = words(text@);
    let mut out: Vec<String> = Vec::new();
    let mut j: usize = 0;
    assert(n_sizes@.subrange(0, 0) =~= Seq::<usize>::empty());
    while j < n_sizes.len()
        invariant
            j <= n_sizes.len(),
            positive_sizes(n_sizes@),
            wv == words(text@),
            wv.len() == ws.len(),
            forall|i: int| 0 <= i < ws.len() ==> (#[trigger] ws[i])@ == wv[i],
            strings_are(out@, word_ngrams(text@, n_sizes@.subrange(0, j as int))),
        decreases n_sizes.len() - j,
    {
        let n = n_sizes[j];
        let ghost sub1 = n_sizes@.subrange(0, j + 1);
        assert(sub1.drop_last() =~= n_sizes@.subrange(0, j as int));
        assert(sub1.last() == n);
        let ghost prev = word_ngrams(text@, n_sizes@.subrange(0, j as int));
        let ghost target = word_windows(wv, n as nat);
        if n <= ws.len() {
            let count = ws.len() - n + 1;
            let mut i: usize = 0;
            while i < count
                invariant
                    n <= ws.len(),
                    count == ws.len() - n + 1,
                    wv.len() == ws.len(),
                    forall|k: int| 0 <= k < ws.len() ==> (#[trigger] ws[k])@ == wv[k],
                    target == word_windows(wv, n as nat),
                    i <= count,
                    strings_are(out@, prev + target.subrange(0, i as int)),
                decreases count - i,
            {
                let w = join_range(&ws, i, i + n, Ghost(wv));
                out.push(string_of(w.as_slice()));
                i += 1;
                assert(prev + target.subrange(0, i as int) =~= (prev + target.subrange(0, i - 1)).push(
                    target[i - 1],
                ));
            }
            assert(target.subrange(0, count as int) =~= target);
        } else {
            assert(prev + target =~= prev);
        }
        j += 1;
    }
    assert(n_sizes@.subrange(0, j as int) =~= n_sizes@);
    out
}

/// Character n-grams: for each size, every window of that many consecutive
/// characters, whitespace included.
pub fn rschar_ngrams(text: &str, n_sizes: &Vec<usize>) -> (r: Vec<String>)
    requires
        positive_sizes(n_sizes@),
    ensures
        strings_are(r@, char_ngrams(text@, n_sizes@)),
{
    let cs = chars_of(text);
    let mut out: Vec<String> = Vec::new();
    push_char_ngrams(&mut out, &cs, n_sizes, Ghost(Seq::empty()));
    assert(Seq::<Seq<char>>::empty() + char_ngrams(text@, n_sizes@) =~= char_ngrams(text@, n_sizes@));
    out
}

/// Character n-grams of each whitespace-separated word on its own, so that
/// none spans a word boundary.
pub fn rschar_wb_ngrams(text: &str, n_sizes: &Vec<usize>) -> (r: Vec<String>)
    requires
        positive_sizes(n_sizes@),
    ensures
        strings_are(r@, wb_ngrams(words(text@), n_sizes@)),
{
    let cs = chars_of(text);
    let ws = split_words(&cs);
    let ghost wv = words(text@);
    let mut out: Vec<String> = Vec::new();
    let mut i: usize = 0;
    assert(wv.subrange(0, 0) =~= Seq::<Seq<char>>::empty());
    while i < ws.len()
        invariant
            i <= ws.len(),
            positive_sizes(n_sizes@),
            wv == words(text@),
            wv.len() == ws.len(),
            forall|k: int| 0 <= k < ws.len() ==> (#[trigger] ws[k])@ == wv[k],
            strings_are(out@, wb_ngrams(wv.subrange(0, i as int), n_sizes@)),
        decreases ws.len() - i,
    {
        let ghost sub1 = wv.subrange(0, i + 1);
        assert(sub1.drop_last() =~= wv.subrange(0, i as int));
        assert(sub1.last() == ws[i as int]@);
        push_char_ngrams(&mut out, &ws[i], n_sizes, Ghost(wb_ngrams(wv.subrange(0, i as int), n_sizes@)));
        i += 1;
    }
    assert(wv.subrange(0, i as int) =~= wv);
    out
}

/// `rssplit_words` on each text, in order.
pub fn rssplit_words_many(texts: &Vec<String>, n_sizes: &Vec<usize>) -> (r: Vec<Vec<String>>)
    requires
        positive_sizes(n_sizes@),
    ensures
        r.len() == texts.len(),
        forall|i: int| 0 <= i < texts.len() ==> strings_are((#[trigger] r[i])@, word_ngrams(texts[i]@, n_sizes@)),
{
    let mut out: Vec<Vec<String>> = Vec::new();
    let mut i: usize = 0;
    while i < texts.len()
        invariant
            i <= texts.len(),
            positive_sizes(n_sizes@),
            out.len() == i,
            forall|k: int| 0 <= k < i ==> strings_are((#[trigger] out[k])@, word_ngrams(texts[k]@, n_sizes@)),
        decreases texts.len() - i,
    {
        out.push(rssplit_words(texts[i].as_str(), n_sizes));
        i += 1;
    }
    out
}

/// `rschar_ngrams` on each text, in order.
pub fn rschar_ngrams_many(texts: &Vec<String>, n_sizes: &Vec<usize>) -> (r: Vec<Vec<String>>)
    requires
        positive_sizes(n_sizes@),
    ensures
        r.len() == texts.len(),
        forall|i: int| 0 <= i < texts.len() ==> strings_are((#[trigger] r[i])@, char_ngrams(texts[i]@, n_sizes@)),
{
    let mut out: Vec<Vec<String>> = Vec::new();
    let mut i: usize = 0;
    while i < texts.len()
        invariant
            i <= texts.len(),
            positive_sizes(n_sizes@),
            out.len() == i,
            forall|k: int| 0 <= k < i ==> strings_are((#[trigger] out[k])@, char_ngrams(texts[k]@, n_sizes@)),
        decreases texts.len() - i,
    {
        out.push(rschar_ngrams(texts[i].as_str(), n_sizes));
        i += 1;
    }
    out
}

/// `rschar_wb_ngrams` on each text, in order.
pub fn rschar_wb_ngrams_many(texts: &Vec<String>, n_sizes: &Vec<usize>) -> (r: Vec<Vec<String>>)
    requires
        positive_sizes(n_sizes@),
    ensures
        r.len() == texts.len(),
        forall|i: int|
            0 <= i < texts.len() ==> strings_are((#[trigger] r[i])@, wb_ngrams(words(texts[i]@), n_sizes@)),
{
    let mut out: Vec<Vec<String>> = Vec::new();
    let mut i: usize = 0;
    while i < texts.len()
        invariant
            i <= texts.len(),
            positive_sizes(n_sizes@),
            out.len() == i,
            forall|k: int|
                0 <= k < i ==> strings_are((#[trigger] out[k])@, wb_ngrams(words(texts[k]@), n_sizes@)),
        decreases texts.len() - i,
    {
        out.push(rschar_wb_ngrams(texts[i].as_str(), n_sizes));
        i += 1;
    }
    out
}

} // verus!
