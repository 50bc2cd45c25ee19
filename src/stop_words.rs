//! Removal of stop words from whitespace-separated text.
use vstd::prelude::*;
use crate::analyzer::{join, join_range, split_words, words};
use crate::counter::views;
use crate::text::{chars_of, string_of};

verus! {

/// The words of `ws` that are not in `stops`, in order.
pub open spec fn keep_words(ws: Seq<Seq<char>>, stops: Seq<Seq<char>>) -> Seq<Seq<char>>
    decreases ws.len(),
{
    if ws.len() == 0 {
        Seq::empty()
    } else if stops.contains(ws.last()) {
        keep_words(ws.drop_last(), stops)
    } else {
        keep_words(ws.drop_last(), stops).push(ws.last())
    }
}

/// The text without its stop words, the remaining words joined with single spaces.
pub open spec fn filtered(text: Seq<char>, stops: Seq<Seq<char>>) -> Seq<char> {
    join(keep_words(words(text), stops))
}

fn is_stop_word(word: &Vec<char>, stop_words: &Vec<String>) -> (r: bool)
    ensures
        r == views(stop_words@).contains(word@),
{
    let w = string_of(word.as_slice());
    let mut i: usize = 0;
    while i < stop_words.len()
        invariant
            i <= stop_words.len(),
            w@ == word@,
            forall|k: int| 0 <= k < i ==> (#[trigger] stop_words@[k])@ != word@,
        decreases stop_words.len() - i,
    {
        if stop_words[i] == w {
            assert(views(stop_words@)[i as int] == word@);
            return true;
        }
        i += 1;
    }
    assert(!views(stop_words@).contains(word@)) by {
        if views(stop_words@).contains(word@) {
            let k = choose|k: int| 0 <= k < stop_words.len() && views(stop_words@)[k] == word@;
            assert(stop_words@[k]@ == word@);
        }
    }
    false
}

/// Splits `text` on whitespace, drops the words that are stop words and
/// joins the rest with single spaces.
pub fn rsfilter_stop_words(text: &str, stop_words: &Vec<String>) -> (r: String)
    ensures
        r@ == filtered(text@, views(stop_words@)),
{
    let cs = chars_of(text);
    let ws = split_words(&cs);
    let ghost wv = words(text@);
    let ghost stops = views(stop_words@);
    let mut kept: Vec<Vec<char>> = Vec::new();
    let mut i: usize = 0;
    assert(wv.subrange(0, 0) =~= Seq::<Seq<char>>::empty());
    while i < ws.len()
        invariant
            i <= ws.len(),
            wv == words(text@),
            stops == views(stop_words@),
            wv.len() == ws.len(),
            forall|k: int| 0 <= k < ws.len() ==> (#[trigger] ws[k])@ == wv[k],
            kept.len() == keep_words(wv.subrange(0, i as int), stops).len(),
            forall|k: int|
                0 <= k < kept.len() ==> (#[trigger] kept[k])@ == keep_words(
                    wv.subrange(0, i as int),
                    stops,
                )[k],
        decreases ws.len() - i,
    {
        let ghost sub1 = wv.subrange(0, i + 1);
        assert(sub1.drop_last() =~= wv.subrange(0, i as int));
        assert(sub1.last() == ws[i as int]@);
        if !is_stop_word(&ws[i], stop_words) {
            let w = crate::analyzer::copy_chars(&ws[i]);
            kept.push(w);
        }
        i += 1;
    }
    assert(wv.subrange(0, i as int) =~= wv);
    let ghost kv = keep_words(wv, stops);
    let joined = join_range(&kept, 0, kept.len(), Ghost(kv));
    assert(kv.subrange(0, kv.len() as int) =~= kv);
    string_of(joined.as_slice())
}

/// `rsfilter_stop_words` on each text, in order, with the same stop words.
pub fn rsfilter_stop_words_many(texts: &Vec<String>, stop_words: &Vec<String>) -> (r: Vec<String>)
    ensures
        r.len() == texts.len(),
        forall|i: int|
            0 <= i < texts.len() ==> (#[trigger] r[i])@ == filtered(texts[i]@, views(stop_words@)),
{
    let mut out: Vec<String> = Vec::new();
    let mut i: usize = 0;
    while i < texts.len()
        invariant
            i <= texts.len(),
            out.len() == i,
            forall|k: int|
                0 <= k < i ==> (#[trigger] out[k])@ == filtered(texts[k]@, views(stop_words@)),
        decreases texts.len() - i,
    {
        out.push(rsfilter_stop_words(texts[i].as_str(), stop_words));
        i += 1;
    }
    out
}

} // verus!
