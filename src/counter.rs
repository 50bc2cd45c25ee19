//! Term counting: each distinct token with the number of its occurrences.
use vstd::prelude::*;

verus! {

/// The contents of each string.
pub open spec fn views(v: Seq<String>) -> Seq<Seq<char>> {
    v.map_values(|s: String| s@)
}

/// The number of times `x` occurs in `s`.
pub open spec fn occurrences(s: Seq<Seq<char>>, x: Seq<char>) -> nat
    decreases s.len(),
{
    if s.len() == 0 {
        0
    } else {
        occurrences(s.drop_last(), x) + if s.last() == x {
            1nat
        } else {
            0nat
        }
    }
}

/// The distinct items of `s`, in order of first occurrence.
pub open spec fn distinct_in_order(s: Seq<Seq<char>>) -> Seq<Seq<char>>
    decreases s.len(),
{
    if s.len() == 0 {
        Seq::empty()
    } else {
        let d = distinct_in_order(s.drop_last());
        if d.contains(s.last()) {
            d
        } else {
            d.push(s.last())
        }
    }
}

/// Whether `r` holds, in order, these tokens with these counts.
pub open spec fn counts_are(r: Seq<(String, usize)>, tokens: Seq<Seq<char>>) -> bool {
    let d = distinct_in_order(tokens);
    &&& r.len() == d.len()
    &&& forall|i: int|
        0 <= i < d.len() ==> (#[trigger] r[i]).0@ == d[i] && r[i].1 == occurrences(tokens, d[i])
}

pub proof fn lemma_occurrences_bound(s: Seq<Seq<char>>, x: Seq<char>)
    ensures
        occurrences(s, x) <= s.len(),
        occurrences(s, x) == 0 <==> !distinct_in_order(s).contains(x),
    decreases s.len(),
{
    if s.len() > 0 {
        let p = s.drop_last();
        lemma_occurrences_bound(p, x);
        let d = distinct_in_order(p);
        let l = s.last();
        if d.contains(l) {
            if x == l {
                assert(d.contains(x));
            }
        } else {
            let e = d.push(l);
            assert(e[d.len() as int] == l);
            if d.contains(x) {
                let k = choose|k: int| 0 <= k < d.len() && d[k] == x;
                assert(e[k] == x);
            }
            if x != l && e.contains(x) {
                let k = choose|k: int| 0 <= k < e.len() && e[k] == x;
                assert(d[k] == x);
            }
        }
    }
}

/// The distinct tokens in order of first occurrence, each with its count.
pub fn count_tokens(tokens: &Vec<String>) -> (r: Vec<(String, usize)>)
    ensures
        counts_are(r@, views(tokens@)),
{
    let mut out: Vec<(String, usize)> = Vec::new();
    let mut i: usize = 0;
    assert(views(tokens@).subrange(0, 0) =~= Seq::<Seq<char>>::empty());
    while i < tokens.len()
        invariant
            i <= tokens.len(),
            counts_are(out@, views(tokens@).subrange(0, i as int)),
        decreases tokens.len() - i,
    {
        let tok = &tokens[i];
        let ghost s = views(tokens@).subrange(0, i as int);
        let ghost s1 = views(tokens@).subrange(0, i + 1);
        let ghost d = distinct_in_order(s);
        assert(s1.drop_last() =~= s);
        assert(s1.last() == tok@);
        proof {
            lemma_occurrences_bound(s, tok@);
        }
        let mut k0: usize = 0;
        let mut j: usize = out.len();
        while k0 < out.len()
            invariant
                k0 <= out.len(),
                out.len() == d.len(),
                j == out.len() || (j < out.len() && out[j as int].0@ == tok@),
                j == out.len() ==> forall|k: int| 0 <= k < k0 ==> (#[trigger] out[k]).0@ != tok@,
            decreases out.len() - k0,
        {
            if j == out.len() && out[k0].0 == *tok {
                j = k0;
            }
            k0 += 1;
        }
        if j < out.len() {
            assert(out[j as int].0@ == tok@);
            assert(d[j as int] == tok@);
            assert(d.contains(tok@));
            assert(out[j as int].1 == occurrences(s, tok@));
            out[j].1 = out[j].1 + 1;
            assert(distinct_in_order(s1) == d);
            assert forall|k: int| 0 <= k < d.len() implies (#[trigger] out[k]).0@ == d[k]
                && out[k].1 == occurrences(s1, d[k]) by {
                assert(occurrences(s1, d[k]) == occurrences(s, d[k]) + if tok@ == d[k] {
                    1nat
                } else {
                    0nat
                });
                if k != j {
                    assert(d[k] != tok@) by {
                        assert(out[k].0@ == d[k]);
                        lemma_distinct(s, k, j as int);
                    }
                }
            }
        } else {
            assert(!d.contains(tok@)) by {
                if d.contains(tok@) {
                    let k = choose|k: int| 0 <= k < d.len() && d[k] == tok@;
                    assert(out[k].0@ == d[k]);
                }
            }
            out.push((tok.clone(), 1));
            assert(distinct_in_order(s1) == d.push(tok@));
            assert forall|k: int| 0 <= k < d.len() + 1 implies (#[trigger] out[k]).0@ == d.push(
                tok@,
            )[k] && out[k].1 == occurrences(s1, d.push(tok@)[k]) by {
                if k < d.len() {
                    assert(occurrences(s1, d[k]) == occurrences(s, d[k]));
                }
            }
        }
        i += 1;
    }
    assert(views(tokens@).subrange(0, i as int) =~= views(tokens@));
    out
}

/// Items of `distinct_in_order` are pairwise different.
pub proof fn lemma_distinct(s: Seq<Seq<char>>, a: int, b: int)
    requires
        0 <= a < distinct_in_order(s).len(),
        0 <= b < distinct_in_order(s).len(),
        a != b,
    ensures
        distinct_in_order(s)[a] != distinct_in_order(s)[b],
    decreases s.len(),
{
    let d = distinct_in_order(s.drop_last());
    if d.contains(s.last()) {
        lemma_distinct(s.drop_last(), a, b);
    } else if a < d.len() && b < d.len() {
        lemma_distinct(s.drop_last(), a, b);
    } else if a < d.len() {
        assert(distinct_in_order(s)[a] == d[a]);
    } else {
        assert(distinct_in_order(s)[b] == d[b]);
    }
}

/// Counts the occurrences of each token; the tokens come in order of first
/// occurrence.
pub fn rscount(text: Vec<String>) -> (r: Vec<(String, usize)>)
    ensures
        counts_are(r@, views(text@)),
{
    count_tokens(&text)
}

/// `rscount` on each token list, in order.
pub fn rscount_many(texts: Vec<Vec<String>>) -> (r: Vec<Vec<(String, usize)>>)
    ensures
        r.len() == texts.len(),
        forall|i: int| 0 <= i < texts.len() ==> counts_are((#[trigger] r[i])@, views(texts[i]@)),
{
    let mut out: Vec<Vec<(String, usize)>> = Vec::new();
    let mut i: usize = 0;
    while i < texts.len()
        invariant
            i <= texts.len(),
            out.len() == i,
            forall|k: int| 0 <= k < i ==> counts_are((#[trigger] out[k])@, views(texts[k]@)),
        decreases texts.len() - i,
    {
        out.push(count_tokens(&texts[i]));
        i += 1;
    }
    out
}

} // verus!
