//! Multi-keyword matching over a character trie, reporting matches as byte
//! spans of the input text.
use vstd::prelude::*;
use crate::normalizer::{clean, clean_chars, normalize_chars, normalize_text};
use crate::text::{
    byte_len, char_width, chars_of, is_word_char, lower_of, lowercase_char, translit_of,
    transliterate_char, utf8_width, word_char,
};

verus! {

/// A trie node: its outgoing edges, as (character, index of the child node)
/// pairs, whether a keyword ends here, and the label of that keyword.
pub struct RSTrieNode {
    pub children: Vec<(char, usize)>,
    pub is_end: bool,
    pub clean_name: Option<String>,
}

impl RSTrieNode {
    pub fn new() -> (r: Self)
        ensures
            r.children@.len() == 0,
            !r.is_end,
            r.clean_name is None,
    {
        RSTrieNode { children: Vec::new(), is_end: false, clean_name: None }
    }
}

/// The child reached from a node with these edges along `c`; a later edge
/// wins over an earlier one.
pub open spec fn child_in(edges: Seq<(char, usize)>, c: char) -> Option<usize>
    decreases edges.len(),
{
    if edges.len() == 0 {
        None
    } else if edges.last().0 == c {
        Some(edges.last().1)
    } else {
        child_in(edges.drop_last(), c)
    }
}

/// The node reached from the root (node 0) along `p`, if any.
pub open spec fn walk(nodes: Seq<RSTrieNode>, p: Seq<char>) -> Option<int>
    decreases p.len(),
{
    if p.len() == 0 {
        Some(0)
    } else {
        match walk(nodes, p.drop_last()) {
            Some(m) => if 0 <= m < nodes.len() {
                match child_in(nodes[m].children@, p.last()) {
                    Some(k) => Some(k as int),
                    None => None,
                }
            } else {
                None
            },
            None => None,
        }
    }
}

/// Whether a keyword ends at node `m`.
pub open spec fn ends_at(nodes: Seq<RSTrieNode>, m: int) -> bool {
    0 <= m < nodes.len() && nodes[m].is_end && nodes[m].clean_name is Some
}

/// The label of the keyword that ends at node `m`.
pub open spec fn label_at(nodes: Seq<RSTrieNode>, m: int) -> Seq<char> {
    nodes[m].clean_name->0@
}

/// Whether the canonical keyword `p` is in the trie.
pub open spec fn has_keyword(nodes: Seq<RSTrieNode>, p: Seq<char>) -> bool {
    walk(nodes, p) is Some && ends_at(nodes, walk(nodes, p)->0)
}

/// The keywords of a trie, each with its label.
pub open spec fn keyword_map(nodes: Seq<RSTrieNode>) -> Map<Seq<char>, Seq<char>> {
    Map::new(|p: Seq<char>| has_keyword(nodes, p), |p: Seq<char>| label_at(nodes, walk(nodes, p)->0))
}

/// The number of nodes at which a keyword ends.
pub open spec fn num_ends(nodes: Seq<RSTrieNode>) -> nat
    decreases nodes.len(),
{
    if nodes.len() == 0 {
        0
    } else {
        num_ends(nodes.drop_last()) + if nodes.last().is_end {
            1nat
        } else {
            0nat
        }
    }
}

/// Each character lowercased, in order.
pub open spec fn lower_text(s: Seq<char>) -> Seq<char>
    decreases s.len(),
{
    if s.len() == 0 {
        Seq::empty()
    } else {
        lower_text(s.drop_last()) + lower_of(s.last())
    }
}

/// The canonical form under which a keyword is stored. Lowercasing goes
/// character by character, as it does for sentences, so that both sides
/// agree; it does not apply the context rule for a word-final sigma.
pub open spec fn canon_keyword(k: Seq<char>, normalize: bool, lowercase: bool) -> Seq<char> {
    if normalize {
        normalize_text(k)
    } else if lowercase {
        lower_text(k)
    } else {
        k
    }
}

/// The label given to a keyword: the one supplied, else the keyword as written.
pub open spec fn label_for(keyword: Seq<char>, clean_name: Option<&str>) -> Seq<char> {
    match clean_name {
        Some(n) => n@,
        None => keyword,
    }
}


/// What one character of a sentence becomes in canonical form.
pub open spec fn canon_char(c: char, normalize: bool, lowercase: bool) -> Seq<char> {
    if normalize {
        clean(translit_of(c))
    } else if lowercase {
        lower_of(c)
    } else {
        seq![c]
    }
}

/// The canonical form of a sentence: that of each of its characters, in order.
pub open spec fn canon_text(s: Seq<char>, normalize: bool, lowercase: bool) -> Seq<char>
    decreases s.len(),
{
    if s.len() == 0 {
        Seq::empty()
    } else {
        canon_text(s.drop_last(), normalize, lowercase) + canon_char(s.last(), normalize, lowercase)
    }
}

/// For each canonical character, the byte offset at which the sentence
/// character it comes from starts.
pub open spec fn canon_starts(s: Seq<char>, normalize: bool, lowercase: bool) -> Seq<int>
    decreases s.len(),
{
    if s.len() == 0 {
        Seq::empty()
    } else {
        canon_starts(s.drop_last(), normalize, lowercase) + Seq::new(
            canon_char(s.last(), normalize, lowercase).len(),
            |j: int| byte_len(s.drop_last()) as int,
        )
    }
}

/// For each canonical character, the byte offset at which the sentence
/// character it comes from ends.
pub open spec fn canon_ends(s: Seq<char>, normalize: bool, lowercase: bool) -> Seq<int>
    decreases s.len(),
{
    if s.len() == 0 {
        Seq::empty()
    } else {
        canon_ends(s.drop_last(), normalize, lowercase) + Seq::new(
            canon_char(s.last(), normalize, lowercase).len(),
            |j: int| (byte_len(s.drop_last()) + utf8_width(s.last())) as int,
        )
    }
}

/// The scanner's state after reading the canonical text `t`: the trie node
/// reached, where the current candidate span starts, and the matches found
/// so far as (node, first index, index past the end).
pub open spec fn scan(nodes: Seq<RSTrieNode>, t: Seq<char>) -> (int, int, Seq<(int, int, int)>)
    decreases t.len(),
{
    if t.len() == 0 {
        (0, 0, Seq::empty())
    } else {
        let prev = scan(nodes, t.drop_last());
        let i = t.len() - 1;
        let c = t.last();
        if !is_word_char(c) && ends_at(nodes, prev.0) && prev.1 < i {
            (0, i + 1, prev.2.push((prev.0, prev.1, i)))
        } else {
            let next = if 0 <= prev.0 < nodes.len() {
                child_in(nodes[prev.0].children@, c)
            } else {
                None
            };
            match next {
                Some(k) => (k as int, prev.1, prev.2),
                None => (0, i + 1, prev.2),
            }
        }
    }
}

/// The matches in the canonical text `t`, including one that ends with it.
pub open spec fn scan_matches(nodes: Seq<RSTrieNode>, t: Seq<char>) -> Seq<(int, int, int)> {
    let st = scan(nodes, t);
    if ends_at(nodes, st.0) && st.1 < t.len() {
        st.2.push((st.0, st.1, t.len() as int))
    } else {
        st.2
    }
}

proof fn lemma_canon_lens(s: Seq<char>, normalize: bool, lowercase: bool)
    ensures
        canon_starts(s, normalize, lowercase).len() == canon_text(s, normalize, lowercase).len(),
        canon_ends(s, normalize, lowercase).len() == canon_text(s, normalize, lowercase).len(),
    decreases s.len(),
{
    if s.len() > 0 {
        lemma_canon_lens(s.drop_last(), normalize, lowercase);
    }
}


/// Each canonical character comes from a non-empty byte span of the sentence,
/// and these spans never move backwards.
pub proof fn lemma_canon_offsets(s: Seq<char>, normalize: bool, lowercase: bool)
    ensures
        canon_starts(s, normalize, lowercase).len() == canon_text(s, normalize, lowercase).len(),
        canon_ends(s, normalize, lowercase).len() == canon_text(s, normalize, lowercase).len(),
        forall|k: int|
            0 <= k < canon_starts(s, normalize, lowercase).len() ==> 0 <= #[trigger] canon_starts(
                s,
                normalize,
                lowercase,
            )[k] < canon_ends(s, normalize, lowercase)[k] <= byte_len(s),
        forall|k1: int, k2: int|
            0 <= k1 <= k2 < canon_starts(s, normalize, lowercase).len() ==> #[trigger] canon_starts(
                s,
                normalize,
                lowercase,
            )[k1] <= #[trigger] canon_starts(s, normalize, lowercase)[k2],
        forall|k1: int, k2: int|
            0 <= k1 <= k2 < canon_ends(s, normalize, lowercase).len() ==> #[trigger] canon_ends(
                s,
                normalize,
                lowercase,
            )[k1] <= #[trigger] canon_ends(s, normalize, lowercase)[k2],
    decreases s.len(),
{
    lemma_canon_lens(s, normalize, lowercase);
    if s.len() > 0 {
        let p = s.drop_last();
        lemma_canon_offsets(p, normalize, lowercase);
        let st = canon_starts(s, normalize, lowercase);
        let en = canon_ends(s, normalize, lowercase);
        let st0 = canon_starts(p, normalize, lowercase);
        let en0 = canon_ends(p, normalize, lowercase);
        let n0 = st0.len();
        assert forall|k: int| 0 <= k < st.len() implies 0 <= #[trigger] st[k] < en[k] <= byte_len(s) by {
            if k < n0 {
                assert(st[k] == st0[k]);
                assert(en[k] == en0[k]);
            }
        }
        assert forall|k1: int, k2: int| 0 <= k1 <= k2 < st.len() implies #[trigger] st[k1] <= #[trigger] st[k2] by {
            if k2 < n0 {
                assert(st[k1] == st0[k1]);
                assert(st[k2] == st0[k2]);
            } else if k1 < n0 {
                assert(st[k1] == st0[k1]);
                assert(st0[k1] < en0[k1]);
            }
        }
        let top = (byte_len(p) + utf8_width(s.last())) as int;
        assert forall|k1: int, k2: int| 0 <= k1 <= k2 < en.len() implies #[trigger] en[k1] <= #[trigger] en[k2] by {
            if k2 < n0 {
                assert(en[k1] == en0[k1]);
                assert(en[k2] == en0[k2]);
            } else if k1 < n0 {
                assert(en[k1] == en0[k1]);
                assert(st0[k1] < en0[k1]);
                assert(en[k2] == top);
            } else {
                assert(en[k1] == top);
                assert(en[k2] == top);
            }
        }
    }
}

/// For each canonical character, the index of the sentence character it
/// comes from.
pub open spec fn canon_source(s: Seq<char>, normalize: bool, lowercase: bool) -> Seq<int>
    decreases s.len(),
{
    if s.len() == 0 {
        Seq::empty()
    } else {
        canon_source(s.drop_last(), normalize, lowercase) + Seq::new(
            canon_char(s.last(), normalize, lowercase).len(),
            |j: int| (s.len() - 1) as int,
        )
    }
}

/// The byte span of each canonical character is that of the sentence
/// character it comes from: it starts at the byte length of the characters
/// before it and ends at that of the characters up to it.
pub proof fn lemma_canon_source(s: Seq<char>, normalize: bool, lowercase: bool)
    ensures
        canon_source(s, normalize, lowercase).len() == canon_starts(s, normalize, lowercase).len(),
        forall|k: int|
            0 <= k < canon_source(s, normalize, lowercase).len() ==> {
                let i = #[trigger] canon_source(s, normalize, lowercase)[k];
                &&& 0 <= i < s.len()
                &&& canon_starts(s, normalize, lowercase)[k] == byte_len(s.subrange(0, i))
                &&& canon_ends(s, normalize, lowercase)[k] == byte_len(s.subrange(0, i + 1))
            },
    decreases s.len(),
{
    lemma_canon_lens(s, normalize, lowercase);
    if s.len() > 0 {
        let p = s.drop_last();
        lemma_canon_source(p, normalize, lowercase);
        lemma_canon_lens(p, normalize, lowercase);
        let src = canon_source(s, normalize, lowercase);
        let src0 = canon_source(p, normalize, lowercase);
        let st = canon_starts(s, normalize, lowercase);
        let en = canon_ends(s, normalize, lowercase);
        let n0 = src0.len();
        assert(s.subrange(0, s.len() as int) =~= s);
        assert(s.subrange(0, p.len() as int) =~= p);
        assert forall|k: int| 0 <= k < src.len() implies {
            let i = #[trigger] src[k];
            &&& 0 <= i < s.len()
            &&& st[k] == byte_len(s.subrange(0, i))
            &&& en[k] == byte_len(s.subrange(0, i + 1))
        } by {
            if k < n0 {
                let i = src0[k];
                assert(src[k] == i);
                assert(st[k] == canon_starts(p, normalize, lowercase)[k]);
                assert(en[k] == canon_ends(p, normalize, lowercase)[k]);
                assert(p.subrange(0, i) =~= s.subrange(0, i));
                assert(p.subrange(0, i + 1) =~= s.subrange(0, i + 1));
            }
        }
    }
}

/// When each sentence character gives at most one canonical character, the
/// byte spans of distinct canonical characters do not overlap.
pub proof fn lemma_canon_disjoint(s: Seq<char>, normalize: bool, lowercase: bool)
    requires
        forall|i: int| 0 <= i < s.len() ==> canon_char(#[trigger] s[i], normalize, lowercase).len() <= 1,
    ensures
        forall|k1: int, k2: int|
            0 <= k1 < k2 < canon_starts(s, normalize, lowercase).len() ==> #[trigger] canon_ends(
                s,
                normalize,
                lowercase,
            )[k1] <= #[trigger] canon_starts(s, normalize, lowercase)[k2],
    decreases s.len(),
{
    if s.len() > 0 {
        let p = s.drop_last();
        assert forall|i: int| 0 <= i < p.len() implies canon_char(#[trigger] p[i], normalize, lowercase).len() <= 1 by {
            assert(p[i] == s[i]);
        }
        lemma_canon_disjoint(p, normalize, lowercase);
        lemma_canon_offsets(p, normalize, lowercase);
        lemma_canon_lens(s, normalize, lowercase);
        let st = canon_starts(s, normalize, lowercase);
        let en = canon_ends(s, normalize, lowercase);
        let st0 = canon_starts(p, normalize, lowercase);
        let en0 = canon_ends(p, normalize, lowercase);
        let n0 = st0.len();
        assert(canon_char(s[s.len() - 1], normalize, lowercase).len() <= 1);
        assert(st.len() <= n0 + 1);
        assert forall|k1: int, k2: int| 0 <= k1 < k2 < st.len() implies #[trigger] en[k1] <= #[trigger] st[k2] by {
            assert(k1 < n0);
            assert(en[k1] == en0[k1]);
            assert(st0[k1] < en0[k1]);
            if k2 < n0 {
                assert(st[k2] == st0[k2]);
            } else {
                assert(st[k2] == byte_len(p) as int);
            }
        }
    }
}

/// An ASCII character gives at most one canonical character.
pub proof fn lemma_canon_ascii(c: char, normalize: bool, lowercase: bool)
    requires
        crate::text::is_ascii_char(c),
    ensures
        canon_char(c, normalize, lowercase).len() <= 1,
{
    if normalize {
        assert(seq![c].drop_last() =~= Seq::<char>::empty());
        assert(clean(Seq::<char>::empty()).len() == 0);
    }
}

/// The keyword scan's matches are ordered and apart: each ends before the
/// next starts, and all lie within the text.
pub proof fn lemma_keyword_scan_order(kw: Map<Seq<char>, Seq<char>>, t: Seq<char>)
    ensures
        0 <= keyword_scan(kw, t).1 <= t.len(),
        forall|j: int|
            0 <= j < keyword_scan(kw, t).2.len() ==> 0 <= (#[trigger] keyword_scan(kw, t).2[j]).1
                < keyword_scan(kw, t).2[j].2 < keyword_scan(kw, t).1,
        forall|j: int|
            0 <= j && j + 1 < keyword_scan(kw, t).2.len() ==> (#[trigger] keyword_scan(kw, t).2[j]).2
                < keyword_scan(kw, t).2[j + 1].1,
    decreases t.len(),
{
    if t.len() > 0 {
        lemma_keyword_scan_order(kw, t.drop_last());
        let prev = keyword_scan(kw, t.drop_last());
        let cur = keyword_scan(kw, t);
        assert forall|j: int| 0 <= j < cur.2.len() implies 0 <= (#[trigger] cur.2[j]).1 < cur.2[j].2
            < cur.1 by {
            if j < prev.2.len() {
                assert(cur.2[j] == prev.2[j]);
            }
        }
        assert forall|j: int| 0 <= j && j + 1 < cur.2.len() implies (#[trigger] cur.2[j]).2
            < cur.2[j + 1].1 by {
            assert(cur.2[j] == prev.2[j]);
            if j + 1 < prev.2.len() {
                assert(cur.2[j + 1] == prev.2[j + 1]);
            }
        }
    }
}

/// Reported matches come in scan order: starts and ends never decrease. On
/// an ASCII sentence each match also ends before the next one starts.
pub proof fn lemma_extraction_order(
    kw: Map<Seq<char>, Seq<char>>,
    normalize: bool,
    lowercase: bool,
    sentence: Seq<char>,
)
    ensures
        forall|j: int|
            0 <= j && j + 1 < extraction(kw, normalize, lowercase, sentence).len() ==> {
                &&& (#[trigger] extraction(kw, normalize, lowercase, sentence)[j]).1 <= extraction(
                    kw,
                    normalize,
                    lowercase,
                    sentence,
                )[j + 1].1
                &&& extraction(kw, normalize, lowercase, sentence)[j].2 <= extraction(
                    kw,
                    normalize,
                    lowercase,
                    sentence,
                )[j + 1].2
                &&& crate::text::all_ascii(sentence) ==> extraction(
                    kw,
                    normalize,
                    lowercase,
                    sentence,
                )[j].2 < extraction(kw, normalize, lowercase, sentence)[j + 1].1
            },
{
    let t = canon_text(sentence, normalize, lowercase);
    let st = canon_starts(sentence, normalize, lowercase);
    let en = canon_ends(sentence, normalize, lowercase);
    let r = extraction(kw, normalize, lowercase, sentence);
    let sc = keyword_scan(kw, t);
    let ms = keyword_matches(kw, t);
    lemma_keyword_scan_order(kw, t);
    lemma_canon_offsets(sentence, normalize, lowercase);
    assert forall|j: int| 0 <= j < ms.len() implies 0 <= (#[trigger] ms[j]).1 < ms[j].2 <= t.len()
        && (j + 1 < ms.len() ==> ms[j].2 < ms[j + 1].1) by {
        if j < sc.2.len() {
            assert(ms[j] == sc.2[j]);
            if j + 1 < sc.2.len() {
                assert(ms[j + 1] == sc.2[j + 1]);
            }
        }
    }
    if crate::text::all_ascii(sentence) {
        assert forall|i: int| 0 <= i < sentence.len() implies canon_char(
            #[trigger] sentence[i],
            normalize,
            lowercase,
        ).len() <= 1 by {
            lemma_canon_ascii(sentence[i], normalize, lowercase);
        }
        lemma_canon_disjoint(sentence, normalize, lowercase);
    }
    assert forall|j: int| 0 <= j && j + 1 < r.len() implies {
        &&& (#[trigger] r[j]).1 <= r[j + 1].1
        &&& r[j].2 <= r[j + 1].2
        &&& crate::text::all_ascii(sentence) ==> r[j].2 < r[j + 1].1
    } by {
        let a = ms[j];
        let b = ms[j + 1];
        assert(a.2 < b.1);
        assert(st[a.1] <= st[b.1]);
        assert(en[a.2 - 1] <= en[b.2 - 1]);
        if crate::text::all_ascii(sentence) {
            assert(en[a.2 - 1] <= st[a.2]);
            assert(st[a.2] < en[a.2]);
            assert(en[a.2] <= st[b.1]);
        }
    }
}

/// The label of each keyword added with `clean_name`.
pub open spec fn labels_all(keywords: Seq<String>, clean_name: Option<&str>) -> Seq<Seq<char>> {
    keywords.map_values(|k: String| label_for(k@, clean_name))
}

/// The keyword map after adding the canonical keywords `ks` in order, with
/// labels `ls`; a keyword already present keeps its label.
pub open spec fn add_all(
    m: Map<Seq<char>, Seq<char>>,
    ks: Seq<Seq<char>>,
    ls: Seq<Seq<char>>,
) -> Map<Seq<char>, Seq<char>>
    decreases ks.len(),
{
    if ks.len() == 0 {
        m
    } else {
        let prev = add_all(m, ks.drop_last(), ls.drop_last());
        if prev.contains_key(ks.last()) {
            prev
        } else {
            prev.insert(ks.last(), ls[ks.len() - 1])
        }
    }
}

/// Whether `p` is a prefix of `k`.
pub open spec fn is_prefix(p: Seq<char>, k: Seq<char>) -> bool {
    p.len() <= k.len() && k.subrange(0, p.len() as int) == p
}

/// Whether `p` is a prefix of some keyword of `kw`.
pub open spec fn is_key_prefix(kw: Map<Seq<char>, Seq<char>>, p: Seq<char>) -> bool {
    exists|k: Seq<char>| kw.contains_key(k) && #[trigger] is_prefix(p, k)
}


/// The state after scanning the canonical text `t` against the keywords
/// `kw`: the candidate (a prefix of some keyword, or empty), where it starts,
/// and the matches so far as (keyword, first index, index past the end).
///
/// A character that is not a word character ends the candidate: if the
/// candidate is a keyword it is reported. Otherwise the character extends
/// the candidate when that still leads to a keyword (a keyword may hold
/// spaces), and else the scan starts afresh after it. A word character
/// extends the candidate when that still leads to a keyword, and else the
/// scan starts afresh after it.
pub open spec fn keyword_scan(kw: Map<Seq<char>, Seq<char>>, t: Seq<char>) -> (
    Seq<char>,
    int,
    Seq<(Seq<char>, int, int)>,
)
    decreases t.len(),
{
    if t.len() == 0 {
        (Seq::empty(), 0, Seq::empty())
    } else {
        let prev = keyword_scan(kw, t.drop_last());
        let i = t.len() - 1;
        let c = t.last();
        if !is_word_char(c) && kw.contains_key(prev.0) && prev.1 < i {
            (Seq::empty(), i + 1, prev.2.push((prev.0, prev.1, i)))
        } else if is_key_prefix(kw, prev.0.push(c)) {
            (prev.0.push(c), prev.1, prev.2)
        } else {
            (Seq::empty(), i + 1, prev.2)
        }
    }
}

/// The keyword matches in the canonical text `t`, including one that ends
/// with it.
pub open spec fn keyword_matches(kw: Map<Seq<char>, Seq<char>>, t: Seq<char>) -> Seq<(Seq<char>, int, int)> {
    let st = keyword_scan(kw, t);
    if kw.contains_key(st.0) && st.1 < t.len() {
        st.2.push((st.0, st.1, t.len() as int))
    } else {
        st.2
    }
}

/// What extraction reports for `sentence` with keywords `kw`: each match's
/// label and the byte span of the sentence characters it comes from.
pub open spec fn extraction(
    kw: Map<Seq<char>, Seq<char>>,
    normalize: bool,
    lowercase: bool,
    sentence: Seq<char>,
) -> Seq<(Seq<char>, int, int)> {
    let t = canon_text(sentence, normalize, lowercase);
    let starts = canon_starts(sentence, normalize, lowercase);
    let ends = canon_ends(sentence, normalize, lowercase);
    keyword_matches(kw, t).map_values(
        |m: (Seq<char>, int, int)| (kw[m.0], starts[m.1], ends[m.2 - 1]),
    )
}

proof fn lemma_walk_prefix(nodes: Seq<RSTrieNode>, k: Seq<char>, n: int)
    requires
        walk(nodes, k) is Some,
        0 <= n <= k.len(),
    ensures
        walk(nodes, k.subrange(0, n)) is Some,
    decreases k.len(),
{
    if n == k.len() {
        assert(k.subrange(0, n) =~= k);
    } else {
        lemma_walk_prefix(nodes, k.drop_last(), n);
        assert(k.drop_last().subrange(0, n) =~= k.subrange(0, n));
    }
}

pub struct RSKeywordProcessor {
    nodes: Vec<RSTrieNode>,
    lowercase: bool,
    normalize: bool,
    terms_in_trie: usize,
    /// The path from the root to each node.
    paths: Ghost<Seq<Seq<char>>>,
}

proof fn lemma_child_in_mem(edges: Seq<(char, usize)>, c: char) -> (i: int)
    requires
        child_in(edges, c) is Some,
    ensures
        0 <= i < edges.len(),
        edges[i].0 == c,
        edges[i].1 == child_in(edges, c)->0,
    decreases edges.len(),
{
    if edges.last().0 == c {
        edges.len() - 1
    } else {
        let i = lemma_child_in_mem(edges.drop_last(), c);
        assert(edges[i] == edges.drop_last()[i]);
        i
    }
}

proof fn lemma_child_in_push(edges: Seq<(char, usize)>, e: (char, usize), c: char)
    ensures
        child_in(edges.push(e), c) == if e.0 == c {
            Some(e.1)
        } else {
            child_in(edges, c)
        },
{
    assert(edges.push(e).drop_last() =~= edges);
}

proof fn lemma_num_ends_push(nodes: Seq<RSTrieNode>, x: RSTrieNode)
    ensures
        num_ends(nodes.push(x)) == num_ends(nodes) + if x.is_end {
            1nat
        } else {
            0nat
        },
{
    assert(nodes.push(x).drop_last() =~= nodes);
}

proof fn lemma_num_ends_update(nodes: Seq<RSTrieNode>, i: int, x: RSTrieNode)
    requires
        0 <= i < nodes.len(),
    ensures
        num_ends(nodes.update(i, x)) + (if nodes[i].is_end {
            1nat
        } else {
            0nat
        }) == num_ends(nodes) + if x.is_end {
            1nat
        } else {
            0nat
        },
    decreases nodes.len(),
{
    if i == nodes.len() - 1 {
        assert(nodes.update(i, x).drop_last() =~= nodes.drop_last());
    } else {
        lemma_num_ends_update(nodes.drop_last(), i, x);
        assert(nodes.update(i, x).drop_last() =~= nodes.drop_last().update(i, x));
    }
}

proof fn lemma_num_ends_bound(nodes: Seq<RSTrieNode>)
    ensures
        num_ends(nodes) <= nodes.len(),
    decreases nodes.len(),
{
    if nodes.len() > 0 {
        lemma_num_ends_bound(nodes.drop_last());
    }
}

/// Walking depends on the edges alone.
proof fn lemma_walk_same_edges(a: Seq<RSTrieNode>, b: Seq<RSTrieNode>, p: Seq<char>)
    requires
        a.len() == b.len(),
        forall|m: int| 0 <= m < a.len() ==> (#[trigger] a[m]).children@ == b[m].children@,
    ensures
        walk(a, p) == walk(b, p),
    decreases p.len(),
{
    if p.len() > 0 {
        lemma_walk_same_edges(a, b, p.drop_last());
    }
}


/// Adding an edge `(c, L)` from `cur` to a fresh leaf `L` keeps every walk
/// that existed, and every new walk ends at `L`.
proof fn lemma_walk_extend(
    a: Seq<RSTrieNode>,
    b: Seq<RSTrieNode>,
    cur: int,
    c: char,
    l: usize,
    p: Seq<char>,
)
    requires
        0 <= cur < a.len(),
        l == a.len(),
        b.len() == a.len() + 1,
        b[a.len() as int].children@.len() == 0,
        child_in(a[cur].children@, c) is None,
        b[cur].children@ == a[cur].children@.push((c, l)),
        forall|m: int| 0 <= m < a.len() && m != cur ==> (#[trigger] b[m]).children@ == a[m].children@,
        forall|n: int, i: int|
            0 <= n < a.len() && 0 <= i < a[n].children.len() ==> (#[trigger] a[n].children@[i]).1
                < a.len(),
    ensures
        walk(a, p) is Some ==> 0 <= walk(a, p)->0 < a.len() && walk(b, p) == walk(a, p),
        walk(b, p) is Some && walk(b, p)->0 != a.len() ==> walk(a, p) == walk(b, p),
    decreases p.len(),
{
    if p.len() > 0 {
        let q = p.drop_last();
        let d = p.last();
        lemma_walk_extend(a, b, cur, c, l, q);
        lemma_child_in_push(a[cur].children@, (c, l), d);
        assert(p.drop_last() == q);
        if walk(a, q) is Some {
            let m = walk(a, q)->0;
            if child_in(a[m].children@, d) is Some {
                let i = lemma_child_in_mem(a[m].children@, d);
                assert(a[m].children@[i].1 < a.len());
            }
            if m != cur {
                assert(b[m].children@ == a[m].children@);
            }
        } else if walk(b, q) is Some {
            let l = a.len() as int;
            assert(walk(b, q)->0 == l);
            assert(child_in(b[l].children@, d) is None);
        }
    }
}

/// Lowercases each character of `s`.
pub fn lower_chars(s: &str) -> (r: Vec<char>)
    ensures
        r@ == lower_text(s@),
{
    let cs = chars_of(s);
    let mut out: Vec<char> = Vec::new();
    let mut i: usize = 0;
    while i < cs.len()
        invariant
            i <= cs.len(),
            out@ == lower_text(cs@.subrange(0, i as int)),
        decreases cs.len() - i,
    {
        let mut l = lowercase_char(cs[i]);
        assert(cs@.subrange(0, i + 1).drop_last() =~= cs@.subrange(0, i as int));
        out.append(&mut l);
        i += 1;
    }
    assert(cs@.subrange(0, cs.len() as int) =~= cs@);
    out
}

impl RSKeywordProcessor {
    pub closed spec fn wf(&self) -> bool {
        &&& self.wf_core()
        &&& forall|m: int|
            0 < m < self.nodes.len() ==> is_key_prefix(
                keyword_map(self.nodes@),
                #[trigger] self.paths@[m],
            )
    }

    /// The arena's shape: edges stay inside it, each node records its path,
    /// end nodes carry a label, and the counter counts end nodes.
    closed spec fn wf_core(&self) -> bool {
        &&& self.nodes.len() >= 1
        &&& self.paths@.len() == self.nodes.len()
        &&& self.paths@[0] == Seq::<char>::empty()
        &&& forall|n: int, i: int|
            0 <= n < self.nodes.len() && 0 <= i < self.nodes@[n].children.len() ==> {
                let e = #[trigger] self.nodes@[n].children@[i];
                &&& e.1 < self.nodes.len()
                &&& self.paths@[e.1 as int] == self.paths@[n].push(e.0)
            }
        &&& forall|n: int|
            0 <= n < self.nodes.len() && (#[trigger] self.nodes@[n]).is_end
                ==> self.nodes@[n].clean_name is Some
        &&& self.terms_in_trie == num_ends(self.nodes@)
    }

    /// The stored keywords, in canonical form, each with its label.
    pub closed spec fn keywords(&self) -> Map<Seq<char>, Seq<char>> {
        keyword_map(self.nodes@)
    }

    pub closed spec fn spec_lowercase(&self) -> bool {
        self.lowercase
    }

    pub closed spec fn spec_normalize(&self) -> bool {
        self.normalize
    }

    /// The number of distinct keywords stored.
    pub closed spec fn spec_terms(&self) -> nat {
        self.terms_in_trie as nat
    }

    /// Every node reached along a path records that path.
    proof fn lemma_walk_path(&self, p: Seq<char>)
        requires
            self.wf_core(),
            walk(self.nodes@, p) is Some,
        ensures
            0 <= walk(self.nodes@, p)->0 < self.nodes.len(),
            self.paths@[walk(self.nodes@, p)->0] == p,
        decreases p.len(),
    {
        if p.len() > 0 {
            self.lemma_walk_path(p.drop_last());
            let m = walk(self.nodes@, p.drop_last())->0;
            let i = lemma_child_in_mem(self.nodes@[m].children@, p.last());
            let e = self.nodes@[m].children@[i];
            assert(self.paths@[e.1 as int] == self.paths@[m].push(e.0));
            assert(p.drop_last().push(p.last()) =~= p);
        }
    }

    pub fn new(lowercase: bool, normalize: bool) -> (r: Self)
        ensures
            r.wf(),
            r.keywords() == Map::<Seq<char>, Seq<char>>::empty(),
            r.spec_lowercase() == lowercase,
            r.spec_normalize() == normalize,
            r.spec_terms() == 0,
    {
        let mut nodes: Vec<RSTrieNode> = Vec::new();
        nodes.push(RSTrieNode::new());
        let ghost paths = seq![Seq::<char>::empty()];
        let r = RSKeywordProcessor {
            nodes,
            lowercase,
            normalize,
            terms_in_trie: 0,
            paths: Ghost(paths),
        };
        assert(r.nodes@.drop_last() =~= Seq::<RSTrieNode>::empty());
        assert(num_ends(Seq::<RSTrieNode>::empty()) == 0);
        assert(!r.nodes@.last().is_end);
        assert(num_ends(r.nodes@) == 0);
        assert(r.nodes@[0].children@.len() == 0);
        assert(r.wf());
        assert(r.keywords() =~= Map::<Seq<char>, Seq<char>>::empty()) by {
            assert forall|p: Seq<char>| !has_keyword(r.nodes@, p) by {
                if walk(r.nodes@, p) is Some {
                    r.lemma_walk_path(p);
                }
            }
        }
        r
    }

    fn find_child(&self, n: usize, c: char) -> (r: Option<usize>)
        requires
            self.wf_core(),
            n < self.nodes.len(),
        ensures
            r == child_in(self.nodes@[n as int].children@, c),
            r is Some ==> r->0 < self.nodes.len(),
    {
        let edges = &self.nodes[n].children;
        let mut j: usize = edges.len();
        assert(edges@.subrange(0, j as int) =~= edges@);
        while j > 0
            invariant
                j <= edges.len(),
                self.wf_core(),
                n < self.nodes.len(),
                edges@ == self.nodes@[n as int].children@,
                child_in(edges@, c) == child_in(edges@.subrange(0, j as int), c),
            decreases j,
        {
            assert(edges@.subrange(0, j as int).drop_last() =~= edges@.subrange(0, j - 1));
            if edges[j - 1].0 == c {
                assert(self.nodes@[n as int].children@[j - 1].1 < self.nodes.len());
                return Some(edges[j - 1].1);
            }
            j -= 1;
        }
        None
    }

    /// The canonical form of each keyword.
    pub open spec fn canonical_all(&self, keywords: Seq<String>) -> Seq<Seq<char>> {
        keywords.map_values(|k: String| self.canonical(k@))
    }

    /// The canonical form of a keyword under this processor's settings.
    pub open spec fn canonical(&self, k: Seq<char>) -> Seq<char> {
        canon_keyword(k, self.spec_normalize(), self.spec_lowercase())
    }

    fn canonical_keyword(&self, keyword: &str) -> (r: Vec<char>)
        ensures
            r@ == self.canonical(keyword@),
    {
        if self.normalize {
            normalize_chars(keyword)
        } else if self.lowercase {
            lower_chars(keyword)
        } else {
            chars_of(keyword)
        }
    }

    /// Adds an edge along `c` from node `cur`, which has none, to a new leaf.
    fn add_child(&mut self, cur: usize, c: char) -> (r: usize)
        requires
            old(self).wf_core(),
            cur < old(self).nodes.len(),
            child_in(old(self).nodes@[cur as int].children@, c) is None,
        ensures
            final(self).wf_core(),
            final(self).paths@ == old(self).paths@.push(old(self).paths@[cur as int].push(c)),
            final(self).keywords() == old(self).keywords(),
            final(self).lowercase == old(self).lowercase,
            final(self).normalize == old(self).normalize,
            final(self).terms_in_trie == old(self).terms_in_trie,
            forall|p: Seq<char>|
                walk(old(self).nodes@, p) is Some ==> #[trigger] walk(final(self).nodes@, p)
                    == walk(old(self).nodes@, p),
            r < final(self).nodes.len(),
            final(self).nodes.len() == old(self).nodes.len() + 1,
            child_in(final(self).nodes@[cur as int].children@, c) == Some(r),
    {
        let ghost a = self.nodes@;
        let l = self.nodes.len();
        self.nodes.push(RSTrieNode::new());
        let ghost mid = self.nodes@;
        self.nodes[cur].children.push((c, l));
        let ghost b = self.nodes@;
        proof {
            self.paths = Ghost(self.paths@.push(self.paths@[cur as int].push(c)));
            lemma_child_in_push(a[cur as int].children@, (c, l), c);
            assert forall|m: int| 0 <= m < a.len() && m != cur implies (#[trigger] b[m]).children@
                == a[m].children@ by {
                assert(b[m] == mid[m]);
            }
            assert forall|p: Seq<char>| true implies {
                &&& (walk(a, p) is Some ==> walk(b, p) == walk(a, p))
                &&& (has_keyword(b, p) == has_keyword(a, p))
                &&& (has_keyword(a, p) ==> label_at(b, walk(b, p)->0) == label_at(a, walk(a, p)->0))
            } by {
                lemma_walk_extend(a, b, cur as int, c, l, p);
            }
            assert(keyword_map(b) =~= keyword_map(a));
            lemma_num_ends_push(a, mid.last());
            assert(mid.drop_last() =~= a);
            lemma_num_ends_update(mid, cur as int, b[cur as int]);
            assert(b =~= mid.update(cur as int, b[cur as int]));
            assert(num_ends(mid) == num_ends(a));
            assert forall|n: int, i: int|
                0 <= n < self.nodes.len() && 0 <= i < self.nodes@[n].children.len() implies {
                    let e = #[trigger] self.nodes@[n].children@[i];
                    &&& e.1 < self.nodes.len()
                    &&& self.paths@[e.1 as int] == self.paths@[n].push(e.0)
                } by {
                if n != cur && n < a.len() {
                    assert(self.nodes@[n].children@ == a[n].children@);
                    assert(a[n].children@[i] == self.nodes@[n].children@[i]);
                } else if n == cur && i < a[cur as int].children.len() {
                    assert(self.nodes@[n].children@[i] == a[n].children@[i]);
                }
            }
        }
        l
    }

    /// Stores `keyword` under its canonical form, labelled `clean_name` or,
    /// without one, `keyword` itself. Returns false, changing nothing, when
    /// that canonical form is already stored.
    pub fn add_keyword(&mut self, keyword: &str, clean_name: Option<&str>) -> (r: bool)
        requires
            old(self).wf(),
        ensures
            old(self).inserted(*final(self), keyword@, label_for(keyword@, clean_name), r),
    {
        let label: String = match clean_name {
            Some(n) => n.to_owned(),
            None => keyword.to_owned(),
        };
        let k = self.canonical_keyword(keyword);
        let ghost old_kw = self.keywords();
        let mut cur: usize = 0;
        let mut i: usize = 0;
        while i < k.len()
            invariant
                self.wf_core(),
                forall|m: int|
                    0 < m < self.nodes.len() ==> is_key_prefix(old_kw, #[trigger] self.paths@[m])
                        || is_prefix(self.paths@[m], k@),
                i <= k.len(),
                cur < self.nodes.len(),
                walk(self.nodes@, k@.subrange(0, i as int)) == Some(cur as int),
                self.keywords() == old_kw,
                self.lowercase == old(self).lowercase,
                self.normalize == old(self).normalize,
                self.terms_in_trie == old(self).terms_in_trie,
            decreases k.len() - i,
        {
            let c = k[i];
            let ghost before = self.nodes@;
            assert(k@.subrange(0, i + 1).drop_last() =~= k@.subrange(0, i as int));
            let ghost q = k@.subrange(0, i as int);
            let ghost q1 = k@.subrange(0, i + 1);
            assert(q1.last() == c);
            assert(q1.drop_last() == q);
            let ghost old_cur = cur;
            match self.find_child(cur, c) {
                Some(nxt) => {
                    cur = nxt;
                },
                None => {
                    let ghost paths0 = self.paths@;
                    proof {
                        self.lemma_walk_path(q);
                        assert(is_prefix(q.push(c), k@)) by {
                            assert(k@.subrange(0, q.push(c).len() as int) =~= q.push(c));
                        }
                    }
                    cur = self.add_child(cur, c);
                    assert(walk(self.nodes@, q) == walk(before, q));
                    assert forall|m: int| 0 < m < self.nodes.len() implies is_key_prefix(
                        old_kw,
                        #[trigger] self.paths@[m],
                    ) || is_prefix(self.paths@[m], k@) by {
                        if m < paths0.len() {
                            assert(self.paths@[m] == paths0[m]);
                        }
                    }
                },
            }
            assert(walk(self.nodes@, q) == Some(old_cur as int));
            assert(child_in(self.nodes@[old_cur as int].children@, c) == Some(cur));
            assert(old_cur < self.nodes.len());
            assert(walk(self.nodes@, q1) == Some(cur as int));
            i += 1;
            assert(walk(self.nodes@, k@.subrange(0, i as int)) == Some(cur as int));
        }
        assert(k@.subrange(0, k.len() as int) =~= k@);
        if self.nodes[cur].is_end {
            proof {
                assert(self.keywords().contains_key(k@));
                assert forall|m: int| 0 < m < self.nodes.len() implies is_key_prefix(
                    keyword_map(self.nodes@),
                    #[trigger] self.paths@[m],
                ) by {
                    if is_prefix(self.paths@[m], k@) {
                        assert(keyword_map(self.nodes@).contains_key(k@));
                    }
                }
            }
            return false;
        }
        let ghost a = self.nodes@;
        proof {
            self.lemma_walk_path(k@);
            assert forall|p: Seq<char>| walk(a, p) == Some(cur as int) implies p == k@ by {
                self.lemma_walk_path(p);
            }
            lemma_num_ends_update(a, cur as int, RSTrieNode {
                children: a[cur as int].children,
                is_end: true,
                clean_name: Some(label),
            });
        }
        self.nodes[cur].is_end = true;
        self.nodes[cur].clean_name = Some(label);
        proof {
            let b = self.nodes@;
            assert(b =~= a.update(cur as int, RSTrieNode {
                children: a[cur as int].children,
                is_end: true,
                clean_name: Some(label),
            }));
            lemma_num_ends_bound(b);
            assert forall|p: Seq<char>| true implies walk(b, p) == walk(a, p) by {
                lemma_walk_same_edges(b, a, p);
            }
            assert(keyword_map(b) =~= keyword_map(a).insert(k@, label@));
        }
        self.terms_in_trie = self.terms_in_trie + 1;
        proof {
            let kw = keyword_map(self.nodes@);
            assert(kw == old_kw.insert(k@, label@));
            assert forall|m: int| 0 < m < self.nodes.len() implies is_key_prefix(
                kw,
                #[trigger] self.paths@[m],
            ) by {
                let p = self.paths@[m];
                if is_prefix(p, k@) {
                    assert(kw.contains_key(k@));
                } else {
                    let k2 = choose|k2: Seq<char>| old_kw.contains_key(k2) && #[trigger] is_prefix(p, k2);
                    assert(kw.contains_key(k2));
                }
            }
        }
        true
    }

    /// `add_keyword` on each keyword in order, with the same label.
    pub fn add_keywords_many(&mut self, keywords: &Vec<String>, clean_name: Option<&str>) -> (r:
        Vec<bool>)
        requires
            old(self).wf(),
        ensures
            final(self).wf(),
            r.len() == keywords.len(),
            final(self).spec_lowercase() == old(self).spec_lowercase(),
            final(self).spec_normalize() == old(self).spec_normalize(),
            final(self).keywords() == add_all(
                old(self).keywords(),
                old(self).canonical_all(keywords@),
                labels_all(keywords@, clean_name),
            ),
            forall|i: int|
                0 <= i < keywords.len() ==> #[trigger] r[i] == !add_all(
                    old(self).keywords(),
                    old(self).canonical_all(keywords@).subrange(0, i),
                    labels_all(keywords@, clean_name).subrange(0, i),
                ).contains_key(old(self).canonical(keywords[i]@)),
    {
        let ghost ks = self.canonical_all(keywords@);
        let ghost ls = labels_all(keywords@, clean_name);
        let ghost m0 = self.keywords();
        let mut out: Vec<bool> = Vec::new();
        let mut i: usize = 0;
        assert(ks.subrange(0, 0) =~= Seq::<Seq<char>>::empty());
        assert(ls.subrange(0, 0) =~= Seq::<Seq<char>>::empty());
        while i < keywords.len()
            invariant
                self.wf(),
                i <= keywords.len(),
                out.len() == i,
                ks.len() == keywords.len(),
                ls.len() == keywords.len(),
                ks == old(self).canonical_all(keywords@),
                ls == labels_all(keywords@, clean_name),
                m0 == old(self).keywords(),
                self.lowercase == old(self).lowercase,
                self.normalize == old(self).normalize,
                self.keywords() == add_all(m0, ks.subrange(0, i as int), ls.subrange(0, i as int)),
                forall|j: int|
                    0 <= j < i ==> #[trigger] out[j] == !add_all(
                        m0,
                        ks.subrange(0, j),
                        ls.subrange(0, j),
                    ).contains_key(ks[j]),
            decreases keywords.len() - i,
        {
            let ok = self.add_keyword(keywords[i].as_str(), clean_name);
            out.push(ok);
            assert(ks.subrange(0, i + 1).drop_last() =~= ks.subrange(0, i as int));
            assert(ls.subrange(0, i + 1).drop_last() =~= ls.subrange(0, i as int));
            assert(ks.subrange(0, i + 1).last() == ks[i as int]);
            assert(ls.subrange(0, i + 1).last() == ls[i as int]);
            i += 1;
        }
        assert(ks.subrange(0, i as int) =~= ks);
        assert(ls.subrange(0, i as int) =~= ls);
        out
    }

    /// The matches of the trie scan, labelled and mapped to byte offsets.
    closed spec fn trie_extracted(&self, sentence: Seq<char>) -> Seq<(Seq<char>, int, int)> {
        let t = canon_text(sentence, self.normalize, self.lowercase);
        let starts = canon_starts(sentence, self.normalize, self.lowercase);
        let ends = canon_ends(sentence, self.normalize, self.lowercase);
        scan_matches(self.nodes@, t).map_values(
            |m: (int, int, int)| (label_at(self.nodes@, m.0), starts[m.1], ends[m.2 - 1]),
        )
    }

    fn canon_piece(&self, c: char) -> (r: Vec<char>)
        ensures
            r@ == canon_char(c, self.normalize, self.lowercase),
    {
        if self.normalize {
            let v = chars_of(transliterate_char(c));
            clean_chars(&v)
        } else if self.lowercase {
            lowercase_char(c)
        } else {
            let mut v: Vec<char> = Vec::new();
            v.push(c);
            assert(v@ =~= seq![c]);
            v
        }
    }

    /// The canonical form of `sentence`, with the byte span of the sentence
    /// character that each canonical character comes from.
    fn canonical_sentence(&self, sentence: &str) -> (r: (Vec<char>, Vec<usize>, Vec<usize>))
        ensures
            r.0@ == canon_text(sentence@, self.normalize, self.lowercase),
            r.1@.map_values(|x: usize| x as int) == canon_starts(
                sentence@,
                self.normalize,
                self.lowercase,
            ),
            r.2@.map_values(|x: usize| x as int) == canon_ends(
                sentence@,
                self.normalize,
                self.lowercase,
            ),
    {
        let cs = chars_of(sentence);
        let total = sentence.as_bytes().len();
        proof {
            crate::text::lemma_byte_len_encoding(sentence@);
            assert(cs@.subrange(0, 0) =~= Seq::<char>::empty());
        }
        let ghost nz = self.normalize;
        let ghost lc = self.lowercase;
        let mut t: Vec<char> = Vec::new();
        let mut starts: Vec<usize> = Vec::new();
        let mut ends: Vec<usize> = Vec::new();
        let mut off: usize = 0;
        assert(starts@.map_values(|x: usize| x as int) =~= Seq::<int>::empty());
        assert(ends@.map_values(|x: usize| x as int) =~= Seq::<int>::empty());
        let mut i: usize = 0;
        while i < cs.len()
            invariant
                i <= cs.len(),
                cs@ == sentence@,
                total == byte_len(cs@),
                off == byte_len(cs@.subrange(0, i as int)),
                nz == self.normalize,
                lc == self.lowercase,
                t@ == canon_text(cs@.subrange(0, i as int), nz, lc),
                starts@.map_values(|x: usize| x as int) == canon_starts(
                    cs@.subrange(0, i as int),
                    nz,
                    lc,
                ),
                ends@.map_values(|x: usize| x as int) == canon_ends(
                    cs@.subrange(0, i as int),
                    nz,
                    lc,
                ),
            decreases cs.len() - i,
        {
            let c = cs[i];
            let ghost pre = cs@.subrange(0, i as int);
            let ghost pre1 = cs@.subrange(0, i + 1);
            proof {
                crate::text::lemma_byte_len_prefix(cs@, i + 1, cs.len() as int);
                assert(cs@.subrange(0, cs.len() as int) =~= cs@);
                assert(pre1.drop_last() =~= pre);
                assert(pre1.last() == c);
                lemma_canon_lens(pre, nz, lc);
            }
            let w = char_width(c);
            let next = off + w;
            let piece = self.canon_piece(c);
            let ghost base = t.len();
            let mut j: usize = 0;
            assert(starts@.map_values(|x: usize| x as int) =~= canon_starts(pre, nz, lc) + Seq::new(
                0,
                |k: int| off as int,
            ));
            assert(ends@.map_values(|x: usize| x as int) =~= canon_ends(pre, nz, lc) + Seq::new(
                0,
                |k: int| next as int,
            ));
            while j < piece.len()
                invariant
                    j <= piece.len(),
                    base == canon_text(pre, nz, lc).len(),
                    base == canon_starts(pre, nz, lc).len(),
                    base == canon_ends(pre, nz, lc).len(),
                    t@ == canon_text(pre, nz, lc) + piece@.subrange(0, j as int),
                    starts@.map_values(|x: usize| x as int) == canon_starts(pre, nz, lc) + Seq::new(
                        j as nat,
                        |k: int| off as int,
                    ),
                    ends@.map_values(|x: usize| x as int) == canon_ends(pre, nz, lc) + Seq::new(
                        j as nat,
                        |k: int| next as int,
                    ),
                decreases piece.len() - j,
            {
                let ghost s0 = starts@.map_values(|x: usize| x as int);
                let ghost e0 = ends@.map_values(|x: usize| x as int);
                t.push(piece[j]);
                starts.push(off);
                ends.push(next);
                assert(starts@.map_values(|x: usize| x as int) =~= s0.push(off as int));
                assert(ends@.map_values(|x: usize| x as int) =~= e0.push(next as int));
                j += 1;
                assert(t@ =~= canon_text(pre, nz, lc) + piece@.subrange(0, j as int));
                assert(starts@.map_values(|x: usize| x as int) =~= canon_starts(pre, nz, lc)
                    + Seq::new(j as nat, |k: int| off as int));
                assert(ends@.map_values(|x: usize| x as int) =~= canon_ends(pre, nz, lc) + Seq::new(
                    j as nat,
                    |k: int| next as int,
                ));
            }
            assert(piece@.subrange(0, piece.len() as int) =~= piece@);
            assert(t@ =~= canon_text(pre1, nz, lc));
            assert(canon_starts(pre1, nz, lc) =~= canon_starts(pre, nz, lc) + Seq::new(
                piece.len() as nat,
                |k: int| off as int,
            ));
            assert(canon_ends(pre1, nz, lc) =~= canon_ends(pre, nz, lc) + Seq::new(
                piece.len() as nat,
                |k: int| next as int,
            ));
            off = next;
            i += 1;
        }
        assert(cs@.subrange(0, i as int) =~= cs@);
        assert(starts@.map_values(|x: usize| x as int) == canon_starts(sentence@, nz, lc));
        (t, starts, ends)
    }

    /// Reports each keyword found in `sentence` with its label and the byte
    /// span `[start, end)` of `sentence` that it covers, in scan order.
    ///
    /// The sentence is put in canonical form character by character, and
    /// scanned greedily without backtracking (see `keyword_scan`). A
    /// character other than a letter, digit or `_` ends a candidate that is
    /// a keyword; otherwise it continues the candidate when a keyword holds
    /// it at that place, as `New York` does its space, and else restarts the
    /// scan. A span ends where the sentence character behind the last
    /// matched canonical character ends, so it is always a valid slice.
    pub fn extract_keywords(&self, sentence: &str) -> (r: Vec<(String, usize, usize)>)
        requires
            self.wf(),
        ensures
            r.len() == self.extracted(sentence@).len(),
            forall|j: int|
                0 <= j < r.len() ==> ((#[trigger] r[j]).0@, r[j].1 as int, r[j].2 as int)
                    == self.extracted(sentence@)[j],
    {
        let parts = self.canonical_sentence(sentence);
        let t = parts.0;
        let starts = parts.1;
        let ends = parts.2;
        let ghost nodes = self.nodes@;
        let ghost cstarts = canon_starts(sentence@, self.normalize, self.lowercase);
        let ghost cends = canon_ends(sentence@, self.normalize, self.lowercase);
        proof {
            lemma_canon_lens(sentence@, self.normalize, self.lowercase);
        }
        let mut out: Vec<(String, usize, usize)> = Vec::new();
        let mut cur: usize = 0;
        let mut start: usize = 0;
        let mut idx: usize = 0;
        assert(t@.subrange(0, 0) =~= Seq::<char>::empty());
        while idx < t.len()
            invariant
                self.wf(),
                nodes == self.nodes@,
                idx <= t.len(),
                starts@.map_values(|x: usize| x as int) == cstarts,
                ends@.map_values(|x: usize| x as int) == cends,
                cstarts.len() == t.len(),
                cends.len() == t.len(),
                cur < self.nodes.len(),
                start <= idx,
                cur as int == scan(nodes, t@.subrange(0, idx as int)).0,
                start as int == scan(nodes, t@.subrange(0, idx as int)).1,
                out.len() == scan(nodes, t@.subrange(0, idx as int)).2.len(),
                forall|j: int|
                    0 <= j < out.len() ==> {
                        let m = #[trigger] scan(nodes, t@.subrange(0, idx as int)).2[j];
                        &&& 0 <= m.1 < m.2 <= idx
                        &&& out[j].0@ == label_at(nodes, m.0)
                        &&& out[j].1 as int == cstarts[m.1]
                        &&& out[j].2 as int == cends[m.2 - 1]
                    },
            decreases t.len() - idx,
        {
            let c = t[idx];
            let ghost pre = t@.subrange(0, idx as int);
            let ghost pre1 = t@.subrange(0, idx + 1);
            assert(pre1.drop_last() =~= pre);
            assert(pre1.last() == c);
            let ghost old_found = scan(nodes, pre).2;
            if !word_char(c) && self.nodes[cur].is_end && start < idx {
                let label = match &self.nodes[cur].clean_name {
                    Some(n) => n.clone(),
                    None => String::new(),
                };
                out.push((label, starts[start], ends[idx - 1]));
                cur = 0;
                start = idx + 1;
                proof {
                    let found = scan(nodes, pre1).2;
                    assert(found == old_found.push((scan(nodes, pre).0, scan(nodes, pre).1, idx as int)));
                    let n = out.len() - 1;
                    assert(found[n] == (scan(nodes, pre).0, scan(nodes, pre).1, idx as int));
                    assert(out[n].0@ == label_at(nodes, found[n].0));
                    assert(out[n].1 as int == cstarts[found[n].1]);
                    assert(out[n].2 as int == cends[found[n].2 - 1]);
                    assert forall|j: int| 0 <= j < out.len() implies {
                        let m = #[trigger] scan(nodes, pre1).2[j];
                        &&& 0 <= m.1 < m.2 <= idx + 1
                        &&& out[j].0@ == label_at(nodes, m.0)
                        &&& out[j].1 as int == cstarts[m.1]
                        &&& out[j].2 as int == cends[m.2 - 1]
                    } by {
                        if j < old_found.len() {
                            assert(found[j] == old_found[j]);
                            assert(scan(nodes, pre).2[j] == old_found[j]);
                        }
                    }
                }
            } else {
                match self.find_child(cur, c) {
                    Some(k) => {
                        cur = k;
                    },
                    None => {
                        cur = 0;
                        start = idx + 1;
                    },
                }
                proof {
                    assert(scan(nodes, pre1).2 == old_found);
                    assert forall|j: int| 0 <= j < out.len() implies {
                        let m = #[trigger] scan(nodes, pre1).2[j];
                        &&& 0 <= m.1 < m.2 <= idx + 1
                        &&& out[j].0@ == label_at(nodes, m.0)
                        &&& out[j].1 as int == cstarts[m.1]
                        &&& out[j].2 as int == cends[m.2 - 1]
                    } by {
                        assert(scan(nodes, pre).2[j] == old_found[j]);
                    }
                }
            }
            idx += 1;
        }
        assert(t@.subrange(0, idx as int) =~= t@);
        let ghost found = scan(nodes, t@).2;
        if self.nodes[cur].is_end && start < idx {
            let label = match &self.nodes[cur].clean_name {
                Some(n) => n.clone(),
                None => String::new(),
            };
            out.push((label, starts[start], ends[idx - 1]));
        }
        proof {
            let ms = scan_matches(nodes, t@);
            assert(self.trie_extracted(sentence@) == ms.map_values(
                |m: (int, int, int)| (label_at(nodes, m.0), cstarts[m.1], cends[m.2 - 1]),
            ));
            assert forall|j: int| 0 <= j < out.len() implies ((#[trigger] out[j]).0@, out[j].1 as int,
                out[j].2 as int) == self.trie_extracted(sentence@)[j] by {
                if j < found.len() {
                    assert(ms[j] == found[j]);
                }
            }
            self.lemma_extracted_trie(sentence@);
        }
        out
    }

    /// `extract_keywords` on each sentence, in order.
    pub fn extract_keywords_many(&self, sentences: &Vec<String>) -> (r: Vec<Vec<(String, usize, usize)>>)
        requires
            self.wf(),
        ensures
            r.len() == sentences.len(),
            forall|i: int|
                0 <= i < sentences.len() ==> (#[trigger] r[i]).len() == self.extracted(sentences[i]@).len()
                    && forall|j: int|
                    0 <= j < r[i].len() ==> (r[i][j].0@, r[i][j].1 as int, r[i][j].2 as int)
                        == self.extracted(sentences[i]@)[j],
    {
        let mut out: Vec<Vec<(String, usize, usize)>> = Vec::new();
        let mut i: usize = 0;
        while i < sentences.len()
            invariant
                self.wf(),
                i <= sentences.len(),
                out.len() == i,
                forall|k: int|
                    0 <= k < i ==> (#[trigger] out[k]).len() == self.extracted(sentences[k]@).len()
                        && forall|j: int|
                        0 <= j < out[k].len() ==> (out[k][j].0@, out[k][j].1 as int, out[k][j].2 as int)
                            == self.extracted(sentences[k]@)[j],
            decreases sentences.len() - i,
        {
            out.push(self.extract_keywords(sentences[i].as_str()));
            i += 1;
        }
        out
    }

    /// The scanner's state: the candidate span leads from the root to the
    /// node reached, and each match found spells a stored keyword.
    proof fn lemma_scan(&self, t: Seq<char>)
        requires
            self.wf(),
        ensures
            0 <= scan(self.nodes@, t).1 <= t.len(),
            0 <= scan(self.nodes@, t).0 < self.nodes.len(),
            walk(self.nodes@, t.subrange(scan(self.nodes@, t).1, t.len() as int)) == Some(
                scan(self.nodes@, t).0,
            ),
            forall|j: int|
                0 <= j < scan(self.nodes@, t).2.len() ==> {
                    let m = #[trigger] scan(self.nodes@, t).2[j];
                    &&& 0 <= m.1 < m.2 <= t.len()
                    &&& walk(self.nodes@, t.subrange(m.1, m.2)) == Some(m.0)
                    &&& ends_at(self.nodes@, m.0)
                },
        decreases t.len(),
    {
        let nodes = self.nodes@;
        if t.len() == 0 {
            assert(t.subrange(0, 0) =~= Seq::<char>::empty());
        } else {
            let p = t.drop_last();
            self.lemma_scan(p);
            let prev = scan(nodes, p);
            let i = t.len() - 1;
            let c = t.last();
            assert forall|j: int| 0 <= j < prev.2.len() implies t.subrange((#[trigger] prev.2[j]).1, prev.2[j].2)
                == p.subrange(prev.2[j].1, prev.2[j].2) by {
                assert(t.subrange(prev.2[j].1, prev.2[j].2) =~= p.subrange(prev.2[j].1, prev.2[j].2));
            }
            assert(t.subrange(prev.1, i) =~= p.subrange(prev.1, p.len() as int));
            assert(t.subrange(i + 1, t.len() as int) =~= Seq::<char>::empty());
            let cur = scan(nodes, t);
            if !is_word_char(c) && ends_at(nodes, prev.0) && prev.1 < i {
                assert forall|j: int| 0 <= j < cur.2.len() implies {
                    let m = #[trigger] cur.2[j];
                    &&& 0 <= m.1 < m.2 <= t.len()
                    &&& walk(nodes, t.subrange(m.1, m.2)) == Some(m.0)
                    &&& ends_at(nodes, m.0)
                } by {
                    if j < prev.2.len() {
                        assert(cur.2[j] == prev.2[j]);
                    }
                }
            } else {
                let span = t.subrange(prev.1, t.len() as int);
                assert(span.drop_last() =~= t.subrange(prev.1, i));
                assert(span.last() == c);
                let next = child_in(nodes[prev.0].children@, c);
                if next is Some {
                    let e = lemma_child_in_mem(nodes[prev.0].children@, c);
                    assert(nodes[prev.0].children@[e].1 < nodes.len());
                }
                assert forall|j: int| 0 <= j < cur.2.len() implies {
                    let m = #[trigger] cur.2[j];
                    &&& 0 <= m.1 < m.2 <= t.len()
                    &&& walk(nodes, t.subrange(m.1, m.2)) == Some(m.0)
                    &&& ends_at(nodes, m.0)
                } by {
                    assert(cur.2[j] == prev.2[j]);
                }
            }
        }
    }

    /// Every reported match `(label, start, end)` is a non-empty byte span
    /// `start < end <= ` the byte length of the sentence whose ends are both
    /// character boundaries of its UTF-8 encoding, and there is a
    /// stretch `t[a..b]` of the canonical sentence `t` that is a stored
    /// keyword labelled `label`, where `start` is the first byte of the
    /// sentence character behind `t[a]` and `end` is just past the last byte
    /// of the one behind `t[b - 1]`.
    pub proof fn lemma_extracted_spans(&self, sentence: Seq<char>)
        requires
            self.wf(),
        ensures
            forall|j: int|
                0 <= j < self.extracted(sentence).len() ==> {
                    let m = #[trigger] self.extracted(sentence)[j];
                    let t = canon_text(sentence, self.spec_normalize(), self.spec_lowercase());
                    let starts = canon_starts(sentence, self.spec_normalize(), self.spec_lowercase());
                    let ends = canon_ends(sentence, self.spec_normalize(), self.spec_lowercase());
                    &&& 0 <= m.1 < m.2 <= byte_len(sentence)
                    &&& vstd::utf8::is_char_boundary(vstd::utf8::encode_utf8(sentence), m.1)
                    &&& vstd::utf8::is_char_boundary(vstd::utf8::encode_utf8(sentence), m.2)
                    &&& exists|a: int, b: int|
                        0 <= a < b <= t.len() && self.keywords().contains_key(
                            #[trigger] t.subrange(a, b),
                        ) && self.keywords()[t.subrange(a, b)] == m.0 && starts[a] == m.1 && ends[b
                            - 1] == m.2
                },
    {
        self.lemma_extracted_trie(sentence);
        let nodes = self.nodes@;
        let t = canon_text(sentence, self.spec_normalize(), self.spec_lowercase());
        let starts = canon_starts(sentence, self.spec_normalize(), self.spec_lowercase());
        let ends = canon_ends(sentence, self.spec_normalize(), self.spec_lowercase());
        self.lemma_scan(t);
        lemma_canon_offsets(sentence, self.normalize, self.lowercase);
        let st = scan(nodes, t);
        let ms = scan_matches(nodes, t);
        assert forall|j: int| 0 <= j < ms.len() implies {
            let m = #[trigger] ms[j];
            &&& 0 <= m.1 < m.2 <= t.len()
            &&& walk(nodes, t.subrange(m.1, m.2)) == Some(m.0)
            &&& ends_at(nodes, m.0)
        } by {
            if j < st.2.len() {
                assert(ms[j] == st.2[j]);
            }
        }
        assert forall|j: int| 0 <= j < self.trie_extracted(sentence).len() implies {
            let m = #[trigger] self.trie_extracted(sentence)[j];
            &&& 0 <= m.1 < m.2 <= byte_len(sentence)
            &&& vstd::utf8::is_char_boundary(vstd::utf8::encode_utf8(sentence), m.1)
            &&& vstd::utf8::is_char_boundary(vstd::utf8::encode_utf8(sentence), m.2)
            &&& exists|a: int, b: int|
                0 <= a < b <= t.len() && self.keywords().contains_key(#[trigger] t.subrange(a, b))
                    && self.keywords()[t.subrange(a, b)] == m.0 && starts[a] == m.1 && ends[b - 1]
                    == m.2
        } by {
            let mm = ms[j];
            let (a, b) = (mm.1, mm.2);
            assert(self.trie_extracted(sentence)[j] == (label_at(nodes, mm.0), starts[a], ends[b - 1]));
            assert(has_keyword(nodes, t.subrange(a, b)));
            assert(starts[a] <= starts[b - 1]);
            lemma_canon_source(sentence, self.spec_normalize(), self.spec_lowercase());
            let src = canon_source(sentence, self.spec_normalize(), self.spec_lowercase());
            crate::text::lemma_prefix_char_boundary(sentence, src[a]);
            crate::text::lemma_prefix_char_boundary(sentence, src[b - 1] + 1);
            assert(self.keywords().contains_key(t.subrange(a, b)));
            assert(self.keywords()[t.subrange(a, b)] == self.trie_extracted(sentence)[j].0);
        }
    }

    /// The number of distinct keywords stored.
    pub fn terms_in_trie(&self) -> (r: usize)
        ensures
            r == self.spec_terms(),
    {
        self.terms_in_trie
    }

    /// What `add_keyword` guarantees, as a relation between the processor
    /// before (`self`) and after (`next`), the keyword, its label and the
    /// result.
    pub open spec fn inserted(self, next: Self, keyword: Seq<char>, label: Seq<char>, r: bool) -> bool {
        let k = self.canonical(keyword);
        &&& next.wf()
        &&& next.spec_lowercase() == self.spec_lowercase()
        &&& next.spec_normalize() == self.spec_normalize()
        &&& r == !self.keywords().contains_key(k)
        &&& r ==> next.keywords() == self.keywords().insert(k, label)
        &&& !r ==> next.keywords() == self.keywords()
        &&& next.spec_terms() == self.spec_terms() + if r {
            1nat
        } else {
            0nat
        }
    }

    /// Adding a keyword whose canonical form is new succeeds and counts it
    /// once; adding one with the same canonical form right after fails and
    /// changes nothing.
    pub proof fn lemma_duplicate_insertion(
        first: Self,
        second: Self,
        third: Self,
        k1: Seq<char>,
        k2: Seq<char>,
        l1: Seq<char>,
        l2: Seq<char>,
        r1: bool,
        r2: bool,
    )
        requires
            !first.keywords().contains_key(first.canonical(k1)),
            first.canonical(k1) == first.canonical(k2),
            first.inserted(second, k1, l1, r1),
            second.inserted(third, k2, l2, r2),
        ensures
            r1,
            !r2,
            third.spec_terms() == first.spec_terms() + 1,
            third.keywords() == second.keywords(),
    {
        assert(second.keywords().contains_key(first.canonical(k1)));
    }

    /// The matches that `extract_keywords` reports for `sentence`.
    pub open spec fn extracted(&self, sentence: Seq<char>) -> Seq<(Seq<char>, int, int)> {
        extraction(self.keywords(), self.spec_normalize(), self.spec_lowercase(), sentence)
    }

    /// A path leads to a trie node exactly when it is empty or a prefix of a
    /// stored keyword.
    proof fn lemma_walk_iff_prefix(&self, p: Seq<char>)
        requires
            self.wf(),
        ensures
            walk(self.nodes@, p) is Some <==> (p.len() == 0 || is_key_prefix(self.keywords(), p)),
    {
        let kw = self.keywords();
        if walk(self.nodes@, p) is Some {
            self.lemma_walk_path(p);
            let m = walk(self.nodes@, p)->0;
            if m != 0 {
                assert(is_key_prefix(keyword_map(self.nodes@), self.paths@[m]));
            }
        }
        if p.len() > 0 && is_key_prefix(kw, p) {
            let k = choose|k: Seq<char>| kw.contains_key(k) && #[trigger] is_prefix(p, k);
            assert(has_keyword(self.nodes@, k));
            lemma_walk_prefix(self.nodes@, k, p.len() as int);
        }
    }

    /// The trie scan and the keyword scan move in step.
    proof fn lemma_scan_agrees(&self, t: Seq<char>)
        requires
            self.wf(),
        ensures
            walk(self.nodes@, keyword_scan(self.keywords(), t).0) == Some(scan(self.nodes@, t).0),
            keyword_scan(self.keywords(), t).1 == scan(self.nodes@, t).1,
            keyword_scan(self.keywords(), t).2.len() == scan(self.nodes@, t).2.len(),
            forall|j: int|
                0 <= j < scan(self.nodes@, t).2.len() ==> {
                    let a = #[trigger] scan(self.nodes@, t).2[j];
                    let b = keyword_scan(self.keywords(), t).2[j];
                    &&& a.1 == b.1
                    &&& a.2 == b.2
                    &&& walk(self.nodes@, b.0) == Some(a.0)
                },
        decreases t.len(),
    {
        let nodes = self.nodes@;
        let kw = self.keywords();
        if t.len() > 0 {
            let p = t.drop_last();
            self.lemma_scan_agrees(p);
            self.lemma_scan(p);
            let a = scan(nodes, p);
            let b = keyword_scan(kw, p);
            let c = t.last();
            let q = b.0.push(c);
            assert(q.drop_last() =~= b.0);
            self.lemma_walk_iff_prefix(q);
            assert(has_keyword(nodes, b.0) == ends_at(nodes, a.0));
            let a1 = scan(nodes, t);
            let b1 = keyword_scan(kw, t);
            assert forall|j: int| 0 <= j < a1.2.len() implies {
                let x = #[trigger] a1.2[j];
                let y = b1.2[j];
                &&& x.1 == y.1
                &&& x.2 == y.2
                &&& walk(nodes, y.0) == Some(x.0)
            } by {
                if j < a.2.len() {
                    assert(a1.2[j] == a.2[j]);
                    assert(b1.2[j] == b.2[j]);
                }
            }
        }
    }

    /// The trie's matches are the keyword scan's matches.
    proof fn lemma_extracted_trie(&self, sentence: Seq<char>)
        requires
            self.wf(),
        ensures
            self.trie_extracted(sentence) == self.extracted(sentence),
    {
        let nodes = self.nodes@;
        let kw = self.keywords();
        let t = canon_text(sentence, self.normalize, self.lowercase);
        self.lemma_scan_agrees(t);
        self.lemma_scan(t);
        let a = scan(nodes, t);
        let b = keyword_scan(kw, t);
        assert(has_keyword(nodes, b.0) == ends_at(nodes, a.0));
        let ma = scan_matches(nodes, t);
        let mb = keyword_matches(kw, t);
        assert(ma.len() == mb.len());
        assert forall|j: int| 0 <= j < ma.len() implies {
            &&& ma[j].1 == mb[j].1
            &&& ma[j].2 == mb[j].2
            &&& label_at(nodes, ma[j].0) == kw[mb[j].0]
        } by {
            if j < a.2.len() {
                assert(ma[j] == a.2[j]);
                assert(mb[j] == b.2[j]);
                assert(walk(nodes, mb[j].0) == Some(ma[j].0));
                assert(ends_at(nodes, ma[j].0));
                assert(has_keyword(nodes, mb[j].0));
            }
        }
        assert(self.trie_extracted(sentence) =~= self.extracted(sentence));
    }
}

} // verus!
