//! A document-term matrix builder: learns a vocabulary from documents and
//! emits coordinate (value, row, column) triplets over it.
use vstd::prelude::*;
use crate::analyzer::positive_sizes;
use crate::counter::{counts_are, distinct_in_order, lemma_distinct, occurrences, views};
use crate::vectorizer::{
    analyze, analyzer_name, analyzer_to_string, check_sizes, parse_analyzer, preprocess,
    stop_views, vectorize, vectorized, Analyzer, ConfigError,
};

verus! {

/// Why a builder could not be restored from saved state.
#[derive(Clone, Copy, Debug, PartialEq, Eq)]
pub enum StateError {
    /// The saved configuration is invalid.
    Config(ConfigError),
    /// A token occurs twice in the saved vocabulary.
    DuplicateToken,
}

/// Whether the items of `s` are pairwise different.
pub open spec fn all_distinct(s: Seq<Seq<char>>) -> bool {
    forall|a: int, b: int| 0 <= a < s.len() && 0 <= b < s.len() && a != b ==> s[a] != s[b]
}

/// The column of token `x`: its position in the vocabulary.
pub open spec fn col_of(vocab: Seq<Seq<char>>, x: Seq<char>) -> Option<int>
    decreases vocab.len(),
{
    if vocab.len() == 0 {
        None
    } else if vocab.last() == x {
        Some(vocab.len() - 1)
    } else {
        col_of(vocab.drop_last(), x)
    }
}

/// The distinct tokens of each document in turn, each document's in order
/// of first occurrence.
pub open spec fn all_keys(docs: Seq<Seq<Seq<char>>>) -> Seq<Seq<char>>
    decreases docs.len(),
{
    if docs.len() == 0 {
        Seq::empty()
    } else {
        all_keys(docs.drop_last()) + distinct_in_order(docs.last())
    }
}

/// The vocabulary learned from documents with these tokens: each distinct
/// token, in order of first occurrence across the documents in turn.
pub open spec fn fit_vocab(docs: Seq<Seq<Seq<char>>>) -> Seq<Seq<char>> {
    distinct_in_order(all_keys(docs))
}

/// The triplets of row `row` for the distinct tokens `keys` of a document
/// with tokens `tokens`: one per token of the vocabulary, with its count.
pub open spec fn row_entries(
    keys: Seq<Seq<char>>,
    tokens: Seq<Seq<char>>,
    row: int,
    vocab: Seq<Seq<char>>,
) -> Seq<(int, int, int)>
    decreases keys.len(),
{
    if keys.len() == 0 {
        Seq::empty()
    } else {
        let prev = row_entries(keys.drop_last(), tokens, row, vocab);
        match col_of(vocab, keys.last()) {
            Some(c) => prev.push((occurrences(tokens, keys.last()) as int, row, c)),
            None => prev,
        }
    }
}

/// The (value, row, column) triplets of documents with these tokens over
/// `vocab`, row by row.
pub open spec fn coo(docs: Seq<Seq<Seq<char>>>, vocab: Seq<Seq<char>>) -> Seq<(int, int, int)>
    decreases docs.len(),
{
    if docs.len() == 0 {
        Seq::empty()
    } else {
        coo(docs.drop_last(), vocab) + row_entries(
            distinct_in_order(docs.last()),
            docs.last(),
            docs.len() - 1,
            vocab,
        )
    }
}

/// Whether the three sequences spell out these triplets.
pub open spec fn triplets_are(r: (Vec<usize>, Vec<usize>, Vec<usize>), e: Seq<(int, int, int)>) -> bool {
    &&& r.0.len() == e.len()
    &&& r.1.len() == e.len()
    &&& r.2.len() == e.len()
    &&& forall|k: int|
        0 <= k < e.len() ==> (#[trigger] e[k]) == (r.0@[k] as int, r.1@[k] as int, r.2@[k] as int)
}

proof fn lemma_col_of(vocab: Seq<Seq<char>>, x: Seq<char>)
    ensures
        col_of(vocab, x) is Some <==> vocab.contains(x),
        col_of(vocab, x) is Some ==> 0 <= col_of(vocab, x)->0 < vocab.len() && vocab[col_of(
            vocab,
            x,
        )->0] == x,
    decreases vocab.len(),
{
    if vocab.len() > 0 {
        lemma_col_of(vocab.drop_last(), x);
        if vocab.drop_last().contains(x) {
            let k = choose|k: int| 0 <= k < vocab.len() - 1 && vocab.drop_last()[k] == x;
            assert(vocab[k] == x);
        }
        if vocab.contains(x) && vocab.last() != x {
            let k = choose|k: int| 0 <= k < vocab.len() && vocab[k] == x;
            assert(vocab.drop_last()[k] == x);
        }
    }
}

/// Every column that the triplets name is a column of the vocabulary.
pub proof fn lemma_coo_columns(docs: Seq<Seq<Seq<char>>>, vocab: Seq<Seq<char>>)
    ensures
        forall|k: int|
            0 <= k < coo(docs, vocab).len() ==> 0 <= (#[trigger] coo(docs, vocab)[k]).2 < vocab.len(),
    decreases docs.len(),
{
    if docs.len() > 0 {
        lemma_coo_columns(docs.drop_last(), vocab);
        let d = docs.last();
        lemma_row_columns(distinct_in_order(d), d, docs.len() - 1, vocab);
        let a = coo(docs.drop_last(), vocab);
        let b = row_entries(distinct_in_order(d), d, docs.len() - 1, vocab);
        assert forall|k: int| 0 <= k < coo(docs, vocab).len() implies 0 <= (#[trigger] coo(
            docs,
            vocab,
        )[k]).2 < vocab.len() by {
            if k < a.len() {
                assert(coo(docs, vocab)[k] == a[k]);
            } else {
                assert(coo(docs, vocab)[k] == b[k - a.len()]);
            }
        }
    }
}

proof fn lemma_row_columns(keys: Seq<Seq<char>>, tokens: Seq<Seq<char>>, row: int, vocab: Seq<Seq<char>>)
    ensures
        forall|k: int|
            0 <= k < row_entries(keys, tokens, row, vocab).len() ==> 0 <= (#[trigger] row_entries(
                keys,
                tokens,
                row,
                vocab,
            )[k]).2 < vocab.len(),
    decreases keys.len(),
{
    if keys.len() > 0 {
        lemma_row_columns(keys.drop_last(), tokens, row, vocab);
        lemma_col_of(vocab, keys.last());
        let prev = row_entries(keys.drop_last(), tokens, row, vocab);
        let cur = row_entries(keys, tokens, row, vocab);
        assert forall|k: int| 0 <= k < cur.len() implies 0 <= (#[trigger] cur[k]).2 < vocab.len() by {
            if k < prev.len() {
                assert(cur[k] == prev[k]);
            }
        }
    }
}

pub struct SparseMatrixBuilder {
    analyzer: Analyzer,
    n_sizes: Vec<usize>,
    stop_words: Option<Vec<String>>,
    normalize: Option<bool>,
    /// The learned tokens; a token's column is its position.
    vocab: Vec<String>,
    num_cols: usize,
}

/// The vocabulary index of `key`, searching from the end.
fn find_col(vocab: &Vec<String>, key: &String) -> (r: Option<usize>)
    ensures
        r == match col_of(views(vocab@), key@) {
            Some(c) => Some(c as usize),
            None => None::<usize>,
        },
        r is Some ==> r->0 < vocab.len(),
{
    let ghost v = views(vocab@);
    let mut j: usize = vocab.len();
    assert(v.subrange(0, j as int) =~= v);
    while j > 0
        invariant
            j <= vocab.len(),
            v == views(vocab@),
            col_of(v, key@) == col_of(v.subrange(0, j as int), key@),
        decreases j,
    {
        assert(v.subrange(0, j as int).drop_last() =~= v.subrange(0, j - 1));
        if vocab[j - 1] == *key {
            return Some(j - 1);
        }
        j -= 1;
    }
    None
}

/// Whether the tokens are pairwise different.
fn distinct_tokens(vocab: &Vec<String>) -> (r: bool)
    ensures
        r == all_distinct(views(vocab@)),
{
    let mut i: usize = 0;
    while i < vocab.len()
        invariant
            i <= vocab.len(),
            forall|a: int, c: int| 0 <= a < i && 0 <= c < i && a != c ==> vocab@[a]@ != vocab@[c]@,
        decreases vocab.len() - i,
    {
        let mut j: usize = 0;
        while j < i
            invariant
                j <= i < vocab.len(),
                forall|a: int| 0 <= a < j ==> vocab@[a]@ != vocab@[i as int]@,
            decreases i - j,
        {
            if vocab[j] == vocab[i] {
                assert(views(vocab@)[j as int] == views(vocab@)[i as int]);
                return false;
            }
            j += 1;
        }
        i += 1;
    }
    true
}

impl SparseMatrixBuilder {
    pub closed spec fn wf(&self) -> bool {
        &&& positive_sizes(self.n_sizes@)
        &&& self.num_cols == self.vocab.len()
        &&& all_distinct(views(self.vocab@))
    }

    /// A well-formed builder has positive n-gram sizes, one column per
    /// vocabulary token and no repeated token, and its analyzer's name stands
    /// for that analyzer: its saved configuration and vocabulary pass
    /// `from_state`.
    pub proof fn lemma_wf(&self)
        requires
            self.wf(),
        ensures
            positive_sizes(self.spec_sizes()),
            self.spec_num_cols() == self.spec_vocab().len(),
            all_distinct(self.spec_vocab()),
            crate::vectorizer::analyzer_of(analyzer_name(self.spec_analyzer())) == Some(
                self.spec_analyzer(),
            ),
    {
        let w = seq!['w', 'o', 'r', 'd'];
        let c = seq!['c', 'h', 'a', 'r'];
        let b = seq!['c', 'h', 'a', 'r', '_', 'w', 'b'];
        assert(w != c) by {
            assert(w[0] != c[0]);
        }
        assert(w != b) by {
            assert(w.len() != b.len());
        }
        assert(c != b) by {
            assert(c.len() != b.len());
        }
    }

    /// The learned vocabulary; a token's column is its position.
    pub closed spec fn spec_vocab(&self) -> Seq<Seq<char>> {
        views(self.vocab@)
    }

    pub closed spec fn spec_num_cols(&self) -> nat {
        self.num_cols as nat
    }

    pub closed spec fn spec_analyzer(&self) -> Analyzer {
        self.analyzer
    }

    pub closed spec fn spec_sizes(&self) -> Seq<usize> {
        self.n_sizes@
    }

    pub closed spec fn spec_stops(&self) -> Option<Seq<Seq<char>>> {
        stop_views(self.stop_words)
    }

    pub closed spec fn spec_normalize(&self) -> Option<bool> {
        self.normalize
    }

    /// The tokens the pipeline cuts from each text under this configuration.
    pub open spec fn tokens_of(&self, texts: Seq<String>) -> Seq<Seq<Seq<char>>> {
        texts.map_values(
            |t: String|
                analyze(
                    self.spec_analyzer(),
                    preprocess(t@, self.spec_normalize(), self.spec_stops()),
                    self.spec_sizes(),
                ),
        )
    }

    /// Whether `other` has this builder's configuration.
    pub open spec fn same_config(&self, other: &Self) -> bool {
        &&& other.spec_analyzer() == self.spec_analyzer()
        &&& other.spec_sizes() == self.spec_sizes()
        &&& other.spec_stops() == self.spec_stops()
        &&& other.spec_normalize() == self.spec_normalize()
    }

    /// A builder with this configuration and an empty vocabulary; fails on an
    /// unknown analyzer name, then on an n-gram size of zero.
    pub fn new(
        n_sizes: Vec<usize>,
        analyzer: String,
        stop_words: Option<Vec<String>>,
        normalize: Option<bool>,
    ) -> (r: Result<Self, ConfigError>)
        ensures
            analyzer_of_is(analyzer@, None) ==> r == Err::<Self, ConfigError>(
                ConfigError::InvalidAnalyzer,
            ),
            !analyzer_of_is(analyzer@, None) && !positive_sizes(n_sizes@) ==> r == Err::<
                Self,
                ConfigError,
            >(ConfigError::InvalidNgramSize),
            !analyzer_of_is(analyzer@, None) && positive_sizes(n_sizes@) ==> r is Ok && {
                let b = r->Ok_0;
                &&& b.wf()
                &&& Some(b.spec_analyzer()) == crate::vectorizer::analyzer_of(analyzer@)
                &&& b.spec_sizes() == n_sizes@
                &&& b.spec_stops() == stop_views(stop_words)
                &&& b.spec_normalize() == normalize
                &&& b.spec_vocab().len() == 0
                &&& b.spec_num_cols() == 0
            },
    {
        let a = match parse_analyzer(analyzer.as_str()) {
            Ok(a) => a,
            Err(e) => {
                return Err(e);
            },
        };
        if !check_sizes(&n_sizes) {
            return Err(ConfigError::InvalidNgramSize);
        }
        let r = SparseMatrixBuilder {
            analyzer: a,
            n_sizes,
            stop_words,
            normalize,
            vocab: Vec::new(),
            num_cols: 0,
        };
        assert(views(r.vocab@) =~= Seq::<Seq<char>>::empty());
        Ok(r)
    }

    /// Learns the vocabulary from per-document term counts.
    fn learn(&mut self, docs: &Vec<Vec<(String, usize)>>, Ghost(toks): Ghost<Seq<Seq<Seq<char>>>>)
        requires
            positive_sizes(old(self).n_sizes@),
            docs.len() == toks.len(),
            forall|i: int| 0 <= i < docs.len() ==> counts_are((#[trigger] docs[i])@, toks[i]),
        ensures
            final(self).wf(),
            old(self).same_config(&*final(self)),
            final(self).spec_vocab() == fit_vocab(toks),
    {
        let mut vocab: Vec<String> = Vec::new();
        let mut i: usize = 0;
        assert(toks.subrange(0, 0) =~= Seq::<Seq<Seq<char>>>::empty());
        assert(views(vocab@) =~= distinct_in_order(Seq::<Seq<char>>::empty()));
        while i < docs.len()
            invariant
                i <= docs.len(),
                docs.len() == toks.len(),
                forall|k: int| 0 <= k < docs.len() ==> counts_are((#[trigger] docs[k])@, toks[k]),
                views(vocab@) == distinct_in_order(all_keys(toks.subrange(0, i as int))),
            decreases docs.len() - i,
        {
            let doc = &docs[i];
            let ghost base = all_keys(toks.subrange(0, i as int));
            let ghost d = distinct_in_order(toks[i as int]);
            let mut j: usize = 0;
            assert(base + d.subrange(0, 0) =~= base);
            while j < doc.len()
                invariant
                    j <= doc.len(),
                    doc.len() == d.len(),
                    forall|k: int| 0 <= k < d.len() ==> (#[trigger] doc[k]).0@ == d[k],
                    views(vocab@) == distinct_in_order(base + d.subrange(0, j as int)),
                decreases doc.len() - j,
            {
                let key = &doc[j].0;
                let ghost pre = base + d.subrange(0, j as int);
                let ghost pre1 = base + d.subrange(0, j + 1);
                assert(pre1 =~= pre.push(key@));
                assert(pre1.drop_last() =~= pre);
                proof {
                    lemma_col_of(views(vocab@), key@);
                }
                match find_col(&vocab, key) {
                    Some(_) => {},
                    None => {
                        vocab.push(key.clone());
                        assert(views(vocab@) =~= distinct_in_order(pre).push(key@));
                    },
                }
                j += 1;
            }
            let ghost sub1 = toks.subrange(0, i + 1);
            assert(sub1.drop_last() =~= toks.subrange(0, i as int));
            assert(d.subrange(0, j as int) =~= d);
            assert(all_keys(sub1) == base + d);
            i += 1;
        }
        assert(toks.subrange(0, i as int) =~= toks);
        proof {
            let v = views(vocab@);
            assert forall|a: int, b: int| 0 <= a < v.len() && 0 <= b < v.len() && a != b implies v[a]
                != v[b] by {
                lemma_distinct(all_keys(toks), a, b);
            }
        }
        self.num_cols = vocab.len();
        self.vocab = vocab;
    }

    /// The triplets of per-document term counts over the vocabulary.
    fn emit(&self, docs: &Vec<Vec<(String, usize)>>, Ghost(toks): Ghost<Seq<Seq<Seq<char>>>>) -> (r: (
        Vec<usize>,
        Vec<usize>,
        Vec<usize>,
    ))
        requires
            self.wf(),
            docs.len() == toks.len(),
            forall|i: int| 0 <= i < docs.len() ==> counts_are((#[trigger] docs[i])@, toks[i]),
        ensures
            triplets_are(r, coo(toks, self.spec_vocab())),
    {
        let ghost vocab = views(self.vocab@);
        let mut values: Vec<usize> = Vec::new();
        let mut rows: Vec<usize> = Vec::new();
        let mut cols: Vec<usize> = Vec::new();
        let mut i: usize = 0;
        assert(toks.subrange(0, 0) =~= Seq::<Seq<Seq<char>>>::empty());
        while i < docs.len()
            invariant
                i <= docs.len(),
                docs.len() == toks.len(),
                vocab == views(self.vocab@),
                forall|k: int| 0 <= k < docs.len() ==> counts_are((#[trigger] docs[k])@, toks[k]),
                triplets_are((values, rows, cols), coo(toks.subrange(0, i as int), vocab)),
            decreases docs.len() - i,
        {
            let doc = &docs[i];
            let ghost base = coo(toks.subrange(0, i as int), vocab);
            let ghost t = toks[i as int];
            let ghost d = distinct_in_order(t);
            let mut j: usize = 0;
            assert(d.subrange(0, 0) =~= Seq::<Seq<char>>::empty());
            assert(base + row_entries(d.subrange(0, 0), t, i as int, vocab) =~= base);
            while j < doc.len()
                invariant
                    j <= doc.len(),
                    doc.len() == d.len(),
                    vocab == views(self.vocab@),
                    forall|k: int| 0 <= k < d.len() ==> (#[trigger] doc[k]).0@ == d[k] && doc[k].1 == occurrences(t, d[k]),
                    triplets_are(
                        (values, rows, cols),
                        base + row_entries(d.subrange(0, j as int), t, i as int, vocab),
                    ),
                decreases doc.len() - j,
            {
                let ghost pre = d.subrange(0, j as int);
                let ghost pre1 = d.subrange(0, j + 1);
                assert(pre1.drop_last() =~= pre);
                assert(pre1.last() == d[j as int]);
                let ghost e0 = base + row_entries(pre, t, i as int, vocab);
                proof {
                    lemma_col_of(vocab, d[j as int]);
                }
                match find_col(&self.vocab, &doc[j].0) {
                    Some(c) => {
                        values.push(doc[j].1);
                        rows.push(i);
                        cols.push(c);
                        assert(col_of(vocab, pre1.last()) == Some(c as int));
                        assert(row_entries(pre1, t, i as int, vocab) == row_entries(pre, t, i as int, vocab).push(
                            (occurrences(t, pre1.last()) as int, i as int, c as int),
                        ));
                        assert(base + row_entries(pre1, t, i as int, vocab) =~= e0.push(
                            (doc[j as int].1 as int, i as int, c as int),
                        ));
                        assert forall|k: int| 0 <= k < e0.len() + 1 implies (#[trigger] e0.push(
                            (doc[j as int].1 as int, i as int, c as int),
                        )[k]) == (values@[k] as int, rows@[k] as int, cols@[k] as int) by {
                            if k < e0.len() {
                                assert(e0[k] == (values@[k] as int, rows@[k] as int, cols@[k] as int));
                            }
                        }
                    },
                    None => {
                        assert(base + row_entries(pre1, t, i as int, vocab) =~= e0);
                    },
                }
                j += 1;
            }
            let ghost sub1 = toks.subrange(0, i + 1);
            assert(sub1.drop_last() =~= toks.subrange(0, i as int));
            assert(d.subrange(0, j as int) =~= d);
            assert(coo(sub1, vocab) == base + row_entries(d, t, i as int, vocab));
            i += 1;
        }
        assert(toks.subrange(0, i as int) =~= toks);
        (values, rows, cols)
    }

    fn run_pipeline(&self, texts: &Vec<String>) -> (r: Vec<Vec<(String, usize)>>)
        requires
            self.wf(),
        ensures
            r.len() == texts.len(),
            forall|i: int|
                0 <= i < texts.len() ==> counts_are((#[trigger] r[i])@, self.tokens_of(texts@)[i]),
    {
        vectorize(texts, &self.n_sizes, self.analyzer, &self.stop_words, self.normalize)
    }

    /// Learns the vocabulary of `texts`: each distinct token, in order of
    /// first occurrence across the texts in turn, gets the next column.
    pub fn fit(&mut self, texts: &Vec<String>)
        requires
            old(self).wf(),
        ensures
            final(self).wf(),
            old(self).same_config(&*final(self)),
            final(self).spec_vocab() == fit_vocab(old(self).tokens_of(texts@)),
            final(self).spec_num_cols() == final(self).spec_vocab().len(),
    {
        let docs = self.run_pipeline(texts);
        self.learn(&docs, Ghost(self.tokens_of(texts@)));
    }

    /// The (values, rows, columns) triplets of `texts` over the learned
    /// vocabulary; tokens outside it are dropped.
    pub fn transform(&self, texts: &Vec<String>) -> (r: (Vec<usize>, Vec<usize>, Vec<usize>))
        requires
            self.wf(),
        ensures
            triplets_are(r, coo(self.tokens_of(texts@), self.spec_vocab())),
            forall|k: int| 0 <= k < r.2.len() ==> (#[trigger] r.2@[k]) < self.spec_num_cols(),
    {
        let docs = self.run_pipeline(texts);
        let r = self.emit(&docs, Ghost(self.tokens_of(texts@)));
        proof {
            lemma_coo_columns(self.tokens_of(texts@), self.spec_vocab());
            assert forall|k: int| 0 <= k < r.2.len() implies (#[trigger] r.2@[k]) < self.spec_num_cols() by {
                assert(coo(self.tokens_of(texts@), self.spec_vocab())[k].2 == r.2@[k] as int);
            }
        }
        r
    }

    /// `fit` and then `transform` on the same texts.
    pub fn fit_transform(&mut self, texts: &Vec<String>) -> (r: (Vec<usize>, Vec<usize>, Vec<usize>))
        requires
            old(self).wf(),
        ensures
            final(self).wf(),
            old(self).same_config(&*final(self)),
            final(self).spec_vocab() == fit_vocab(old(self).tokens_of(texts@)),
            final(self).spec_num_cols() == final(self).spec_vocab().len(),
            triplets_are(r, coo(old(self).tokens_of(texts@), final(self).spec_vocab())),
            forall|k: int| 0 <= k < r.2.len() ==> (#[trigger] r.2@[k]) < final(self).spec_num_cols(),
    {
        let docs = self.run_pipeline(texts);
        let ghost toks = self.tokens_of(texts@);
        self.learn(&docs, Ghost(toks));
        let r = self.emit(&docs, Ghost(toks));
        proof {
            lemma_coo_columns(toks, self.spec_vocab());
            assert forall|k: int| 0 <= k < r.2.len() implies (#[trigger] r.2@[k]) < self.spec_num_cols() by {
                assert(coo(toks, self.spec_vocab())[k].2 == r.2@[k] as int);
            }
        }
        r
    }

    /// Each vocabulary token with its column.
    pub fn get_vocab(&self) -> (r: Vec<(String, usize)>)
        ensures
            r.len() == self.spec_vocab().len(),
            forall|i: int| 0 <= i < r.len() ==> (#[trigger] r[i]).0@ == self.spec_vocab()[i] && r[i].1 == i,
    {
        let mut out: Vec<(String, usize)> = Vec::new();
        let mut i: usize = 0;
        while i < self.vocab.len()
            invariant
                i <= self.vocab.len(),
                out.len() == i,
                forall|k: int| 0 <= k < i ==> (#[trigger] out[k]).0@ == self.spec_vocab()[k] && out[k].1 == k,
            decreases self.vocab.len() - i,
        {
            out.push((self.vocab[i].clone(), i));
            i += 1;
        }
        out
    }

    /// The number of columns: the size of the vocabulary.
    pub fn get_num_cols(&self) -> (r: usize)
        ensures
            r == self.spec_num_cols(),
    {
        self.num_cols
    }

    /// The vocabulary tokens in column order.
    pub fn vocab_tokens(&self) -> (r: Vec<String>)
        ensures
            views(r@) == self.spec_vocab(),
    {
        let r = self.vocab.clone();
        assert(views(r@) =~= views(self.vocab@)) by {
            assert forall|k: int| 0 <= k < r.len() implies r@[k]@ == self.vocab@[k]@ by {
                assert(r[k] == self.vocab[k]);
            }
        }
        r
    }

    /// The constructor arguments that rebuild this builder's configuration.
    pub fn new_args(&self) -> (r: (Vec<usize>, String, Option<Vec<String>>, Option<bool>))
        ensures
            r.0@ == self.spec_sizes(),
            r.1@ == analyzer_name(self.spec_analyzer()),
            stop_views(r.2) == self.spec_stops(),
            r.3 == self.spec_normalize(),
    {
        let stops = match &self.stop_words {
            Some(v) => {
                let c = v.clone();
                assert(views(c@) =~= views(v@)) by {
                    assert forall|k: int| 0 <= k < c.len() implies c@[k]@ == v@[k]@ by {
                        assert(c[k] == v[k]);
                    }
                }
                Some(c)
            },
            None => None,
        };
        let sizes = self.n_sizes.clone();
        assert(sizes@ =~= self.n_sizes@) by {
            assert forall|k: int| 0 <= k < sizes.len() implies sizes@[k] == self.n_sizes@[k] by {
                assert(sizes[k] == self.n_sizes[k]);
            }
        }
        (sizes, analyzer_to_string(self.analyzer), stops, self.normalize)
    }

    /// A builder with this configuration whose vocabulary is `vocab`, in
    /// column order; fails on an invalid configuration or a repeated token.
    pub fn from_state(
        n_sizes: Vec<usize>,
        analyzer: String,
        stop_words: Option<Vec<String>>,
        normalize: Option<bool>,
        vocab: Vec<String>,
    ) -> (r: Result<Self, StateError>)
        ensures
            analyzer_of_is(analyzer@, None) ==> r == Err::<Self, StateError>(StateError::Config(
                ConfigError::InvalidAnalyzer,
            )),
            !analyzer_of_is(analyzer@, None) && !positive_sizes(n_sizes@) ==> r == Err::<
                Self,
                StateError,
            >(StateError::Config(ConfigError::InvalidNgramSize)),
            !analyzer_of_is(analyzer@, None) && positive_sizes(n_sizes@) && !all_distinct(
                views(vocab@),
            ) ==> r == Err::<Self, StateError>(StateError::DuplicateToken),
            !analyzer_of_is(analyzer@, None) && positive_sizes(n_sizes@) && all_distinct(
                views(vocab@),
            ) ==> r is Ok && {
                let b = r->Ok_0;
                &&& b.wf()
                &&& Some(b.spec_analyzer()) == crate::vectorizer::analyzer_of(analyzer@)
                &&& b.spec_sizes() == n_sizes@
                &&& b.spec_stops() == stop_views(stop_words)
                &&& b.spec_normalize() == normalize
                &&& b.spec_vocab() == views(vocab@)
                &&& b.spec_num_cols() == vocab.len()
            },
    {
        let mut b = match Self::new(n_sizes, analyzer, stop_words, normalize) {
            Ok(b) => b,
            Err(e) => {
                return Err(StateError::Config(e));
            },
        };
        if !distinct_tokens(&vocab) {
            return Err(StateError::DuplicateToken);
        }
        assert(all_distinct(views(vocab@)));
        b.num_cols = vocab.len();
        b.vocab = vocab;
        Ok(b)
    }
}

/// Whether the analyzer name stands for `a` (`None`: for no analyzer).
pub open spec fn analyzer_of_is(name: Seq<char>, a: Option<Analyzer>) -> bool {
    crate::vectorizer::analyzer_of(name) == a
}

} // verus!
