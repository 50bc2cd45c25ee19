//! The vectorization pipeline: normalization, stop-word filtering, n-gram
//! analysis and counting, applied to each text of a batch.
use vstd::prelude::*;
use crate::analyzer::{
    char_ngrams, positive_sizes, rschar_ngrams, rschar_wb_ngrams, rssplit_words, strings_are,
    wb_ngrams, word_ngrams, words,
};
use crate::counter::{count_tokens, counts_are, views};
use crate::normalizer::{normalize_text, rsnormalize, rsnormalize_many};
use crate::stop_words::{filtered, rsfilter_stop_words_many};
use crate::text::chars_of;

verus! {

/// How a text is cut into tokens.
#[derive(Clone, Copy, Debug, PartialEq, Eq, Structural)]
pub enum Analyzer {
    /// Word n-grams.
    Word,
    /// Character n-grams.
    Char,
    /// Character n-grams within words.
    CharWb,
}

/// A configuration value that the pipeline cannot work with.
#[derive(Clone, Copy, Debug, PartialEq, Eq, Structural)]
pub enum ConfigError {
    /// The analyzer name is not `word`, `char` or `char_wb`.
    InvalidAnalyzer,
    /// An n-gram size is zero.
    InvalidNgramSize,
}

/// The analyzer a name stands for, if any.
pub open spec fn analyzer_of(name: Seq<char>) -> Option<Analyzer> {
    if name == seq!['w', 'o', 'r', 'd'] {
        Some(Analyzer::Word)
    } else if name == seq!['c', 'h', 'a', 'r'] {
        Some(Analyzer::Char)
    } else if name == seq!['c', 'h', 'a', 'r', '_', 'w', 'b'] {
        Some(Analyzer::CharWb)
    } else {
        None
    }
}

/// The name of an analyzer.
pub open spec fn analyzer_name(a: Analyzer) -> Seq<char> {
    match a {
        Analyzer::Word => seq!['w', 'o', 'r', 'd'],
        Analyzer::Char => seq!['c', 'h', 'a', 'r'],
        Analyzer::CharWb => seq!['c', 'h', 'a', 'r', '_', 'w', 'b'],
    }
}

/// The tokens the analyzer cuts from a text.
pub open spec fn analyze(a: Analyzer, t: Seq<char>, sizes: Seq<usize>) -> Seq<Seq<char>> {
    match a {
        Analyzer::Word => word_ngrams(t, sizes),
        Analyzer::Char => char_ngrams(t, sizes),
        Analyzer::CharWb => wb_ngrams(words(t), sizes),
    }
}

/// A text after optional normalization and optional stop-word removal.
pub open spec fn preprocess(t: Seq<char>, normalize: Option<bool>, stops: Option<Seq<Seq<char>>>) -> Seq<char> {
    let a = if normalize == Some(true) {
        normalize_text(t)
    } else {
        t
    };
    match stops {
        Some(s) => filtered(a, s),
        None => a,
    }
}

/// The stop words as contents.
pub open spec fn stop_views(stop_words: Option<Vec<String>>) -> Option<Seq<Seq<char>>> {
    match stop_words {
        Some(v) => Some(views(v@)),
        None => None,
    }
}

/// Whether `r` holds the term counts of each text of `texts`, in order,
/// after the pipeline with these settings.
pub open spec fn vectorized(
    r: Seq<Vec<(String, usize)>>,
    texts: Seq<String>,
    a: Analyzer,
    sizes: Seq<usize>,
    stops: Option<Seq<Seq<char>>>,
    normalize: Option<bool>,
) -> bool {
    &&& r.len() == texts.len()
    &&& forall|i: int|
        0 <= i < texts.len() ==> counts_are(
            (#[trigger] r[i])@,
            analyze(a, preprocess(texts[i]@, normalize, stops), sizes),
        )
}

fn same_chars(a: &Vec<char>, b: &Vec<char>) -> (r: bool)
    ensures
        r == (a@ == b@),
{
    if a.len() != b.len() {
        return false;
    }
    let mut i: usize = 0;
    while i < a.len()
        invariant
            i <= a.len(),
            a.len() == b.len(),
            forall|k: int| 0 <= k < i ==> a@[k] == b@[k],
        decreases a.len() - i,
    {
        if a[i] != b[i] {
            return false;
        }
        i += 1;
    }
    assert(a@ =~= b@);
    true
}

/// The analyzer named `name`: `word`, `char` or `char_wb`.
pub fn parse_analyzer(name: &str) -> (r: Result<Analyzer, ConfigError>)
    ensures
        match analyzer_of(name@) {
            Some(a) => r == Ok::<Analyzer, ConfigError>(a),
            None => r == Err::<Analyzer, ConfigError>(ConfigError::InvalidAnalyzer),
        },
{
    let cs = chars_of(name);
    let word = vec!['w', 'o', 'r', 'd'];
    let ch = vec!['c', 'h', 'a', 'r'];
    let wb = vec!['c', 'h', 'a', 'r', '_', 'w', 'b'];
    assert(word@ =~= seq!['w', 'o', 'r', 'd']);
    assert(ch@ =~= seq!['c', 'h', 'a', 'r']);
    assert(wb@ =~= seq!['c', 'h', 'a', 'r', '_', 'w', 'b']);
    if same_chars(&cs, &word) {
        Ok(Analyzer::Word)
    } else if same_chars(&cs, &ch) {
        Ok(Analyzer::Char)
    } else if same_chars(&cs, &wb) {
        Ok(Analyzer::CharWb)
    } else {
        Err(ConfigError::InvalidAnalyzer)
    }
}

/// The name of `a`.
pub fn analyzer_to_string(a: Analyzer) -> (r: String)
    ensures
        r@ == analyzer_name(a),
{
    let v = match a {
        Analyzer::Word => vec!['w', 'o', 'r', 'd'],
        Analyzer::Char => vec!['c', 'h', 'a', 'r'],
        Analyzer::CharWb => vec!['c', 'h', 'a', 'r', '_', 'w', 'b'],
    };
    let r = crate::text::string_of(v.as_slice());
    assert(r@ =~= analyzer_name(a));
    r
}

/// Whether every n-gram size is positive.
pub fn check_sizes(n_sizes: &Vec<usize>) -> (r: bool)
    ensures
        r == positive_sizes(n_sizes@),
{
    let mut i: usize = 0;
    while i < n_sizes.len()
        invariant
            i <= n_sizes.len(),
            forall|k: int| 0 <= k < i ==> n_sizes@[k] > 0,
        decreases n_sizes.len() - i,
    {
        if n_sizes[i] == 0 {
            return false;
        }
        i += 1;
    }
    true
}

/// Normalizes the texts if `normalize` is `Some(true)`, then removes the
/// stop words if there are any.
pub fn process_texts(texts: &Vec<String>, normalize: Option<bool>, stop_words: &Option<Vec<String>>) -> (r:
    Vec<String>)
    ensures
        r.len() == texts.len(),
        forall|i: int|
            0 <= i < texts.len() ==> (#[trigger] r[i])@ == preprocess(
                texts[i]@,
                normalize,
                stop_views(*stop_words),
            ),
{
    let normalized: Vec<String> = match normalize {
        Some(true) => rsnormalize_many(texts),
        _ => {
            let mut v: Vec<String> = Vec::new();
            let mut i: usize = 0;
            while i < texts.len()
                invariant
                    i <= texts.len(),
                    v.len() == i,
                    forall|k: int| 0 <= k < i ==> (#[trigger] v[k])@ == texts[k]@,
                decreases texts.len() - i,
            {
                v.push(texts[i].clone());
                i += 1;
            }
            v
        },
    };
    match stop_words {
        Some(sw) => rsfilter_stop_words_many(&normalized, sw),
        None => normalized,
    }
}

proof fn lemma_views_of(v: Vec<String>, s: Seq<Seq<char>>)
    requires
        strings_are(v@, s),
    ensures
        views(v@) == s,
{
    assert(views(v@) =~= s);
}

/// The pipeline with analyzer `a` over each text, in order.
pub fn vectorize(
    texts: &Vec<String>,
    n_sizes: &Vec<usize>,
    a: Analyzer,
    stop_words: &Option<Vec<String>>,
    normalize: Option<bool>,
) -> (r: Vec<Vec<(String, usize)>>)
    requires
        positive_sizes(n_sizes@),
    ensures
        vectorized(r@, texts@, a, n_sizes@, stop_views(*stop_words), normalize),
{
    let processed = process_texts(texts, normalize, stop_words);
    let mut out: Vec<Vec<(String, usize)>> = Vec::new();
    let mut i: usize = 0;
    while i < processed.len()
        invariant
            i <= processed.len(),
            processed.len() == texts.len(),
            positive_sizes(n_sizes@),
            forall|k: int|
                0 <= k < texts.len() ==> (#[trigger] processed[k])@ == preprocess(
                    texts[k]@,
                    normalize,
                    stop_views(*stop_words),
                ),
            out.len() == i,
            forall|k: int|
                0 <= k < i ==> counts_are(
                    (#[trigger] out[k])@,
                    analyze(a, preprocess(texts[k]@, normalize, stop_views(*stop_words)), n_sizes@),
                ),
        decreases processed.len() - i,
    {
        let text = processed[i].as_str();
        let tokens = match a {
            Analyzer::Word => rssplit_words(text, n_sizes),
            Analyzer::Char => rschar_ngrams(text, n_sizes),
            Analyzer::CharWb => rschar_wb_ngrams(text, n_sizes),
        };
        proof {
            lemma_views_of(tokens, analyze(a, processed[i as int]@, n_sizes@));
        }
        out.push(count_tokens(&tokens));
        i += 1;
    }
    out
}

/// Term counts of word n-grams of each text after the pipeline's preprocessing.
pub fn rsvectorize_split_words_many(
    texts: &Vec<String>,
    n_sizes: &Vec<usize>,
    stop_words: &Option<Vec<String>>,
    normalize: Option<bool>,
) -> (r: Vec<Vec<(String, usize)>>)
    requires
        positive_sizes(n_sizes@),
    ensures
        vectorized(r@, texts@, Analyzer::Word, n_sizes@, stop_views(*stop_words), normalize),
{
    vectorize(texts, n_sizes, Analyzer::Word, stop_words, normalize)
}

/// Term counts of character n-grams of each text after the pipeline's preprocessing.
pub fn rsvectorize_char_ngrams_many(
    texts: &Vec<String>,
    n_sizes: &Vec<usize>,
    stop_words: &Option<Vec<String>>,
    normalize: Option<bool>,
) -> (r: Vec<Vec<(String, usize)>>)
    requires
        positive_sizes(n_sizes@),
    ensures
        vectorized(r@, texts@, Analyzer::Char, n_sizes@, stop_views(*stop_words), normalize),
{
    vectorize(texts, n_sizes, Analyzer::Char, stop_words, normalize)
}

/// Term counts of within-word character n-grams of each text after the
/// pipeline's preprocessing.
pub fn rsvectorize_char_wb_ngrams_many(
    texts: &Vec<String>,
    n_sizes: &Vec<usize>,
    stop_words: &Option<Vec<String>>,
    normalize: Option<bool>,
) -> (r: Vec<Vec<(String, usize)>>)
    requires
        positive_sizes(n_sizes@),
    ensures
        vectorized(r@, texts@, Analyzer::CharWb, n_sizes@, stop_views(*stop_words), normalize),
{
    vectorize(texts, n_sizes, Analyzer::CharWb, stop_words, normalize)
}

/// The pipeline with the analyzer named `analyzer`; fails on an unknown
/// analyzer name, then on an n-gram size of zero.
pub fn rsvectorize_many(
    texts: &Vec<String>,
    n_sizes: &Vec<usize>,
    analyzer: &str,
    stop_words: &Option<Vec<String>>,
    normalize: Option<bool>,
) -> (r: Result<Vec<Vec<(String, usize)>>, ConfigError>)
    ensures
        analyzer_of(analyzer@) is None ==> r == Err::<Vec<Vec<(String, usize)>>, ConfigError>(
            ConfigError::InvalidAnalyzer,
        ),
        analyzer_of(analyzer@) is Some && !positive_sizes(n_sizes@) ==> r == Err::<
            Vec<Vec<(String, usize)>>,
            ConfigError,
        >(ConfigError::InvalidNgramSize),
        analyzer_of(analyzer@) is Some && positive_sizes(n_sizes@) ==> r is Ok && vectorized(
            r->Ok_0@,
            texts@,
            analyzer_of(analyzer@)->0,
            n_sizes@,
            stop_views(*stop_words),
            normalize,
        ),
{
    let a = match parse_analyzer(analyzer) {
        Ok(a) => a,
        Err(e) => {
            return Err(e);
        },
    };
    if !check_sizes(n_sizes) {
        return Err(ConfigError::InvalidNgramSize);
    }
    Ok(vectorize(texts, n_sizes, a, stop_words, normalize))
}

/// Term counts of the character n-grams of the normalized text.
pub fn rsvectorize_char_ngrams(text: &str, n_sizes: &Vec<usize>) -> (r: Vec<(String, usize)>)
    requires
        positive_sizes(n_sizes@),
    ensures
        counts_are(r@, char_ngrams(normalize_text(text@), n_sizes@)),
{
    let normalized = rsnormalize(text);
    let tokens = rschar_ngrams(normalized.as_str(), n_sizes);
    proof {
        lemma_views_of(tokens, char_ngrams(normalize_text(text@), n_sizes@));
    }
    count_tokens(&tokens)
}

/// Term counts of the within-word character n-grams of the normalized text.
pub fn rsvectorize_char_wb_ngrams(text: &str, n_sizes: &Vec<usize>) -> (r: Vec<(String, usize)>)
    requires
        positive_sizes(n_sizes@),
    ensures
        counts_are(r@, wb_ngrams(words(normalize_text(text@)), n_sizes@)),
{
    let normalized = rsnormalize(text);
    let tokens = rschar_wb_ngrams(normalized.as_str(), n_sizes);
    proof {
        lemma_views_of(tokens, wb_ngrams(words(normalize_text(text@)), n_sizes@));
    }
    count_tokens(&tokens)
}

} // verus!
