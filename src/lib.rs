//! Text preprocessing and vectorization: normalization, stop-word filtering,
//! n-gram analysis, term counting, a multi-keyword trie matcher and a
//! vocabulary-indexed sparse matrix builder.
pub mod text;
pub mod normalizer;
pub mod flashtext;
pub mod analyzer;
pub mod counter;
pub mod stop_words;
pub mod vectorizer;
pub mod sparse;
