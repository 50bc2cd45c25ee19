use lenlp::sparse::{SparseMatrixBuilder, StateError};
use lenlp::vectorizer::{
    parse_analyzer, process_texts, rsvectorize_char_ngrams, rsvectorize_char_ngrams_many,
    rsvectorize_char_wb_ngrams, rsvectorize_char_wb_ngrams_many,
    rsvectorize_many, rsvectorize_split_words_many, Analyzer, ConfigError,
};

fn texts(v: &[&str]) -> Vec<String> {
    v.iter().map(|s| s.to_string()).collect()
}

fn builder(analyzer: &str, sizes: Vec<usize>) -> SparseMatrixBuilder {
    match SparseMatrixBuilder::new(sizes, analyzer.to_string(), None, None) {
        Ok(b) => b,
        Err(e) => panic!("unexpected {:?}", e),
    }
}

#[test]
fn fit_transform_word_scenario() {
    let mut b = builder("word", vec![1]);
    let (values, rows, cols) = b.fit_transform(&texts(&["cat dog", "dog dog"]));
    assert_eq!(b.get_vocab(), vec![("cat".to_string(), 0), ("dog".to_string(), 1)]);
    assert_eq!(b.get_num_cols(), 2);
    assert_eq!(values, vec![1, 1, 2]);
    assert_eq!(rows, vec![0, 0, 1]);
    assert_eq!(cols, vec![0, 1, 1]);
}

#[test]
fn transform_drops_unknown_tokens_and_keeps_columns() {
    let mut b = builder("word", vec![1]);
    b.fit(&texts(&["cat dog", "dog dog"]));
    let (values, rows, cols) = b.transform(&texts(&["bird dog cat cat", "bird"]));
    assert_eq!(values, vec![1, 2]);
    assert_eq!(rows, vec![0, 0]);
    assert_eq!(cols, vec![1, 0]);
    assert_eq!(b.get_num_cols(), 2);
}

#[test]
fn columns_stay_below_num_cols() {
    let docs = texts(&["the cat sat", "on the mat", "the end"]);
    let mut b = builder("char_wb", vec![1, 2]);
    b.fit(&docs);
    assert_eq!(b.get_num_cols(), b.get_vocab().len());
    let (_, _, cols) = b.transform(&docs);
    assert!(cols.iter().all(|c| *c < b.get_num_cols()));
}

#[test]
fn fit_transform_matches_fit_then_transform() {
    let docs = texts(&["a b a", "c a"]);
    let mut one = builder("word", vec![1, 2]);
    let combined = one.fit_transform(&docs);
    let mut two = builder("word", vec![1, 2]);
    two.fit(&docs);
    assert_eq!(two.transform(&docs), combined);
    assert_eq!(one.get_vocab(), two.get_vocab());
}

#[test]
fn refit_resets_vocabulary() {
    let mut b = builder("word", vec![1]);
    b.fit(&texts(&["x y"]));
    b.fit(&texts(&["z"]));
    assert_eq!(b.get_vocab(), vec![("z".to_string(), 0)]);
}

#[test]
fn invalid_configuration_is_reported() {
    assert!(matches!(
        SparseMatrixBuilder::new(vec![1], "words".to_string(), None, None),
        Err(ConfigError::InvalidAnalyzer)
    ));
    assert!(matches!(
        SparseMatrixBuilder::new(vec![1, 0], "char".to_string(), None, None),
        Err(ConfigError::InvalidNgramSize)
    ));
    assert!(matches!(parse_analyzer("char_wb"), Ok(Analyzer::CharWb)));
    assert!(matches!(
        rsvectorize_many(&texts(&["a"]), &vec![1], "bytes", &None, None),
        Err(ConfigError::InvalidAnalyzer)
    ));
    assert!(matches!(
        rsvectorize_many(&texts(&["a"]), &vec![0], "word", &None, None),
        Err(ConfigError::InvalidNgramSize)
    ));
}

#[test]
fn state_round_trip_rebuilds_builder() {
    let stops = Some(texts(&["the"]));
    let mut b = SparseMatrixBuilder::new(vec![1], "word".to_string(), stops, Some(true)).unwrap();
    b.fit(&texts(&["The Cat!", "the dog"]));
    let (sizes, analyzer, stop_words, normalize) = b.new_args();
    assert_eq!(analyzer, "word");
    let restored =
        SparseMatrixBuilder::from_state(sizes, analyzer, stop_words, normalize, b.vocab_tokens())
            .unwrap();
    assert_eq!(restored.get_vocab(), b.get_vocab());
    let docs = texts(&["CAT, the Dog"]);
    assert_eq!(restored.transform(&docs), b.transform(&docs));
    assert_eq!(b.get_vocab(), vec![("cat".to_string(), 0), ("dog".to_string(), 1)]);
}

#[test]
fn state_with_repeated_token_is_rejected() {
    let r = SparseMatrixBuilder::from_state(
        vec![1],
        "word".to_string(),
        None,
        None,
        texts(&["a", "b", "a"]),
    );
    assert!(matches!(r, Err(StateError::DuplicateToken)));
    let r = SparseMatrixBuilder::from_state(vec![1], "nope".to_string(), None, None, texts(&["a"]));
    assert!(matches!(r, Err(StateError::Config(ConfigError::InvalidAnalyzer))));
}

#[test]
fn pipeline_normalizes_then_filters() {
    let docs = texts(&["The Cat, the HAT", ""]);
    let stops = Some(texts(&["the"]));
    assert_eq!(process_texts(&docs, Some(true), &stops), vec!["cat hat", ""]);
    assert_eq!(process_texts(&docs, Some(false), &None), docs);
    let counts = rsvectorize_split_words_many(&docs, &vec![1], &stops, Some(true));
    assert_eq!(counts, vec![vec![("cat".to_string(), 1), ("hat".to_string(), 1)], vec![]]);
    let chars = rsvectorize_char_ngrams_many(&texts(&["aba"]), &vec![1], &None, None);
    assert_eq!(chars, vec![vec![("a".to_string(), 2), ("b".to_string(), 1)]]);
    let wb = rsvectorize_char_wb_ngrams_many(&texts(&["ab ab"]), &vec![2], &None, None);
    assert_eq!(wb, vec![vec![("ab".to_string(), 2)]]);
    let any = rsvectorize_many(&texts(&["x x"]), &vec![1], "word", &None, None).unwrap();
    assert_eq!(any, vec![vec![("x".to_string(), 2)]]);
}

#[test]
fn single_text_vectorizers_normalize_first() {
    assert_eq!(
        rsvectorize_char_ngrams("A-a!", &vec![1]),
        vec![("a".to_string(), 2)]
    );
    assert_eq!(
        rsvectorize_char_wb_ngrams("Ab ab, c", &vec![2]),
        vec![("ab".to_string(), 2)]
    );
}
