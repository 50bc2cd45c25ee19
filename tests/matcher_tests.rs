use lenlp::flashtext::{RSKeywordProcessor, RSTrieNode};

fn triple(label: &str, start: usize, end: usize) -> (String, usize, usize) {
    (label.to_string(), start, end)
}

#[test]
fn extract_new_york_scenario() {
    for (lowercase, normalize) in [(false, false), (true, false), (false, true), (true, true)] {
        let mut kp = RSKeywordProcessor::new(lowercase, normalize);
        assert!(kp.add_keyword("New York", Some("NY")));
        assert_eq!(
            kp.extract_keywords("I live in New York City"),
            vec![triple("NY", 10, 18)]
        );
    }
}

#[test]
fn duplicate_insertion_reports_false() {
    let mut kp = RSKeywordProcessor::new(true, false);
    assert_eq!(kp.terms_in_trie(), 0);
    assert!(kp.add_keyword("Paris", None));
    assert_eq!(kp.terms_in_trie(), 1);
    assert!(!kp.add_keyword("PARIS", Some("other")));
    assert_eq!(kp.terms_in_trie(), 1);
    assert_eq!(kp.extract_keywords("paris!"), vec![triple("Paris", 0, 5)]);
}

#[test]
fn add_keywords_many_reports_each() {
    let mut kp = RSKeywordProcessor::new(false, false);
    let words = vec!["cat".to_string(), "dog".to_string(), "cat".to_string()];
    assert_eq!(kp.add_keywords_many(&words, None), vec![true, true, false]);
    assert_eq!(
        kp.extract_keywords("cat and dog"),
        vec![triple("cat", 0, 3), triple("dog", 8, 11)]
    );
}

#[test]
fn label_defaults_to_raw_keyword() {
    let mut kp = RSKeywordProcessor::new(false, true);
    assert!(kp.add_keyword("Café", None));
    assert_eq!(kp.extract_keywords("un cafe"), vec![triple("Café", 3, 7)]);
}

#[test]
fn normalized_spans_are_input_byte_offsets() {
    let mut kp = RSKeywordProcessor::new(false, true);
    assert!(kp.add_keyword("cafe", Some("coffee")));
    let sentence = "Un Café, s'il vous plaît";
    let found = kp.extract_keywords(sentence);
    assert_eq!(found, vec![triple("coffee", 3, 8)]);
    assert_eq!(&sentence[3..8], "Café");
}

#[test]
fn spans_slice_the_sentence() {
    let mut kp = RSKeywordProcessor::new(true, true);
    assert!(kp.add_keyword("zurich", None));
    assert!(kp.add_keyword("geneve", Some("Geneva")));
    let sentence = "Zürich → Genève; ZÜRICH.";
    let found = kp.extract_keywords(sentence);
    assert_eq!(found.len(), 3);
    for (_, start, end) in &found {
        assert!(start < end && *end <= sentence.len());
        let _slice = &sentence[*start..*end];
    }
    assert_eq!(&sentence[found[1].1..found[1].2], "Genève");
    assert_eq!(found[1].0, "Geneva");
}

#[test]
fn plain_mode_is_case_sensitive() {
    let mut kp = RSKeywordProcessor::new(false, false);
    assert!(kp.add_keyword("Rust", None));
    assert_eq!(kp.extract_keywords("rust Rust"), vec![triple("Rust", 5, 9)]);
}

#[test]
fn lowercase_mode_folds_case() {
    let mut kp = RSKeywordProcessor::new(true, false);
    assert!(kp.add_keyword("ÉCOLE", None));
    assert_eq!(kp.extract_keywords("une École"), vec![triple("ÉCOLE", 4, 10)]);
}

#[test]
fn no_match_inside_a_longer_word_on_the_right() {
    let mut kp = RSKeywordProcessor::new(false, false);
    assert!(kp.add_keyword("york", None));
    assert_eq!(kp.extract_keywords("yorkshire"), Vec::new());
    assert_eq!(kp.extract_keywords(""), Vec::new());
}

#[test]
fn extract_keywords_many_keeps_order() {
    let mut kp = RSKeywordProcessor::new(true, false);
    assert!(kp.add_keyword("a", None));
    let sentences = vec!["b a".to_string(), "".to_string(), "A".to_string()];
    assert_eq!(
        kp.extract_keywords_many(&sentences),
        vec![vec![triple("a", 2, 3)], vec![], vec![triple("a", 0, 1)]]
    );
}

#[test]
fn trie_node_starts_empty() {
    let node = RSTrieNode::new();
    assert!(node.children.is_empty());
    assert!(!node.is_end);
    assert!(node.clean_name.is_none());
}

#[test]
fn normalize_mode_drops_trailing_punctuation() {
    let mut kp = RSKeywordProcessor::new(false, true);
    assert!(kp.add_keyword("Python", None));
    assert_eq!(kp.extract_keywords("I love python!"), vec![triple("Python", 7, 13)]);
}

#[test]
fn lowercase_mode_reports_byte_offsets() {
    let mut kp = RSKeywordProcessor::new(true, false);
    assert!(kp.add_keyword("york", Some("Y")));
    assert_eq!(kp.extract_keywords("I love York"), vec![triple("Y", 7, 11)]);
}

#[test]
fn span_end_covers_whole_character() {
    let mut kp = RSKeywordProcessor::new(false, true);
    assert!(kp.add_keyword("cafe", None));
    assert_eq!(kp.extract_keywords("Café au lait"), vec![triple("cafe", 0, 5)]);
}

#[test]
fn duplicate_keeps_first_label() {
    let mut kp = RSKeywordProcessor::new(false, true);
    assert!(kp.add_keyword("york", Some("A")));
    assert!(!kp.add_keyword("york", Some("B")));
    assert_eq!(kp.extract_keywords("york"), vec![triple("A", 0, 4)]);
}

#[test]
fn matches_come_in_order_without_overlap() {
    let mut kp = RSKeywordProcessor::new(true, false);
    for k in ["a b", "c", "d"] {
        assert!(kp.add_keyword(k, None));
    }
    let found = kp.extract_keywords("d a b c x d");
    assert_eq!(
        found,
        vec![triple("d", 0, 1), triple("a b", 2, 5), triple("c", 6, 7), triple("d", 10, 11)]
    );
    for w in found.windows(2) {
        assert!(w[0].2 < w[1].1);
    }
}
