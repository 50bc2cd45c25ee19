use std::collections::HashMap;
use std::collections::HashSet;

use lenlp::analyzer::{
    rschar_ngrams, rschar_ngrams_many, rschar_wb_ngrams, rschar_wb_ngrams_many, rssplit_words,
    rssplit_words_many,
};
use lenlp::counter::{rscount, rscount_many};
use lenlp::normalizer::{rsnormalize, rsnormalize_many};
use lenlp::stop_words::{rsfilter_stop_words, rsfilter_stop_words_many};

fn as_map(pairs: Vec<(String, usize)>) -> HashMap<String, usize> {
    pairs.into_iter().collect()
}

#[test]
fn test_rscount() {
    let text = vec![
        "hello".to_string(),
        "world".to_string(),
        "hello".to_string(),
        "hello".to_string(),
    ];
    let result = rscount(text);
    let mut expected = HashMap::new();
    expected.insert("hello".to_string(), 3);
    expected.insert("world".to_string(), 1);
    assert_eq!(as_map(result), expected);
}

#[test]
fn test_rscount_many() {
    let texts = vec![
        vec!["hello".to_string(), "world".to_string()],
        vec!["hello".to_string(), "world".to_string(), "hello".to_string()],
    ];
    let result: Vec<HashMap<String, usize>> = rscount_many(texts).into_iter().map(as_map).collect();
    let mut expected = Vec::new();
    let mut map1 = HashMap::new();
    map1.insert("hello".to_string(), 1);
    map1.insert("world".to_string(), 1);
    let mut map2 = HashMap::new();
    map2.insert("hello".to_string(), 2);
    map2.insert("world".to_string(), 1);
    expected.push(map1);
    expected.push(map2);
    assert_eq!(result, expected);
}

#[test]
fn count_keeps_first_seen_order() {
    let text = vec!["b".to_string(), "a".to_string(), "b".to_string(), "c".to_string()];
    assert_eq!(
        rscount(text),
        vec![("b".to_string(), 2), ("a".to_string(), 1), ("c".to_string(), 1)]
    );
    assert_eq!(rscount(Vec::new()), Vec::new());
}

#[test]
fn test_rsnormalize() {
    assert_eq!(rsnormalize("Hello World! 😀"), "hello world");
    assert_eq!(rsnormalize("1,2,3,4"), "1234");
}

#[test]
fn test_rsnormalize_many() {
    let input = vec!["Hello World! 😀".to_string(), "Goodbye, World!".to_string()];
    let expected = vec!["hello world".to_string(), "goodbye world".to_string()];
    assert_eq!(rsnormalize_many(&input), expected);
}

#[test]
fn normalize_transliterates_accents() {
    assert_eq!(rsnormalize("  Café Déjà-Vu  "), "cafe dejavu");
    assert_eq!(rsnormalize("Straße"), "strasse");
    assert_eq!(rsnormalize(""), "");
    assert_eq!(rsnormalize("!?."), "");
}

#[test]
fn normalize_is_idempotent_on_samples() {
    for s in ["Hello World! 😀", "  Ça va? ", "ÀÉÎÕÜ 123", "\t tabs\tand\nlines ", "«quoted»"] {
        let once = rsnormalize(s);
        assert_eq!(rsnormalize(&once), once);
    }
}

#[test]
fn test_rschar_ngrams() {
    let text = "hello world";
    let n_sizes = vec![3];
    let mut result = rschar_ngrams(text, &n_sizes);
    result.sort();
    let expected = vec![
        " wo".to_string(),
        "ell".to_string(),
        "hel".to_string(),
        "llo".to_string(),
        "lo ".to_string(),
        "o w".to_string(),
        "orl".to_string(),
        "rld".to_string(),
        "wor".to_string(),
    ];
    assert_eq!(result, expected);
}

#[test]
fn char_ngrams_count_code_points_in_order() {
    assert_eq!(rschar_ngrams("héé", &vec![2, 3]), vec!["hé", "éé", "héé"]);
    assert_eq!(rschar_ngrams("ab", &vec![3]), Vec::<String>::new());
    assert_eq!(rschar_ngrams("", &vec![1]), Vec::<String>::new());
}

#[test]
fn test_rschar_wb_ngrams() {
    let text = "hello world";
    let n_sizes = vec![3];
    let mut result = rschar_wb_ngrams(text, &n_sizes);
    result.sort();
    let expected: HashSet<String> = vec![
        "rld".to_string(),
        "wor".to_string(),
        "ell".to_string(),
        "llo".to_string(),
        "orl".to_string(),
        "hel".to_string(),
    ]
    .into_iter()
    .collect();
    assert_eq!(result.into_iter().collect::<HashSet<_>>(), expected);
}

#[test]
fn test_rschar_wb_ngrams_many() {
    let input = vec!["hello world".to_string(), "goodbye world".to_string()];
    let n_sizes = vec![3];
    let result = rschar_wb_ngrams_many(&input, &n_sizes);
    let expected: Vec<Vec<String>> = vec![
        vec!["hel", "ell", "llo", "wor", "orl", "rld"],
        vec!["goo", "ood", "odb", "dby", "bye", "wor", "orl", "rld"],
    ]
    .into_iter()
    .map(|v| v.into_iter().map(|s| s.to_string()).collect())
    .collect();
    assert_eq!(result, expected);
}

#[test]
fn char_wb_ngrams_skip_short_words() {
    assert_eq!(rschar_wb_ngrams("a bcd  ef", &vec![2]), vec!["bc", "cd", "ef"]);
}

#[test]
fn test_rssplit_words() {
    let text = "hello world";
    let mut result = rssplit_words(text, &vec![1]);
    result.sort();
    let expected: HashSet<String> =
        vec!["hello".to_string(), "world".to_string()].into_iter().collect();
    assert_eq!(result.into_iter().collect::<HashSet<_>>(), expected);
}

#[test]
fn test_rssplit_words_many() {
    let input = vec!["hello world".to_string(), "goodbye world".to_string()];
    let mut result = rssplit_words_many(&input, &vec![1]);
    result.sort();
    let expected: HashSet<Vec<String>> = vec![
        vec!["hello".to_string(), "world".to_string()],
        vec!["goodbye".to_string(), "world".to_string()],
    ]
    .into_iter()
    .collect();
    assert_eq!(result.into_iter().collect::<HashSet<_>>(), expected);
}

#[test]
fn split_words_joins_windows_with_one_space() {
    assert_eq!(
        rssplit_words("  the   quick brown\tfox ", &vec![2, 3]),
        vec![
            "the quick",
            "quick brown",
            "brown fox",
            "the quick brown",
            "quick brown fox"
        ]
    );
    assert_eq!(rssplit_words("one", &vec![2]), Vec::<String>::new());
}

#[test]
fn filter_stop_words_scenario() {
    assert_eq!(
        rsfilter_stop_words("the quick brown fox", &vec!["the".to_string()]),
        "quick brown fox"
    );
    assert_eq!(
        rsfilter_stop_words("  a  b   a c ", &vec!["a".to_string(), "z".to_string()]),
        "b c"
    );
    assert_eq!(rsfilter_stop_words("the", &vec!["the".to_string()]), "");
}

#[test]
fn batches_keep_length_and_order() {
    let texts = vec!["B a".to_string(), "".to_string(), "c, D".to_string()];
    let stops = vec!["a".to_string()];
    assert_eq!(rsnormalize_many(&texts), vec!["b a", "", "c d"]);
    assert_eq!(rsfilter_stop_words_many(&texts, &stops), vec!["B", "", "c, D"]);
    let grams = rschar_ngrams_many(&texts, &vec![1]);
    assert_eq!(grams.len(), 3);
    assert_eq!(grams[0], vec!["B", " ", "a"]);
    assert!(grams[1].is_empty());
    assert_eq!(grams[2].len(), 4);
}
