use stvec::table::WordSet;
use stvec::tokens::tokenize;
use stvec::vocab::{ParamsError, Vocabulary};

fn vocab_texts(items: &[&str]) -> Vec<String> {
    items.iter().map(|s| String::from(*s)).collect()
}

fn vocab_words(items: &[&str]) -> WordSet {
    let mut set = WordSet::new();
    for w in items {
        set.insert(String::from(*w));
    }
    set
}

#[test]
fn test_vocabulary() {
    let texts = vocab_texts(&["this is a first sentence", "this is a second sentence"]);
    let stop_words = vocab_words(&["is"]);

    let mut vocab = Vocabulary::new(0, 10, false, stop_words);
    vocab.train(&texts);
    assert_eq!(vocab.get("this").unwrap().1, 2);
    assert_eq!(vocab.get("first").unwrap().1, 1);
    assert_eq!(vocab.get("is"), None);
}

#[test]
fn tokenize_splits_on_whitespace() {
    assert_eq!(tokenize("  foo bar\tbaz\n"), vocab_texts(&["foo", "bar", "baz"]));
    assert_eq!(tokenize("   "), Vec::<String>::new());
}

#[test]
fn df_counts_documents_not_occurrences() {
    let mut vocab = Vocabulary::new(0, 100, false, WordSet::new());
    vocab.train(&vocab_texts(&["foo bar bar baz", "foo foo baz qux"]));
    assert_eq!(vocab.len(), 4);
    assert_eq!(vocab.total_docs(), 2);
    assert_eq!(vocab.get("foo").unwrap().1, 2);
    assert_eq!(vocab.get("bar").unwrap().1, 1);
    assert_eq!(vocab.get("baz").unwrap().1, 2);
    assert_eq!(vocab.get("qux").unwrap().1, 1);
    assert_eq!(vocab.get("quux"), None);
    let mut indices: Vec<usize> = ["foo", "bar", "baz", "qux"].iter().map(|t| vocab.get(t).unwrap().0).collect();
    indices.sort();
    assert_eq!(indices, vec![0, 1, 2, 3]);
}

#[test]
fn bounds_filter_tokens() {
    let mut vocab = Vocabulary::new(2, 2, false, WordSet::new());
    vocab.train(&vocab_texts(&["a b c", "a b", "a"]));
    assert_eq!(vocab.get("a"), None);
    assert_eq!(vocab.get("b").unwrap().1, 2);
    assert_eq!(vocab.get("c"), None);
    assert_eq!(vocab.len(), 1);
}

#[test]
fn trained_entries_within_bounds_and_not_stop_words() {
    let mut vocab = Vocabulary::new(1, 2, true, vocab_words(&["x"]));
    vocab.train(&vocab_texts(&["x y z", "y z w", "z"]));
    let params = vocab.to_params();
    for (token, _, df) in params.5.iter() {
        if token.starts_with("@@") {
            assert_eq!(*df, 0);
        } else {
            assert!(1 <= *df && *df <= 2);
            assert_ne!(token, "x");
        }
    }
    assert_eq!(vocab.get("z"), None);
    assert_eq!(vocab.get("y").unwrap().1, 2);
}

#[test]
fn markers_take_lowest_indices() {
    let mut vocab = Vocabulary::new(0, 10, true, WordSet::new());
    assert_eq!(vocab.bos(), None);
    vocab.train(&vocab_texts(&["hello world"]));
    assert_eq!(vocab.bos(), Some(0));
    assert_eq!(vocab.eos(), Some(1));
    assert_eq!(vocab.pad(), Some(2));
    assert_eq!(vocab.unk(), Some(3));
    assert_eq!(vocab.len(), 6);
    assert!(vocab.get("hello").unwrap().0 >= 4);
    assert!(vocab.get("world").unwrap().0 >= 4);
}

#[test]
fn markers_absent_without_specials() {
    let mut vocab = Vocabulary::new(0, 10, false, WordSet::new());
    vocab.train(&vocab_texts(&["hello"]));
    assert_eq!(vocab.bos(), None);
    assert_eq!(vocab.unk(), None);
}

#[test]
fn training_twice_gives_same_entries() {
    let corpus = vocab_texts(&["a b c", "b c d", "c d e"]);
    let mut vocab = Vocabulary::new(1, 2, false, WordSet::new());
    vocab.train(&corpus);
    let first: Vec<_> = ["a", "b", "c", "d", "e"].iter().map(|t| vocab.get(t)).collect();
    vocab.train(&corpus);
    let second: Vec<_> = ["a", "b", "c", "d", "e"].iter().map(|t| vocab.get(t)).collect();
    assert_eq!(first, second);
    assert_eq!(vocab.get("c"), None);
}

#[test]
fn retraining_replaces_entries() {
    let mut vocab = Vocabulary::new(0, 10, false, WordSet::new());
    vocab.train(&vocab_texts(&["old words"]));
    vocab.train(&vocab_texts(&["new", "new"]));
    assert_eq!(vocab.get("old"), None);
    assert_eq!(vocab.get("new"), Some((0, 2)));
    assert_eq!(vocab.total_docs(), 2);
    assert_eq!(vocab.len(), 1);
}

#[test]
fn params_round_trip() {
    let mut vocab = Vocabulary::new(0, 5, true, vocab_words(&["the"]));
    vocab.train(&vocab_texts(&["the cat sat", "the dog sat", "a cat"]));
    let rebuilt = Vocabulary::from_params(vocab.to_params()).unwrap();
    for t in ["the", "cat", "sat", "dog", "a", "zebra"] {
        assert_eq!(rebuilt.get(t), vocab.get(t));
    }
    assert_eq!(rebuilt.bos(), vocab.bos());
    assert_eq!(rebuilt.unk(), vocab.unk());
    assert_eq!(rebuilt.len(), vocab.len());
    assert_eq!(rebuilt.total_docs(), 3);
    let params = rebuilt.to_params();
    assert_eq!((params.0, params.1, params.2, params.4), (0, 5, true, 3));
    assert_eq!(params.3, vec![String::from("the")]);
}

#[test]
fn from_params_keeps_last_duplicate() {
    let entries = vec![(String::from("a"), 0, 1), (String::from("a"), 5, 3)];
    let vocab = Vocabulary::from_params((0, 9, false, vec![String::from("s")], 4, entries)).unwrap();
    assert_eq!(vocab.get("a"), Some((5, 3)));
    assert_eq!(vocab.len(), 1);
    assert_eq!(vocab.get("s"), None);
}

#[test]
fn zero_bounds_keep_nothing() {
    let mut vocab = Vocabulary::new(0, 0, false, WordSet::new());
    vocab.train(&vocab_texts(&["a b", "c"]));
    assert_eq!(vocab.len(), 0);
    let mut with_markers = Vocabulary::new(0, 0, true, WordSet::new());
    with_markers.train(&vocab_texts(&["a b", "c"]));
    assert_eq!(with_markers.len(), 4);
    assert_eq!(with_markers.get("a"), None);
}

#[test]
fn empty_corpus() {
    let mut vocab = Vocabulary::new(0, 10, true, WordSet::new());
    vocab.train(&Vec::new());
    assert_eq!(vocab.len(), 4);
    assert_eq!(vocab.total_docs(), 0);
}

#[test]
fn from_params_refuses_shared_index() {
    let entries = vec![(String::from("a"), 0, 1), (String::from("b"), 0, 2)];
    let result = Vocabulary::from_params((0, 9, false, Vec::new(), 2, entries));
    assert!(matches!(result, Err(ParamsError::SharedIndex)));
}

#[test]
fn marker_text_is_an_ordinary_word_without_specials() {
    let mut vocab = Vocabulary::new(0, 10, false, WordSet::new());
    vocab.train(&vocab_texts(&["@@BOS@@ @@UNK@@ x"]));
    assert_eq!(vocab.get("@@BOS@@").unwrap().1, 1);
    assert_eq!(vocab.bos(), None);
    assert_eq!(vocab.eos(), None);
    assert_eq!(vocab.pad(), None);
    assert_eq!(vocab.unk(), None);
}
