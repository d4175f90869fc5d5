use stvec::table::WordSet;
use stvec::tfidf::{count_terms, vectorize, TermWeight, TfidfVectorizer};
use stvec::indexer::Indexer;
use stvec::vocab::{ParamsError, Vocabulary};

fn tfidf_texts(items: &[&str]) -> Vec<String> {
    items.iter().map(|s| String::from(*s)).collect()
}

#[test]
fn test_vectorize() {
    let docs = vec![
        String::from("foo bar bar baz"),
        String::from("foo foo baz qux"),
    ];
    let mut vocab = Vocabulary::new(0, 100, false, WordSet::new());
    vocab.train(&docs);

    let (row, col, dat) = vectorize(&docs, &vocab, false);
    assert_eq!(row.len(), 6);
    assert_eq!(col.len(), 6);
    assert_eq!(dat.len(), 6);
}

#[test]
fn sparse_entries_carry_counts() {
    let docs = tfidf_texts(&["foo bar bar baz", "foo foo baz qux"]);
    let mut vectorizer = TfidfVectorizer::new(0, 100, true);
    vectorizer.train(&docs);
    assert_eq!(vectorizer.get_output_dim(), 4);
    let (row, col, dat) = vectorizer.vectorize(&docs);
    assert_eq!(row, vec![0, 0, 0, 1, 1, 1]);
    let params = vectorizer.to_params();
    let entries = &params.1;
    let index_of = |t: &str| entries.5.iter().find(|e| e.0 == t).unwrap().1;
    assert_eq!(col, vec![index_of("foo"), index_of("bar"), index_of("baz"), index_of("foo"), index_of("baz"), index_of("qux")]);
    let w = |count, df| TermWeight { count, df, total_docs: 2, use_idf: true };
    assert_eq!(dat, vec![w(1, 2), w(2, 1), w(1, 2), w(2, 2), w(1, 2), w(1, 1)]);
}

#[test]
fn count_terms_tallies_first_occurrence_order() {
    let mut vocab = Vocabulary::new(0, 100, false, WordSet::new());
    vocab.train(&tfidf_texts(&["x y z"]));
    let doc = tfidf_texts(&["z", "unknown", "x", "z", "z"]);
    let terms = count_terms(&vocab, &doc);
    let z = vocab.get("z").unwrap().0;
    let x = vocab.get("x").unwrap().0;
    assert_eq!(terms, vec![(z, 1, 3), (x, 1, 1)]);
}

#[test]
fn stop_words_and_unknown_tokens_contribute_nothing() {
    let mut stop = WordSet::new();
    stop.insert(String::from("the"));
    let mut vocab = Vocabulary::new(0, 100, false, stop);
    vocab.train(&tfidf_texts(&["the cat", "the dog"]));
    let (row, col, dat) = vectorize(&tfidf_texts(&["the the", "", "bird cat"]), &vocab, false);
    assert_eq!(row, vec![2]);
    assert_eq!(col, vec![vocab.get("cat").unwrap().0]);
    assert_eq!(dat, vec![TermWeight { count: 1, df: 1, total_docs: 2, use_idf: false }]);
}

#[test]
fn out_of_vocabulary_document_has_no_entries() {
    let mut vectorizer = TfidfVectorizer::new(0, 0, false);
    vectorizer.train(&tfidf_texts(&["a b", "c"]));
    assert_eq!(vectorizer.get_output_dim(), 0);
    let (row, col, dat) = vectorizer.vectorize(&tfidf_texts(&["a b c"]));
    assert!(row.is_empty() && col.is_empty() && dat.is_empty());
}

#[test]
fn vectorizer_params_round_trip() {
    let docs = tfidf_texts(&["foo bar bar baz", "foo foo baz qux"]);
    let mut vectorizer = TfidfVectorizer::new(1, 1, true);
    vectorizer.train(&docs);
    let rebuilt = TfidfVectorizer::from_params(vectorizer.to_params()).unwrap();
    assert_eq!(rebuilt.get_output_dim(), 2);
    assert_eq!(rebuilt.vectorize(&docs), vectorizer.vectorize(&docs));
    assert!(rebuilt.to_params().0);
}

#[test]
fn vectorizer_refuses_indexer_params() {
    let mut indexer = Indexer::new(0, 10);
    indexer.train(&tfidf_texts(&["a b"]));
    let result = TfidfVectorizer::from_params((false, indexer.to_params()));
    assert!(matches!(result, Err(ParamsError::WrongVariant)));
}

#[test]
fn repeated_index_gives_one_entry() {
    let mut vocab = Vocabulary::new(0, 10, false, WordSet::new());
    vocab.train(&tfidf_texts(&["a b"]));
    let (row, col, dat) = vectorize(&tfidf_texts(&["b a b a a"]), &vocab, true);
    assert_eq!(row, vec![0, 0]);
    assert_eq!(col, vec![vocab.get("b").unwrap().0, vocab.get("a").unwrap().0]);
    assert_eq!(dat[0].count, 2);
    assert_eq!(dat[1].count, 3);
}
