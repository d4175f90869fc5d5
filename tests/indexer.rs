use stvec::indexer::{Indexer, IndexerError};
use stvec::tfidf::TfidfVectorizer;
use stvec::vocab::ParamsError;

fn indexer_texts(items: &[&str]) -> Vec<String> {
    items.iter().map(|s| String::from(*s)).collect()
}

#[test]
fn untrained_indexer_fails() {
    let indexer = Indexer::new(0, 10);
    assert_eq!(indexer.vectorize(&indexer_texts(&["a"])), Err(IndexerError::SpecialsUnavailable));
}

#[test]
fn marker_indices() {
    let mut indexer = Indexer::new(0, 10);
    indexer.train(&indexer_texts(&["a b"]));
    assert_eq!((indexer.bos(), indexer.eos(), indexer.pad(), indexer.unk()), (0, 1, 2, 3));
}

#[test]
fn shorter_document_is_padded() {
    let mut indexer = Indexer::new(0, 10);
    indexer.train(&indexer_texts(&["a b c", "a"]));
    let a = 4;
    let params = indexer.to_params();
    let index_of = |t: &str| params.5.iter().find(|e| e.0 == t).unwrap().1;
    assert_eq!(index_of("a"), a);
    let (indices, mask) = indexer.vectorize(&indexer_texts(&["a", "a b c"])).unwrap();
    assert_eq!(indices[0], vec![0, a, 1, 2, 2]);
    assert_eq!(mask[0], vec![true, true, true, false, false]);
    assert_eq!(indices[1], vec![0, a, index_of("b"), index_of("c"), 1]);
    assert_eq!(mask[1], vec![true; 5]);
}

#[test]
fn width_is_the_longest_document_not_the_first() {
    let mut indexer = Indexer::new(0, 10);
    indexer.train(&indexer_texts(&["x"]));
    let (indices, mask) = indexer.vectorize(&indexer_texts(&["x", "x x x x", "x x"])).unwrap();
    for row in indices.iter() {
        assert_eq!(row.len(), 6);
    }
    assert_eq!(mask[0], vec![true, true, true, false, false, false]);
    assert_eq!(mask[1], vec![true; 6]);
    assert_eq!(indices[2], vec![0, 4, 4, 1, 2, 2]);
}

#[test]
fn unknown_tokens_become_unk() {
    let mut indexer = Indexer::new(0, 0);
    indexer.train(&indexer_texts(&["a b", "c"]));
    let (indices, mask) = indexer.vectorize(&indexer_texts(&["a b c"])).unwrap();
    assert_eq!(indices, vec![vec![0, 3, 3, 3, 1]]);
    assert_eq!(mask, vec![vec![true; 5]]);
}

#[test]
fn empty_batch() {
    let mut indexer = Indexer::new(0, 10);
    indexer.train(&indexer_texts(&["a"]));
    let (indices, mask) = indexer.vectorize(&Vec::new()).unwrap();
    assert!(indices.is_empty() && mask.is_empty());
}

#[test]
fn indexer_params_round_trip() {
    let mut indexer = Indexer::new(0, 10);
    indexer.train(&indexer_texts(&["p q", "q r"]));
    let rebuilt = Indexer::from_params(indexer.to_params()).unwrap();
    let batch = indexer_texts(&["q p s", "r"]);
    assert_eq!(rebuilt.vectorize(&batch), indexer.vectorize(&batch));
    assert_eq!(rebuilt.unk(), 3);
}

#[test]
fn indexer_refuses_vectorizer_params() {
    let mut vectorizer = TfidfVectorizer::new(0, 10, false);
    vectorizer.train(&indexer_texts(&["a b"]));
    let result = Indexer::from_params(vectorizer.to_params().1);
    assert!(matches!(result, Err(ParamsError::WrongVariant)));
}
