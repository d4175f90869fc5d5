//! Term vocabularies built from a corpus, and the two ways of turning
//! documents into numbers over them: sparse TF-IDF terms and padded index
//! sequences.

pub mod indexer;
pub mod table;
pub mod tfidf;
pub mod tokens;
pub mod vocab;
