//! Vectorizers of text columns.

pub mod char_ngram_vectorizer;
pub mod count_vectorizer;
pub mod tfidf_vectorizer;
pub mod vocabulary;
pub mod weight_laws;
pub mod word_laws;
pub mod words;
