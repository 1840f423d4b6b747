//! A local full-text search library: a tokenizer, an inverted index with
//! term and document statistics, a TF-IDF candidate scorer and a line
//! highlighter, with their behaviour stated as Verus contracts.
pub mod chars;
pub mod lexer;
pub mod terms;
pub mod document;
pub mod search;
pub mod merge;
pub mod extract;
pub mod highlight;
