//! Text normalisation and TF / IDF / TF-IDF scoring over small in-memory corpora.

pub mod chars;
pub mod counting;
pub mod error;
pub mod lexer;
pub mod matrix;
pub mod ratio;
pub mod scores;
pub mod stemmer;
pub mod tokens;
pub mod vocab;
