//! The failures that the vocabulary and the scoring functions report.

use vstd::prelude::*;

verus! {

/// What can go wrong in a query or a score computation. Every failure names
/// the token it is about.
#[derive(Clone, Debug, PartialEq, Eq)]
pub enum CorpusError {
    /// `token` was looked up where it has never been recorded.
    NotFound { token: String },
    /// `token` stands in the word-by-text matrix and occurs in none of the
    /// texts, so the matrix was not built from the texts that gave the token.
    InvariantViolation { token: String },
}

} // verus!
