//! The Porter stemmer, taken on trust from the `porter_stemmer` crate.

use vstd::prelude::*;

verus! {

/// The stem that the Porter stemmer assigns to a word.
pub uninterp spec fn porter_stem(word: Seq<char>) -> Seq<char>;

/// `porter_stemmer::stem` splits the word into grapheme clusters, applies the
/// steps of Porter's algorithm to them and joins what is left. It returns for
/// every word, and what it returns depends on the characters of the word
/// alone. The algorithm is not modelled, only named.
pub assume_specification[ porter_stemmer::stem ](word: &str) -> (stemmed: String)
    ensures
        stemmed@ == porter_stem(word@),
;

} // verus!
