//! The word-by-text matrix: for every unique token of a vocabulary, how often
//! it occurs in each text of the corpus.

use vstd::prelude::*;
use crate::counting::{lemma_occurrences_bounds, lemma_occurrences_push, occurrences};
use crate::vocab::{TextData, Vocab};

verus! {

/// One row per token, in the vocabulary's first-seen order; in each row one
/// count per text, in the order of the corpus.
pub struct WordTextMatrix {
    pub entries: Vec<(String, Vec<usize>)>,
}

/// Whether `row` is the row of `token`: one entry per text, each the number
/// of occurrences of `token` in the tokens of that text.
pub open spec fn is_row_of(row: Seq<usize>, token: Seq<char>, texts: Seq<TextData>) -> bool {
    &&& row.len() == texts.len()
    &&& forall|j: int|
        0 <= j < texts.len() ==> #[trigger] row[j] == occurrences(
            texts[j].word_list.deep_view(),
            token,
        )
}

impl WordTextMatrix {
    /// The rows are those of `tokens` over `texts`.
    pub open spec fn is_matrix_of(&self, tokens: Seq<Seq<char>>, texts: Seq<TextData>) -> bool {
        &&& self.entries.len() == tokens.len()
        &&& forall|i: int|
            0 <= i < tokens.len() ==> {
                &&& (#[trigger] self.entries[i]).0@ == tokens[i]
                &&& is_row_of(self.entries[i].1@, tokens[i], texts)
            }
    }
}

/// How many times `word` occurs in `words`.
pub fn count_word(words: &[String], word: &str) -> (count: usize)
    ensures
        count == occurrences(words.deep_view(), word@),
{
    let mut count: usize = 0;
    let mut i: usize = 0;
    assert(words.deep_view().take(0) =~= Seq::<Seq<char>>::empty());
    while i < words.len()
        invariant
            i <= words.len(),
            count == occurrences(words.deep_view().take(i as int), word@),
        decreases words.len() - i,
    {
        proof {
            let seen = words.deep_view().take(i as int);
            lemma_occurrences_bounds(seen, word@);
            lemma_occurrences_push(seen, words[i as int]@, word@);
            assert(words.deep_view().take(i + 1) =~= seen.push(words[i as int]@));
        }
        if *words[i].as_str() == *word {
            count += 1;
        }
        i += 1;
    }
    assert(words.deep_view().take(words.len() as int) =~= words.deep_view());
    count
}

/// Builds the word-by-text matrix of a vocabulary over the texts of a corpus.
pub fn create_word_text_matrix(vocab: &Vocab, text_data: &[TextData]) -> (matrix: WordTextMatrix)
    requires
        vocab.wf(),
    ensures
        matrix.is_matrix_of(vocab.unique(), text_data@),
{
    let unique_words = vocab.unique_words();
    let mut entries: Vec<(String, Vec<usize>)> = Vec::new();
    let mut i: usize = 0;
    while i < unique_words.len()
        invariant
            unique_words.deep_view() == vocab.unique(),
            i <= unique_words.len(),
            entries.len() == i,
            forall|r: int|
                0 <= r < i ==> {
                    &&& (#[trigger] entries[r]).0@ == vocab.unique()[r]
                    &&& is_row_of(entries[r].1@, vocab.unique()[r], text_data@)
                },
        decreases unique_words.len() - i,
    {
        let unique = &unique_words[i];
        assert(unique_words.deep_view()[i as int] == unique@);
        let mut text_word_counts: Vec<usize> = Vec::new();
        let mut text_idx: usize = 0;
        while text_idx < text_data.len()
            invariant
                text_idx <= text_data.len(),
                text_word_counts.len() == text_idx,
                forall|j: int|
                    0 <= j < text_idx ==> #[trigger] text_word_counts[j] == occurrences(
                        text_data[j].word_list.deep_view(),
                        unique@,
                    ),
            decreases text_data.len() - text_idx,
        {
            let words = text_data[text_idx].word_list.as_slice();
            assert(words.deep_view() =~= text_data[text_idx as int].word_list.deep_view());
            let count = count_word(words, unique.as_str());
            text_word_counts.push(count);
            text_idx += 1;
        }
        assert(is_row_of(text_word_counts@, unique@, text_data@));
        entries.push((unique.clone(), text_word_counts));
        i += 1;
    }
    WordTextMatrix { entries }
}

} // verus!
