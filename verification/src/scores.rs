//! Inverse document frequency and TF-IDF.

use vstd::prelude::*;
use crate::counting::{distinct, lemma_distinct, lemma_occurrences_add, occurrences};
use crate::error::CorpusError;
use crate::matrix::{is_row_of, WordTextMatrix};
use crate::ratio::{Ratio, WideRatio};
use crate::vocab::{corpus_words, TextData, Vocab};

verus! {

/// How many entries of a row are not zero: the number of texts that hold the
/// row's token.
pub open spec fn texts_holding(row: Seq<usize>) -> nat
    decreases row.len(),
{
    if row.len() == 0 {
        0
    } else {
        texts_holding(row.drop_last()) + if row.last() != 0 {
            1nat
        } else {
            0nat
        }
    }
}

impl WordTextMatrix {
    /// Every token of the matrix occurs in at least one text.
    pub open spec fn every_token_occurs(&self) -> bool {
        forall|i: int|
            0 <= i < self.entries.len() ==> texts_holding((#[trigger] self.entries[i]).1@) > 0
    }

    /// Row `i` is the first whose token occurs in none of the texts.
    pub open spec fn is_first_unheld_row(&self, i: int) -> bool {
        &&& 0 <= i < self.entries.len()
        &&& texts_holding(self.entries[i].1@) == 0
        &&& forall|r: int| 0 <= r < i ==> texts_holding((#[trigger] self.entries[r]).1@) > 0
    }
}

/// The score that a list of scores holds for `token`: that of the first entry
/// with this token, if there is one.
pub open spec fn score_of(scores: Seq<(String, Ratio)>, token: Seq<char>) -> Option<Ratio>
    decreases scores.len(),
{
    if scores.len() == 0 {
        None
    } else if scores[0].0@ == token {
        Some(scores[0].1)
    } else {
        score_of(scores.skip(1), token)
    }
}

/// The number of texts that hold the token of `row`.
pub fn count_texts_holding(row: &[usize]) -> (count: usize)
    ensures
        count == texts_holding(row@),
{
    let mut count: usize = 0;
    let mut i: usize = 0;
    assert(row@.take(0) =~= Seq::<usize>::empty());
    while i < row.len()
        invariant
            i <= row.len(),
            count <= i,
            count == texts_holding(row@.take(i as int)),
        decreases row.len() - i,
    {
        assert(row@.take(i + 1).drop_last() =~= row@.take(i as int));
        if row[i] != 0 {
            count += 1;
        }
        i += 1;
    }
    assert(row@.take(row.len() as int) =~= row@);
    count
}

/// The inverse document frequency of every token of the matrix, row by row:
/// the number of texts over the number of texts that hold the token.
///
/// Fails with `InvariantViolation` where a token occurs in none of the texts,
/// and names the first such token.
pub fn create_idf_scores(vocab: &Vocab, word_text_matrix: &WordTextMatrix) -> (scores: Result<
    Vec<(String, Ratio)>,
    CorpusError,
>)
    ensures
        scores is Ok <==> word_text_matrix.every_token_occurs(),
        scores matches Err(error) ==> error matches CorpusError::InvariantViolation { token }
            && exists|i: int|
            word_text_matrix.is_first_unheld_row(i) && token@ == (
            #[trigger] word_text_matrix.entries[i]).0@,
        scores matches Ok(idf) ==> {
            &&& idf.len() == word_text_matrix.entries.len()
            &&& forall|i: int|
                0 <= i < idf.len() ==> {
                    &&& (#[trigger] idf[i]).0@ == word_text_matrix.entries[i].0@
                    &&& idf[i].1.num == word_text_matrix.entries[i].1.len()
                    &&& idf[i].1.den == texts_holding(word_text_matrix.entries[i].1@)
                }
        },
{
    let mut idf_scores: Vec<(String, Ratio)> = Vec::with_capacity(vocab.unique_words().len());
    let mut i: usize = 0;
    while i < word_text_matrix.entries.len()
        invariant
            i <= word_text_matrix.entries.len(),
            idf_scores.len() == i,
            forall|r: int|
                0 <= r < i ==> texts_holding((#[trigger] word_text_matrix.entries[r]).1@) > 0,
            forall|r: int|
                0 <= r < i ==> {
                    &&& (#[trigger] idf_scores[r]).0@ == word_text_matrix.entries[r].0@
                    &&& idf_scores[r].1.num == word_text_matrix.entries[r].1.len()
                    &&& idf_scores[r].1.den == texts_holding(word_text_matrix.entries[r].1@)
                },
        decreases word_text_matrix.entries.len() - i,
    {
        let entry = &word_text_matrix.entries[i];
        let text_freqs = entry.1.as_slice();
        let text_occurrences = count_texts_holding(text_freqs);
        if text_occurrences == 0 {
            assert(word_text_matrix.is_first_unheld_row(i as int));
            return Err(CorpusError::InvariantViolation { token: entry.0.clone() });
        }
        let idf = Ratio { num: text_freqs.len() as u64, den: text_occurrences as u64 };
        idf_scores.push((entry.0.clone(), idf));
        i += 1;
    }
    Ok(idf_scores)
}

/// Entry `i` of `tf_scores` is the first whose token has no score in
/// `idf_scores`.
pub open spec fn is_first_unscored(
    tf_scores: Seq<(String, Ratio)>,
    idf_scores: Seq<(String, Ratio)>,
    i: int,
) -> bool {
    &&& 0 <= i < tf_scores.len()
    &&& score_of(idf_scores, tf_scores[i].0@) is None
    &&& forall|r: int| 0 <= r < i ==> score_of(idf_scores, (#[trigger] tf_scores[r]).0@) is Some
}

/// Looks up the score of `token`: that of the first entry with this token.
pub fn find_score(scores: &[(String, Ratio)], token: &str) -> (found: Option<Ratio>)
    ensures
        found == score_of(scores@, token@),
{
    let mut i: usize = 0;
    assert(scores@.skip(0) =~= scores@);
    while i < scores.len()
        invariant
            i <= scores.len(),
            score_of(scores@, token@) == score_of(scores@.skip(i as int), token@),
        decreases scores.len() - i,
    {
        assert(scores@.skip(i as int).skip(1) =~= scores@.skip(i + 1));
        if *scores[i].0.as_str() == *token {
            return Some(scores[i].1);
        }
        i += 1;
    }
    None
}

/// The TF-IDF of every token of `tf_scores`, in their order: the token's term
/// frequency times the inverse document frequency that `idf_scores` holds for
/// the same token, wherever it stands there.
///
/// Fails with `NotFound` where `idf_scores` holds no score for a token, and
/// names the first such token.
pub fn create_tf_idf_scores(tf_scores: &[(String, Ratio)], idf_scores: &[(String, Ratio)]) -> (scores:
    Result<Vec<(String, WideRatio)>, CorpusError>)
    ensures
        scores is Ok <==> forall|i: int|
            0 <= i < tf_scores.len() ==> score_of(idf_scores@, (#[trigger] tf_scores[i]).0@) is Some,
        scores matches Err(error) ==> error matches CorpusError::NotFound { token }
            && exists|i: int|
            is_first_unscored(tf_scores@, idf_scores@, i) && token@ == (#[trigger] tf_scores[i]).0@,
        scores matches Ok(tf_idf) ==> {
            &&& tf_idf.len() == tf_scores.len()
            &&& forall|i: int|
                0 <= i < tf_idf.len() ==> {
                    &&& (#[trigger] tf_idf[i]).0@ == tf_scores[i].0@
                    &&& tf_idf[i].1.is_product_of(
                        tf_scores[i].1,
                        score_of(idf_scores@, tf_scores[i].0@)->0,
                    )
                }
        },
{
    let mut tf_idf_scores: Vec<(String, WideRatio)> = Vec::new();
    let mut i: usize = 0;
    while i < tf_scores.len()
        invariant
            i <= tf_scores.len(),
            tf_idf_scores.len() == i,
            forall|r: int|
                0 <= r < i ==> score_of(idf_scores@, (#[trigger] tf_scores[r]).0@) is Some,
            forall|r: int|
                0 <= r < i ==> {
                    &&& (#[trigger] tf_idf_scores[r]).0@ == tf_scores[r].0@
                    &&& tf_idf_scores[r].1.is_product_of(
                        tf_scores[r].1,
                        score_of(idf_scores@, tf_scores[r].0@)->0,
                    )
                },
        decreases tf_scores.len() - i,
    {
        let word = &tf_scores[i].0;
        let tf = tf_scores[i].1;
        match find_score(idf_scores, word.as_str()) {
            Some(idf) => {
                tf_idf_scores.push((word.clone(), tf.times(idf)));
            },
            None => {
                assert(is_first_unscored(tf_scores@, idf_scores@, i as int));
                return Err(CorpusError::NotFound { token: word.clone() });
            },
        }
        i += 1;
    }
    Ok(tf_idf_scores)
}

/// A row holds at most as many texts as it has entries, and it holds at
/// least one exactly when one of its entries is not zero.
pub proof fn lemma_texts_holding(row: Seq<usize>)
    ensures
        texts_holding(row) <= row.len(),
        texts_holding(row) > 0 <==> exists|j: int| 0 <= j < row.len() && #[trigger] row[j] != 0,
    decreases row.len(),
{
    if row.len() > 0 {
        let front = row.drop_last();
        lemma_texts_holding(front);
        if row.last() != 0 {
            assert(row[row.len() - 1] != 0);
        } else if texts_holding(front) > 0 {
            let j = choose|j: int| 0 <= j < front.len() && #[trigger] front[j] != 0;
            assert(row[j] != 0);
        } else if exists|j: int| 0 <= j < row.len() && #[trigger] row[j] != 0 {
            let j = choose|j: int| 0 <= j < row.len() && #[trigger] row[j] != 0;
            assert(front[j] != 0);
        }
    }
}

/// The inverse document frequency of a token that occurs in some text lies
/// between one and the number of texts, and it is the number of texts exactly
/// when the token occurs in a single text.
pub proof fn lemma_idf_bounds(row: Seq<usize>, idf: Ratio)
    requires
        texts_holding(row) > 0,
        idf.num == row.len(),
        idf.den == texts_holding(row),
    ensures
        idf.at_least(1),
        idf.at_most(row.len()),
        idf.is_whole(row.len()) <==> texts_holding(row) == 1,
{
    lemma_texts_holding(row);
    let texts = row.len() as int;
    let holding = texts_holding(row) as int;
    assert(texts <= texts * holding && (texts == texts * holding <==> holding == 1))
        by (nonlinear_arith)
        requires
            0 < holding <= texts,
    ;
}

/// A token that occurs among the tokens of a corpus occurs in one of its texts.
pub proof fn lemma_occurs_in_some_text(texts: Seq<TextData>, token: Seq<char>)
    requires
        occurrences(corpus_words(texts), token) > 0,
    ensures
        exists|j: int|
            0 <= j < texts.len() && occurrences(
                (#[trigger] texts[j]).word_list.deep_view(),
                token,
            ) > 0,
    decreases texts.len(),
{
    if texts.len() > 0 {
        let front = texts.drop_last();
        let last = texts.last().word_list.deep_view();
        lemma_occurrences_add(corpus_words(front), last, token);
        if occurrences(last, token) > 0 {
            assert(texts[texts.len() - 1] == texts.last());
        } else {
            lemma_occurs_in_some_text(front, token);
            let j = choose|j: int|
                0 <= j < front.len() && occurrences(
                    (#[trigger] front[j]).word_list.deep_view(),
                    token,
                ) > 0;
            assert(texts[j] == front[j]);
        }
    }
}

/// In the matrix of a corpus over the vocabulary of the same corpus every
/// token occurs in some text, so that its inverse document frequency exists.
pub proof fn lemma_corpus_matrix_has_scores(matrix: WordTextMatrix, texts: Seq<TextData>)
    requires
        matrix.is_matrix_of(distinct(corpus_words(texts)), texts),
    ensures
        matrix.every_token_occurs(),
{
    let tokens = distinct(corpus_words(texts));
    lemma_distinct(corpus_words(texts));
    assert forall|i: int| 0 <= i < matrix.entries.len() implies texts_holding(
        (#[trigger] matrix.entries[i]).1@,
    ) > 0 by {
        let row = matrix.entries[i].1@;
        assert(tokens.contains(tokens[i]));
        assert(is_row_of(row, tokens[i], texts));
        lemma_occurs_in_some_text(texts, tokens[i]);
        let j = choose|j: int|
            0 <= j < texts.len() && occurrences(
                (#[trigger] texts[j]).word_list.deep_view(),
                tokens[i],
            ) > 0;
        assert(row[j] != 0);
        lemma_texts_holding(row);
    }
}

} // verus!
