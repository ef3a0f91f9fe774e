//! The vocabulary: unique tokens in first-seen order, each with its count.

use vstd::prelude::*;
use vstd::hash_map::StringHashMap;
use crate::counting::{
    distinct, lemma_distinct, lemma_first_seen_push, lemma_occurrences_bounds,
    lemma_occurrences_of_distinct, lemma_occurrences_push, occurrences, occurrences_of_all,
};
use crate::error::CorpusError;
use crate::ratio::Ratio;

verus! {

/// The tokens of one or more token sequences, counted.
///
/// A vocabulary stands for the sequence of all tokens that were folded into
/// it, `folded()`. Its unique tokens, their frequencies and its total count
/// are functions of that sequence.
pub struct Vocab {
    total_freq: u32,
    word_freq_set: StringHashMap<u32>,
    unique_words: Vec<String>,
    history: Ghost<Seq<Seq<char>>>,
}

/// One text of the corpus: its tokens, the theme it belongs to, and the
/// vocabulary of its tokens.
pub struct TextData {
    pub theme_idx: usize,
    pub word_list: Vec<String>,
    pub vocab: Vocab,
}

impl TextData {
    /// The vocabulary is that of the token sequence.
    pub open spec fn wf(&self) -> bool {
        &&& self.vocab.wf()
        &&& self.vocab.folded() == self.word_list.deep_view()
    }

    /// A text of theme `theme_idx` with the tokens `word_list`.
    pub fn new(theme_idx: usize, word_list: Vec<String>) -> (data: TextData)
        requires
            word_list.len() <= u32::MAX,
        ensures
            data.wf(),
            data.theme_idx == theme_idx,
            data.word_list == word_list,
    {
        let words = word_list.as_slice();
        assert(words.deep_view() =~= word_list.deep_view());
        let vocab = Vocab::new_from_words(words);
        TextData { theme_idx, word_list, vocab }
    }
}

/// The tokens of all texts, one text after the other.
pub open spec fn corpus_words(texts: Seq<TextData>) -> Seq<Seq<char>>
    decreases texts.len(),
{
    if texts.len() == 0 {
        Seq::empty()
    } else {
        corpus_words(texts.drop_last()) + texts.last().word_list.deep_view()
    }
}

impl Vocab {
    /// Every token that was folded in, in the order in which it came.
    pub closed spec fn folded(&self) -> Seq<Seq<char>> {
        self.history@
    }

    /// The unique tokens, in the order in which each was first folded in.
    pub open spec fn unique(&self) -> Seq<Seq<char>> {
        distinct(self.folded())
    }

    /// How many times `token` was folded in.
    pub open spec fn frequency(&self, token: Seq<char>) -> nat {
        occurrences(self.folded(), token)
    }

    /// How many tokens were folded in, repeats included.
    pub open spec fn total(&self) -> nat {
        self.folded().len()
    }

    /// The frequencies of the unique tokens, added up.
    pub open spec fn frequency_sum(&self) -> nat {
        occurrences_of_all(self.unique(), self.folded())
    }

    /// The stored counts, order and total are those of `folded()`.
    pub closed spec fn wf(&self) -> bool {
        &&& self.total_freq == self.history@.len()
        &&& self.unique_words.deep_view() == distinct(self.history@)
        &&& forall|token: Seq<char>| #[trigger]
            self.word_freq_set@.contains_key(token) <==> occurrences(self.history@, token) > 0
        &&& forall|token: Seq<char>| #[trigger]
            self.word_freq_set@.contains_key(token) ==> self.word_freq_set@[token] == occurrences(
                self.history@,
                token,
            )
    }

    /// The empty vocabulary.
    pub fn new() -> (vocab: Vocab)
        ensures
            vocab.wf(),
            vocab.folded() == Seq::<Seq<char>>::empty(),
    {
        let vocab = Vocab {
            total_freq: 0,
            word_freq_set: StringHashMap::new(),
            unique_words: Vec::new(),
            history: Ghost(Seq::empty()),
        };
        assert(vocab.unique_words.deep_view() =~= distinct(vocab.history@));
        vocab
    }

    /// The vocabulary of one token sequence.
    pub fn new_from_words(words: &[String]) -> (vocab: Vocab)
        requires
            words.len() <= u32::MAX,
        ensures
            vocab.wf(),
            vocab.folded() == words.deep_view(),
    {
        let mut vocab = Vocab::new();
        vocab.extend(words);
        assert(Seq::<Seq<char>>::empty() + words.deep_view() =~= words.deep_view());
        vocab
    }

    /// The vocabulary of a corpus: the tokens of its texts, folded in text by
    /// text.
    pub fn new_from_text_data(text_data: &[TextData]) -> (vocab: Vocab)
        requires
            corpus_words(text_data@).len() <= u32::MAX,
        ensures
            vocab.wf(),
            vocab.folded() == corpus_words(text_data@),
    {
        let mut vocab = Vocab::new();
        let mut i: usize = 0;
        assert(text_data@.take(0) =~= Seq::<TextData>::empty());
        while i < text_data.len()
            invariant
                i <= text_data.len(),
                vocab.wf(),
                vocab.folded() == corpus_words(text_data@.take(i as int)),
                corpus_words(text_data@).len() <= u32::MAX,
            decreases text_data.len() - i,
        {
            let words = text_data[i].word_list.as_slice();
            proof {
                lemma_corpus_words_grow(text_data@, i + 1);
                assert(words.deep_view() =~= text_data[i as int].word_list.deep_view());
            }
            vocab.extend(words);
            i += 1;
        }
        assert(text_data@.take(text_data.len() as int) =~= text_data@);
        vocab
    }

    /// The term frequency of every unique token, in first-seen order: the
    /// token's count over the total count.
    pub fn get_tf_scores(&self) -> (scores: Vec<(String, Ratio)>)
        requires
            self.wf(),
        ensures
            scores.len() == self.unique().len(),
            forall|i: int|
                0 <= i < scores.len() ==> {
                    &&& (#[trigger] scores[i]).0@ == self.unique()[i]
                    &&& scores[i].1.num == self.frequency(self.unique()[i])
                    &&& scores[i].1.den == self.total()
                },
    {
        let mut unique_tf: Vec<(String, Ratio)> = Vec::new();
        let total = self.total_freq;
        let mut i: usize = 0;
        while i < self.unique_words.len()
            invariant
                self.wf(),
                total == self.total(),
                i <= self.unique_words.len(),
                unique_tf.len() == i,
                forall|j: int|
                    0 <= j < i ==> {
                        &&& (#[trigger] unique_tf[j]).0@ == self.unique()[j]
                        &&& unique_tf[j].1.num == self.frequency(self.unique()[j])
                        &&& unique_tf[j].1.den == self.total()
                    },
            decreases self.unique_words.len() - i,
        {
            let word = &self.unique_words[i];
            proof {
                assert(self.unique_words.deep_view()[i as int] == word@);
                lemma_distinct(self.history@);
                assert(self.unique().contains(word@));
            }
            let freq = match self.word_freq_set.get(word.as_str()) {
                Some(count) => *count,
                None => 0,
            };
            unique_tf.push((word.clone(), Ratio { num: freq as u64, den: total as u64 }));
            i += 1;
        }
        unique_tf
    }

    /// The count of `token`, or `NotFound` with the token where it was never
    /// folded in.
    pub fn word_freq(&self, token: &str) -> (count: Result<u32, CorpusError>)
        requires
            self.wf(),
        ensures
            count is Ok <==> self.frequency(token@) > 0,
            count matches Ok(c) ==> c == self.frequency(token@),
            count matches Err(error) ==> error matches CorpusError::NotFound { token: missing }
                && missing@ == token@,
    {
        match self.word_freq_set.get(token) {
            Some(count) => Ok(*count),
            None => Err(CorpusError::NotFound { token: token.to_owned() }),
        }
    }

    /// The number of tokens folded in, repeats included.
    pub fn total_count(&self) -> (total: u32)
        ensures
            self.wf() ==> total == self.total(),
    {
        self.total_freq
    }

    /// The unique tokens in first-seen order.
    pub fn unique_words(&self) -> (unique: &Vec<String>)
        ensures
            self.wf() ==> unique.deep_view() == self.unique(),
    {
        &self.unique_words
    }

    /// Folds `words` into the vocabulary, first to last: each word counts once
    /// more, and a word that was never seen before goes to the end of the
    /// unique tokens.
    pub fn extend(&mut self, words: &[String])
        requires
            old(self).wf(),
            old(self).total() + words.len() <= u32::MAX,
        ensures
            final(self).wf(),
            final(self).folded() == old(self).folded() + words.deep_view(),
    {
        let mut i: usize = 0;
        assert(self.history@ =~= old(self).history@ + words.deep_view().take(0));
        while i < words.len()
            invariant
                i <= words.len(),
                self.wf(),
                self.history@ == old(self).history@ + words.deep_view().take(i as int),
                old(self).history@.len() + words.len() <= u32::MAX,
            decreases words.len() - i,
        {
            let word = &words[i];
            let ghost token = word@;
            let ghost before = self.history@;
            let ghost unique_before = self.unique_words.deep_view();
            proof {
                lemma_occurrences_bounds(before, token);
                lemma_distinct(before);
                lemma_first_seen_push(Seq::empty(), before, token);
                assert forall|other: Seq<char>|
                    occurrences(before.push(token), other) == occurrences(before, other) + if token
                        == other {
                        1nat
                    } else {
                        0nat
                    } by {
                    lemma_occurrences_push(before, token, other);
                }
            }
            let seen = match self.word_freq_set.get(word.as_str()) {
                Some(count) => *count,
                None => 0,
            };
            self.word_freq_set.insert(word.clone(), seen + 1);
            self.total_freq = self.total_freq + 1;
            if seen == 0 {
                self.unique_words.push(word.clone());
                assert(self.unique_words.deep_view() =~= unique_before.push(token));
            }
            proof {
                self.history = Ghost(before.push(token));
                assert(words.deep_view().take(i + 1) =~= words.deep_view().take(i as int).push(
                    token,
                ));
                assert(self.history@ =~= old(self).history@ + words.deep_view().take(i + 1));
            }
            i += 1;
        }
        assert(words.deep_view().take(words.len() as int) =~= words.deep_view());
    }
}

/// The unique tokens of a vocabulary repeat none, and they are the tokens
/// with a frequency of at least one.
pub proof fn lemma_unique_tokens_counted(vocab: Vocab)
    ensures
        vocab.unique().no_duplicates(),
        forall|token: Seq<char>| #[trigger]
            vocab.unique().contains(token) <==> vocab.frequency(token) >= 1,
{
    lemma_distinct(vocab.folded());
}

/// The frequencies of the unique tokens add up to the total count.
pub proof fn lemma_frequencies_add_up(vocab: Vocab)
    ensures
        vocab.frequency_sum() == vocab.total(),
{
    lemma_occurrences_of_distinct(vocab.folded());
}

/// The term frequency of a token of the vocabulary is greater than zero and
/// at most one.
pub proof fn lemma_tf_in_unit_interval(vocab: Vocab, token: Seq<char>, tf: Ratio)
    requires
        vocab.unique().contains(token),
        tf.num == vocab.frequency(token),
        tf.den == vocab.total(),
    ensures
        tf.is_positive(),
        tf.at_most(1),
{
    lemma_distinct(vocab.folded());
    lemma_occurrences_bounds(vocab.folded(), token);
}

/// The tokens of the first `n` texts are a prefix of the tokens of all, and
/// each text adds its own tokens at the end.
pub proof fn lemma_corpus_words_grow(texts: Seq<TextData>, n: int)
    requires
        0 <= n <= texts.len(),
    ensures
        corpus_words(texts.take(n)).len() <= corpus_words(texts).len(),
        n > 0 ==> corpus_words(texts.take(n)) == corpus_words(texts.take(n - 1)) + texts[n
            - 1].word_list.deep_view(),
    decreases texts.len() - n,
{
    if n > 0 {
        assert(texts.take(n).drop_last() =~= texts.take(n - 1));
    }
    if n < texts.len() {
        lemma_corpus_words_grow(texts, n + 1);
    } else {
        assert(texts.take(n) =~= texts);
    }
}

} // verus!
