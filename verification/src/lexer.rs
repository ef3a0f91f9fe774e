//! The tokenizer: raw text in, normalized word tokens out.

use vstd::prelude::*;
use crate::tokens::{
    candidates, classified, lemma_candidates_push, lemma_run_len_is, spelled, stems, tokens_of,
    words_of,
};

verus! {

/// The stop words that `lex` filters out: short, closed-class English words.
pub const STOP_WORDS: [&'static str; 44] = [
    "a", "an", "as", "at", "we", "are", "and", "the", "via", "for", "is", "or", "in", "of", "it",
    "its", "to", "on", "by", "this", "be", "but", "thus", "that", "was", "were", "not", "etc",
    "with", "into", "onto", "can", "have", "also", "which", "you", "has", "do", "did", "done",
    "had", "his", "them", "they",
];

/// The words of a list, each as its sequence of characters.
pub open spec fn word_views(list: Seq<&str>) -> Seq<Seq<char>> {
    Seq::new(list.len(), |i: int| list[i]@)
}

/// The stop words in force: those of the list, or none where filtering is off.
pub open spec fn stop_list(stop_words: Option<&[&str]>) -> Seq<Seq<char>> {
    match stop_words {
        Some(list) => word_views(list@),
        None => Seq::empty(),
    }
}

/// Whether `word` is an entry of `list`. The match is exact.
pub fn contains_word(list: &[&str], word: &str) -> (found: bool)
    ensures
        found == word_views(list@).contains(word@),
{
    let mut i: usize = 0;
    while i < list.len()
        invariant
            i <= list.len(),
            forall|j: int| 0 <= j < i ==> word_views(list@)[j] != word@,
        decreases list.len() - i,
    {
        if *list[i] == *word {
            assert(word_views(list@)[i as int] == word@);
            return true;
        }
        i += 1;
    }
    false
}

/// Whether `word` is one of `STOP_WORDS`. The match is exact, so a caller
/// that wants it to ignore case hands in a lower-cased word.
pub fn is_stop_word(word: &str) -> (stop: bool)
    ensures
        stop == word_views(STOP_WORDS@).contains(word@),
{
    contains_word(STOP_WORDS.as_slice(), word)
}

/// A cursor over the characters of a text, together with the tokens found so
/// far. Every character carries a mark that says whether it is a letter.
pub struct Lexer {
    chars: Vec<(char, bool)>,
    pos: usize,
    tokens: Vec<String>,
}

impl Lexer {
    /// The characters that have not been consumed yet, with their marks.
    pub closed spec fn remaining(&self) -> Seq<(char, bool)> {
        if self.pos <= self.chars.len() {
            self.chars@.skip(self.pos as int)
        } else {
            Seq::empty()
        }
    }

    /// The tokens collected so far, each as its sequence of characters.
    pub closed spec fn collected(&self) -> Seq<Seq<char>> {
        self.tokens.deep_view()
    }

    /// A lexer at the start of `source`, with no token collected. The letters
    /// are the alphabetic characters.
    pub fn new(source: &str) -> (lexer: Lexer)
        ensures
            lexer.remaining() == classified(source@),
            lexer.collected() == Seq::<Seq<char>>::empty(),
    {
        let mut chars: Vec<(char, bool)> = Vec::new();
        for c in it: source.chars()
            invariant
                it.seq() == source@,
                chars@ == classified(it.seq().take(it.index() as int)),
        {
            chars.push((c, c.is_alphabetic()));
            assert(chars@ =~= classified(it.seq().take(it.index() + 1)));
        }
        assert(chars@ =~= classified(source@));
        Lexer::from_classified(chars)
    }

    /// A lexer at the start of a text whose characters are already marked as
    /// letters or not, with no token collected.
    pub fn from_classified(chars: Vec<(char, bool)>) -> (lexer: Lexer)
        ensures
            lexer.remaining() == chars@,
            lexer.collected() == Seq::<Seq<char>>::empty(),
    {
        let lexer = Lexer { chars, pos: 0, tokens: Vec::new() };
        assert(lexer.chars@.skip(0) =~= lexer.chars@);
        assert(lexer.tokens.deep_view() =~= Seq::<Seq<char>>::empty());
        lexer
    }

    /// Gives up the cursor and hands out the collected tokens.
    pub fn finish(self) -> (tokens: Vec<String>)
        ensures
            tokens.deep_view() == self.collected(),
    {
        self.tokens
    }

    /// The next character that has not been consumed, if there is one.
    pub fn peek(&mut self) -> (next: Option<char>)
        ensures
            *final(self) == *old(self),
            next == if old(self).remaining().len() > 0 {
                Some(old(self).remaining()[0].0)
            } else {
                None::<char>
            },
    {
        match self.peek_classified() {
            Some(entry) => Some(entry.0),
            None => None,
        }
    }

    /// The next character that has not been consumed, if there is one, with
    /// its mark.
    pub fn peek_classified(&self) -> (next: Option<(char, bool)>)
        ensures
            next == if self.remaining().len() > 0 {
                Some(self.remaining()[0])
            } else {
                None::<(char, bool)>
            },
    {
        if self.pos < self.chars.len() {
            Some(self.chars[self.pos])
        } else {
            None
        }
    }

    /// Consumes the next character. At the end of the text nothing changes.
    pub fn eat(&mut self)
        ensures
            final(self).collected() == old(self).collected(),
            final(self).remaining() == if old(self).remaining().len() > 0 {
                old(self).remaining().skip(1)
            } else {
                old(self).remaining()
            },
    {
        if self.pos < self.chars.len() {
            self.pos = self.pos + 1;
            assert(self.chars@.skip(self.pos as int) =~= old(self).chars@.skip(
                old(self).pos as int,
            ).skip(1));
        }
    }

    /// Runs the cursor to the end of the text and hands out the tokens: those
    /// collected before, then one for every word of the rest of the text,
    /// lower-cased, unless the lower-cased word is empty or an entry of
    /// `stop_words`. No word is dropped as a stop word where `stop_words` is
    /// `None`.
    pub fn scan(self, stop_words: Option<&[&str]>) -> (tokens: Vec<String>)
        ensures
            tokens.deep_view() == self.collected() + candidates(
                words_of(self.remaining()),
                stop_list(stop_words),
            ),
    {
        let mut lexer = self;
        let ghost stop = stop_list(stop_words);
        let ghost mut words: Seq<Seq<char>> = Seq::empty();
        assert(words + words_of(lexer.remaining()) =~= words_of(self.remaining()));
        assert(self.collected() + candidates(words, stop) =~= self.collected()) by {
            reveal(Seq::filter);
        }

        while lexer.peek().is_some()
            invariant
                stop == stop_list(stop_words),
                words + words_of(lexer.remaining()) == words_of(self.remaining()),
                lexer.collected() == self.collected() + candidates(words, stop),
            decreases lexer.remaining().len(),
        {
            let ghost before = lexer.remaining();
            loop
                invariant
                    lexer.collected() == self.collected() + candidates(words, stop),
                    words_of(lexer.remaining()) == words_of(before),
                    lexer.remaining().len() < before.len() || lexer.remaining() == before,
                ensures
                    lexer.remaining().len() == 0 || lexer.remaining()[0].1,
                decreases lexer.remaining().len(),
            {
                match lexer.peek_classified() {
                    Some((_, letter)) => {
                        if !letter {
                            lexer.eat();
                        } else {
                            break ;
                        }
                    },
                    None => {
                        break ;
                    },
                }
            }

            let ghost run = lexer.remaining();
            let ghost mut k: int = 0;
            let mut word = String::new();
            assert(word@ =~= spelled(run.take(0)));
            assert(run.skip(0) =~= run);
            loop
                invariant
                    lexer.collected() == self.collected() + candidates(words, stop),
                    0 <= k <= run.len(),
                    lexer.remaining() == run.skip(k),
                    forall|i: int| 0 <= i < k ==> (#[trigger] run[i]).1,
                    word@ == spelled(run.take(k)),
                ensures
                    k < run.len() ==> !run[k].1,
                decreases lexer.remaining().len(),
            {
                match lexer.peek_classified() {
                    Some((c, letter)) => {
                        if letter {
                            lexer.eat();
                            word.push(c);
                            proof {
                                assert(run.skip(k).skip(1) =~= run.skip(k + 1));
                                assert(spelled(run.take(k)).push(c) =~= spelled(run.take(k + 1)));
                                k = k + 1;
                            }
                        } else {
                            break ;
                        }
                    },
                    None => {
                        break ;
                    },
                }
            }

            proof {
                lemma_run_len_is(run, k);
                assert(word@.len() == k);
            }
            let ghost found = lexer.collected();
            if !word.as_str().is_empty() {
                proof {
                    lemma_candidates_push(words, word@, stop);
                    words = words.push(word@);
                }
                let token = word.as_str().to_lowercase();
                let stop_word = match stop_words {
                    Some(list) => contains_word(list, token.as_str()),
                    None => false,
                };
                if !token.as_str().is_empty() && !stop_word {
                    lexer.tokens.push(token);
                    assert(lexer.collected() =~= found.push(token@));
                }
            }
        }

        assert(words_of(lexer.remaining()) =~= Seq::<Seq<char>>::empty());
        lexer.finish()
    }
}

/// Replaces every word by its Porter stem.
pub fn stem_all(words: Vec<String>) -> (stemmed: Vec<String>)
    ensures
        stemmed.deep_view() == stems(words.deep_view()),
{
    let mut stemmed: Vec<String> = Vec::new();
    let mut i: usize = 0;
    while i < words.len()
        invariant
            i <= words.len(),
            stemmed.deep_view() == stems(words.deep_view().take(i as int)),
        decreases words.len() - i,
    {
        let ghost done = stemmed.deep_view();
        let stem = porter_stemmer::stem(words[i].as_str());
        stemmed.push(stem);
        assert(stemmed.deep_view() =~= done.push(stem@));
        assert(stemmed.deep_view() =~= stems(words.deep_view().take(i + 1)));
        i += 1;
    }
    assert(words.deep_view().take(words.len() as int) =~= words.deep_view());
    stemmed
}

/// Tokenizes `source` with the stop words of `STOP_WORDS` filtered out.
pub fn lex(source: &str, stem: bool) -> (tokens: Vec<String>)
    ensures
        tokens.deep_view() == tokens_of(source@, word_views(STOP_WORDS@), stem),
{
    lex_with(source, stem, Some(STOP_WORDS.as_slice()))
}

/// Tokenizes `source`: every maximal run of alphabetic characters is
/// lower-cased, whatever its script, dropped if the lower-cased run is an
/// entry of `stop_words` (no run is dropped where `stop_words` is `None`), and
/// otherwise emitted, as its Porter stem where `stem` is set and as it is
/// where not.
///
/// The stop-word match is exact: an entry that is not in lower case matches no
/// word.
pub fn lex_with(source: &str, stem: bool, stop_words: Option<&[&str]>) -> (tokens: Vec<String>)
    ensures
        tokens.deep_view() == tokens_of(source@, stop_list(stop_words), stem),
{
    let lexer = Lexer::new(source);
    let kept = lexer.scan(stop_words);
    assert(kept.deep_view() =~= candidates(words_of(classified(source@)), stop_list(stop_words)));
    if stem {
        stem_all(kept)
    } else {
        kept
    }
}

} // verus!
