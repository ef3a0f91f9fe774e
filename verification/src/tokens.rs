//! The mathematical model of tokenization: what the token sequence of a text is.
//!
//! A text is a sequence of characters, each of them a letter or not. Its words
//! are the maximal runs of letters, in the order in which they occur. A word
//! becomes a token by lower-casing it, dropping it if it is a stop word, and,
//! where stemming is asked for, replacing it by its stem.

use vstd::prelude::*;
use crate::chars::{alphabetic, lowercase};
use crate::stemmer::porter_stem;

verus! {

/// A text with each character marked as a letter where it is alphabetic.
pub open spec fn classified(text: Seq<char>) -> Seq<(char, bool)> {
    text.map_values(|c: char| (c, alphabetic(c)))
}

/// The characters of a classified text, without their marks.
pub open spec fn spelled(text: Seq<(char, bool)>) -> Seq<char> {
    text.map_values(|entry: (char, bool)| entry.0)
}

/// Length of the longest prefix of `text` that holds letters only.
pub open spec fn run_len(text: Seq<(char, bool)>) -> nat
    decreases text.len(),
{
    if text.len() == 0 || !text[0].1 {
        0
    } else {
        1 + run_len(text.skip(1))
    }
}

/// The words of a text: its maximal runs of letters, first to last.
pub open spec fn words_of(text: Seq<(char, bool)>) -> Seq<Seq<char>>
    decreases text.len(),
    via words_of_decreases
{
    if text.len() == 0 {
        Seq::empty()
    } else if !text[0].1 {
        words_of(text.skip(1))
    } else {
        let n = run_len(text) as int;
        seq![spelled(text.take(n))] + words_of(text.skip(n))
    }
}

#[via_fn]
proof fn words_of_decreases(text: Seq<(char, bool)>) {
    lemma_run_len(text);
}

/// Whether a lower-cased word is kept as a candidate token: it is not empty
/// and it is no stop word.
pub open spec fn kept(word: Seq<char>, stop_words: Seq<Seq<char>>) -> bool {
    word.len() > 0 && !stop_words.contains(word)
}

/// The candidate tokens that a sequence of words gives: each word
/// lower-cased, and of the lower-cased words those that are kept.
pub open spec fn candidates(words: Seq<Seq<char>>, stop_words: Seq<Seq<char>>) -> Seq<Seq<char>> {
    words.map_values(|w: Seq<char>| lowercase(w)).filter(|w: Seq<char>| kept(w, stop_words))
}

/// Every word replaced by its Porter stem.
pub open spec fn stems(words: Seq<Seq<char>>) -> Seq<Seq<char>> {
    words.map_values(|w: Seq<char>| porter_stem(w))
}

/// The token sequence of a text under a stop-word list and a stemming flag.
pub open spec fn tokens_of(text: Seq<char>, stop_words: Seq<Seq<char>>, stem: bool) -> Seq<
    Seq<char>,
> {
    let unstemmed = candidates(words_of(classified(text)), stop_words);
    if stem {
        stems(unstemmed)
    } else {
        unstemmed
    }
}

/// The words written out one after the other, with `separator` between each
/// two of them.
pub open spec fn joined(words: Seq<Seq<char>>, separator: char) -> Seq<char>
    decreases words.len(),
{
    if words.len() == 0 {
        Seq::empty()
    } else if words.len() == 1 {
        words[0]
    } else {
        words[0] + seq![separator] + joined(words.skip(1), separator)
    }
}

/// Whether a token comes back as it is when it is tokenized again: it is made
/// of alphabetic characters only, and it is its own lower-case form.
pub open spec fn stable(token: Seq<char>) -> bool {
    &&& forall|i: int| 0 <= i < token.len() ==> alphabetic(#[trigger] token[i])
    &&& lowercase(token) == token
}

/// `run_len` stays within the text, covers letters only, and stops at the end
/// of the text or in front of a character that is no letter.
pub proof fn lemma_run_len(text: Seq<(char, bool)>)
    ensures
        run_len(text) <= text.len(),
        forall|i: int| 0 <= i < run_len(text) ==> (#[trigger] text[i]).1,
        run_len(text) < text.len() ==> !text[run_len(text) as int].1,
    decreases text.len(),
{
    if text.len() != 0 && text[0].1 {
        let rest = text.skip(1);
        lemma_run_len(rest);
        assert forall|i: int| 0 <= i < run_len(text) implies (#[trigger] text[i]).1 by {
            if i > 0 {
                assert(text[i] == rest[i - 1]);
            }
        }
        if run_len(text) < text.len() {
            assert(text[run_len(text) as int] == rest[run_len(rest) as int]);
        }
    }
}

/// A prefix of letters that ends at the end of the text, or in front of a
/// character that is no letter, is the longest one.
pub proof fn lemma_run_len_is(text: Seq<(char, bool)>, k: int)
    requires
        0 <= k <= text.len(),
        forall|i: int| 0 <= i < k ==> (#[trigger] text[i]).1,
        k < text.len() ==> !text[k].1,
    ensures
        run_len(text) == k,
    decreases text.len(),
{
    if k > 0 {
        let rest = text.skip(1);
        assert(text[0].1);
        assert forall|i: int| 0 <= i < k - 1 implies (#[trigger] rest[i]).1 by {
            assert(rest[i] == text[i + 1]);
        }
        if k - 1 < rest.len() {
            assert(rest[k - 1] == text[k]);
        }
        lemma_run_len_is(rest, k - 1);
    }
}

/// Appending one word to a sequence of words appends its lower-case form to
/// the candidates, if that is kept.
pub proof fn lemma_candidates_push(
    words: Seq<Seq<char>>,
    word: Seq<char>,
    stop_words: Seq<Seq<char>>,
)
    ensures
        candidates(words.push(word), stop_words) == if kept(lowercase(word), stop_words) {
            candidates(words, stop_words).push(lowercase(word))
        } else {
            candidates(words, stop_words)
        },
{
    let lower = |w: Seq<char>| lowercase(w);
    let lowered = words.map_values(lower);
    assert(words.push(word).map_values(lower) =~= lowered.push(lowercase(word)));
    assert(lowered.push(lowercase(word)).drop_last() =~= lowered);
    reveal(Seq::filter);
}

/// A text without a letter has no word.
pub proof fn lemma_no_letter_no_word(text: Seq<(char, bool)>)
    requires
        forall|i: int| 0 <= i < text.len() ==> !(#[trigger] text[i]).1,
    ensures
        words_of(text) == Seq::<Seq<char>>::empty(),
    decreases text.len(),
{
    if text.len() > 0 {
        let rest = text.skip(1);
        assert forall|i: int| 0 <= i < rest.len() implies !(#[trigger] rest[i]).1 by {
            assert(rest[i] == text[i + 1]);
        }
        lemma_no_letter_no_word(rest);
    }
}

/// A text without an alphabetic character, the empty text among them, has no
/// token, whatever the stop words and the stemming flag.
pub proof fn lemma_no_alphabetic_no_token(text: Seq<char>, stop_words: Seq<Seq<char>>, stem: bool)
    requires
        forall|i: int| 0 <= i < text.len() ==> !alphabetic(#[trigger] text[i]),
    ensures
        tokens_of(text, stop_words, stem) == Seq::<Seq<char>>::empty(),
{
    lemma_no_letter_no_word(classified(text));
    reveal(Seq::filter);
    let none = Seq::<Seq<char>>::empty();
    assert(none.map_values(|w: Seq<char>| lowercase(w)) =~= none);
    assert(stems(none) =~= none);
}

/// Every candidate token is the lower-case form of one of the words, is not
/// empty, and is no stop word.
pub proof fn lemma_candidates_from_words(words: Seq<Seq<char>>, stop_words: Seq<Seq<char>>)
    ensures
        forall|i: int|
            0 <= i < candidates(words, stop_words).len() ==> {
                &&& kept(#[trigger] candidates(words, stop_words)[i], stop_words)
                &&& exists|j: int|
                    0 <= j < words.len() && candidates(words, stop_words)[i] == lowercase(
                        #[trigger] words[j],
                    )
            },
    decreases words.len(),
{
    if words.len() > 0 {
        let front = words.drop_last();
        lemma_candidates_from_words(front, stop_words);
        lemma_candidates_push(front, words.last(), stop_words);
        assert(front.push(words.last()) =~= words);
        let all = candidates(words, stop_words);
        let earlier = candidates(front, stop_words);
        assert forall|i: int| 0 <= i < all.len() implies {
            &&& kept(#[trigger] all[i], stop_words)
            &&& exists|j: int| 0 <= j < words.len() && all[i] == lowercase(#[trigger] words[j])
        } by {
            if i < earlier.len() {
                assert(all[i] == earlier[i]);
                let j = choose|j: int|
                    0 <= j < front.len() && earlier[i] == lowercase(#[trigger] front[j]);
                assert(words[j] == front[j]);
            } else {
                assert(all[i] == lowercase(words[words.len() - 1]));
            }
        }
    } else {
        reveal(Seq::filter);
        assert(words.map_values(|w: Seq<char>| lowercase(w)) =~= words);
    }
}

/// Without stemming no token is empty, none is a stop word, and each is the
/// lower-case form of a word of the text.
pub proof fn lemma_unstemmed_tokens(text: Seq<char>, stop_words: Seq<Seq<char>>)
    ensures
        forall|i: int|
            0 <= i < tokens_of(text, stop_words, false).len() ==> {
                &&& (#[trigger] tokens_of(text, stop_words, false)[i]).len() > 0
                &&& !stop_words.contains(tokens_of(text, stop_words, false)[i])
                &&& exists|j: int|
                    0 <= j < words_of(classified(text)).len() && tokens_of(
                        text,
                        stop_words,
                        false,
                    )[i] == lowercase(#[trigger] words_of(classified(text))[j])
            },
{
    lemma_candidates_from_words(words_of(classified(text)), stop_words);
}

/// A text that starts with a word of letters, followed by nothing or by a
/// character that is no letter, has that word as its first word.
proof fn lemma_words_of_leading_word(word: Seq<char>, rest: Seq<char>)
    requires
        word.len() > 0,
        forall|i: int| 0 <= i < word.len() ==> alphabetic(#[trigger] word[i]),
        rest.len() > 0 ==> !alphabetic(rest[0]),
    ensures
        words_of(classified(word + rest)) == seq![word] + words_of(classified(rest)),
{
    let text = classified(word + rest);
    let n = word.len() as int;
    assert forall|i: int| 0 <= i < n implies (#[trigger] text[i]).1 by {
        assert(text[i] == (word[i], alphabetic(word[i])));
    }
    if n < text.len() {
        assert(text[n] == (rest[0], alphabetic(rest[0])));
    }
    lemma_run_len_is(text, n);
    assert(spelled(text.take(n)) =~= word);
    assert(text.skip(n) =~= classified(rest));
    assert(text[0].1);
}

/// A separator that is no letter in front of a text adds no word.
proof fn lemma_words_of_leading_separator(separator: char, rest: Seq<char>)
    requires
        !alphabetic(separator),
    ensures
        words_of(classified(seq![separator] + rest)) == words_of(classified(rest)),
{
    let text = classified(seq![separator] + rest);
    assert(text[0] == (separator, false));
    assert(text.skip(1) =~= classified(rest));
}

/// Stable words that are joined by a separator that is no letter are the
/// words of the joined text.
pub proof fn lemma_words_of_joined(words: Seq<Seq<char>>, separator: char)
    requires
        !alphabetic(separator),
        forall|i: int| 0 <= i < words.len() ==> (#[trigger] words[i]).len() > 0 && stable(words[i]),
    ensures
        words_of(classified(joined(words, separator))) == words,
    decreases words.len(),
{
    if words.len() == 0 {
        assert(classified(Seq::<char>::empty()) =~= Seq::<(char, bool)>::empty());
    } else if words.len() == 1 {
        let none = Seq::<char>::empty();
        assert(words[0] + none =~= words[0]);
        assert(classified(none) =~= Seq::<(char, bool)>::empty());
        lemma_words_of_leading_word(words[0], none);
        assert(seq![words[0]] + Seq::<Seq<char>>::empty() =~= words);
    } else {
        let rest = words.skip(1);
        let tail = joined(rest, separator);
        assert forall|i: int| 0 <= i < rest.len() implies (#[trigger] rest[i]).len() > 0 && stable(
            rest[i],
        ) by {
            assert(rest[i] == words[i + 1]);
        }
        lemma_words_of_joined(rest, separator);
        lemma_words_of_leading_separator(separator, tail);
        assert(words[0] + seq![separator] + tail =~= words[0] + (seq![separator] + tail));
        lemma_words_of_leading_word(words[0], seq![separator] + tail);
        assert(seq![words[0]] + rest =~= words);
    }
}

/// Words that are kept and are their own lower-case form are their own
/// candidate tokens.
pub proof fn lemma_candidates_of_stable(words: Seq<Seq<char>>, stop_words: Seq<Seq<char>>)
    requires
        forall|i: int|
            0 <= i < words.len() ==> kept(#[trigger] words[i], stop_words) && lowercase(words[i])
                == words[i],
    ensures
        candidates(words, stop_words) == words,
    decreases words.len(),
{
    if words.len() == 0 {
        reveal(Seq::filter);
        assert(words.map_values(|w: Seq<char>| lowercase(w)) =~= words);
    } else {
        let front = words.drop_last();
        assert forall|i: int| 0 <= i < front.len() implies kept(#[trigger] front[i], stop_words)
            && lowercase(front[i]) == front[i] by {
            assert(front[i] == words[i]);
        }
        lemma_candidates_of_stable(front, stop_words);
        lemma_candidates_push(front, words.last(), stop_words);
        assert(front.push(words.last()) =~= words);
    }
}

/// Tokenizing the tokens of a text again, joined by a separator that is no
/// letter, gives the same tokens, where no stemming is done and every token
/// is stable.
pub proof fn lemma_tokens_of_tokens(text: Seq<char>, stop_words: Seq<Seq<char>>, separator: char)
    requires
        !alphabetic(separator),
        forall|i: int|
            0 <= i < tokens_of(text, stop_words, false).len() ==> stable(
                #[trigger] tokens_of(text, stop_words, false)[i],
            ),
    ensures
        tokens_of(joined(tokens_of(text, stop_words, false), separator), stop_words, false)
            == tokens_of(text, stop_words, false),
{
    let tokens = tokens_of(text, stop_words, false);
    lemma_unstemmed_tokens(text, stop_words);
    lemma_words_of_joined(tokens, separator);
    lemma_candidates_of_stable(tokens, stop_words);
}

} // verus!
