use tfidf::lexer::{contains_word, is_stop_word, lex, lex_with, stem_all, Lexer, STOP_WORDS};

fn strings(words: &[&str]) -> Vec<String> {
    words.iter().map(|w| w.to_string()).collect()
}

#[test]
fn stop_words_are_filtered() {
    let stop = ["the", "and"];
    let tokens = lex_with("The cat and the hat", false, Some(&stop));
    assert_eq!(tokens, strings(&["cat", "hat"]));
}

#[test]
fn default_stop_words_are_filtered() {
    assert_eq!(lex("The cat and the hat", false), strings(&["cat", "hat"]));
    assert_eq!(
        lex("This is the house that Jack built", false),
        strings(&["house", "jack", "built"])
    );
}

#[test]
fn no_stop_words_keeps_every_word() {
    let tokens = lex_with("The cat and the hat", false, None);
    assert_eq!(tokens, strings(&["the", "cat", "and", "the", "hat"]));
}

#[test]
fn empty_stop_list_keeps_every_word() {
    let stop: [&str; 0] = [];
    let tokens = lex_with("The cat and the hat", false, Some(&stop));
    assert_eq!(tokens, strings(&["the", "cat", "and", "the", "hat"]));
}

#[test]
fn stemming_uses_the_porter_stemmer() {
    let tokens = lex_with("Running runs ran", true, None);
    assert_eq!(tokens, strings(&["run", "run", "ran"]));
    assert_eq!(lex("Running runs ran", true), strings(&["run", "run", "ran"]));
}

#[test]
fn without_stemming_words_stay_whole() {
    assert_eq!(lex("Running runs ran", false), strings(&["running", "runs", "ran"]));
}

#[test]
fn stemming_changes_words() {
    let tokens = lex("caresses ponies totally", true);
    assert_eq!(tokens, strings(&["caress", "poni", "total"]));
}

#[test]
fn stop_words_are_tested_before_stemming() {
    // "ha" is what the stemmer makes of "has"; only the unstemmed word counts.
    let stop = ["ha"];
    assert_eq!(lex_with("has", true, Some(&stop)), strings(&["ha"]));
    let stop = ["has"];
    assert_eq!(lex_with("has", true, Some(&stop)), strings(&[]));
}

#[test]
fn empty_text_has_no_tokens() {
    assert!(lex("", false).is_empty());
    assert!(lex("", true).is_empty());
    assert!(lex_with("", false, None).is_empty());
}

#[test]
fn text_without_letters_has_no_tokens() {
    assert!(lex("123 !!! ---", false).is_empty());
    assert!(lex("123 !!! ---", true).is_empty());
    assert!(lex_with(" \t\n42", true, None).is_empty());
}

#[test]
fn tokenizing_twice_gives_the_same_tokens() {
    let text = "Almost forty years later, these fair information practices have become the standard.";
    assert_eq!(lex(text, false), lex(text, false));
    assert_eq!(lex(text, true), lex(text, true));
    let stop = ["almost"];
    assert_eq!(lex_with(text, true, Some(&stop)), lex_with(text, true, Some(&stop)));
}

#[test]
fn words_are_maximal_runs_of_letters() {
    let tokens = lex_with("one2two--three_four  five", false, None);
    assert_eq!(tokens, strings(&["one", "two", "three", "four", "five"]));
}

#[test]
fn words_are_lower_cased() {
    assert_eq!(lex_with("HeLLo WORLD", false, None), strings(&["hello", "world"]));
}

#[test]
fn letters_beyond_ascii_are_lower_cased() {
    assert_eq!(lex("\u{c9}COLE", false), strings(&["\u{e9}cole"]));
    let tokens = lex_with("\u{c9}cole NA\u{cf}VE 123 \u{4eac}", false, None);
    assert_eq!(tokens, strings(&["\u{e9}cole", "na\u{ef}ve", "\u{4eac}"]));
}

#[test]
fn no_unstemmed_token_holds_an_upper_case_letter() {
    let text = "\u{c9}t\u{c9} \u{41e}\u{414}\u{418}\u{41d} Stra\u{df}e \u{39f}\u{394}\u{39f}\u{3a3} MiXeD";
    let tokens = lex_with(text, false, None);
    assert_eq!(
        tokens,
        strings(&[
            "\u{e9}t\u{e9}",
            "\u{43e}\u{434}\u{438}\u{43d}",
            "stra\u{df}e",
            "\u{3bf}\u{3b4}\u{3bf}\u{3c2}",
            "mixed",
        ])
    );
    for token in tokens.iter() {
        assert!(!token.is_empty());
        assert!(token.chars().all(|c| !c.is_uppercase()));
    }
}

#[test]
fn stop_words_match_the_lower_cased_word() {
    let stop = ["\u{e9}t\u{e9}"];
    assert_eq!(lex_with("\u{c9}T\u{c9} hiver", false, Some(&stop)), strings(&["hiver"]));
}

#[test]
fn stop_word_entries_match_exactly() {
    let stop = ["The"];
    assert_eq!(lex_with("The the", false, Some(&stop)), strings(&["the", "the"]));
}

#[test]
fn is_stop_word_knows_the_list() {
    assert!(is_stop_word("the"));
    assert!(is_stop_word("a"));
    assert!(is_stop_word("they"));
    assert!(!is_stop_word("cat"));
    assert!(!is_stop_word(""));
    assert!(!is_stop_word("The"));
    assert!(!is_stop_word("th"));
    assert_eq!(STOP_WORDS.len(), 44);
    for word in STOP_WORDS.iter() {
        assert!(is_stop_word(word));
    }
}

#[test]
fn contains_word_matches_whole_words() {
    let list = ["alpha", "beta"];
    assert!(contains_word(&list, "alpha"));
    assert!(contains_word(&list, "beta"));
    assert!(!contains_word(&list, "alph"));
    assert!(!contains_word(&list, "gamma"));
    assert!(!contains_word(&[], "alpha"));
}

#[test]
fn lexer_walks_the_text() {
    let mut lexer = Lexer::new("ab");
    assert_eq!(lexer.peek(), Some('a'));
    assert_eq!(lexer.peek(), Some('a'));
    assert_eq!(lexer.peek_classified(), Some(('a', true)));
    lexer.eat();
    assert_eq!(lexer.peek(), Some('b'));
    lexer.eat();
    assert_eq!(lexer.peek(), None);
    assert_eq!(lexer.peek_classified(), None);
    lexer.eat();
    assert_eq!(lexer.peek(), None);
    assert!(lexer.finish().is_empty());
}

#[test]
fn lexer_marks_alphabetic_characters() {
    let mut lexer = Lexer::new("a1 ");
    assert_eq!(lexer.peek_classified(), Some(('a', true)));
    lexer.eat();
    assert_eq!(lexer.peek_classified(), Some(('1', false)));
    lexer.eat();
    assert_eq!(lexer.peek_classified(), Some((' ', false)));
}

#[test]
fn scan_after_eating_starts_at_the_cursor() {
    let mut lexer = Lexer::new("abc def");
    lexer.eat();
    assert_eq!(lexer.scan(None), strings(&["bc", "def"]));
}

#[test]
fn scan_goes_by_the_marks_it_is_given() {
    let chars = vec![('A', true), ('1', true), (' ', false), ('b', false), ('C', true)];
    let tokens = Lexer::from_classified(chars).scan(None);
    assert_eq!(tokens, strings(&["a1", "c"]));
}

#[test]
fn stem_all_stems_every_word() {
    let stemmed = stem_all(strings(&["running", "runs", "ran", "relational"]));
    assert_eq!(stemmed, strings(&["run", "run", "ran", "relat"]));
    assert!(stem_all(Vec::new()).is_empty());
}

#[test]
fn tokenizing_the_tokens_again_gives_the_same_tokens() {
    let text = "The \u{c9}COLE of Athens, 42 Runners; and the na\u{ef}ve CAT!";
    let tokens = lex(text, false);
    assert_eq!(tokens, strings(&["\u{e9}cole", "athens", "runners", "na\u{ef}ve", "cat"]));
    assert_eq!(lex(&tokens.join(" "), false), tokens);
    assert_eq!(lex(&tokens.join("--"), false), tokens);
}

#[test]
fn lower_case_form_with_a_mark_splits_when_tokenized_again() {
    // The lower-case form of a dotted capital I ends in a combining dot,
    // which is no letter.
    let tokens = lex_with("\u{130}stanbul", false, None);
    assert_eq!(tokens, strings(&["i\u{307}stanbul"]));
    assert_eq!(lex_with(&tokens.join(" "), false, None), strings(&["i", "stanbul"]));
}
