use tfidf::error::CorpusError;
use tfidf::matrix::{count_word, create_word_text_matrix, WordTextMatrix};
use tfidf::ratio::{Ratio, WideRatio};
use tfidf::scores::{count_texts_holding, create_idf_scores, create_tf_idf_scores, find_score};
use tfidf::vocab::{TextData, Vocab};

fn strings(words: &[&str]) -> Vec<String> {
    words.iter().map(|w| w.to_string()).collect()
}

fn corpus() -> Vec<TextData> {
    vec![
        TextData::new(0, strings(&["cat", "hat", "cat"])),
        TextData::new(0, strings(&["hat", "mat"])),
        TextData::new(1, strings(&["cat", "bat", "hat"])),
    ]
}

#[test]
fn count_word_counts_occurrences() {
    let words = strings(&["a", "b", "a", "a"]);
    assert_eq!(count_word(&words, "a"), 3);
    assert_eq!(count_word(&words, "b"), 1);
    assert_eq!(count_word(&words, "c"), 0);
    assert_eq!(count_word(&[], "a"), 0);
}

#[test]
fn matrix_has_a_row_per_token_and_a_count_per_text() {
    let texts = corpus();
    let vocab = Vocab::new_from_text_data(&texts);
    let matrix = create_word_text_matrix(&vocab, &texts);
    assert_eq!(
        matrix.entries,
        vec![
            ("cat".to_string(), vec![2, 0, 1]),
            ("hat".to_string(), vec![1, 1, 1]),
            ("mat".to_string(), vec![0, 1, 0]),
            ("bat".to_string(), vec![0, 0, 1]),
        ]
    );
}

#[test]
fn matrix_of_an_empty_corpus_is_empty() {
    let texts: Vec<TextData> = Vec::new();
    let vocab = Vocab::new_from_text_data(&texts);
    let matrix = create_word_text_matrix(&vocab, &texts);
    assert!(matrix.entries.is_empty());
    assert_eq!(create_idf_scores(&vocab, &matrix), Ok(Vec::new()));
}

#[test]
fn count_texts_holding_counts_nonzero_entries() {
    assert_eq!(count_texts_holding(&[2, 0, 1]), 2);
    assert_eq!(count_texts_holding(&[0, 0]), 0);
    assert_eq!(count_texts_holding(&[]), 0);
    assert_eq!(count_texts_holding(&[7]), 1);
}

#[test]
fn token_in_two_of_three_texts_has_idf_three_halves() {
    let texts = corpus();
    let vocab = Vocab::new_from_text_data(&texts);
    let matrix = create_word_text_matrix(&vocab, &texts);
    let idf = create_idf_scores(&vocab, &matrix).unwrap();
    assert_eq!(idf[0], ("cat".to_string(), Ratio { num: 3, den: 2 }));
    assert_eq!(idf[0].1.num as f64 / idf[0].1.den as f64, 1.5);
}

#[test]
fn idf_is_texts_over_texts_holding_the_token() {
    let texts = corpus();
    let vocab = Vocab::new_from_text_data(&texts);
    let matrix = create_word_text_matrix(&vocab, &texts);
    let idf = create_idf_scores(&vocab, &matrix).unwrap();
    assert_eq!(
        idf,
        vec![
            ("cat".to_string(), Ratio { num: 3, den: 2 }),
            ("hat".to_string(), Ratio { num: 3, den: 3 }),
            ("mat".to_string(), Ratio { num: 3, den: 1 }),
            ("bat".to_string(), Ratio { num: 3, den: 1 }),
        ]
    );
}

#[test]
fn idf_lies_between_one_and_the_number_of_texts() {
    let texts = corpus();
    let vocab = Vocab::new_from_text_data(&texts);
    let matrix = create_word_text_matrix(&vocab, &texts);
    let idf = create_idf_scores(&vocab, &matrix).unwrap();
    for (i, (_, score)) in idf.iter().enumerate() {
        let value = score.num as f64 / score.den as f64;
        assert!(value >= 1.0 && value <= texts.len() as f64);
        let holding = matrix.entries[i].1.iter().filter(|count| **count != 0).count();
        assert_eq!(value == texts.len() as f64, holding == 1);
    }
}

#[test]
fn token_that_occurs_in_no_text_violates_the_invariant() {
    let vocab = Vocab::new();
    let matrix = WordTextMatrix {
        entries: vec![
            ("cat".to_string(), vec![1, 0]),
            ("dog".to_string(), vec![0, 0]),
            ("emu".to_string(), vec![0, 0]),
        ],
    };
    assert_eq!(
        create_idf_scores(&vocab, &matrix),
        Err(CorpusError::InvariantViolation { token: "dog".to_string() })
    );
    let no_texts = WordTextMatrix { entries: vec![("cat".to_string(), Vec::new())] };
    assert_eq!(
        create_idf_scores(&vocab, &no_texts),
        Err(CorpusError::InvariantViolation { token: "cat".to_string() })
    );
}

#[test]
fn matrix_from_other_texts_violates_the_invariant() {
    let vocab = Vocab::new_from_words(&strings(&["cat", "dog"]));
    let other = vec![TextData::new(0, strings(&["cat"]))];
    let matrix = create_word_text_matrix(&vocab, &other);
    assert_eq!(
        create_idf_scores(&vocab, &matrix),
        Err(CorpusError::InvariantViolation { token: "dog".to_string() })
    );
}

#[test]
fn find_score_takes_the_first_entry_of_a_token() {
    let scores = vec![
        ("a".to_string(), Ratio { num: 1, den: 2 }),
        ("b".to_string(), Ratio { num: 3, den: 4 }),
        ("a".to_string(), Ratio { num: 5, den: 6 }),
    ];
    assert_eq!(find_score(&scores, "a"), Some(Ratio { num: 1, den: 2 }));
    assert_eq!(find_score(&scores, "b"), Some(Ratio { num: 3, den: 4 }));
    assert_eq!(find_score(&scores, "c"), None);
    assert_eq!(find_score(&[], "a"), None);
}

#[test]
fn times_multiplies_numerators_and_denominators() {
    let a = Ratio { num: 2, den: 3 };
    let b = Ratio { num: 5, den: 7 };
    assert_eq!(a.times(b), WideRatio { num: 10, den: 21 });
    let big = Ratio { num: u64::MAX, den: u64::MAX };
    let wide = big.times(big);
    assert_eq!(wide.num, (u64::MAX as u128) * (u64::MAX as u128));
    assert_eq!(wide.den, (u64::MAX as u128) * (u64::MAX as u128));
}

#[test]
fn tf_idf_is_tf_times_idf() {
    let texts = corpus();
    let vocab = Vocab::new_from_text_data(&texts);
    let matrix = create_word_text_matrix(&vocab, &texts);
    let idf = create_idf_scores(&vocab, &matrix).unwrap();
    let tf = vocab.get_tf_scores();
    let tf_idf = create_tf_idf_scores(&tf, &idf).unwrap();
    assert_eq!(
        tf_idf,
        vec![
            ("cat".to_string(), WideRatio { num: 9, den: 16 }),
            ("hat".to_string(), WideRatio { num: 9, den: 24 }),
            ("mat".to_string(), WideRatio { num: 3, den: 8 }),
            ("bat".to_string(), WideRatio { num: 3, den: 8 }),
        ]
    );
    for i in 0..tf.len() {
        let product = (tf[i].1.num as f64 / tf[i].1.den as f64)
            * (idf[i].1.num as f64 / idf[i].1.den as f64);
        let value = tf_idf[i].1.num as f64 / tf_idf[i].1.den as f64;
        assert!((value - product).abs() < 1e-12);
    }
}

#[test]
fn tf_idf_of_one_text_is_aligned_by_token() {
    let texts = corpus();
    let vocab = Vocab::new_from_text_data(&texts);
    let matrix = create_word_text_matrix(&vocab, &texts);
    let idf = create_idf_scores(&vocab, &matrix).unwrap();
    // The third text has its tokens in an order of its own: cat, bat, hat.
    let tf = texts[2].vocab.get_tf_scores();
    let tf_idf = create_tf_idf_scores(&tf, &idf).unwrap();
    assert_eq!(
        tf_idf,
        vec![
            ("cat".to_string(), WideRatio { num: 3, den: 6 }),
            ("bat".to_string(), WideRatio { num: 3, den: 3 }),
            ("hat".to_string(), WideRatio { num: 3, den: 9 }),
        ]
    );
}

#[test]
fn tf_idf_without_an_idf_for_a_token_is_not_found() {
    let tf = vec![
        ("cat".to_string(), Ratio { num: 1, den: 2 }),
        ("dog".to_string(), Ratio { num: 1, den: 2 }),
        ("emu".to_string(), Ratio { num: 1, den: 2 }),
    ];
    let idf = vec![("cat".to_string(), Ratio { num: 3, den: 2 })];
    assert_eq!(
        create_tf_idf_scores(&tf, &idf),
        Err(CorpusError::NotFound { token: "dog".to_string() })
    );
    assert_eq!(
        create_tf_idf_scores(&tf, &[]),
        Err(CorpusError::NotFound { token: "cat".to_string() })
    );
    assert_eq!(create_tf_idf_scores(&[], &idf), Ok(Vec::new()));
}
