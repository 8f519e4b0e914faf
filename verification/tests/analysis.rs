use text_analysis::TextAnalysis;

#[test]
fn empty_text_is_all_zero() {
    let a = TextAnalysis::new("");
    assert_eq!(a.word_count(), 0);
    assert_eq!(a.character_count(), 0);
    assert_eq!(a.sentence_count(), 0);
    assert_eq!(a.paragraph_count(), 0);
    assert!(a.get_top_keywords(5).is_empty());
    let s = a.get_sentiment();
    assert_eq!(s.positive, 0);
    assert_eq!(s.negative, 0);
    assert!(a.calculate_readability().is_none());
}

#[test]
fn whitespace_only_text_is_all_zero() {
    let a = TextAnalysis::new(" \t\n  \r\n ");
    assert_eq!(a.word_count(), 0);
    assert_eq!(a.character_count(), 0);
    assert_eq!(a.sentence_count(), 0);
    assert_eq!(a.paragraph_count(), 0);
    assert!(a.get_top_keywords(3).is_empty());
    let s = a.get_sentiment();
    assert_eq!(s.positive + s.negative, 0);
    assert!(a.calculate_readability().is_none());
}

#[test]
fn word_count_ignores_amount_of_whitespace() {
    assert_eq!(TextAnalysis::new("a   b\tc").word_count(), 3);
    assert_eq!(TextAnalysis::new("a b c").word_count(), 3);
    assert_eq!(TextAnalysis::new("  a\n\nb\t\tc  ").word_count(), 3);
}

#[test]
fn word_count_handles_unicode_whitespace() {
    // U+00A0 is whitespace, so it separates words.
    assert_eq!(TextAnalysis::new("a\u{00A0}b").word_count(), 2);
}

#[test]
fn character_count_skips_whitespace() {
    assert_eq!(TextAnalysis::new("a b").character_count(), 2);
    assert_eq!(TextAnalysis::new("héllo wörld").character_count(), 10);
    assert_eq!(TextAnalysis::new("Ciao. Привет!").character_count(), 12);
}

#[test]
fn sentence_terminators_are_interchangeable() {
    assert_eq!(TextAnalysis::new("Hi! Bye.").sentence_count(), 2);
    assert_eq!(TextAnalysis::new("Hi? Bye!").sentence_count(), 2);
    assert_eq!(TextAnalysis::new("No terminator").sentence_count(), 1);
    assert_eq!(TextAnalysis::new("...").sentence_count(), 0);
    assert_eq!(TextAnalysis::new("One. Two! Three?").sentence_count(), 3);
}

#[test]
fn paragraphs_need_a_blank_line() {
    assert_eq!(TextAnalysis::new("a\n\nb").paragraph_count(), 2);
    assert_eq!(TextAnalysis::new("a\nb").paragraph_count(), 1);
    assert_eq!(TextAnalysis::new("a\n\n\nb").paragraph_count(), 2);
    assert_eq!(TextAnalysis::new("a\n\n\n\nb").paragraph_count(), 2);
}

#[test]
fn text_is_kept_trimmed() {
    let a = TextAnalysis::new("  hi there\n");
    assert_eq!(a.text(), "hi there");
}

#[test]
fn readability_none_only_without_words_or_sentences() {
    assert!(TextAnalysis::new("").calculate_readability().is_none());
    // "..." has a word but no sentence.
    assert!(TextAnalysis::new("...").calculate_readability().is_none());
    // An unterminated single word still counts as one sentence.
    let g = TextAnalysis::new("Hello").calculate_readability().unwrap();
    assert_eq!(g.words, 1);
    assert_eq!(g.sentences, 1);
    assert_eq!(g.syllables, 2);
}

#[test]
fn readability_grade_matches_formula() {
    let g = TextAnalysis::new("The cat sat on the mat.").calculate_readability().unwrap();
    assert_eq!(g.words, 6);
    assert_eq!(g.sentences, 1);
    assert_eq!(g.syllables, 6);
    let grade = 0.39 * (g.words as f64 / g.sentences as f64)
        + 11.8 * (g.syllables as f64 / g.words as f64) - 15.59;
    assert!((grade - (-1.45)).abs() < 1e-9);
}

#[test]
fn silent_e_drops_a_syllable_but_le_does_not() {
    let g = TextAnalysis::new("cake.").calculate_readability().unwrap();
    assert_eq!(g.syllables, 1);
    let g = TextAnalysis::new("table.").calculate_readability().unwrap();
    assert_eq!(g.syllables, 2);
    // A word without vowels still has one syllable.
    let g = TextAnalysis::new("tsk.").calculate_readability().unwrap();
    assert_eq!(g.syllables, 1);
}

#[test]
fn readability_is_idempotent() {
    let a = TextAnalysis::new("Some simple text. It has two sentences.");
    let g1 = a.calculate_readability().unwrap();
    let g2 = a.calculate_readability().unwrap();
    assert_eq!(g1.words, g2.words);
    assert_eq!(g1.sentences, g2.sentences);
    assert_eq!(g1.syllables, g2.syllables);
}

#[test]
fn mixed_text_full_analysis() {
    let a = TextAnalysis::new("  The quick fox. The lazy dog!\n\nGood good day.  ");
    assert_eq!(a.text(), "The quick fox. The lazy dog!\n\nGood good day.");
    assert_eq!(a.word_count(), 9);
    assert_eq!(a.character_count(), 35);
    assert_eq!(a.sentence_count(), 3);
    assert_eq!(a.paragraph_count(), 2);
    assert_eq!(
        a.get_top_keywords(10),
        vec![
            ("good".to_string(), 2),
            ("the".to_string(), 2),
            ("day".to_string(), 1),
            ("dog".to_string(), 1),
            ("fox".to_string(), 1),
            ("lazy".to_string(), 1),
            ("quick".to_string(), 1),
        ]
    );
    let s = a.get_sentiment();
    assert_eq!(s.positive, 2);
    assert_eq!(s.negative, 0);
}

#[test]
fn blank_line_edges_do_not_add_paragraphs() {
    // Leading and trailing blank lines are trimmed away first.
    assert_eq!(TextAnalysis::new("\n\na\n\n").paragraph_count(), 1);
    assert_eq!(TextAnalysis::new("a\n\n \n\nb").paragraph_count(), 2);
}

#[test]
fn accessors_are_idempotent() {
    let a = TextAnalysis::new("Hello world. Hello again!\n\nBye.");
    assert_eq!(a.word_count(), a.word_count());
    assert_eq!(a.character_count(), a.character_count());
    assert_eq!(a.sentence_count(), a.sentence_count());
    assert_eq!(a.paragraph_count(), a.paragraph_count());
    assert_eq!(a.get_top_keywords(3), a.get_top_keywords(3));
    let s1 = a.get_sentiment();
    let s2 = a.get_sentiment();
    assert_eq!(s1.positive, s2.positive);
    assert_eq!(s1.negative, s2.negative);
}
