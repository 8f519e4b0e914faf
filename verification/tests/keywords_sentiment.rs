use text_analysis::TextAnalysis;

#[test]
fn top_keywords_rank_by_count_descending() {
    let a = TextAnalysis::new("apple apple banana banana banana cherry");
    let top = a.get_top_keywords(5);
    assert_eq!(
        top,
        vec![
            ("banana".to_string(), 3),
            ("apple".to_string(), 2),
            ("cherry".to_string(), 1),
        ]
    );
}

#[test]
fn top_keywords_clamps_to_available_words() {
    let a = TextAnalysis::new("apple apple banana");
    assert_eq!(a.get_top_keywords(10).len(), 2);
    assert_eq!(a.get_top_keywords(1), vec![("apple".to_string(), 2)]);
    assert!(a.get_top_keywords(0).is_empty());
}

#[test]
fn top_keywords_break_ties_alphabetically() {
    let a = TextAnalysis::new("pear kiwi pear kiwi");
    assert_eq!(
        a.get_top_keywords(2),
        vec![("kiwi".to_string(), 2), ("pear".to_string(), 2)]
    );
}

#[test]
fn short_words_never_become_keywords() {
    let a = TextAnalysis::new("is is is is a a a ox ox banana");
    let top = a.get_top_keywords(10);
    assert_eq!(top, vec![("banana".to_string(), 1)]);
}

#[test]
fn keywords_are_lowercased_and_stripped() {
    let a = TextAnalysis::new("Hello, hello! HELLO?");
    assert_eq!(a.get_top_keywords(2), vec![("hello".to_string(), 3)]);
    let b = TextAnalysis::new("abc!!! !!!abc");
    assert_eq!(b.get_top_keywords(1), vec![("abc".to_string(), 2)]);
}

#[test]
fn interior_punctuation_is_kept() {
    let a = TextAnalysis::new("ab1c ab1c ab1c");
    assert_eq!(a.get_top_keywords(1), vec![("ab1c".to_string(), 3)]);
}

#[test]
fn keywords_lowercase_beyond_ascii() {
    let a = TextAnalysis::new("CAFÉ café Café");
    assert_eq!(a.get_top_keywords(1), vec![("café".to_string(), 3)]);
}

#[test]
fn counts_are_monotonically_non_increasing() {
    let a = TextAnalysis::new("x1x x1x x1x y2y y2y z3z w4w w4w w4w w4w");
    let top = a.get_top_keywords(10);
    for pair in top.windows(2) {
        assert!(pair[0].1 >= pair[1].1);
    }
}

#[test]
fn sentiment_positive_text_scores_one() {
    let a = TextAnalysis::new("I love this, it is great");
    let s = a.get_sentiment();
    assert_eq!(s.positive, 2);
    assert_eq!(s.negative, 0);
    let score = (s.positive as f64 - s.negative as f64) / (s.positive + s.negative) as f64;
    assert_eq!(score, 1.0);
}

#[test]
fn sentiment_negative_text_scores_minus_one() {
    let a = TextAnalysis::new("This is awful and bad");
    let s = a.get_sentiment();
    assert_eq!(s.positive, 0);
    assert_eq!(s.negative, 2);
    let score = (s.positive as f64 - s.negative as f64) / (s.positive + s.negative) as f64;
    assert_eq!(score, -1.0);
}

#[test]
fn sentiment_neutral_text_scores_zero() {
    let a = TextAnalysis::new("The cat sat");
    let s = a.get_sentiment();
    assert_eq!(s.positive, 0);
    assert_eq!(s.negative, 0);
}

#[test]
fn sentiment_matches_after_normalization() {
    let a = TextAnalysis::new("LOVE!!! hate,");
    let s = a.get_sentiment();
    assert_eq!(s.positive, 1);
    assert_eq!(s.negative, 1);
}

#[test]
fn sentiment_mixed_text_averages() {
    let a = TextAnalysis::new("good good good bad");
    let s = a.get_sentiment();
    assert_eq!(s.positive, 3);
    assert_eq!(s.negative, 1);
    let score = (s.positive as f64 - s.negative as f64) / (s.positive + s.negative) as f64;
    assert_eq!(score, 0.5);
}
