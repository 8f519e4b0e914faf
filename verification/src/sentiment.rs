//! The coarse sentiment heuristic: each normalized token is looked up in
//! two fixed word sets; positive matches and negative matches are
//! counted, and unmatched words are ignored.  The polarity score is the
//! difference of the two counts over their sum.

use vstd::prelude::*;
use vstd::string::StrSliceExecFns;
use crate::norm::{clean_of, clean_token};
use crate::segment::views_of;

verus! {

/// The closed set of positive words.
pub open spec fn is_positive_word(w: Seq<char>) -> bool {
    ||| w == "good"@
    ||| w == "great"@
    ||| w == "excellent"@
    ||| w == "happy"@
    ||| w == "positive"@
    ||| w == "wonderful"@
    ||| w == "best"@
    ||| w == "love"@
}

/// The closed set of negative words.
pub open spec fn is_negative_word(w: Seq<char>) -> bool {
    ||| w == "bad"@
    ||| w == "awful"@
    ||| w == "terrible"@
    ||| w == "sad"@
    ||| w == "negative"@
    ||| w == "worst"@
    ||| w == "hate"@
    ||| w == "poor"@
}

/// The number of tokens whose normalized form is a positive word.
pub open spec fn positive_count(toks: Seq<Seq<char>>) -> nat
    decreases toks.len(),
{
    if toks.len() == 0 {
        0
    } else if is_positive_word(clean_of(toks.last())) {
        positive_count(toks.drop_last()) + 1
    } else {
        positive_count(toks.drop_last())
    }
}

/// The number of tokens whose normalized form is a negative word.
pub open spec fn negative_count(toks: Seq<Seq<char>>) -> nat
    decreases toks.len(),
{
    if toks.len() == 0 {
        0
    } else if is_negative_word(clean_of(toks.last())) {
        negative_count(toks.drop_last()) + 1
    } else {
        negative_count(toks.drop_last())
    }
}

/// No word is both positive and negative: the two sets are disjoint.
pub proof fn lemma_sentiment_sets_disjoint(w: Seq<char>)
    ensures
        !(is_positive_word(w) && is_negative_word(w)),
{
    reveal_strlit("good");
    reveal_strlit("great");
    reveal_strlit("excellent");
    reveal_strlit("happy");
    reveal_strlit("positive");
    reveal_strlit("wonderful");
    reveal_strlit("best");
    reveal_strlit("love");
    reveal_strlit("bad");
    reveal_strlit("awful");
    reveal_strlit("terrible");
    reveal_strlit("sad");
    reveal_strlit("negative");
    reveal_strlit("worst");
    reveal_strlit("hate");
    reveal_strlit("poor");
    assert("good"@.len() == 4 && "great"@.len() == 5 && "excellent"@.len() == 9 && "happy"@.len()
        == 5 && "positive"@.len() == 8 && "wonderful"@.len() == 9 && "best"@.len() == 4
        && "love"@.len() == 4);
    assert("bad"@.len() == 3 && "awful"@.len() == 5 && "terrible"@.len() == 8 && "sad"@.len() == 3
        && "negative"@.len() == 8 && "worst"@.len() == 5 && "hate"@.len() == 4 && "poor"@.len()
        == 4);
    assert("good"@[0] == 'g' && "best"@[0] == 'b' && "love"@[0] == 'l' && "hate"@[0] == 'h'
        && "poor"@[0] == 'p');
    assert("great"@[0] == 'g' && "happy"@[0] == 'h' && "awful"@[0] == 'a' && "worst"@[0] == 'w');
    assert("positive"@[0] == 'p' && "terrible"@[0] == 't' && "negative"@[0] == 'n');
}

/// Compares a character vector with a string slice, character for
/// character.
fn chars_eq_str(w: &Vec<char>, s: &str) -> (r: bool)
    ensures
        r == (w@ == s@),
{
    let n = s.unicode_len();
    if w.len() != n {
        return false;
    }
    let mut i: usize = 0;
    while i < n
        invariant
            i <= n,
            n == s@.len(),
            n == w@.len(),
            forall|j: int| 0 <= j < i ==> w@[j] == s@[j],
        decreases n - i,
    {
        if w[i] != s.get_char(i) {
            return false;
        }
        i = i + 1;
    }
    proof {
        assert(w@ =~= s@);
    }
    true
}

/// Whether the normalized word `w` is in the positive set.
fn is_positive_token(w: &Vec<char>) -> (r: bool)
    ensures
        r == is_positive_word(w@),
{
    chars_eq_str(w, "good") || chars_eq_str(w, "great") || chars_eq_str(w, "excellent")
        || chars_eq_str(w, "happy") || chars_eq_str(w, "positive") || chars_eq_str(w, "wonderful")
        || chars_eq_str(w, "best") || chars_eq_str(w, "love")
}

/// Whether the normalized word `w` is in the negative set.
fn is_negative_token(w: &Vec<char>) -> (r: bool)
    ensures
        r == is_negative_word(w@),
{
    chars_eq_str(w, "bad") || chars_eq_str(w, "awful") || chars_eq_str(w, "terrible")
        || chars_eq_str(w, "sad") || chars_eq_str(w, "negative") || chars_eq_str(w, "worst")
        || chars_eq_str(w, "hate") || chars_eq_str(w, "poor")
}

/// Counts the tokens whose normalized form is a positive word and those
/// whose normalized form is a negative word.
pub(crate) fn sentiment_counts(toks: &Vec<Vec<char>>) -> (r: (usize, usize))
    ensures
        r.0 == positive_count(views_of(toks@)),
        r.1 == negative_count(views_of(toks@)),
{
    let mut pos: usize = 0;
    let mut neg: usize = 0;
    let mut i: usize = 0;
    while i < toks.len()
        invariant
            i <= toks@.len(),
            pos <= i,
            neg <= i,
            pos == positive_count(views_of(toks@).take(i as int)),
            neg == negative_count(views_of(toks@).take(i as int)),
        decreases toks@.len() - i,
    {
        proof {
            assert(views_of(toks@).take(i as int + 1).drop_last() =~= views_of(toks@).take(
                i as int,
            ));
            assert(views_of(toks@).take(i as int + 1).last() == toks@[i as int]@);
        }
        let w = clean_token(&toks[i]);
        proof {
            lemma_sentiment_sets_disjoint(w@);
        }
        if is_positive_token(&w) {
            pos = pos + 1;
        } else if is_negative_token(&w) {
            neg = neg + 1;
        }
        i = i + 1;
    }
    proof {
        assert(views_of(toks@).take(toks@.len() as int) =~= views_of(toks@));
    }
    (pos, neg)
}

} // verus!
