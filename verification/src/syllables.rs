//! The syllable-estimation heuristic behind the readability grade: count
//! vowel-group starts in each normalized word, drop one for a silent
//! trailing `e` (except after `l`), and give every non-empty word at
//! least one syllable.

use vstd::prelude::*;
use crate::norm::{clean_of, clean_token};
use crate::segment::views_of;

verus! {

/// The six characters the heuristic treats as vowels.
pub open spec fn is_vowel(c: char) -> bool {
    c == 'a' || c == 'e' || c == 'i' || c == 'o' || c == 'u' || c == 'y'
}

/// Decides `is_vowel` executably.
fn is_vowel_char(c: char) -> (r: bool)
    ensures
        r == is_vowel(c),
{
    c == 'a' || c == 'e' || c == 'i' || c == 'o' || c == 'u' || c == 'y'
}

/// The number of positions of `w` where a vowel starts a vowel group:
/// the vowel stands first or follows a non-vowel.
pub open spec fn vowel_groups(w: Seq<char>) -> nat
    decreases w.len(),
{
    if w.len() == 0 {
        0
    } else if is_vowel(w.last()) && (w.len() == 1 || !is_vowel(w[w.len() - 2])) {
        vowel_groups(w.drop_last()) + 1
    } else {
        vowel_groups(w.drop_last())
    }
}

/// Whether the trailing `e` of `w` is treated as silent: the word is
/// longer than two characters, ends in `e`, and does not end in `le`.
pub open spec fn silent_e(w: Seq<char>) -> bool {
    w.len() > 2 && w.last() == 'e' && w[w.len() - 2] != 'l'
}

/// The syllables of one non-empty normalized word: its vowel-group
/// count, less one for a silent `e` (never below zero), and at least one.
pub open spec fn word_syllables(w: Seq<char>) -> nat {
    let g = vowel_groups(w);
    let g2: nat = if silent_e(w) {
        if g > 0 {
            (g - 1) as nat
        } else {
            0
        }
    } else {
        g
    };
    if g2 == 0 {
        1
    } else {
        g2
    }
}

/// The syllables contributed by one raw token: those of its normalized
/// form, or none when normalization leaves nothing.
pub open spec fn token_syllables(t: Seq<char>) -> nat {
    if clean_of(t).len() == 0 {
        0
    } else {
        word_syllables(clean_of(t))
    }
}

/// The syllable total of a token sequence.
pub open spec fn total_syllables(toks: Seq<Seq<char>>) -> nat
    decreases toks.len(),
{
    if toks.len() == 0 {
        0
    } else {
        total_syllables(toks.drop_last()) + token_syllables(toks.last())
    }
}

/// Counts the syllables of one non-empty normalized word.
fn word_syllable_count(w: &Vec<char>) -> (r: usize)
    requires
        w@.len() > 0,
    ensures
        r == word_syllables(w@),
{
    let mut g: usize = 0;
    let mut prev: bool = false;
    let mut i: usize = 0;
    while i < w.len()
        invariant
            i <= w@.len(),
            g <= i,
            g == vowel_groups(w@.take(i as int)),
            prev == (i > 0 && is_vowel(w@[i as int - 1])),
        decreases w@.len() - i,
    {
        proof {
            assert(w@.take(i as int + 1).drop_last() =~= w@.take(i as int));
        }
        let v = is_vowel_char(w[i]);
        if v && !prev {
            g = g + 1;
        }
        prev = v;
        i = i + 1;
    }
    proof {
        assert(w@.take(w@.len() as int) =~= w@);
    }
    if w.len() > 2 && w[w.len() - 1] == 'e' && w[w.len() - 2] != 'l' {
        if g > 0 {
            g = g - 1;
        }
    }
    if g == 0 {
        g = 1;
    }
    g
}

/// Sums the syllable estimates of all tokens; the total is carried in a
/// `u128` so that it can hold the sum of any vector of tokens.
pub(crate) fn estimate_syllables(toks: &Vec<Vec<char>>) -> (r: u128)
    ensures
        r == total_syllables(views_of(toks@)),
{
    let mut total: u128 = 0;
    let mut i: usize = 0;
    while i < toks.len()
        invariant
            i <= toks@.len(),
            total == total_syllables(views_of(toks@).take(i as int)),
            total as int <= (i as int) * 0xFFFF_FFFF_FFFF_FFFF,
        decreases toks@.len() - i,
    {
        let w = clean_token(&toks[i]);
        let mut syl: usize = 0;
        if w.len() > 0 {
            syl = word_syllable_count(&w);
        }
        proof {
            assert(views_of(toks@).take(i as int + 1).drop_last() =~= views_of(toks@).take(
                i as int,
            ));
            assert(views_of(toks@).take(i as int + 1).last() == toks@[i as int]@);
            assert(syl == token_syllables(toks@[i as int]@));
            assert(total as int + syl as int <= (i as int + 1) * 0xFFFF_FFFF_FFFF_FFFF)
                by (nonlinear_arith)
                requires
                    total as int <= (i as int) * 0xFFFF_FFFF_FFFF_FFFF,
                    syl as int <= 0xFFFF_FFFF_FFFF_FFFF,
            ;
            assert((i as int + 1) * 0xFFFF_FFFF_FFFF_FFFF <= 0xFFFF_FFFF_FFFF_FFFF_FFFF_FFFF_FFFF_FFFF)
                by (nonlinear_arith)
                requires
                    i as int + 1 <= 0xFFFF_FFFF_FFFF_FFFF,
            ;
        }
        total = total + (syl as u128);
        i = i + 1;
    }
    proof {
        assert(views_of(toks@).take(toks@.len() as int) =~= views_of(toks@));
    }
    total
}

} // verus!
