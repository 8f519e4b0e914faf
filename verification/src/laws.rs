//! The general laws of the engine, stated and proved once over the spec
//! definitions: blank text yields the all-zero, neutral analysis; the
//! word count counts maximal non-whitespace runs whatever whitespace
//! separates them; and the three sentence terminators are
//! interchangeable.

use vstd::prelude::*;
use crate::chars::{is_terminator, is_ws};
use crate::keywords::freq_of;
use crate::segment::{
    count_non_ws, paragraph_count_of, sent_state, sentence_count_of, tok_state, trim_front,
    trim_of, words_of,
};
use crate::sentiment::{negative_count, positive_count};

verus! {

/// Trimming a fully-blank text from the front leaves nothing.
proof fn lemma_trim_front_blank(s: Seq<char>)
    requires
        forall|i: int| 0 <= i < s.len() ==> is_ws(#[trigger] s[i]),
    ensures
        trim_front(s) == Seq::<char>::empty(),
    decreases s.len(),
{
    if s.len() == 0 {
        assert(s =~= Seq::<char>::empty());
    } else {
        assert(is_ws(s[0]));
        assert forall|i: int| 0 <= i < s.drop_first().len() implies is_ws(
            #[trigger] s.drop_first()[i],
        ) by {
            assert(s.drop_first()[i] == s[i + 1]);
        }
        lemma_trim_front_blank(s.drop_first());
    }
}

/// Empty or whitespace-only text has zero counts, an empty keyword
/// table, and neutral sentiment tallies.
pub proof fn lemma_blank_text_is_neutral(s: Seq<char>)
    requires
        forall|i: int| 0 <= i < s.len() ==> is_ws(#[trigger] s[i]),
    ensures
        trim_of(s) == Seq::<char>::empty(),
        words_of(trim_of(s)).len() == 0,
        count_non_ws(trim_of(s)) == 0,
        sentence_count_of(trim_of(s)) == 0,
        paragraph_count_of(trim_of(s)) == 0,
        freq_of(words_of(trim_of(s))) == Seq::<(Seq<char>, nat)>::empty(),
        positive_count(words_of(trim_of(s))) == 0,
        negative_count(words_of(trim_of(s))) == 0,
{
    lemma_trim_front_blank(s);
    assert(trim_of(s) == Seq::<char>::empty());
    assert(words_of(Seq::<char>::empty()) =~= Seq::<Seq<char>>::empty());
    assert(freq_of(Seq::<Seq<char>>::empty()) =~= Seq::<(Seq<char>, nat)>::empty());
}

/// The number of positions of `s` where a maximal non-whitespace run
/// starts: a non-whitespace character standing first or after
/// whitespace.
pub open spec fn word_run_starts(s: Seq<char>) -> nat
    decreases s.len(),
{
    if s.len() == 0 {
        0
    } else if !is_ws(s.last()) && (s.len() == 1 || is_ws(s[s.len() - 2])) {
        word_run_starts(s.drop_last()) + 1
    } else {
        word_run_starts(s.drop_last())
    }
}

/// The tokenizer state counts one token per finished or open run.
proof fn lemma_tok_state_runs(s: Seq<char>)
    ensures
        tok_state(s).0.len() + (if tok_state(s).1.len() > 0 {
            1nat
        } else {
            0nat
        }) == word_run_starts(s),
        tok_state(s).1.len() > 0 <==> (s.len() > 0 && !is_ws(s.last())),
    decreases s.len(),
{
    if s.len() > 0 {
        lemma_tok_state_runs(s.drop_last());
        if s.len() >= 2 {
            assert(s.drop_last().last() == s[s.len() - 2]);
        }
    }
}

/// The word count equals the number of maximal non-whitespace runs,
/// however much whitespace stands between them.
pub proof fn lemma_word_count_counts_runs(s: Seq<char>)
    ensures
        words_of(s).len() == word_run_starts(s),
{
    lemma_tok_state_runs(s);
}

/// The sentence fold treats two texts alike when they differ only in
/// which terminator stands at a position.
proof fn lemma_sent_state_swap(s: Seq<char>, t: Seq<char>)
    requires
        s.len() == t.len(),
        forall|i: int|
            #![trigger s[i], t[i]]
            0 <= i < s.len() ==> (s[i] == t[i] || (is_terminator(s[i]) && is_terminator(t[i]))),
    ensures
        sent_state(s) == sent_state(t),
    decreases s.len(),
{
    if s.len() > 0 {
        assert forall|i: int|
            #![trigger s.drop_last()[i], t.drop_last()[i]]
            0 <= i < s.drop_last().len() implies (s.drop_last()[i] == t.drop_last()[i] || (
        is_terminator(s.drop_last()[i]) && is_terminator(t.drop_last()[i]))) by {
            assert(s.drop_last()[i] == s[i]);
            assert(t.drop_last()[i] == t[i]);
        }
        lemma_sent_state_swap(s.drop_last(), t.drop_last());
        assert(s[s.len() - 1] == t[s.len() - 1] || (is_terminator(s.last()) && is_terminator(
            t.last(),
        )));
    }
}

/// The three terminators are interchangeable: swapping `.`, `!` and `?`
/// for one another anywhere leaves the sentence count unchanged.
pub proof fn lemma_terminators_interchangeable(s: Seq<char>, t: Seq<char>)
    requires
        s.len() == t.len(),
        forall|i: int|
            #![trigger s[i], t[i]]
            0 <= i < s.len() ==> (s[i] == t[i] || (is_terminator(s[i]) && is_terminator(t[i]))),
    ensures
        sentence_count_of(s) == sentence_count_of(t),
{
    lemma_sent_state_swap(s, t);
}

} // verus!
