//! Splitting the text into pieces: end-trimming, whitespace tokenization,
//! and the character, sentence and paragraph counts.  Each quantity is
//! defined by a left-to-right fold over the characters, which the
//! executable loops mirror step for step.

use vstd::prelude::*;
use crate::chars::{is_terminator, is_terminator_char, is_whitespace_char, is_ws};

verus! {

/// The text with leading whitespace removed.
pub open spec fn trim_front(s: Seq<char>) -> Seq<char>
    decreases s.len(),
{
    if s.len() > 0 && is_ws(s[0]) {
        trim_front(s.drop_first())
    } else {
        s
    }
}

/// The text with trailing whitespace removed.
pub open spec fn trim_back(s: Seq<char>) -> Seq<char>
    decreases s.len(),
{
    if s.len() > 0 && is_ws(s.last()) {
        trim_back(s.drop_last())
    } else {
        s
    }
}

/// The text with whitespace removed from both ends; interior whitespace
/// is kept.
pub open spec fn trim_of(s: Seq<char>) -> Seq<char> {
    trim_back(trim_front(s))
}

/// Removes leading and trailing whitespace characters.
pub fn trim_chars(s: &Vec<char>) -> (r: Vec<char>)
    ensures
        r@ == trim_of(s@),
{
    proof {
        assert(s@.skip(0) =~= s@);
    }
    let mut lo: usize = 0;
    while lo < s.len() && is_whitespace_char(s[lo])
        invariant
            lo <= s@.len(),
            trim_front(s@) == trim_front(s@.skip(lo as int)),
        decreases s@.len() - lo,
    {
        proof {
            assert(s@.skip(lo as int).drop_first() =~= s@.skip(lo as int + 1));
        }
        lo = lo + 1;
    }
    proof {
        if lo == s@.len() {
            assert(s@.skip(lo as int) =~= Seq::<char>::empty());
        }
        assert(trim_front(s@) == s@.skip(lo as int));
    }
    proof {
        assert(s@.subrange(lo as int, s@.len() as int) =~= s@.skip(lo as int));
    }
    let mut hi: usize = s.len();
    while hi > lo && is_whitespace_char(s[hi - 1])
        invariant
            lo <= hi <= s@.len(),
            trim_back(s@.skip(lo as int)) == trim_back(s@.subrange(lo as int, hi as int)),
        decreases hi,
    {
        proof {
            assert(s@.subrange(lo as int, hi as int).drop_last() =~= s@.subrange(
                lo as int,
                hi as int - 1,
            ));
        }
        hi = hi - 1;
    }
    proof {
        assert(trim_of(s@) == s@.subrange(lo as int, hi as int));
    }
    let mut r: Vec<char> = Vec::new();
    let mut i: usize = lo;
    while i < hi
        invariant
            lo <= i <= hi <= s@.len(),
            r@ == s@.subrange(lo as int, i as int),
        decreases hi - i,
    {
        r.push(s[i]);
        proof {
            assert(s@.subrange(lo as int, i as int).push(s@[i as int]) =~= s@.subrange(
                lo as int,
                i as int + 1,
            ));
        }
        i = i + 1;
    }
    r
}

/// One step of the tokenizer: fold in the character `c`, carrying the
/// finished tokens and the word being built.
pub open spec fn tok_step(toks: Seq<Seq<char>>, cur: Seq<char>, c: char) -> (Seq<Seq<char>>, Seq<
    char,
>) {
    if is_ws(c) {
        if cur.len() > 0 {
            (toks.push(cur), Seq::empty())
        } else {
            (toks, cur)
        }
    } else {
        (toks, cur.push(c))
    }
}

/// The tokenizer state after folding in all of `s`.
pub open spec fn tok_state(s: Seq<char>) -> (Seq<Seq<char>>, Seq<char>)
    decreases s.len(),
{
    if s.len() == 0 {
        (Seq::empty(), Seq::empty())
    } else {
        let st = tok_state(s.drop_last());
        tok_step(st.0, st.1, s.last())
    }
}

/// The maximal whitespace-delimited runs of `s`, in order.
pub open spec fn words_of(s: Seq<char>) -> Seq<Seq<char>> {
    let st = tok_state(s);
    if st.1.len() > 0 {
        st.0.push(st.1)
    } else {
        st.0
    }
}

/// The views of a vector of character vectors.
pub open spec fn views_of(ts: Seq<Vec<char>>) -> Seq<Seq<char>> {
    ts.map_values(|t: Vec<char>| t@)
}

/// Splits `s` into its maximal whitespace-delimited runs.
pub fn split_words(s: &Vec<char>) -> (toks: Vec<Vec<char>>)
    ensures
        views_of(toks@) == words_of(s@),
{
    let mut toks: Vec<Vec<char>> = Vec::new();
    let mut cur: Vec<char> = Vec::new();
    let mut i: usize = 0;
    while i < s.len()
        invariant
            i <= s@.len(),
            views_of(toks@) == tok_state(s@.take(i as int)).0,
            cur@ == tok_state(s@.take(i as int)).1,
        decreases s@.len() - i,
    {
        let c = s[i];
        proof {
            assert(s@.take(i as int + 1).drop_last() =~= s@.take(i as int));
            assert(s@.take(i as int + 1).last() == s@[i as int]);
        }
        if is_whitespace_char(c) {
            if cur.len() > 0 {
                let ghost old_toks = toks@;
                let ghost moved: Vec<char> = cur;
                toks.push(cur);
                cur = Vec::new();
                proof {
                    assert(views_of(old_toks.push(moved)) =~= views_of(old_toks).push(moved@));
                }
            }
        } else {
            cur.push(c);
        }
        i = i + 1;
    }
    proof {
        assert(s@.take(s@.len() as int) =~= s@);
    }
    if cur.len() > 0 {
        let ghost old_toks = toks@;
        let ghost moved: Vec<char> = cur;
        toks.push(cur);
        proof {
            assert(views_of(old_toks.push(moved)) =~= views_of(old_toks).push(moved@));
        }
    }
    toks
}

/// The number of characters of `s` that are not whitespace.
pub open spec fn count_non_ws(s: Seq<char>) -> nat
    decreases s.len(),
{
    if s.len() == 0 {
        0
    } else if is_ws(s.last()) {
        count_non_ws(s.drop_last())
    } else {
        count_non_ws(s.drop_last()) + 1
    }
}

/// Counts the characters of `s` that are not whitespace.
pub fn count_characters(s: &Vec<char>) -> (r: usize)
    ensures
        r == count_non_ws(s@),
{
    let mut r: usize = 0;
    let mut i: usize = 0;
    while i < s.len()
        invariant
            i <= s@.len(),
            r <= i,
            r == count_non_ws(s@.take(i as int)),
        decreases s@.len() - i,
    {
        proof {
            assert(s@.take(i as int + 1).drop_last() =~= s@.take(i as int));
        }
        if !is_whitespace_char(s[i]) {
            r = r + 1;
        }
        i = i + 1;
    }
    proof {
        assert(s@.take(s@.len() as int) =~= s@);
    }
    r
}

/// One step of the sentence counter: `count` finished sentences so far,
/// `has` whether the current segment holds a non-whitespace character.
pub open spec fn sent_step(count: nat, has: bool, c: char) -> (nat, bool) {
    if is_terminator(c) {
        if has {
            ((count + 1) as nat, false)
        } else {
            (count, false)
        }
    } else {
        (count, has || !is_ws(c))
    }
}

/// The sentence-counter state after folding in all of `s`.
pub open spec fn sent_state(s: Seq<char>) -> (nat, bool)
    decreases s.len(),
{
    if s.len() == 0 {
        (0, false)
    } else {
        let st = sent_state(s.drop_last());
        sent_step(st.0, st.1, s.last())
    }
}

/// The number of segments between `.`, `!` and `?` terminators that hold
/// at least one non-whitespace character; an unterminated trailing
/// segment counts.
pub open spec fn sentence_count_of(s: Seq<char>) -> nat {
    let st = sent_state(s);
    if st.1 {
        (st.0 + 1) as nat
    } else {
        st.0
    }
}

/// Counts the sentences of `s` as `sentence_count_of` defines them.
pub fn count_sentences(s: &Vec<char>) -> (r: usize)
    ensures
        r == sentence_count_of(s@),
{
    let mut count: usize = 0;
    let mut has: bool = false;
    let mut i: usize = 0;
    while i < s.len()
        invariant
            i <= s@.len(),
            count + if has { 1nat } else { 0nat } <= i,
            count == sent_state(s@.take(i as int)).0,
            has == sent_state(s@.take(i as int)).1,
        decreases s@.len() - i,
    {
        let c = s[i];
        proof {
            assert(s@.take(i as int + 1).drop_last() =~= s@.take(i as int));
        }
        if is_terminator_char(c) {
            if has {
                count = count + 1;
            }
            has = false;
        } else if !is_whitespace_char(c) {
            has = true;
        }
        i = i + 1;
    }
    proof {
        assert(s@.take(s@.len() as int) =~= s@);
    }
    if has {
        count = count + 1;
    }
    count
}

/// One step of the paragraph counter: `pending` records a line break seen
/// immediately before, so that a second one closes the paragraph.
pub open spec fn para_step(count: nat, has: bool, pending: bool, c: char) -> (nat, bool, bool) {
    if c == '\n' {
        if pending {
            if has {
                (((count + 1) as nat, false, false))
            } else {
                ((count, false, false))
            }
        } else {
            ((count, has, true))
        }
    } else {
        ((count, has || !is_ws(c), false))
    }
}

/// The paragraph-counter state after folding in all of `s`.
pub open spec fn para_state(s: Seq<char>) -> (nat, bool, bool)
    decreases s.len(),
{
    if s.len() == 0 {
        (0, false, false)
    } else {
        let st = para_state(s.drop_last());
        para_step(st.0, st.1, st.2, s.last())
    }
}

/// The number of segments between blank lines (two line breaks in a row,
/// matched left to right without overlap) that hold at least one
/// non-whitespace character.
pub open spec fn paragraph_count_of(s: Seq<char>) -> nat {
    let st = para_state(s);
    if st.1 {
        (st.0 + 1) as nat
    } else {
        st.0
    }
}

/// Counts the paragraphs of `s` as `paragraph_count_of` defines them.
pub fn count_paragraphs(s: &Vec<char>) -> (r: usize)
    ensures
        r == paragraph_count_of(s@),
{
    let mut count: usize = 0;
    let mut has: bool = false;
    let mut pending: bool = false;
    let mut i: usize = 0;
    while i < s.len()
        invariant
            i <= s@.len(),
            count + if has { 1nat } else { 0nat } <= i,
            count == para_state(s@.take(i as int)).0,
            has == para_state(s@.take(i as int)).1,
            pending == para_state(s@.take(i as int)).2,
        decreases s@.len() - i,
    {
        let c = s[i];
        proof {
            assert(s@.take(i as int + 1).drop_last() =~= s@.take(i as int));
        }
        if c == '\n' {
            if pending {
                if has {
                    count = count + 1;
                }
                has = false;
                pending = false;
            } else {
                pending = true;
            }
        } else {
            if !is_whitespace_char(c) {
                has = true;
            }
            pending = false;
        }
        i = i + 1;
    }
    proof {
        assert(s@.take(s@.len() as int) =~= s@);
    }
    if has {
        count = count + 1;
    }
    count
}

} // verus!
