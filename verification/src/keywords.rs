//! The keyword frequency table and its ranking.  Construction folds the
//! normalized tokens into a table of (word, count) entries with distinct
//! keys; ranking orders the entries by count descending, with ties broken
//! by ascending lexicographic order of the word, so that the result is
//! deterministic.

use vstd::prelude::*;
use crate::norm::{clean_of, clean_token};
use crate::segment::views_of;

verus! {

/// The spec-level view of a frequency entry sequence: each entry as the
/// normalized word and its occurrence count.
pub open spec fn entry_views(es: Seq<(Vec<char>, usize)>) -> Seq<(Seq<char>, nat)> {
    es.map_values(|e: (Vec<char>, usize)| (e.0@, e.1 as nat))
}

/// The spec-level view of the keyword entries a ranking query returns.
pub open spec fn keyword_views(es: Seq<(String, usize)>) -> Seq<(Seq<char>, nat)> {
    es.map_values(|e: (String, usize)| (e.0@, e.1 as nat))
}

/// The index of the entry of `m` whose key is `w`, or `-1` when no entry
/// has that key.
pub open spec fn key_index(m: Seq<(Seq<char>, nat)>, w: Seq<char>) -> int
    decreases m.len(),
{
    if m.len() == 0 {
        -1
    } else if m[0].0 == w {
        0
    } else {
        let r = key_index(m.drop_first(), w);
        if r < 0 {
            -1
        } else {
            r + 1
        }
    }
}

/// `key_index` finds an entry with key `w` exactly when one exists, and
/// then the first one.
pub proof fn lemma_key_index(m: Seq<(Seq<char>, nat)>, w: Seq<char>)
    ensures
        key_index(m, w) >= 0 ==> 0 <= key_index(m, w) < m.len() && m[key_index(m, w)].0 == w,
        key_index(m, w) == -1 <==> (forall|i: int| 0 <= i < m.len() ==> (#[trigger] m[i]).0 != w),
        forall|i: int| 0 <= i < key_index(m, w) ==> (#[trigger] m[i]).0 != w,
    decreases m.len(),
{
    if m.len() == 0 {
    } else if m[0].0 == w {
    } else {
        lemma_key_index(m.drop_first(), w);
        assert forall|i: int| 1 <= i < m.len() implies m[i] == m.drop_first()[i - 1] by {}
        if key_index(m.drop_first(), w) == -1 {
            assert forall|i: int| 0 <= i < m.len() implies (#[trigger] m[i]).0 != w by {
                if i >= 1 {
                    assert(m[i] == m.drop_first()[i - 1]);
                }
            }
        }
    }
}

/// The number of tokens of `toks` whose normalized form is `w`.
pub open spec fn occurrences(toks: Seq<Seq<char>>, w: Seq<char>) -> nat
    decreases toks.len(),
{
    if toks.len() == 0 {
        0
    } else if clean_of(toks.last()) == w {
        occurrences(toks.drop_last(), w) + 1
    } else {
        occurrences(toks.drop_last(), w)
    }
}

/// Folds one token into the table: a normalized form longer than two
/// characters has its entry incremented, or appended with count one;
/// shorter forms are dropped.
pub open spec fn freq_step(m: Seq<(Seq<char>, nat)>, t: Seq<char>) -> Seq<(Seq<char>, nat)> {
    let w = clean_of(t);
    if w.len() > 2 {
        let i = key_index(m, w);
        if i >= 0 {
            m.update(i, (w, (m[i].1 + 1) as nat))
        } else {
            m.push((w, 1nat))
        }
    } else {
        m
    }
}

/// The frequency table of a token sequence, keys in first-occurrence
/// order.
pub open spec fn freq_of(toks: Seq<Seq<char>>) -> Seq<(Seq<char>, nat)>
    decreases toks.len(),
{
    if toks.len() == 0 {
        Seq::empty()
    } else {
        freq_step(freq_of(toks.drop_last()), toks.last())
    }
}

/// The frequency table is exactly the occurrence count of each
/// qualifying normalized word: keys are distinct, longer than two
/// characters, carry their occurrence count, and every qualifying word
/// that occurs has an entry.
pub proof fn lemma_freq_of(toks: Seq<Seq<char>>)
    ensures
        forall|i: int|
            0 <= i < freq_of(toks).len() ==> (#[trigger] freq_of(toks)[i]).1 == occurrences(
                toks,
                freq_of(toks)[i].0,
            ),
        forall|i: int| 0 <= i < freq_of(toks).len() ==> (#[trigger] freq_of(toks)[i]).0.len() > 2,
        forall|i: int, j: int|
            0 <= i < j < freq_of(toks).len() ==> (#[trigger] freq_of(toks)[i]).0 != (
            #[trigger] freq_of(toks)[j]).0,
        forall|w: Seq<char>|
            w.len() > 2 && #[trigger] occurrences(toks, w) > 0 ==> exists|i: int|
                0 <= i < freq_of(toks).len() && (#[trigger] freq_of(toks)[i]).0 == w,
    decreases toks.len(),
{
    if toks.len() == 0 {
    } else {
        let prev = toks.drop_last();
        let t = toks.last();
        let w = clean_of(t);
        let m0 = freq_of(prev);
        let m = freq_of(toks);
        lemma_freq_of(prev);
        lemma_key_index(m0, w);
        assert forall|x: Seq<char>| #[trigger]
            occurrences(toks, x) == occurrences(prev, x) + (if clean_of(t) == x {
                1nat
            } else {
                0nat
            }) by {}
        if w.len() > 2 {
            let ki = key_index(m0, w);
            if ki >= 0 {
                assert(m == m0.update(ki, (w, (m0[ki].1 + 1) as nat)));
                assert forall|i: int| 0 <= i < m.len() implies (#[trigger] m[i]).1 == occurrences(
                    toks,
                    m[i].0,
                ) && m[i].0.len() > 2 by {
                    if i == ki {
                        assert(m0[ki].1 == occurrences(prev, w));
                    } else {
                        assert(m[i] == m0[i]);
                        assert(m0[i].0 != w);
                    }
                }
                assert forall|i: int, j: int| 0 <= i < j < m.len() implies (#[trigger] m[i]).0 != (
                #[trigger] m[j]).0 by {
                    assert(m[i].0 == m0[i].0);
                    assert(m[j].0 == m0[j].0);
                }
                assert forall|x: Seq<char>|
                    x.len() > 2 && #[trigger] occurrences(toks, x) > 0 implies exists|i: int|
                    0 <= i < m.len() && (#[trigger] m[i]).0 == x by {
                    if x == w {
                        assert(0 <= ki < m.len() && m[ki].0 == x);
                    } else {
                        assert(occurrences(prev, x) > 0);
                        let i0 = choose|i: int| 0 <= i < m0.len() && (#[trigger] m0[i]).0 == x;
                        assert(m[i0].0 == x);
                    }
                }
            } else {
                assert(m == m0.push((w, 1nat)));
                assert(occurrences(prev, w) == 0) by {
                    if occurrences(prev, w) > 0 {
                        let i0 = choose|i: int| 0 <= i < m0.len() && (#[trigger] m0[i]).0 == w;
                        assert(m0[i0].0 != w);
                    }
                }
                assert forall|i: int| 0 <= i < m.len() implies (#[trigger] m[i]).1 == occurrences(
                    toks,
                    m[i].0,
                ) && m[i].0.len() > 2 by {
                    if i == m0.len() {
                        assert(m[i] == (w, 1nat));
                    } else {
                        assert(m[i] == m0[i]);
                        assert(m0[i].0 != w);
                    }
                }
                assert forall|i: int, j: int| 0 <= i < j < m.len() implies (#[trigger] m[i]).0 != (
                #[trigger] m[j]).0 by {
                    if j == m0.len() {
                        assert(m[i] == m0[i]);
                        assert(m0[i].0 != w);
                    } else {
                        assert(m[i] == m0[i] && m[j] == m0[j]);
                    }
                }
                assert forall|x: Seq<char>|
                    x.len() > 2 && #[trigger] occurrences(toks, x) > 0 implies exists|i: int|
                    0 <= i < m.len() && (#[trigger] m[i]).0 == x by {
                    if x == w {
                        assert(m[m0.len() as int].0 == x);
                    } else {
                        assert(occurrences(prev, x) > 0);
                        let i0 = choose|i: int| 0 <= i < m0.len() && (#[trigger] m0[i]).0 == x;
                        assert(m[i0].0 == x);
                    }
                }
            }
        } else {
            assert(m == m0);
            assert forall|i: int| 0 <= i < m.len() implies (#[trigger] m[i]).1 == occurrences(
                toks,
                m[i].0,
            ) by {
                assert(m0[i].0.len() > 2);
                assert(m0[i].0 != w);
            }
            assert forall|x: Seq<char>|
                x.len() > 2 && #[trigger] occurrences(toks, x) > 0 implies exists|i: int|
                0 <= i < m.len() && (#[trigger] m[i]).0 == x by {
                assert(x != w);
                assert(occurrences(prev, x) > 0);
                let i0 = choose|i: int| 0 <= i < m0.len() && (#[trigger] m0[i]).0 == x;
                assert(m[i0].0 == x);
            }
        }
    }
}

/// Compares two character vectors, character for character.
fn vec_chars_eq(a: &Vec<char>, b: &Vec<char>) -> (r: bool)
    ensures
        r == (a@ == b@),
{
    if a.len() != b.len() {
        return false;
    }
    let mut i: usize = 0;
    while i < a.len()
        invariant
            i <= a@.len(),
            a@.len() == b@.len(),
            forall|j: int| 0 <= j < i ==> a@[j] == b@[j],
        decreases a@.len() - i,
    {
        if a[i] != b[i] {
            return false;
        }
        i = i + 1;
    }
    proof {
        assert(a@ =~= b@);
    }
    true
}

/// Copies a character vector.
pub(crate) fn copy_chars(v: &Vec<char>) -> (r: Vec<char>)
    ensures
        r@ == v@,
{
    let mut r: Vec<char> = Vec::new();
    let mut i: usize = 0;
    while i < v.len()
        invariant
            i <= v@.len(),
            r@ == v@.take(i as int),
        decreases v@.len() - i,
    {
        r.push(v[i]);
        proof {
            assert(v@.take(i as int).push(v@[i as int]) =~= v@.take(i as int + 1));
        }
        i = i + 1;
    }
    proof {
        assert(v@.take(v@.len() as int) =~= v@);
    }
    r
}

/// Finds the entry with key `w`, as `key_index` defines it.
fn find_key(freq: &Vec<(Vec<char>, usize)>, w: &Vec<char>) -> (r: Option<usize>)
    ensures
        (match r {
            Some(k) => 0 <= k < freq@.len() && key_index(entry_views(freq@), w@) == k,
            None => key_index(entry_views(freq@), w@) == -1,
        }),
{
    let ghost m = entry_views(freq@);
    proof {
        lemma_key_index(m, w@);
    }
    let mut i: usize = 0;
    while i < freq.len()
        invariant
            i <= freq@.len(),
            m == entry_views(freq@),
            forall|j: int| 0 <= j < i ==> (#[trigger] m[j]).0 != w@,
        decreases freq@.len() - i,
    {
        if vec_chars_eq(&freq[i].0, w) {
            proof {
                lemma_key_index_first(m, w@, i as int);
            }
            return Some(i);
        }
        i = i + 1;
    }
    proof {
        lemma_key_index(m, w@);
    }
    None
}

/// When the first entry with key `w` stands at `k`, `key_index` returns
/// `k`.
proof fn lemma_key_index_first(m: Seq<(Seq<char>, nat)>, w: Seq<char>, k: int)
    requires
        0 <= k < m.len(),
        m[k].0 == w,
        forall|j: int| 0 <= j < k ==> (#[trigger] m[j]).0 != w,
    ensures
        key_index(m, w) == k,
    decreases m.len(),
{
    if k == 0 {
    } else {
        assert forall|j: int| 0 <= j < k - 1 implies (#[trigger] m.drop_first()[j]).0 != w by {
            assert(m.drop_first()[j] == m[j + 1]);
        }
        assert(m.drop_first()[k - 1] == m[k]);
        lemma_key_index_first(m.drop_first(), w, k - 1);
    }
}

/// Builds the frequency table of the tokens, as `freq_of` defines it.
pub(crate) fn build_frequency(toks: &Vec<Vec<char>>) -> (freq: Vec<(Vec<char>, usize)>)
    ensures
        entry_views(freq@) == freq_of(views_of(toks@)),
{
    let mut freq: Vec<(Vec<char>, usize)> = Vec::new();
    let mut i: usize = 0;
    while i < toks.len()
        invariant
            i <= toks@.len(),
            entry_views(freq@) == freq_of(views_of(toks@).take(i as int)),
            forall|k: int| 0 <= k < freq@.len() ==> (#[trigger] freq@[k]).1 <= i,
        decreases toks@.len() - i,
    {
        proof {
            assert(views_of(toks@).take(i as int + 1).drop_last() =~= views_of(toks@).take(
                i as int,
            ));
            assert(views_of(toks@).take(i as int + 1).last() == toks@[i as int]@);
        }
        let w = clean_token(&toks[i]);
        if w.len() > 2 {
            let ghost m0 = entry_views(freq@);
            match find_key(&freq, &w) {
                Some(k) => {
                    let c = freq[k].1;
                    let key = copy_chars(&freq[k].0);
                    freq[k] = (key, c + 1);
                    proof {
                        lemma_key_index(m0, w@);
                        assert(entry_views(freq@) =~= m0.update(k as int, (w@, (c + 1) as nat)));
                    }
                },
                None => {
                    let ghost wv = w@;
                    freq.push((w, 1));
                    proof {
                        assert(entry_views(freq@) =~= m0.push((wv, 1nat)));
                    }
                },
            }
        }
        i = i + 1;
    }
    proof {
        assert(views_of(toks@).take(toks@.len() as int) =~= views_of(toks@));
    }
    freq
}

/// Strict lexicographic order on character sequences, by code point; a
/// proper prefix comes first.
pub open spec fn lex_lt(a: Seq<char>, b: Seq<char>) -> bool
    decreases a.len(),
{
    if b.len() == 0 {
        false
    } else if a.len() == 0 {
        true
    } else if a[0] != b[0] {
        (a[0] as u32) < (b[0] as u32)
    } else {
        lex_lt(a.drop_first(), b.drop_first())
    }
}

/// Two characters are equal exactly when their code points are.
proof fn lemma_char_code(x: char, y: char)
    ensures
        x == y <==> x as u32 == y as u32,
{
}

/// Any two character sequences are lexicographically comparable.
proof fn lemma_lex_total(a: Seq<char>, b: Seq<char>)
    ensures
        lex_lt(a, b) || lex_lt(b, a) || a == b,
    decreases a.len(),
{
    if b.len() == 0 {
        if a.len() == 0 {
            assert(a =~= b);
        }
    } else if a.len() == 0 {
    } else if a[0] != b[0] {
        lemma_char_code(a[0], b[0]);
    } else {
        lemma_lex_total(a.drop_first(), b.drop_first());
        if !lex_lt(a, b) && !lex_lt(b, a) {
            assert(a.drop_first() == b.drop_first());
            assert(a.drop_first().len() == a.len() - 1);
            assert(b.drop_first().len() == b.len() - 1);
            assert(a.len() == b.len());
            assert forall|i: int| 0 <= i < a.len() implies a[i] == b[i] by {
                if i > 0 {
                    assert(a[i] == a.drop_first()[i - 1]);
                    assert(b[i] == b.drop_first()[i - 1]);
                }
            }
            assert(a =~= b);
        }
    }
}

/// Lexicographic order is transitive.
proof fn lemma_lex_trans(a: Seq<char>, b: Seq<char>, c: Seq<char>)
    requires
        lex_lt(a, b),
        lex_lt(b, c),
    ensures
        lex_lt(a, c),
    decreases b.len(),
{
    if c.len() == 0 {
    } else if b.len() == 0 {
    } else if a.len() == 0 {
    } else {
        if a[0] == b[0] && b[0] == c[0] {
            lemma_lex_trans(a.drop_first(), b.drop_first(), c.drop_first());
        } else {
            assert((a[0] as u32) <= (b[0] as u32));
            assert((b[0] as u32) <= (c[0] as u32));
            assert((a[0] as u32) < (c[0] as u32));
            assert(a[0] != c[0]);
        }
    }
}

/// No character sequence is lexicographically less than itself.
pub proof fn lemma_lex_irrefl(a: Seq<char>)
    ensures
        !lex_lt(a, a),
    decreases a.len(),
{
    if a.len() > 0 {
        lemma_lex_irrefl(a.drop_first());
    }
}

/// The ranking order of two entries: more occurrences first; equal
/// counts ordered by the word, lexicographically ascending.
pub open spec fn ranked_before(a: (Seq<char>, nat), b: (Seq<char>, nat)) -> bool {
    a.1 > b.1 || (a.1 == b.1 && lex_lt(a.0, b.0))
}

/// Whether the entries of `m` are pairwise in ranking order.
pub open spec fn ranked(m: Seq<(Seq<char>, nat)>) -> bool {
    forall|i: int, j: int| 0 <= i < j < m.len() ==> ranked_before(#[trigger] m[i], #[trigger] m[j])
}

/// Entries with distinct words are comparable in the ranking order.
proof fn lemma_ranked_total(a: (Seq<char>, nat), b: (Seq<char>, nat))
    requires
        a.0 != b.0,
    ensures
        ranked_before(a, b) || ranked_before(b, a),
{
    if a.1 == b.1 {
        lemma_lex_total(a.0, b.0);
    }
}

/// The ranking order is transitive.
proof fn lemma_ranked_trans(a: (Seq<char>, nat), b: (Seq<char>, nat), c: (Seq<char>, nat))
    requires
        ranked_before(a, b),
        ranked_before(b, c),
    ensures
        ranked_before(a, c),
{
    if a.1 == b.1 && b.1 == c.1 {
        lemma_lex_trans(a.0, b.0, c.0);
    }
}

/// The ranking order is asymmetric.
proof fn lemma_ranked_asym(a: (Seq<char>, nat), b: (Seq<char>, nat))
    requires
        ranked_before(a, b),
    ensures
        !ranked_before(b, a),
{
    if ranked_before(b, a) && a.1 == b.1 {
        lemma_lex_trans(a.0, b.0, a.0);
        lemma_lex_irrefl(a.0);
    }
}

/// The first index at which two entry sequences of one length differ.
proof fn lemma_first_diff(u: Seq<(Seq<char>, nat)>, v: Seq<(Seq<char>, nat)>) -> (k: int)
    requires
        u.len() == v.len(),
        u != v,
    ensures
        0 <= k < u.len(),
        u[k] != v[k],
        forall|i: int| 0 <= i < k ==> u[i] == v[i],
    decreases u.len(),
{
    if u.len() == 0 {
        assert(u =~= v);
        0
    } else if u[0] != v[0] {
        0
    } else {
        if u.drop_first() == v.drop_first() {
            assert forall|i: int| 0 <= i < u.len() implies u[i] == v[i] by {
                if i > 0 {
                    assert(u[i] == u.drop_first()[i - 1]);
                    assert(v[i] == v.drop_first()[i - 1]);
                }
            }
            assert(u =~= v);
        }
        let k0 = lemma_first_diff(u.drop_first(), v.drop_first());
        assert(u[k0 + 1] == u.drop_first()[k0]);
        assert(v[k0 + 1] == v.drop_first()[k0]);
        assert forall|i: int| 0 <= i < k0 + 1 implies u[i] == v[i] by {
            if i > 0 {
                assert(u[i] == u.drop_first()[i - 1]);
                assert(v[i] == v.drop_first()[i - 1]);
            }
        }
        k0 + 1
    }
}

/// The ranking guarantees determine the result: two entry sequences of
/// one length that are both ranked, both drawn from a table `m` with
/// distinct keys, both without repeated keys, and both such that every
/// table entry left out is ranked after their last entry, are equal.
/// Repeated ranking queries therefore agree.
pub proof fn lemma_ranking_determined(
    m: Seq<(Seq<char>, nat)>,
    u: Seq<(Seq<char>, nat)>,
    v: Seq<(Seq<char>, nat)>,
)
    requires
        forall|i: int, j: int| 0 <= i < j < m.len() ==> (#[trigger] m[i]).0 != (#[trigger] m[j]).0,
        u.len() == v.len(),
        ranked(u),
        ranked(v),
        forall|k: int| 0 <= k < u.len() ==> m.contains(#[trigger] u[k]),
        forall|k: int| 0 <= k < v.len() ==> m.contains(#[trigger] v[k]),
        forall|i: int, j: int| 0 <= i < j < u.len() ==> (#[trigger] u[i]).0 != (#[trigger] u[j]).0,
        forall|i: int, j: int| 0 <= i < j < v.len() ==> (#[trigger] v[i]).0 != (#[trigger] v[j]).0,
        forall|f: (Seq<char>, nat)|
            m.contains(f) && !u.contains(f) ==> (u.len() > 0 ==> ranked_before(u[u.len() - 1], f)),
        forall|f: (Seq<char>, nat)|
            m.contains(f) && !v.contains(f) ==> (v.len() > 0 ==> ranked_before(v[v.len() - 1], f)),
    ensures
        u == v,
{
    if u != v {
        let k = lemma_first_diff(u, v);
        // Each of `u[k]` and `v[k]`, unless it occurs in the other
        // sequence beyond position `k`, is ranked after the other's
        // entry at `k`; both directions together are impossible.
        if v.contains(u[k]) {
            let q = choose|q: int| 0 <= q < v.len() && v[q] == u[k];
            if q < k {
                assert(u[q] == v[q]);
            } else if q == k {
            } else {
                assert(ranked_before(v[k], v[q]));
                if u.contains(v[k]) {
                    let p = choose|p: int| 0 <= p < u.len() && u[p] == v[k];
                    if p < k {
                        assert(v[p] == u[p]);
                    } else if p == k {
                    } else {
                        assert(ranked_before(u[k], u[p]));
                        lemma_ranked_asym(v[k], u[k]);
                    }
                } else {
                    assert(ranked_before(u[u.len() - 1], v[k]));
                    if k < u.len() - 1 {
                        assert(ranked_before(u[k], u[u.len() - 1]));
                        lemma_ranked_trans(u[k], u[u.len() - 1], v[k]);
                    }
                    lemma_ranked_asym(v[k], u[k]);
                }
            }
        } else {
            assert(ranked_before(v[v.len() - 1], u[k]));
            if k < v.len() - 1 {
                assert(ranked_before(v[k], v[v.len() - 1]));
                lemma_ranked_trans(v[k], v[v.len() - 1], u[k]);
            }
            if u.contains(v[k]) {
                let p = choose|p: int| 0 <= p < u.len() && u[p] == v[k];
                if p < k {
                    assert(v[p] == u[p]);
                } else if p == k {
                } else {
                    assert(ranked_before(u[k], u[p]));
                    lemma_ranked_asym(u[k], v[k]);
                }
            } else {
                assert(ranked_before(u[u.len() - 1], v[k]));
                if k < u.len() - 1 {
                    assert(ranked_before(u[k], u[u.len() - 1]));
                    lemma_ranked_trans(u[k], u[u.len() - 1], v[k]);
                }
                lemma_ranked_asym(u[k], v[k]);
            }
        }
    }
}

/// A common prefix does not decide the lexicographic comparison.
proof fn lemma_lex_common_prefix(a: Seq<char>, b: Seq<char>, i: int)
    requires
        0 <= i <= a.len(),
        i <= b.len(),
        forall|j: int| 0 <= j < i ==> a[j] == b[j],
    ensures
        lex_lt(a, b) == lex_lt(a.skip(i), b.skip(i)),
    decreases i,
{
    if i == 0 {
        assert(a.skip(0) =~= a);
        assert(b.skip(0) =~= b);
    } else {
        assert(a[0] == b[0]);
        assert(a.drop_first() =~= a.skip(1));
        assert(b.drop_first() =~= b.skip(1));
        assert forall|j: int| 0 <= j < i - 1 implies a.skip(1)[j] == b.skip(1)[j] by {
            assert(a.skip(1)[j] == a[j + 1]);
            assert(b.skip(1)[j] == b[j + 1]);
        }
        lemma_lex_common_prefix(a.skip(1), b.skip(1), i - 1);
        assert(a.skip(1).skip(i - 1) =~= a.skip(i));
        assert(b.skip(1).skip(i - 1) =~= b.skip(i));
    }
}

/// Decides `lex_lt` executably.
fn lex_less(a: &Vec<char>, b: &Vec<char>) -> (r: bool)
    ensures
        r == lex_lt(a@, b@),
{
    let n: usize = if a.len() < b.len() {
        a.len()
    } else {
        b.len()
    };
    let mut i: usize = 0;
    while i < n
        invariant
            i <= n,
            n == if a@.len() < b@.len() {
                a@.len()
            } else {
                b@.len()
            },
            forall|j: int| 0 <= j < i ==> a@[j] == b@[j],
        decreases n - i,
    {
        if a[i] != b[i] {
            proof {
                lemma_lex_common_prefix(a@, b@, i as int);
                assert(a@.skip(i as int)[0] == a@[i as int]);
                assert(b@.skip(i as int)[0] == b@[i as int]);
            }
            return (a[i] as u32) < (b[i] as u32);
        }
        i = i + 1;
    }
    proof {
        lemma_lex_common_prefix(a@, b@, n as int);
        if a@.len() < b@.len() {
            assert(b@.skip(n as int).len() > 0);
        } else {
            assert(a@.skip(n as int).len() == a@.len() - n);
        }
    }
    a.len() < b.len()
}

/// Decides `ranked_before` executably.
fn entry_before(a: &(Vec<char>, usize), b: &(Vec<char>, usize)) -> (r: bool)
    ensures
        r == ranked_before((a.0@, a.1 as nat), (b.0@, b.1 as nat)),
{
    if a.1 > b.1 {
        true
    } else if a.1 < b.1 {
        false
    } else {
        lex_less(&a.0, &b.0)
    }
}

/// Inserts an entry with a fresh word into a ranked vector, keeping it
/// ranked.
fn insert_ranked(v: &mut Vec<(Vec<char>, usize)>, e: (Vec<char>, usize))
    requires
        ranked(entry_views(old(v)@)),
        forall|k: int|
            0 <= k < old(v)@.len() ==> (#[trigger] entry_views(old(v)@)[k]).0 != e.0@,
    ensures
        final(v)@.len() == old(v)@.len() + 1,
        entry_views(final(v)@).to_multiset() == entry_views(old(v)@).to_multiset().insert(
            (e.0@, e.1 as nat),
        ),
        ranked(entry_views(final(v)@)),
{
    broadcast use vstd::seq_lib::group_to_multiset_ensures;

    let ghost m0 = entry_views(v@);
    let ghost ev = (e.0@, e.1 as nat);
    let mut j: usize = 0;
    loop
        invariant_except_break
            j <= v@.len(),
            v@ == old(v)@,
            ev == (e.0@, e.1 as nat),
            forall|k: int| 0 <= k < j ==> !ranked_before(ev, #[trigger] entry_views(v@)[k]),
        ensures
            j <= v@.len(),
            v@ == old(v)@,
            forall|k: int| 0 <= k < j ==> !ranked_before(ev, #[trigger] entry_views(v@)[k]),
            j < v@.len() ==> ranked_before(ev, entry_views(v@)[j as int]),
        decreases v@.len() - j,
    {
        if j >= v.len() {
            break;
        }
        let goes_before = entry_before(&e, &v[j]);
        proof {
            assert(entry_views(v@)[j as int] == (v@[j as int].0@, v@[j as int].1 as nat));
        }
        if goes_before {
            break;
        }
        j = j + 1;
    }
    v.insert(j, e);
    proof {
        assert(entry_views(v@) =~= m0.insert(j as int, ev)) by {
            m0.insert_ensures(j as int, ev);
            assert(v@ == old(v)@.insert(j as int, e));
            old(v)@.insert_ensures(j as int, e);
            assert forall|k: int| 0 <= k < entry_views(v@).len() implies entry_views(v@)[k]
                == m0.insert(j as int, ev)[k] by {
                if k < j {
                    assert(v@[k] == old(v)@[k]);
                } else if k == j {
                    assert(v@[k] == e);
                } else {
                    assert(v@[k] == old(v)@[k - 1]);
                }
            }
        }
        vstd::seq_lib::to_multiset_insert(m0, j as int, ev);
        assert(entry_views(v@).to_multiset() == m0.to_multiset().insert(ev));
        assert forall|p: int, q: int|
            0 <= p < q < entry_views(v@).len() implies ranked_before(
            #[trigger] entry_views(v@)[p],
            #[trigger] entry_views(v@)[q],
        ) by {
            m0.insert_ensures(j as int, ev);
            let m1 = entry_views(v@);
            if q < j {
                assert(m1[p] == m0[p] && m1[q] == m0[q]);
            } else if p < j && q == j {
                assert(m1[p] == m0[p]);
                assert(!ranked_before(ev, m0[p]));
                lemma_ranked_total(m0[p], ev);
            } else if p == j {
                assert(m1[q] == m0[q - 1]);
                assert(j <= q - 1 < m0.len());
                if q - 1 == j {
                    assert(ranked_before(ev, m0[j as int]));
                } else {
                    assert(ranked_before(ev, m0[j as int]));
                    assert(ranked_before(m0[j as int], m0[q - 1]));
                    lemma_ranked_trans(ev, m0[j as int], m0[q - 1]);
                }
            } else if p < j && q > j {
                assert(m1[p] == m0[p] && m1[q] == m0[q - 1]);
                assert(p < q - 1 < m0.len());
            } else {
                assert(m1[p] == m0[p - 1] && m1[q] == m0[q - 1]);
                assert(0 <= p - 1 < q - 1 < m0.len());
            }
        }
    }
}

/// Sorts the entries of the table into ranking order: count descending,
/// ties by ascending lexicographic order of the word.
pub(crate) fn sort_entries(src: &Vec<(Vec<char>, usize)>) -> (out: Vec<(Vec<char>, usize)>)
    requires
        forall|i: int, j: int|
            0 <= i < j < src@.len() ==> (#[trigger] entry_views(src@)[i]).0 != (
            #[trigger] entry_views(src@)[j]).0,
    ensures
        out@.len() == src@.len(),
        entry_views(out@).to_multiset() == entry_views(src@).to_multiset(),
        ranked(entry_views(out@)),
{
    broadcast use vstd::seq_lib::group_to_multiset_ensures;

    let mut out: Vec<(Vec<char>, usize)> = Vec::new();
    let mut i: usize = 0;
    proof {
        assert(entry_views(out@) =~= Seq::<(Seq<char>, nat)>::empty());
        assert(entry_views(src@).take(0).to_multiset() =~= Seq::<(
            Seq<char>,
            nat,
        )>::empty().to_multiset());
    }
    while i < src.len()
        invariant
            i <= src@.len(),
            out@.len() == i,
            entry_views(out@).to_multiset() == entry_views(src@).take(i as int).to_multiset(),
            ranked(entry_views(out@)),
            forall|p: int, q: int|
                0 <= p < q < src@.len() ==> (#[trigger] entry_views(src@)[p]).0 != (
                #[trigger] entry_views(src@)[q]).0,
        decreases src@.len() - i,
    {
        let key = copy_chars(&src[i].0);
        let e = (key, src[i].1);
        proof {
            assert forall|k: int|
                0 <= k < out@.len() implies (#[trigger] entry_views(out@)[k]).0 != e.0@ by {
                let x = entry_views(out@)[k];
                assert(entry_views(out@).contains(x));
                vstd::seq_lib::to_multiset_contains(entry_views(out@), x);
                vstd::seq_lib::to_multiset_contains(entry_views(src@).take(i as int), x);
                assert(entry_views(out@).to_multiset().count(x) > 0);
                assert(entry_views(src@).take(i as int).contains(x));
                let l = choose|l: int|
                    0 <= l < i && #[trigger] entry_views(src@).take(i as int)[l] == x;
                assert(entry_views(src@)[l] == x);
                assert(entry_views(src@)[l].0 != entry_views(src@)[i as int].0);
            }
        }
        let ghost out_before = out@;
        insert_ranked(&mut out, e);
        proof {
            assert(entry_views(src@).take(i as int + 1) =~= entry_views(src@).take(
                i as int,
            ).push(entry_views(src@)[i as int]));
            vstd::seq_lib::to_multiset_build(
                entry_views(src@).take(i as int),
                entry_views(src@)[i as int],
            );
            assert((e.0@, e.1 as nat) == entry_views(src@)[i as int]);
        }
        i = i + 1;
    }
    proof {
        assert(entry_views(src@).take(src@.len() as int) =~= entry_views(src@));
    }
    out
}

} // verus!
