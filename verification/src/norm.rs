//! Word normalization: each whitespace-delimited token is lowercased and
//! then stripped of leading and trailing non-alphabetic characters.  The
//! frequency table, the sentiment lexicon lookup and the syllable walk all
//! work on this normalized form.

use vstd::prelude::*;
use vstd::string::StrSliceExecFns;

verus! {

/// What `str::to_lowercase` returns for the characters `s`: a pure
/// function of the characters alone, left unspecified here.
pub uninterp spec fn lower_of(s: Seq<char>) -> Seq<char>;

/// Whether the Unicode `Alphabetic` property holds of `c`, as
/// `char::is_alphabetic` decides it; a pure function of the character,
/// left unspecified here.
pub uninterp spec fn alpha_of(c: char) -> bool;

/// Relies on `char::is_alphabetic`: the result depends on the character
/// alone, so it equals `alpha_of` of the character.
#[verifier::external_body]
pub(crate) fn is_alphabetic_char(c: char) -> (r: bool)
    ensures
        r == alpha_of(c),
{
    c.is_alphabetic()
}

/// Relies on `String::from_iter` (through `Iterator::collect`): the
/// collected string holds exactly the characters of `v`, in order.
#[verifier::external_body]
pub(crate) fn string_of_chars(v: &Vec<char>) -> (s: String)
    ensures
        s@ == v@,
{
    v.iter().collect()
}

/// Relies on `str::to_lowercase`: the result depends on the characters of
/// `s` alone, so it equals `lower_of` of those characters.
#[verifier::external_body]
fn lowercase_str(s: &str) -> (r: String)
    ensures
        r@ == lower_of(s@),
{
    s.to_lowercase()
}

/// Collects the characters of `s` into a vector.
pub(crate) fn chars_of_str(s: &str) -> (v: Vec<char>)
    ensures
        v@ == s@,
{
    let n = s.unicode_len();
    let mut v: Vec<char> = Vec::new();
    let mut i: usize = 0;
    while i < n
        invariant
            i <= n,
            n == s@.len(),
            v@ == s@.take(i as int),
        decreases n - i,
    {
        v.push(s.get_char(i));
        proof {
            assert(s@.take(i as int).push(s@[i as int]) =~= s@.take(i as int + 1));
        }
        i = i + 1;
    }
    proof {
        assert(s@.take(n as int) =~= s@);
    }
    v
}

/// `s` with its leading non-alphabetic characters removed.
pub open spec fn strip_front(s: Seq<char>) -> Seq<char>
    decreases s.len(),
{
    if s.len() > 0 && !alpha_of(s[0]) {
        strip_front(s.drop_first())
    } else {
        s
    }
}

/// `s` with its trailing non-alphabetic characters removed.
pub open spec fn strip_back(s: Seq<char>) -> Seq<char>
    decreases s.len(),
{
    if s.len() > 0 && !alpha_of(s.last()) {
        strip_back(s.drop_last())
    } else {
        s
    }
}

/// `s` with non-alphabetic characters removed from both ends; interior
/// punctuation and digits are kept.
pub open spec fn strip_of(s: Seq<char>) -> Seq<char> {
    strip_back(strip_front(s))
}

/// The normalized form of the token `t`: lowercased, then stripped of
/// leading and trailing non-alphabetic characters.
pub open spec fn clean_of(t: Seq<char>) -> Seq<char> {
    strip_of(lower_of(t))
}

/// Removes leading and trailing non-alphabetic characters.
fn strip_chars(s: &Vec<char>) -> (r: Vec<char>)
    ensures
        r@ == strip_of(s@),
{
    proof {
        assert(s@.skip(0) =~= s@);
    }
    let mut lo: usize = 0;
    while lo < s.len() && !is_alphabetic_char(s[lo])
        invariant
            lo <= s@.len(),
            strip_front(s@) == strip_front(s@.skip(lo as int)),
        decreases s@.len() - lo,
    {
        proof {
            assert(s@.skip(lo as int).drop_first() =~= s@.skip(lo as int + 1));
        }
        lo = lo + 1;
    }
    proof {
        if lo == s@.len() {
            assert(s@.skip(lo as int) =~= Seq::<char>::empty());
        }
        assert(strip_front(s@) == s@.skip(lo as int));
        assert(s@.subrange(lo as int, s@.len() as int) =~= s@.skip(lo as int));
    }
    let mut hi: usize = s.len();
    while hi > lo && !is_alphabetic_char(s[hi - 1])
        invariant
            lo <= hi <= s@.len(),
            strip_back(s@.skip(lo as int)) == strip_back(s@.subrange(lo as int, hi as int)),
        decreases hi,
    {
        proof {
            assert(s@.subrange(lo as int, hi as int).drop_last() =~= s@.subrange(
                lo as int,
                hi as int - 1,
            ));
        }
        hi = hi - 1;
    }
    proof {
        assert(strip_of(s@) == s@.subrange(lo as int, hi as int));
    }
    let mut r: Vec<char> = Vec::new();
    let mut i: usize = lo;
    while i < hi
        invariant
            lo <= i <= hi <= s@.len(),
            r@ == s@.subrange(lo as int, i as int),
        decreases hi - i,
    {
        r.push(s[i]);
        proof {
            assert(s@.subrange(lo as int, i as int).push(s@[i as int]) =~= s@.subrange(
                lo as int,
                i as int + 1,
            ));
        }
        i = i + 1;
    }
    r
}

/// Normalizes one token: lowercases it and strips non-alphabetic
/// characters from both ends.
pub(crate) fn clean_token(t: &Vec<char>) -> (r: Vec<char>)
    ensures
        r@ == clean_of(t@),
{
    let s = string_of_chars(t);
    let low = lowercase_str(s.as_str());
    let lv = chars_of_str(low.as_str());
    strip_chars(&lv)
}

} // verus!
