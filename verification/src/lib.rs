//! A small text-analysis engine: word, character, sentence and paragraph
//! counts over a block of natural-language text, plus a syllable-based
//! readability estimate, ranked keyword frequencies and a coarse
//! sentiment score.  Every quantity is defined by a spec function over
//! the text as a sequence of characters, and the executable code is
//! verified against those definitions.

use vstd::prelude::*;

pub mod chars;
pub mod keywords;
pub mod laws;
pub mod norm;
pub mod segment;
pub mod sentiment;
pub mod syllables;

use crate::keywords::{
    entry_views, freq_of, keyword_views, lemma_freq_of, lemma_lex_irrefl, occurrences, ranked,
    ranked_before,
};
use crate::segment::{count_non_ws, paragraph_count_of, sentence_count_of, trim_of, words_of};
use crate::sentiment::{negative_count, positive_count};
use crate::syllables::total_syllables;

verus! {

/// The ingredients of the readability estimate, one pass over the text:
/// the grade is `0.39 * words / sentences + 11.8 * syllables / words -
/// 15.59`, with `0.0` for a text without words or sentences (the `None`
/// case here).
pub struct Readability {
    pub words: usize,
    pub sentences: usize,
    pub syllables: u128,
}

/// The sentiment tallies: how many words matched the positive set and
/// how many the negative set.  The polarity score is the difference over
/// the sum when any matched, and `0.0` otherwise.
pub struct Sentiment {
    pub positive: usize,
    pub negative: usize,
}

/// An analysis of one block of text, built once and read many times:
/// the trimmed text itself, the four cached counts, and the keyword
/// frequency table.
pub struct TextAnalysis {
    chars: Vec<char>,
    word_count: usize,
    character_count: usize,
    sentence_count: usize,
    paragraph_count: usize,
    word_frequency: Vec<(Vec<char>, usize)>,
}

impl View for TextAnalysis {
    type V = Seq<char>;

    /// The trimmed text the analysis was built from.
    closed spec fn view(&self) -> Seq<char> {
        self.chars@
    }
}

impl TextAnalysis {
    /// The cached quantities agree with their definitions over the
    /// stored text.
    #[verifier::type_invariant]
    spec fn wf(self) -> bool {
        &&& self.word_count == words_of(self.chars@).len()
        &&& self.character_count == count_non_ws(self.chars@)
        &&& self.sentence_count == sentence_count_of(self.chars@)
        &&& self.paragraph_count == paragraph_count_of(self.chars@)
        &&& entry_views(self.word_frequency@) == freq_of(words_of(self.chars@))
    }

    /// Analyzes a block of text: trims it, and computes the counts and
    /// the keyword frequency table.  Every input produces a valid
    /// analysis; there is no error case.
    pub fn new(text: &str) -> (a: TextAnalysis)
        ensures
            a@ == trim_of(text@),
    {
        let all = norm::chars_of_str(text);
        let trimmed = segment::trim_chars(&all);
        let toks = segment::split_words(&trimmed);
        let word_count = toks.len();
        let character_count = segment::count_characters(&trimmed);
        let sentence_count = segment::count_sentences(&trimmed);
        let paragraph_count = segment::count_paragraphs(&trimmed);
        let word_frequency = keywords::build_frequency(&toks);
        TextAnalysis {
            chars: trimmed,
            word_count,
            character_count,
            sentence_count,
            paragraph_count,
            word_frequency,
        }
    }

    /// The number of maximal whitespace-delimited runs of the text.
    pub fn word_count(&self) -> (r: usize)
        ensures
            r == words_of(self@).len(),
    {
        proof {
            use_type_invariant(&*self);
        }
        self.word_count
    }

    /// The number of non-whitespace characters of the text.
    pub fn character_count(&self) -> (r: usize)
        ensures
            r == count_non_ws(self@),
    {
        proof {
            use_type_invariant(&*self);
        }
        self.character_count
    }

    /// The number of sentences: segments between `.`, `!` and `?` that
    /// hold a non-whitespace character.
    pub fn sentence_count(&self) -> (r: usize)
        ensures
            r == sentence_count_of(self@),
    {
        proof {
            use_type_invariant(&*self);
        }
        self.sentence_count
    }

    /// The number of paragraphs: segments between blank lines that hold
    /// a non-whitespace character.
    pub fn paragraph_count(&self) -> (r: usize)
        ensures
            r == paragraph_count_of(self@),
    {
        proof {
            use_type_invariant(&*self);
        }
        self.paragraph_count
    }

    /// The stored trimmed text.
    pub fn text(&self) -> (r: String)
        ensures
            r@ == self@,
    {
        norm::string_of_chars(&self.chars)
    }

    /// The ingredients of the Flesch-Kincaid-style grade, with the
    /// syllable total recomputed from the text on every call; `None`
    /// exactly when the text has no words or no sentences, where the
    /// grade is defined as `0.0`.
    pub fn calculate_readability(&self) -> (r: Option<Readability>)
        ensures
            (match r {
                None => words_of(self@).len() == 0 || sentence_count_of(self@) == 0,
                Some(g) => {
                    &&& words_of(self@).len() > 0
                    &&& sentence_count_of(self@) > 0
                    &&& g.words == words_of(self@).len()
                    &&& g.sentences == sentence_count_of(self@)
                    &&& g.syllables == total_syllables(words_of(self@))
                },
            }),
    {
        proof {
            use_type_invariant(&*self);
        }
        if self.word_count == 0 || self.sentence_count == 0 {
            return None;
        }
        let toks = segment::split_words(&self.chars);
        let syllables = syllables::estimate_syllables(&toks);
        Some(
            Readability {
                words: self.word_count,
                sentences: self.sentence_count,
                syllables,
            },
        )
    }

    /// The sentiment tallies, recomputed from the text on every call.
    pub fn get_sentiment(&self) -> (r: Sentiment)
        ensures
            r.positive == positive_count(words_of(self@)),
            r.negative == negative_count(words_of(self@)),
    {
        let toks = segment::split_words(&self.chars);
        let counts = sentiment::sentiment_counts(&toks);
        Sentiment { positive: counts.0, negative: counts.1 }
    }

    /// The first `count` entries of the frequency table in ranking
    /// order: occurrence count descending, ties by ascending
    /// lexicographic order of the word.  Returns fewer entries only when
    /// fewer distinct words qualify.  The guarantees below determine the
    /// result uniquely (`keywords::lemma_ranking_determined`), so
    /// repeated queries on one analysis agree.
    #[verifier::loop_isolation(false)]
    pub fn get_top_keywords(&self, count: usize) -> (r: Vec<(String, usize)>)
        ensures
            r@.len() == (if count as int <= freq_of(words_of(self@)).len() {
                count as int
            } else {
                freq_of(words_of(self@)).len() as int
            }),
            ranked(keyword_views(r@)),
            forall|i: int, j: int|
                0 <= i < j < r@.len() ==> (#[trigger] keyword_views(r@)[i]).1 >= (
                #[trigger] keyword_views(r@)[j]).1,
            forall|k: int|
                0 <= k < r@.len() ==> (#[trigger] keyword_views(r@)[k]).1 == occurrences(
                    words_of(self@),
                    keyword_views(r@)[k].0,
                ) && keyword_views(r@)[k].0.len() > 2,
            forall|i: int, j: int|
                0 <= i < j < r@.len() ==> (#[trigger] keyword_views(r@)[i]).0 != (
                #[trigger] keyword_views(r@)[j]).0,
            forall|f: (Seq<char>, nat)|
                freq_of(words_of(self@)).contains(f) && !keyword_views(r@).contains(f)
                    ==> r@.len() == count && (count > 0 ==> ranked_before(
                    keyword_views(r@)[count - 1],
                    f,
                )),
    {
        proof {
            use_type_invariant(&*self);
            lemma_freq_of(words_of(self@));
        }
        let ghost m = freq_of(words_of(self@));
        let sorted = keywords::sort_entries(&self.word_frequency);
        let ghost sv = entry_views(sorted@);
        let n: usize = if count < sorted.len() {
            count
        } else {
            sorted.len()
        };
        let mut r: Vec<(String, usize)> = Vec::new();
        let mut k: usize = 0;
        while k < n
            invariant
                k <= n,
                r@.len() == k,
                forall|t: int| 0 <= t < k ==> (#[trigger] keyword_views(r@)[t]) == sv[t],
            decreases n - k,
        {
            let key = norm::string_of_chars(&sorted[k].0);
            let cnt = sorted[k].1;
            let ghost r_before = r@;
            r.push((key, cnt));
            proof {
                assert(keyword_views(r@) =~= keyword_views(r_before).push((key@, cnt as nat)));
                assert(sv[k as int] == (sorted@[k as int].0@, sorted@[k as int].1 as nat));
            }
            k = k + 1;
        }
        proof {
            let rv = keyword_views(r@);
            assert(rv =~= sv.take(n as int));
            broadcast use vstd::seq_lib::group_to_multiset_ensures;

            assert forall|t: int|
                0 <= t < rv.len() implies m.contains(#[trigger] rv[t]) && rv[t].1 == occurrences(
                words_of(self@),
                rv[t].0,
            ) && rv[t].0.len() > 2 by {
                assert(rv[t] == sv[t]);
                assert(sv.contains(sv[t]));
                vstd::seq_lib::to_multiset_contains(sv, sv[t]);
                vstd::seq_lib::to_multiset_contains(m, sv[t]);
                assert(m.contains(sv[t]));
                let q = choose|q: int| 0 <= q < m.len() && #[trigger] m[q] == sv[t];
                assert(m[q].1 == occurrences(words_of(self@), m[q].0));
            }
            assert forall|i: int, j: int|
                0 <= i < j < rv.len() implies (#[trigger] rv[i]).0 != (#[trigger] rv[j]).0 by {
                assert(ranked_before(sv[i], sv[j]));
                assert(rv[i] == sv[i] && rv[j] == sv[j]);
                if rv[i].0 == rv[j].0 {
                    if rv[i].1 == rv[j].1 {
                        lemma_lex_irrefl(rv[i].0);
                    } else {
                        vstd::seq_lib::to_multiset_contains(sv, sv[i]);
                        vstd::seq_lib::to_multiset_contains(sv, sv[j]);
                        vstd::seq_lib::to_multiset_contains(m, sv[i]);
                        vstd::seq_lib::to_multiset_contains(m, sv[j]);
                        assert(m.contains(rv[i]) && m.contains(rv[j]));
                        let qi = choose|q: int| 0 <= q < m.len() && m[q] == rv[i];
                        let qj = choose|q: int| 0 <= q < m.len() && m[q] == rv[j];
                        assert(m[qi].0 == m[qj].0);
                    }
                }
            }
            assert forall|f: (Seq<char>, nat)|
                m.contains(f) && !rv.contains(f) implies r@.len() == count && (count > 0
                ==> ranked_before(rv[count - 1], f)) by {
                vstd::seq_lib::to_multiset_contains(m, f);
                vstd::seq_lib::to_multiset_contains(sv, f);
                assert(sv.contains(f));
                let q = choose|q: int| 0 <= q < sv.len() && #[trigger] sv[q] == f;
                if q < n {
                    assert(rv[q] == f);
                    assert(rv.contains(f));
                } else {
                    assert(n < sv.len());
                    assert(n == count);
                    if count > 0 {
                        assert(ranked_before(sv[count - 1], sv[q]));
                    }
                }
            }
        }
        r
    }
}

} // verus!
