//! Message scoring with an anti-spam rolling window.
//!
//! Scores are integers in milli-points: one point is a thousand milli-points.
//! A message scores zero when its content repeats one of the author's five
//! most recent messages; otherwise the score combines a word-diversity
//! component (the share of distinct words, worth up to fifty points) with a
//! length component (fifty points per unit of integer root length), weighted
//! seven to three.

use crate::math::{isqrt, isqrt_u64, lemma_isqrt_bounds};
use crate::words::{clone_bytes, contains_chunk, count_words, unique_word_count, word_count, words_of};
use vstd::prelude::*;

verus! {

/// Milli-points granted for an all-distinct choice of words.
pub const DIVERSITY_SCALE: u64 = 50_000;

/// Milli-points granted per unit of integer root length.
pub const LENGTH_SCALE: u64 = 50_000;

/// How many of the author's most recent contents the rolling window keeps.
pub const WINDOW_CAPACITY: usize = 5;

/// No content can score more milli-points than this: the diversity component
/// is at most `DIVERSITY_SCALE` and the root of a 64-bit length fits 32 bits.
pub const SCORE_CAP: u64 = (7 * 50_000 + 3 * 50_000 * 0xFFFF_FFFF) / 10;

/// The diversity component: the share of distinct words, scaled, and zero for
/// empty content.
pub open spec fn diversity_milli(s: Seq<u8>) -> int {
    if word_count(s) == 0 {
        0
    } else {
        DIVERSITY_SCALE * unique_word_count(s) / word_count(s) as int
    }
}

/// The length component: scaled integer root of the byte length.
pub open spec fn length_milli(s: Seq<u8>) -> int {
    LENGTH_SCALE * isqrt(s.len())
}

/// What fresh content scores: diversity and length, weighted seven to three.
pub open spec fn content_score_milli(s: Seq<u8>) -> int {
    (7 * diversity_milli(s) + 3 * length_milli(s)) / 10
}

/// What content scores against a window of recent contents: zero on a repeat,
/// the content score otherwise.
pub open spec fn scored_against(window: Seq<Seq<u8>>, s: Seq<u8>) -> int {
    if window.contains(s) {
        0
    } else {
        content_score_milli(s)
    }
}

/// The window after recording `s`: appended at the newest end, with the
/// oldest entry evicted once the capacity is exceeded.
pub open spec fn window_push(window: Seq<Seq<u8>>, s: Seq<u8>) -> Seq<Seq<u8>> {
    let grown = window.push(s);
    if grown.len() > WINDOW_CAPACITY {
        grown.subrange(1, grown.len() as int)
    } else {
        grown
    }
}

/// Scores are non-negative and never exceed `SCORE_CAP` for any content that
/// fits in memory.
pub proof fn lemma_content_score_bounds(s: Seq<u8>)
    requires
        s.len() <= u64::MAX,
    ensures
        0 <= content_score_milli(s) <= SCORE_CAP,
{
    lemma_diversity_bounds(s);
    lemma_isqrt_bounds(s.len());
    assert(isqrt(s.len()) <= 0xFFFF_FFFF) by (nonlinear_arith)
        requires
            isqrt(s.len()) * isqrt(s.len()) <= s.len(),
            s.len() <= u64::MAX,
    ;
}

/// The diversity component stays between zero and its scale.
pub proof fn lemma_diversity_bounds(s: Seq<u8>)
    ensures
        0 <= diversity_milli(s) <= DIVERSITY_SCALE,
        unique_word_count(s) <= word_count(s),
{
    words_of(s).lemma_cardinality_of_set();
    if word_count(s) != 0 {
        assert(0 <= DIVERSITY_SCALE * unique_word_count(s) / word_count(s) as int
            <= DIVERSITY_SCALE) by (nonlinear_arith)
            requires
                0 < word_count(s),
                0 <= unique_word_count(s) <= word_count(s),
        ;
    }
}

/// Scores fresh content: the weighted mix of the diversity and length
/// components, in milli-points.
pub fn content_score(content: &[u8]) -> (r: u64)
    ensures
        r == content_score_milli(content@),
        r <= SCORE_CAP,
{
    let byte_len = content.len();
    proof {
        lemma_content_score_bounds(content@);
        lemma_diversity_bounds(content@);
    }
    let counts = count_words(content);
    let total = counts.0;
    let unique = counts.1;
    let diversity: u64 = if total == 0 {
        0
    } else {
        ((DIVERSITY_SCALE as u128 * unique as u128) / total as u128) as u64
    };
    let root = isqrt_u64(byte_len as u64);
    let length: u64 = LENGTH_SCALE * root;
    (7 * diversity + 3 * length) / 10
}

/// The last few contents an author sent, newest last.
pub struct RollingWindow {
    recent: Vec<Vec<u8>>,
}

impl View for RollingWindow {
    type V = Seq<Seq<u8>>;

    closed spec fn view(&self) -> Seq<Seq<u8>> {
        self.recent.deep_view()
    }
}

impl RollingWindow {
    /// The window never holds more than its capacity.
    pub open spec fn wf(&self) -> bool {
        self@.len() <= WINDOW_CAPACITY
    }

    /// An empty window.
    pub fn new() -> (r: RollingWindow)
        ensures
            r@ =~= Seq::<Seq<u8>>::empty(),
            r.wf(),
    {
        RollingWindow { recent: Vec::new() }
    }

    /// Whether the window holds `content`.
    pub fn holds(&self, content: &Vec<u8>) -> (r: bool)
        ensures
            r <==> self@.contains(content@),
    {
        contains_chunk(&self.recent, content)
    }
}

/// Scores `content` against the author's rolling window and records it there:
/// an exact repeat of a recent content scores zero, anything else scores its
/// content score, and the window keeps the five most recent contents either way.
pub fn score_message(window: &mut RollingWindow, content: &Vec<u8>) -> (r: u64)
    requires
        old(window).wf(),
    ensures
        final(window).wf(),
        r == scored_against(old(window)@, content@),
        r <= SCORE_CAP,
        final(window)@ == window_push(old(window)@, content@),
{
    let repeat = window.holds(content);
    let r = if repeat {
        0
    } else {
        content_score(content.as_slice())
    };
    let ghost grown = old(window)@.push(content@);
    window.recent.push(clone_bytes(content));
    proof {
        assert(window.recent.deep_view() =~~= grown);
    }
    if window.recent.len() > WINDOW_CAPACITY {
        let ghost before = window.recent.deep_view();
        window.recent.remove(0);
        proof {
            assert(window.recent.deep_view() =~~= before.subrange(1, before.len() as int));
        }
    }
    proof {
        assert(window@ =~~= window_push(old(window)@, content@));
    }
    r
}

} // verus!
