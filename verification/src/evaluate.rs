use vstd::prelude::*;

use rayon::iter::{IndexedParallelIterator, IntoParallelRefIterator, ParallelIterator};

use crate::chars::chars_vec;
use crate::scorer::{
    is_fuzzy_match, lemma_score_some_iff_match, score_chars, score_spec, MAX_CANDIDATE_LEN,
};

verus! {

/// One matching candidate: its position in the input sequence and its
/// score. The position is what breaks ties later; it is never shown to the
/// caller.
#[derive(Clone, Copy, PartialEq, Eq, Structural)]
pub struct ScoredIdx {
    pub idx: usize,
    pub score: i64,
}

/// The entry the evaluator keeps for the candidate at position `idx`:
/// its score when it matches, nothing when it does not.
pub open spec fn entry_of(q: Seq<char>, c: Seq<char>, idx: int) -> Option<ScoredIdx> {
    match score_spec(q, c) {
        Some(s) => Some(ScoredIdx { idx: idx as usize, score: s as i64 }),
        None => None,
    }
}

/// All matches of a candidate list, in input order: one entry per matching
/// candidate, carrying its original position and its score.
pub open spec fn matches_of(q: Seq<char>, cs: Seq<Seq<char>>) -> Seq<ScoredIdx>
    decreases cs.len(),
{
    if cs.len() <= 0 {
        Seq::empty()
    } else {
        matches_of(q, cs.drop_last()) + (match entry_of(q, cs.last(), cs.len() - 1) {
            Some(e) => seq![e],
            None => Seq::empty(),
        })
    }
}

/// What the evaluator guarantees of a match list: every entry points at a
/// candidate, carries exactly that candidate's score, and the original
/// positions come strictly ascending (so they are distinct).
pub open spec fn matches_wf(q: Seq<char>, cs: Seq<Seq<char>>, ms: Seq<ScoredIdx>) -> bool {
    &&& forall|k: int| 0 <= k < ms.len() ==> (#[trigger] ms[k]).idx < cs.len()
    &&& forall|k: int|
        0 <= k < ms.len() ==> score_spec(q, cs[(#[trigger] ms[k]).idx as int]) == Some(
            ms[k].score as int,
        )
    &&& forall|k1: int, k2: int|
        0 <= k1 < k2 < ms.len() ==> (#[trigger] ms[k1]).idx < (#[trigger] ms[k2]).idx
}

pub proof fn lemma_matches_of_wf(q: Seq<char>, cs: Seq<Seq<char>>)
    requires
        cs.len() <= usize::MAX,
        forall|i: int| 0 <= i < cs.len() ==> (#[trigger] cs[i]).len() <= MAX_CANDIDATE_LEN,
    ensures
        matches_wf(q, cs, matches_of(q, cs)),
    decreases cs.len(),
{
    if cs.len() > 0 {
        assert(forall|i: int|
            0 <= i < cs.len() - 1 ==> (#[trigger] cs.drop_last()[i]).len() <= MAX_CANDIDATE_LEN);
        lemma_matches_of_wf(q, cs.drop_last());
        let prefix = matches_of(q, cs.drop_last());
        let ms = matches_of(q, cs);
        assert(forall|k: int|
            0 <= k < prefix.len() ==> cs.drop_last()[(#[trigger] prefix[k]).idx as int]
                == cs[prefix[k].idx as int]);
        assert(forall|k: int| 0 <= k < prefix.len() ==> ms[k] == prefix[k]);
        match entry_of(q, cs.last(), cs.len() - 1) {
            Some(e) => {
                crate::scorer::lemma_best_bounds(q, cs.last(), 0, 0, false);
                let s = crate::scorer::score_spec(q, cs.last())->Some_0;
                assert(i64::MIN <= s <= i64::MAX);
                assert(e.score as int == s);
                assert(ms == prefix + seq![e]);
                assert(ms[ms.len() - 1] == e);
                assert(e.idx == cs.len() - 1);
                assert(cs[e.idx as int] == cs.last());
            },
            None => {
                assert(ms == prefix + Seq::<ScoredIdx>::empty());
                assert(ms =~= prefix);
            },
        }
    }
}

/// A candidate has an entry in the match list exactly when it is a fuzzy
/// match for the query; parallel evaluation neither adds nor drops matches.
pub proof fn lemma_match_correctness(q: Seq<char>, cs: Seq<Seq<char>>, i: int)
    requires
        0 <= i < cs.len() <= usize::MAX,
        forall|j: int| 0 <= j < cs.len() ==> (#[trigger] cs[j]).len() <= MAX_CANDIDATE_LEN,
    ensures
        (exists|k: int|
            0 <= k < matches_of(q, cs).len() && (#[trigger] matches_of(q, cs)[k]).idx == i)
            <==> is_fuzzy_match(q, cs[i]),
    decreases cs.len(),
{
    assert(forall|j: int|
        0 <= j < cs.len() - 1 ==> (#[trigger] cs.drop_last()[j]).len() <= MAX_CANDIDATE_LEN);
    lemma_matches_of_wf(q, cs);
    lemma_matches_of_wf(q, cs.drop_last());
    let ms = matches_of(q, cs);
    let prefix = matches_of(q, cs.drop_last());
    lemma_score_some_iff_match(q, cs.last());
    assert(forall|k: int| 0 <= k < prefix.len() ==> ms[k] == prefix[k]);
    if i == cs.len() - 1 {
        if is_fuzzy_match(q, cs[i]) {
            let e = entry_of(q, cs.last(), cs.len() - 1)->Some_0;
            assert(ms == prefix + seq![e]);
            assert(ms[ms.len() - 1] == e);
            assert(e.idx == i);
        } else {
            assert(ms == prefix + Seq::<ScoredIdx>::empty());
            assert(ms =~= prefix);
            assert(forall|k: int| 0 <= k < prefix.len() ==> (#[trigger] prefix[k]).idx < i);
        }
    } else {
        lemma_match_correctness(q, cs.drop_last(), i);
        assert(cs.drop_last()[i] == cs[i]);
        if is_fuzzy_match(q, cs[i]) {
            let k = choose|k: int| 0 <= k < prefix.len() && (#[trigger] prefix[k]).idx == i;
            assert(ms[k].idx == i);
        } else {
            if exists|k: int| 0 <= k < ms.len() && (#[trigger] ms[k]).idx == i {
                let k = choose|k: int| 0 <= k < ms.len() && (#[trigger] ms[k]).idx == i;
                if k < prefix.len() {
                    assert(prefix[k].idx == i);
                } else {
                    let e = entry_of(q, cs.last(), cs.len() - 1)->Some_0;
                    assert(ms == prefix + seq![e]);
                    assert(ms[k] == e);
                    assert(e.idx == cs.len() - 1);
                }
            }
        }
    }
}

/// Scores the candidate at position `idx` of the input; the returned entry
/// carries that position.
pub fn score_entry(q: &Vec<char>, text: &String, idx: usize) -> (r: Option<ScoredIdx>)
    requires
        text@.len() <= MAX_CANDIDATE_LEN,
    ensures
        r == entry_of(q@, text@, idx as int),
{
    let c = chars_vec(text.as_str());
    match score_chars(q, &c) {
        Some(s) => Some(ScoredIdx { idx, score: s }),
        None => None,
    }
}

/// Scores every candidate on a pool of workers and keeps the matches, in
/// input order.
///
/// Relies on rayon's `par_iter`, `enumerate`, `filter_map` and `collect`:
/// rayon documents that its parallel iterators produce the same results as
/// their sequential counterparts, so the collected vector holds exactly
/// what the verified `score_entry` returns for each position, in input
/// order, whatever the worker count or schedule.
#[verifier::external_body]
fn score_all_parallel(q: &Vec<char>, cs: &Vec<String>) -> (r: Vec<ScoredIdx>)
    requires
        forall|i: int| 0 <= i < cs@.len() ==> (#[trigger] cs@[i])@.len() <= MAX_CANDIDATE_LEN,
    ensures
        r@ == matches_of(q@, cs.deep_view()),
{
    cs.par_iter().enumerate().filter_map(|(i, t)| score_entry(q, t, i)).collect()
}

/// Applies the scorer to every candidate and returns the matches, each with
/// its original position and score, in input order. The work is fanned out
/// across workers; the result is the same as scoring one by one.
pub fn evaluate(query: &str, candidates: &Vec<String>) -> (r: Vec<ScoredIdx>)
    requires
        forall|i: int|
            0 <= i < candidates@.len() ==> (#[trigger] candidates@[i])@.len()
                <= MAX_CANDIDATE_LEN,
    ensures
        r@ == matches_of(query@, candidates.deep_view()),
        matches_wf(query@, candidates.deep_view(), r@),
{
    let q = chars_vec(query);
    let n = candidates.len();
    let r = score_all_parallel(&q, candidates);
    proof {
        let cs = candidates.deep_view();
        assert(cs.len() == n);
        assert(forall|i: int| 0 <= i < cs.len() ==> (#[trigger] cs[i]) == candidates@[i]@);
        lemma_matches_of_wf(query@, cs);
    }
    r
}

} // verus!
