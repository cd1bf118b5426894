use vstd::prelude::*;

use vstd::relations::sorted_by;

use crate::evaluate::{evaluate, matches_of, matches_wf, ScoredIdx};
use crate::scorer::MAX_CANDIDATE_LEN;
use crate::select::{
    entry_order, lemma_selection_bound, lemma_selection_membership, lemma_selection_order,
    min_int, select, select_spec,
};

verus! {

/// The ranked list of a query against a candidate list: every match, in
/// descending score order with ties broken by input position, cut down to
/// at most `limit` entries.
pub open spec fn ranked_of(q: Seq<char>, cs: Seq<Seq<char>>, limit: int) -> Seq<ScoredIdx> {
    select_spec(matches_of(q, cs), limit)
}

/// The returned pairs spell out the ranked entries: pair `k` carries the
/// text of the candidate that entry `k` points at, and that entry's score.
pub open spec fn pairs_match(
    r: Seq<(String, i64)>,
    ranked: Seq<ScoredIdx>,
    cs: Seq<Seq<char>>,
) -> bool {
    &&& r.len() == ranked.len()
    &&& forall|k: int| 0 <= k < r.len() ==> (#[trigger] r[k]).1 == ranked[k].score
    &&& forall|k: int|
        0 <= k < r.len() ==> ranked[k].idx < cs.len() && (#[trigger] r[k]).0@ == cs[ranked[k].idx
            as int]
}

/// Ranks the candidates against the query: scores every candidate, keeps
/// the matches, orders them by score descending (ties keep input order),
/// and returns at most `limit` pairs of candidate text and score.
pub fn extract_bests(query: &str, candidates: &Vec<String>, limit: usize) -> (r: Vec<
    (String, i64),
>)
    requires
        forall|i: int|
            0 <= i < candidates@.len() ==> (#[trigger] candidates@[i])@.len()
                <= MAX_CANDIDATE_LEN,
    ensures
        pairs_match(
            r@,
            ranked_of(query@, candidates.deep_view(), limit as int),
            candidates.deep_view(),
        ),
{
    let ghost cs = candidates.deep_view();
    let ms = evaluate(query, candidates);
    let sel = select(&ms, limit);
    proof {
        lemma_selection_membership(ms@, limit as int);
        assert(sel@ == ranked_of(query@, cs, limit as int));
        assert(cs.len() == candidates@.len());
    }
    let mut out: Vec<(String, i64)> = Vec::new();
    let mut k: usize = 0;
    while k < sel.len()
        invariant
            k <= sel@.len(),
            out@.len() == k,
            cs == candidates.deep_view(),
            cs.len() == candidates@.len(),
            matches_wf(query@, cs, ms@),
            forall|j: int| 0 <= j < sel@.len() ==> ms@.contains(#[trigger] sel@[j]),
            forall|j: int| 0 <= j < k ==> (#[trigger] out@[j]).1 == sel@[j].score,
            forall|j: int|
                0 <= j < k ==> sel@[j].idx < cs.len() && (#[trigger] out@[j]).0@ == cs[sel@[j].idx
                    as int],
        decreases sel@.len() - k,
    {
        let e = sel[k];
        proof {
            assert(ms@.contains(e));
            let j = choose|j: int| 0 <= j < ms@.len() && ms@[j] == e;
            assert(ms@[j].idx < cs.len());
        }
        let text = candidates[e.idx].clone();
        out.push((text, e.score));
        k = k + 1;
    }
    out
}

/// The ranked list holds exactly `min(limit, number of matches)` entries;
/// a zero limit gives an empty list, never an error.
pub proof fn lemma_ranked_bound(q: Seq<char>, cs: Seq<Seq<char>>, limit: int)
    requires
        0 <= limit,
    ensures
        ranked_of(q, cs, limit).len() == min_int(limit, matches_of(q, cs).len() as int),
        limit == 0 ==> ranked_of(q, cs, limit).len() == 0,
{
    lemma_selection_bound(matches_of(q, cs), limit);
}

/// Adjacent entries of the ranked list have descending scores, and equal
/// scores keep the original input positions ascending.
pub proof fn lemma_ranked_order(q: Seq<char>, cs: Seq<Seq<char>>, limit: int)
    requires
        0 <= limit,
    ensures
        sorted_by(ranked_of(q, cs, limit), entry_order()),
        forall|k: int|
            0 <= k < ranked_of(q, cs, limit).len() - 1 ==> (#[trigger] ranked_of(q, cs, limit)[k]).score
                >= ranked_of(q, cs, limit)[k + 1].score,
        forall|k: int|
            0 <= k < ranked_of(q, cs, limit).len() - 1 && (#[trigger] ranked_of(q, cs, limit)[k]).score
                == ranked_of(q, cs, limit)[k + 1].score ==> ranked_of(q, cs, limit)[k].idx
                <= ranked_of(q, cs, limit)[k + 1].idx,
{
    lemma_selection_order(matches_of(q, cs), limit);
}

/// The operation is deterministic: two outputs produced for the same query,
/// candidate list and limit agree pair for pair, whatever the worker count
/// or schedule was on either run.
pub proof fn lemma_determinism(
    q: Seq<char>,
    cs: Seq<Seq<char>>,
    limit: int,
    r1: Seq<(String, i64)>,
    r2: Seq<(String, i64)>,
)
    requires
        pairs_match(r1, ranked_of(q, cs, limit), cs),
        pairs_match(r2, ranked_of(q, cs, limit), cs),
    ensures
        r1.len() == r2.len(),
        forall|k: int|
            0 <= k < r1.len() ==> (#[trigger] r1[k]).1 == r2[k].1 && r1[k].0@ == r2[k].0@,
{
}

} // verus!
