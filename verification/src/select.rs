use vstd::prelude::*;

use vstd::multiset::Multiset;
use vstd::relations::{sorted_by, total_ordering};
use vstd::seq_lib::{lemma_multiset_commutative, lemma_sorted_unique};

use crate::evaluate::ScoredIdx;

verus! {

/// `a` may stand before `b` in a ranked list: strictly higher scores come
/// first, and equal scores keep the input order, earlier positions first.
pub open spec fn entry_le(a: ScoredIdx, b: ScoredIdx) -> bool {
    a.score > b.score || (a.score == b.score && a.idx <= b.idx)
}

/// The ranking order as a relation value, the form vstd's ordering lemmas
/// and `sort_by` take.
pub open spec fn entry_order() -> spec_fn(ScoredIdx, ScoredIdx) -> bool {
    |a: ScoredIdx, b: ScoredIdx| entry_le(a, b)
}

pub proof fn lemma_entry_order_total()
    ensures
        total_ordering(entry_order()),
{
    let r = entry_order();
    assert forall|a: ScoredIdx, b: ScoredIdx| #[trigger] r(a, b) && #[trigger] r(b, a) implies a
        == b by {
        assert(a.score == b.score && a.idx == b.idx);
    }
}

pub open spec fn min_int(a: int, b: int) -> int {
    if a <= b {
        a
    } else {
        b
    }
}

/// The ranked list: the matches ordered by the ranking order, cut down to
/// at most `limit` entries.
pub open spec fn select_spec(ms: Seq<ScoredIdx>, limit: int) -> Seq<ScoredIdx> {
    ms.sort_by(entry_order()).take(min_int(limit, ms.len() as int))
}

fn entry_le_exec(a: ScoredIdx, b: ScoredIdx) -> (r: bool)
    ensures
        r == entry_le(a, b),
{
    a.score > b.score || (a.score == b.score && a.idx <= b.idx)
}

/// Inserting an element anywhere in a sequence adds it to the multiset of
/// elements and changes nothing else.
proof fn lemma_insert_to_multiset(s: Seq<ScoredIdx>, p: int, e: ScoredIdx)
    requires
        0 <= p <= s.len(),
    ensures
        s.insert(p, e).to_multiset() =~= s.to_multiset().insert(e),
{
    broadcast use vstd::seq_lib::group_to_multiset_ensures;

    assert(s.insert(p, e) =~= s.take(p) + (seq![e] + s.skip(p)));
    lemma_multiset_commutative(s.take(p), seq![e] + s.skip(p));
    lemma_multiset_commutative(seq![e], s.skip(p));
    assert(s =~= s.take(p) + s.skip(p));
    lemma_multiset_commutative(s.take(p), s.skip(p));
    assert(seq![e] =~= Seq::<ScoredIdx>::empty().push(e));
    assert(seq![e].to_multiset() =~= Multiset::<ScoredIdx>::empty().insert(e));
}

/// Sorts the matches by the ranking order and truncates to `limit`: an
/// insertion sort, whose result is exactly the specification's `sort_by`
/// followed by `take`.
pub fn select(ms: &Vec<ScoredIdx>, limit: usize) -> (r: Vec<ScoredIdx>)
    ensures
        r@ == select_spec(ms@, limit as int),
        sorted_by(r@, entry_order()),
{
    proof {
        lemma_entry_order_total();
    }
    let mut sorted: Vec<ScoredIdx> = Vec::new();
    proof {
        assert(ms@.take(0) =~= sorted@);
    }
    let mut i: usize = 0;
    while i < ms.len()
        invariant
            i <= ms@.len(),
            sorted@.len() == i,
            sorted_by(sorted@, entry_order()),
            sorted@.to_multiset() == ms@.take(i as int).to_multiset(),
        decreases ms@.len() - i,
    {
        let e = ms[i];
        let mut p: usize = 0;
        while p < sorted.len() && entry_le_exec(sorted[p], e)
            invariant
                p <= sorted@.len(),
                forall|k: int| 0 <= k < p ==> entry_le(#[trigger] sorted@[k], e),
            decreases sorted@.len() - p,
        {
            p = p + 1;
        }
        let ghost old_sorted = sorted@;
        sorted.insert(p, e);
        proof {
            lemma_entry_order_total();
            assert(sorted@ == old_sorted.insert(p as int, e));
            let r = entry_order();
            assert forall|x: int, y: int| 0 <= x < y < sorted@.len() implies #[trigger] r(
                sorted@[x],
                sorted@[y],
            ) by {
                if x == p {
                    // `e` against a tail entry: `e` precedes the entry at `p`,
                    // which precedes everything after it.
                    assert(sorted@[y] == old_sorted[y - 1]);
                    assert(!entry_le(old_sorted[p as int], e));
                    assert(r(e, old_sorted[p as int]));
                    if y - 1 > p {
                        assert(r(old_sorted[p as int], old_sorted[y - 1]));
                    }
                } else if y == p {
                    assert(sorted@[x] == old_sorted[x]);
                    assert(entry_le(old_sorted[x], e));
                } else {
                    let x0 = if x < p {
                        x
                    } else {
                        x - 1
                    };
                    let y0 = if y < p {
                        y
                    } else {
                        y - 1
                    };
                    assert(sorted@[x] == old_sorted[x0]);
                    assert(sorted@[y] == old_sorted[y0]);
                    assert(r(old_sorted[x0], old_sorted[y0]));
                }
            }
            lemma_insert_to_multiset(old_sorted, p as int, e);
            broadcast use vstd::seq_lib::group_to_multiset_ensures;

            assert(ms@.take(i + 1) =~= ms@.take(i as int).push(ms@[i as int]));
            assert(ms@.take(i + 1).to_multiset() =~= ms@.take(i as int).to_multiset().insert(
                ms@[i as int],
            ));
            assert(sorted@.to_multiset() =~= ms@.take(i + 1).to_multiset());
        }
        i = i + 1;
    }
    proof {
        assert(ms@.take(ms@.len() as int) =~= ms@);
        ms@.lemma_sort_by_ensures(entry_order());
        lemma_sorted_unique(sorted@, ms@.sort_by(entry_order()), entry_order());
        assert(sorted@ =~= ms@.sort_by(entry_order()));
    }
    let ghost full = sorted@;
    sorted.truncate(limit);
    proof {
        if limit as int <= full.len() {
            assert(sorted@ =~= full.take(min_int(limit as int, ms@.len() as int)));
        } else {
            assert(sorted@ =~= full.take(min_int(limit as int, ms@.len() as int)));
        }
        assert forall|x: int, y: int|
            0 <= x < y < sorted@.len() implies #[trigger] entry_order()(
            sorted@[x],
            sorted@[y],
        ) by {
            assert(sorted@[x] == full[x]);
            assert(sorted@[y] == full[y]);
        }
    }
    sorted
}

/// The ranked list holds `min(limit, matches)` entries; a zero limit gives
/// an empty list.
pub proof fn lemma_selection_bound(ms: Seq<ScoredIdx>, limit: int)
    requires
        0 <= limit,
    ensures
        select_spec(ms, limit).len() == min_int(limit, ms.len() as int),
        limit == 0 ==> select_spec(ms, limit).len() == 0,
{
    lemma_entry_order_total();
    ms.lemma_sort_by_ensures(entry_order());
    broadcast use vstd::seq_lib::group_to_multiset_ensures;

    let sorted = ms.sort_by(entry_order());
    assert(sorted.to_multiset().len() == ms.to_multiset().len());
    assert(sorted.len() == sorted.to_multiset().len());
    assert(ms.len() == ms.to_multiset().len());
}

/// The sorted matches are as many as the matches themselves.
proof fn lemma_sort_len(ms: Seq<ScoredIdx>)
    ensures
        ms.sort_by(entry_order()).len() == ms.len(),
{
    lemma_entry_order_total();
    ms.lemma_sort_by_ensures(entry_order());
    broadcast use vstd::seq_lib::group_to_multiset_ensures;

    let sorted = ms.sort_by(entry_order());
    assert(sorted.to_multiset().len() == ms.to_multiset().len());
    assert(sorted.len() == sorted.to_multiset().len());
    assert(ms.len() == ms.to_multiset().len());
}

/// Adjacent entries of the ranked list come with scores descending; equal
/// scores keep the original input positions ascending.
pub proof fn lemma_selection_order(ms: Seq<ScoredIdx>, limit: int)
    requires
        0 <= limit,
    ensures
        sorted_by(select_spec(ms, limit), entry_order()),
        forall|k: int|
            0 <= k < select_spec(ms, limit).len() - 1 ==> (#[trigger] select_spec(ms, limit)[k]).score
                >= select_spec(ms, limit)[k + 1].score,
        forall|k: int|
            0 <= k < select_spec(ms, limit).len() - 1 && (#[trigger] select_spec(ms, limit)[k]).score
                == select_spec(ms, limit)[k + 1].score ==> select_spec(ms, limit)[k].idx
                <= select_spec(ms, limit)[k + 1].idx,
{
    lemma_entry_order_total();
    ms.lemma_sort_by_ensures(entry_order());
    lemma_sort_len(ms);
    broadcast use vstd::seq_lib::group_to_multiset_ensures;

    let sorted = ms.sort_by(entry_order());
    let r = select_spec(ms, limit);
    assert(r == sorted.take(min_int(limit, ms.len() as int)));
    assert(r.len() <= sorted.len());
    assert forall|x: int, y: int| 0 <= x < y < r.len() implies #[trigger] entry_order()(
        r[x],
        r[y],
    ) by {
        assert(r[x] == sorted[x]);
        assert(r[y] == sorted[y]);
    }
    assert(forall|k: int|
        0 <= k < r.len() - 1 ==> entry_order()(#[trigger] r[k], r[k + 1]));
}

/// Every entry of the ranked list is one of the matches.
pub proof fn lemma_selection_membership(ms: Seq<ScoredIdx>, limit: int)
    requires
        0 <= limit,
    ensures
        forall|k: int|
            0 <= k < select_spec(ms, limit).len() ==> ms.contains(
                #[trigger] select_spec(ms, limit)[k],
            ),
{
    lemma_entry_order_total();
    ms.lemma_sort_by_ensures(entry_order());
    lemma_sort_len(ms);
    broadcast use vstd::seq_lib::group_to_multiset_ensures;

    let sorted = ms.sort_by(entry_order());
    let r = select_spec(ms, limit);
    assert(r.len() <= sorted.len());
    assert forall|k: int| 0 <= k < r.len() implies ms.contains(#[trigger] r[k]) by {
        assert(r[k] == sorted[k]);
        assert(sorted.contains(sorted[k]));
        assert(sorted.to_multiset().count(sorted[k]) > 0);
        assert(ms.to_multiset().count(sorted[k]) > 0);
    }
}

} // verus!
