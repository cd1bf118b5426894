use vstd::prelude::*;

use crate::chars::{chars_vec, fold_char, fold_char_exec, is_boundary, is_separator_exec};

verus! {

/// Baseline score of every match; an empty query scores exactly this.
pub const SCORE_BASE: i64 = 16;

/// Bonus for every matched query character.
pub const BONUS_MATCH: i64 = 16;

/// Extra bonus when the matched character immediately follows the previous
/// matched character in the candidate.
pub const BONUS_CONSECUTIVE: i64 = 8;

/// Extra bonus when the matched character sits on a word or segment boundary.
pub const BONUS_BOUNDARY: i64 = 8;

/// Extra bonus when the candidate character equals the query character
/// exactly, without case folding.
pub const BONUS_CASE: i64 = 1;

/// Penalty per unmatched candidate character skipped before a match.
pub const PENALTY_GAP: i64 = 2;

/// Largest number of candidate characters a single call will score; keeps
/// every intermediate score comfortably inside `i64`.
pub const MAX_CANDIDATE_LEN: u64 = 0x20_0000_0000_0000;

/// Contribution of matching query character `qi` at candidate position `ci`;
/// `after` says whether the previous query character was matched at `ci - 1`.
pub open spec fn bonus_at(q: Seq<char>, c: Seq<char>, qi: int, ci: int, after: bool) -> int {
    BONUS_MATCH + (if after {
        BONUS_CONSECUTIVE as int
    } else {
        0
    }) + (if is_boundary(c, ci) {
        BONUS_BOUNDARY as int
    } else {
        0
    }) + (if q[qi] == c[ci] {
        BONUS_CASE as int
    } else {
        0
    })
}

pub open spec fn opt_max(a: Option<int>, b: Option<int>) -> Option<int> {
    match (a, b) {
        (Some(x), Some(y)) => Some(if x >= y { x } else { y }),
        (Some(x), None) => Some(x),
        (None, Some(y)) => Some(y),
        (None, None) => None,
    }
}

/// The best score attainable by matching the query suffix `q[qi..]` inside
/// the candidate suffix `c[ci..]`, maximized over every alignment; `after`
/// records whether `ci - 1` carried the previous match (for the consecutive
/// bonus). `None` means the suffix cannot be matched at all. Skipping a
/// candidate character while a query character is still pending costs the
/// gap penalty; candidate characters after the final match are free.
pub open spec fn best(q: Seq<char>, c: Seq<char>, qi: int, ci: int, after: bool) -> Option<int>
    decreases q.len() - qi, c.len() - ci,
{
    if qi < 0 || ci < 0 {
        None
    } else if qi >= q.len() {
        Some(0)
    } else if ci >= c.len() {
        None
    } else {
        let skip = match best(q, c, qi, ci + 1, false) {
            Some(s) => Some(s - PENALTY_GAP),
            None => None,
        };
        if fold_char(c[ci]) == fold_char(q[qi]) {
            let taken = match best(q, c, qi + 1, ci + 1, true) {
                Some(s) => Some(s + bonus_at(q, c, qi, ci, after)),
                None => None,
            };
            opt_max(taken, skip)
        } else {
            skip
        }
    }
}

/// The full score of a candidate against a query: the baseline plus the best
/// alignment, or `None` when the query is not a fuzzy match.
pub open spec fn score_spec(q: Seq<char>, c: Seq<char>) -> Option<int> {
    match best(q, c, 0, 0, false) {
        Some(s) => Some(SCORE_BASE + s),
        None => None,
    }
}

/// The query suffix `q[qi..]` occurs inside the candidate suffix `c[ci..]`
/// in order, compared case-insensitively.
pub open spec fn is_subseq_at(q: Seq<char>, c: Seq<char>, qi: int, ci: int) -> bool
    decreases q.len() - qi, c.len() - ci,
{
    if qi < 0 || ci < 0 {
        false
    } else if qi >= q.len() {
        true
    } else if ci >= c.len() {
        false
    } else if fold_char(c[ci]) == fold_char(q[qi]) {
        is_subseq_at(q, c, qi + 1, ci + 1) || is_subseq_at(q, c, qi, ci + 1)
    } else {
        is_subseq_at(q, c, qi, ci + 1)
    }
}

/// The matching rule: every character of the query occurs in the candidate,
/// in the same relative order, case-insensitively.
pub open spec fn is_fuzzy_match(q: Seq<char>, c: Seq<char>) -> bool {
    is_subseq_at(q, c, 0, 0)
}

/// A matching query suffix never has more characters left than the
/// candidate suffix it matches into: every query character consumes one.
pub proof fn lemma_subseq_needs_length(q: Seq<char>, c: Seq<char>, qi: int, ci: int)
    requires
        0 <= qi,
        0 <= ci <= c.len(),
    ensures
        is_subseq_at(q, c, qi, ci) ==> q.len() - qi <= c.len() - ci,
    decreases q.len() - qi, c.len() - ci,
{
    if qi >= q.len() {
    } else if ci >= c.len() {
    } else {
        lemma_subseq_needs_length(q, c, qi, ci + 1);
        if fold_char(c[ci]) == fold_char(q[qi]) {
            lemma_subseq_needs_length(q, c, qi + 1, ci + 1);
        }
    }
}

/// A query longer than the candidate cannot match it.
pub proof fn lemma_long_query_no_match(q: Seq<char>, c: Seq<char>)
    ensures
        q.len() > c.len() ==> score_spec(q, c) is None,
{
    lemma_subseq_needs_length(q, c, 0, 0);
    lemma_score_some_iff_match(q, c);
}

/// A candidate has a score exactly when it is a fuzzy match.
pub proof fn lemma_best_is_some_iff_subseq(
    q: Seq<char>,
    c: Seq<char>,
    qi: int,
    ci: int,
    after: bool,
)
    requires
        0 <= qi,
        0 <= ci,
    ensures
        best(q, c, qi, ci, after) is Some <==> is_subseq_at(q, c, qi, ci),
    decreases q.len() - qi, c.len() - ci,
{
    if qi >= q.len() {
    } else if ci >= c.len() {
    } else {
        lemma_best_is_some_iff_subseq(q, c, qi, ci + 1, false);
        if fold_char(c[ci]) == fold_char(q[qi]) {
            lemma_best_is_some_iff_subseq(q, c, qi + 1, ci + 1, true);
        }
    }
}

/// The score is a fuzzy match exactly when the spec says so.
pub proof fn lemma_score_some_iff_match(q: Seq<char>, c: Seq<char>)
    ensures
        score_spec(q, c) is Some <==> is_fuzzy_match(q, c),
{
    lemma_best_is_some_iff_subseq(q, c, 0, 0, false);
}

/// Every attainable score is bounded by the candidate length: a kept
/// candidate character earns at most the sum of all per-character bonuses
/// (33), a skipped one costs at most the gap penalty (2). This keeps the
/// dynamic program inside `i64`.
pub proof fn lemma_best_bounds(q: Seq<char>, c: Seq<char>, qi: int, ci: int, after: bool)
    requires
        0 <= qi,
        0 <= ci <= c.len(),
    ensures
        match best(q, c, qi, ci, after) {
            Some(s) => -2 * (c.len() - ci) <= s <= 33 * (c.len() - ci),
            None => true,
        },
    decreases q.len() - qi, c.len() - ci,
{
    if qi >= q.len() {
    } else if ci >= c.len() {
    } else {
        lemma_best_bounds(q, c, qi, ci + 1, false);
        if fold_char(c[ci]) == fold_char(q[qi]) {
            lemma_best_bounds(q, c, qi + 1, ci + 1, true);
        }
    }
}

/// Appending characters to a candidate never lowers the best attainable
/// score of any suffix: every alignment inside the original candidate is
/// still available, with the very same bonuses and penalties.
pub proof fn lemma_best_append(
    q: Seq<char>,
    c: Seq<char>,
    ext: Seq<char>,
    qi: int,
    ci: int,
    after: bool,
)
    requires
        0 <= qi,
        0 <= ci <= c.len(),
    ensures
        match best(q, c, qi, ci, after) {
            Some(s) => best(q, c + ext, qi, ci, after) is Some && best(
                q,
                c + ext,
                qi,
                ci,
                after,
            )->Some_0 >= s,
            None => true,
        },
    decreases q.len() - qi, c.len() - ci,
{
    if qi >= q.len() {
    } else if ci >= c.len() {
    } else {
        lemma_best_append(q, c, ext, qi, ci + 1, false);
        if fold_char(c[ci]) == fold_char(q[qi]) {
            lemma_best_append(q, c, ext, qi + 1, ci + 1, true);
            assert((c + ext)[ci] == c[ci]);
            assert(bonus_at(q, c + ext, qi, ci, after) == bonus_at(q, c, qi, ci, after));
        }
    }
}

/// Appending characters to a matching candidate keeps it matching and never
/// decreases its score: the bonuses of the existing alignment only stand,
/// and trailing unmatched characters carry no penalty.
pub proof fn lemma_append_never_decreases(q: Seq<char>, c: Seq<char>, ext: Seq<char>)
    ensures
        score_spec(q, c) is Some ==> score_spec(q, c + ext) is Some,
        score_spec(q, c) is Some ==> score_spec(q, c + ext)->Some_0 >= score_spec(q, c)->Some_0,
{
    lemma_best_append(q, c, ext, 0, 0, false);
}

/// An `i64` score widened to the mathematical integer it stands for.
pub open spec fn opt_widen(r: Option<i64>) -> Option<int> {
    match r {
        Some(s) => Some(s as int),
        None => None,
    }
}

fn opt_max_i64(a: Option<i64>, b: Option<i64>) -> (r: Option<i64>)
    ensures
        opt_widen(r) == opt_max(opt_widen(a), opt_widen(b)),
{
    match (a, b) {
        (Some(x), Some(y)) => if x >= y {
            Some(x)
        } else {
            Some(y)
        },
        (Some(x), None) => Some(x),
        (None, Some(y)) => Some(y),
        (None, None) => None,
    }
}

fn is_boundary_exec(c: &Vec<char>, ci: usize) -> (r: bool)
    requires
        ci < c@.len(),
    ensures
        r == is_boundary(c@, ci as int),
{
    if ci == 0 {
        true
    } else {
        let prev = c[ci - 1];
        let cur = c[ci];
        is_separator_exec(prev) || (('a' <= prev && prev <= 'z') && ('A' <= cur && cur <= 'Z'))
    }
}

/// Scores a candidate against a query, both given as character vectors: the
/// dynamic program fills one row of alignment scores per query character,
/// from the last query character back to the first.
pub fn score_chars(q: &Vec<char>, c: &Vec<char>) -> (r: Option<i64>)
    requires
        c@.len() <= MAX_CANDIDATE_LEN,
    ensures
        opt_widen(r) == score_spec(q@, c@),
{
    let m = q.len();
    let n = c.len();
    if m == 0 {
        return Some(SCORE_BASE);
    }
    // Row for query index `m`: the empty query suffix matches with score 0.
    let mut prev_t: Vec<Option<i64>> = Vec::new();
    prev_t.push(Some(0));
    let mut i: usize = 0;
    while i < n
        invariant
            i <= n,
            prev_t@.len() == i + 1,
            forall|ci: int| 0 <= ci <= i ==> prev_t@[ci] == Some(0i64),
        decreases n - i,
    {
        prev_t.push(Some(0));
        i = i + 1;
    }
    assert forall|ci: int| 0 <= ci <= n implies opt_widen(prev_t@[ci]) == best(
        q@,
        c@,
        m as int,
        ci,
        true,
    ) by {
        assert(prev_t@[ci] == Some(0i64));
    }

    let mut last_f0: Option<i64> = None;
    let mut k = m;
    while k > 0
        invariant
            k <= m,
            m == q@.len(),
            n == c@.len(),
            c@.len() <= MAX_CANDIDATE_LEN,
            prev_t@.len() == n + 1,
            forall|ci: int|
                0 <= ci <= n ==> opt_widen(prev_t@[ci]) == best(q@, c@, k as int, ci, true),
            k < m ==> opt_widen(last_f0) == best(q@, c@, k as int, 0, false),
        decreases k,
    {
        let qi = k - 1;
        let mut row_f: Vec<Option<i64>> = Vec::new();
        let mut row_t: Vec<Option<i64>> = Vec::new();
        row_f.push(None);
        row_t.push(None);
        let mut i2: usize = 0;
        while i2 < n
            invariant
                i2 <= n,
                row_f@.len() == i2 + 1,
                row_t@.len() == i2 + 1,
                forall|ci: int| 0 <= ci <= i2 ==> row_f@[ci] is None,
                forall|ci: int| 0 <= ci <= i2 ==> row_t@[ci] is None,
            decreases n - i2,
        {
            row_f.push(None);
            row_t.push(None);
            i2 = i2 + 1;
        }
        // Candidate exhausted with query characters pending: no match.
        assert(opt_widen(row_f@[n as int]) == best(q@, c@, qi as int, n as int, false));
        assert(opt_widen(row_t@[n as int]) == best(q@, c@, qi as int, n as int, true));

        let mut j = n;
        while j > 0
            invariant
                j <= n,
                qi == k - 1,
                0 < k <= m,
                m == q@.len(),
                n == c@.len(),
                c@.len() <= MAX_CANDIDATE_LEN,
                prev_t@.len() == n + 1,
                forall|ci: int|
                    0 <= ci <= n ==> opt_widen(prev_t@[ci]) == best(q@, c@, k as int, ci, true),
                row_f@.len() == n + 1,
                row_t@.len() == n + 1,
                forall|ci: int|
                    j <= ci <= n ==> opt_widen(row_f@[ci]) == best(q@, c@, qi as int, ci, false),
                forall|ci: int|
                    j <= ci <= n ==> opt_widen(row_t@[ci]) == best(q@, c@, qi as int, ci, true),
            decreases j,
        {
            let ci = j - 1;
            proof {
                lemma_best_bounds(q@, c@, qi as int, j as int, false);
                lemma_best_bounds(q@, c@, k as int, j as int, true);
            }
            let skip: Option<i64> = match row_f[j] {
                Some(s) => Some(s - PENALTY_GAP),
                None => None,
            };
            assert(opt_widen(skip) == match best(q@, c@, qi as int, j as int, false) {
                Some(s) => Some(s - PENALTY_GAP),
                None => None::<int>,
            });
            if fold_char_exec(c[ci]) == fold_char_exec(q[qi]) {
                let mut bonus: i64 = BONUS_MATCH;
                if is_boundary_exec(c, ci) {
                    bonus = bonus + BONUS_BOUNDARY;
                }
                if c[ci] == q[qi] {
                    bonus = bonus + BONUS_CASE;
                }
                let taken_f: Option<i64> = match prev_t[j] {
                    Some(s) => Some(s + bonus),
                    None => None,
                };
                let taken_t: Option<i64> = match prev_t[j] {
                    Some(s) => Some(s + bonus + BONUS_CONSECUTIVE),
                    None => None,
                };
                assert(bonus == BONUS_MATCH + (if is_boundary(c@, ci as int) {
                    BONUS_BOUNDARY as int
                } else {
                    0
                }) + (if q@[qi as int] == c@[ci as int] {
                    BONUS_CASE as int
                } else {
                    0
                }));
                assert(opt_widen(taken_f) == match best(q@, c@, k as int, j as int, true) {
                    Some(s) => Some(s + bonus_at(q@, c@, qi as int, ci as int, false)),
                    None => None::<int>,
                });
                assert(opt_widen(taken_t) == match best(q@, c@, k as int, j as int, true) {
                    Some(s) => Some(s + bonus_at(q@, c@, qi as int, ci as int, true)),
                    None => None::<int>,
                });
                let vf = opt_max_i64(taken_f, skip);
                let vt = opt_max_i64(taken_t, skip);
                row_f.set(ci, vf);
                row_t.set(ci, vt);
            } else {
                row_f.set(ci, skip);
                row_t.set(ci, skip);
            }
            assert(opt_widen(row_f@[ci as int]) == best(q@, c@, qi as int, ci as int, false));
            assert(opt_widen(row_t@[ci as int]) == best(q@, c@, qi as int, ci as int, true));
            j = ci;
        }
        last_f0 = row_f[0];
        prev_t = row_t;
        k = qi;
    }
    proof {
        lemma_best_bounds(q@, c@, 0, 0, false);
    }
    match last_f0 {
        Some(s) => Some(s + SCORE_BASE),
        None => None,
    }
}

/// Scores a candidate string against a query string. `None` means the
/// candidate is not a fuzzy match; a returned score is exactly the one the
/// scoring specification assigns.
pub fn score(query: &str, candidate: &str) -> (r: Option<i64>)
    requires
        candidate@.len() <= MAX_CANDIDATE_LEN,
    ensures
        opt_widen(r) == score_spec(query@, candidate@),
        r is Some <==> is_fuzzy_match(query@, candidate@),
{
    let q = chars_vec(query);
    let c = chars_vec(candidate);
    let r = score_chars(&q, &c);
    proof {
        lemma_score_some_iff_match(query@, candidate@);
    }
    r
}

} // verus!
