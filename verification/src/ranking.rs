//! Ranking of scored points: highest score first, ties broken by the
//! canonical order of point IDs.
//!
//! A score is held by its order key: an unsigned integer whose order is the
//! `total_cmp` order of the score.
use crate::model::{id_lt, lemma_id_order, IdValue, PointId};
use crate::order::{is_first_by, lemma_keep_step, strict_by};
use vstd::prelude::*;

verus! {

/// A candidate for a ranked result: its score key, its ID, and where the
/// caller keeps the rest of it.
#[derive(Debug)]
pub struct Ranked {
    /// Orders scores as `f64::total_cmp` does.
    pub key: u64,
    /// The point's ID.
    pub id: PointId,
    /// The caller's index of the point.
    pub row: usize,
}

impl View for Ranked {
    type V = (u64, IdValue, usize);

    open spec fn view(&self) -> (u64, IdValue, usize) {
        (self.key, self.id@, self.row)
    }
}

/// Whether `a` is ranked ahead of `b`: a higher score, or an equal score and
/// an earlier ID.
pub open spec fn ranks_before(a: (u64, IdValue, usize), b: (u64, IdValue, usize)) -> bool {
    a.0 > b.0 || (a.0 == b.0 && id_lt(a.1, b.1))
}

/// Whether the IDs of `s` are pairwise distinct.
pub open spec fn distinct_ids(s: Seq<(u64, IdValue, usize)>) -> bool {
    forall|i: int, j: int| 0 <= i < j < s.len() ==> (#[trigger] s[i]).1 != (#[trigger] s[j]).1
}

/// The ranking as a relation.
pub open spec fn rank_order() -> spec_fn((u64, IdValue, usize), (u64, IdValue, usize)) -> bool {
    |a: (u64, IdValue, usize), b: (u64, IdValue, usize)| ranks_before(a, b)
}

/// The ID of a ranked candidate.
pub open spec fn ranked_id() -> spec_fn((u64, IdValue, usize)) -> IdValue {
    |a: (u64, IdValue, usize)| a.1
}

/// Whether `out` holds the `limit` best-ranked of `all` (all of them if there
/// are fewer), in ranked order.
pub open spec fn is_top(out: Seq<(u64, IdValue, usize)>, all: Seq<(u64, IdValue, usize)>, limit: int) -> bool {
    is_first_by(out, all, limit, rank_order())
}

proof fn lemma_ranks_before(a: (u64, IdValue, usize), b: (u64, IdValue, usize), c: (u64, IdValue, usize))
    ensures
        !ranks_before(a, a),
        ranks_before(a, b) && ranks_before(b, c) ==> ranks_before(a, c),
        a.1 != b.1 ==> ranks_before(a, b) || ranks_before(b, a),
{
    lemma_id_order(a.1, b.1, c.1);
    lemma_id_order(a.1, a.1, a.1);
    lemma_id_order(b.1, a.1, c.1);
}

/// The ranking is strict, and total on candidates of different IDs.
pub proof fn lemma_rank_strict()
    ensures
        strict_by(rank_order(), ranked_id()),
{
    assert forall|a: (u64, IdValue, usize)| !#[trigger] rank_order()(a, a) by {
        lemma_ranks_before(a, a, a);
    }
    assert forall|a: (u64, IdValue, usize), b: (u64, IdValue, usize), c: (u64, IdValue, usize)|
        #[trigger] rank_order()(a, b) && #[trigger] rank_order()(b, c) implies rank_order()(a, c) by {
        lemma_ranks_before(a, b, c);
    }
    assert forall|a: (u64, IdValue, usize), b: (u64, IdValue, usize)|
        ranked_id()(a) != ranked_id()(b) implies #[trigger] rank_order()(a, b) || #[trigger] rank_order()(b, a) by {
        lemma_ranks_before(a, b, b);
    }
}

fn rank_ahead(a: &Ranked, b: &Ranked) -> (r: bool)
    ensures
        r == ranks_before(a@, b@),
{
    a.key > b.key || (a.key == b.key && a.id.precedes(&b.id))
}

/// The `limit` best-ranked candidates, in ranked order.
///
/// Candidate IDs are distinct, as the points of a collection are.
pub fn top_k(candidates: &Vec<Ranked>, limit: usize) -> (r: Vec<Ranked>)
    requires
        distinct_ids(candidates@.map_values(|c: Ranked| c@)),
    ensures
        is_top(r@.map_values(|c: Ranked| c@), candidates@.map_values(|c: Ranked| c@), limit as int),
{
    let ghost all = candidates@.map_values(|c: Ranked| c@);
    let mut out: Vec<Ranked> = Vec::new();
    let mut i: usize = 0;
    while i < candidates.len()
        invariant
            all == candidates@.map_values(|c: Ranked| c@),
            distinct_ids(all),
            i <= candidates@.len(),
            is_top(out@.map_values(|c: Ranked| c@), all.take(i as int), limit as int),
        decreases candidates.len() - i,
    {
        let ghost before = out@.map_values(|c: Ranked| c@);
        let ghost seen = all.take(i as int);
        let ghost x = all[i as int];
        let c = &candidates[i];
        let mut p: usize = 0;
        while p < out.len() && !rank_ahead(c, &out[p])
            invariant
                p <= out@.len(),
                before == out@.map_values(|c: Ranked| c@),
                x == c@,
                forall|q: int| 0 <= q < p ==> !rank_order()(x, #[trigger] before[q]),
            decreases out.len() - p,
        {
            p = p + 1;
        }
        proof {
            assert forall|q: int| 0 <= q < seen.len() implies ranked_id()(#[trigger] seen[q]) != ranked_id()(x) by {
                assert(seen[q] == all[q]);
            }
        }
        proof {
            lemma_rank_strict();
            lemma_keep_step(before, seen, x, p as int, limit as int, rank_order(), ranked_id());
            assert(all.take(i + 1) =~= seen.push(x));
        }
        if p < limit {
            let entry = Ranked { key: c.key, id: c.id.duplicate(), row: c.row };
            out.insert(p, entry);
            assert(out@.map_values(|c: Ranked| c@) =~= before.insert(p as int, x));
            if out.len() > limit {
                let ghost ins = out@;
                out.pop();
                assert(out@.map_values(|c: Ranked| c@) =~= before.insert(p as int, x).drop_last());
            }
        }
        i = i + 1;
    }
    assert(all.take(candidates@.len() as int) =~= all);
    out
}

/// Whether IDs are in strictly increasing canonical order.
pub open spec fn ids_ascending(s: Seq<PointId>) -> bool {
    forall|i: int, j: int| 0 <= i < j < s.len() ==> id_lt((#[trigger] s[i])@, (#[trigger] s[j])@)
}

/// Whether every ID of `seen` is the ID of one of the first `k` candidates.
pub open spec fn seen_from(seen: Seq<PointId>, all: Seq<(u64, IdValue, usize)>, k: int) -> bool {
    forall|m: int| 0 <= m < seen.len() ==> exists|j: int| 0 <= j < k && (#[trigger] seen[m])@ == all[j].1
}

/// Whether the ID of each of the first `k` candidates is in `seen`.
pub open spec fn seen_all(seen: Seq<PointId>, all: Seq<(u64, IdValue, usize)>, k: int) -> bool {
    forall|j: int| 0 <= j < k ==> exists|m: int| 0 <= m < seen.len() && seen[m]@ == (#[trigger] all[j]).1
}

/// Whether the first `k` candidates have distinct IDs.
pub open spec fn distinct_prefix(all: Seq<(u64, IdValue, usize)>, k: int) -> bool {
    forall|i: int, j: int| 0 <= i < j < k ==> (#[trigger] all[i]).1 != (#[trigger] all[j]).1
}

/// Where an ID is among IDs in canonical order, or where it would go.
fn find_id(ids: &Vec<PointId>, id: &PointId) -> (r: Result<usize, usize>)
    requires
        ids_ascending(ids@),
    ensures
        r matches Ok(i) ==> i < ids@.len() && ids@[i as int]@ == id@,
        r matches Err(p) ==> p <= ids@.len() && (forall|j: int| 0 <= j < p ==> id_lt((#[trigger] ids@[j])@, id@))
            && (forall|j: int| p <= j < ids@.len() ==> id_lt(id@, (#[trigger] ids@[j])@)),
{
    let mut lo: usize = 0;
    let mut hi: usize = ids.len();
    while lo < hi
        invariant
            ids_ascending(ids@),
            lo <= hi <= ids@.len(),
            forall|j: int| 0 <= j < lo ==> id_lt((#[trigger] ids@[j])@, id@),
            forall|j: int| hi <= j < ids@.len() ==> id_lt(id@, (#[trigger] ids@[j])@),
        decreases hi - lo,
    {
        let mid = lo + (hi - lo) / 2;
        if ids[mid].same_as(id) {
            return Ok(mid);
        }
        if ids[mid].precedes(id) {
            assert forall|j: int| 0 <= j < mid + 1 implies id_lt((#[trigger] ids@[j])@, id@) by {
                if j < mid {
                    lemma_id_order(ids@[j]@, ids@[mid as int]@, id@);
                }
            }
            lo = mid + 1;
        } else {
            proof {
                lemma_id_order(ids@[mid as int]@, id@, id@);
            }
            assert forall|j: int| mid <= j < ids@.len() implies id_lt(id@, (#[trigger] ids@[j])@) by {
                if j > mid {
                    lemma_id_order(id@, ids@[mid as int]@, ids@[j]@);
                }
            }
            hi = mid;
        }
    }
    Err(lo)
}

proof fn lemma_insert_ascending(before: Seq<PointId>, p: int, x: PointId)
    requires
        0 <= p <= before.len(),
        ids_ascending(before),
        forall|j: int| 0 <= j < p ==> id_lt((#[trigger] before[j])@, x@),
        forall|j: int| p <= j < before.len() ==> id_lt(x@, (#[trigger] before[j])@),
    ensures
        ids_ascending(before.insert(p, x)),
{
    let after = before.insert(p, x);
    assert forall|i: int, j: int| 0 <= i < j < after.len() implies id_lt((#[trigger] after[i])@, (#[trigger] after[j])@) by {
        if j < p {
            assert(after[i] == before[i] && after[j] == before[j]);
        } else if i > p {
            assert(after[i] == before[i - 1] && after[j] == before[j - 1]);
        } else if i == p {
            assert(after[j] == before[j - 1]);
        } else if j == p {
            assert(after[i] == before[i]);
        } else {
            assert(after[i] == before[i] && after[j] == before[j - 1]);
            lemma_id_order(before[i]@, x@, before[j - 1]@);
        }
    }
}

proof fn lemma_insert_seen(before: Seq<PointId>, p: int, x: PointId, all: Seq<(u64, IdValue, usize)>, k: int)
    requires
        0 <= p <= before.len(),
        0 <= k < all.len(),
        x@ == all[k].1,
        seen_from(before, all, k),
        seen_all(before, all, k),
    ensures
        seen_from(before.insert(p, x), all, k + 1),
        seen_all(before.insert(p, x), all, k + 1),
{
    let after = before.insert(p, x);
    assert forall|m: int| 0 <= m < after.len() implies exists|j: int| 0 <= j < k + 1 && (#[trigger] after[m])@ == all[j].1 by {
        if m < p {
            assert(after[m] == before[m]);
        } else if m > p {
            assert(after[m] == before[m - 1]);
        } else {
            assert(after[m]@ == all[k].1);
        }
    }
    assert forall|j: int| 0 <= j < k + 1 implies exists|m: int| 0 <= m < after.len() && after[m]@ == (#[trigger] all[j]).1 by {
        if j == k {
            assert(after[p]@ == all[j].1);
        } else {
            let m = choose|m: int| 0 <= m < before.len() && before[m]@ == all[j].1;
            if m < p {
                assert(after[m] == before[m]);
            } else {
                assert(after[m + 1] == before[m]);
            }
        }
    }
}

proof fn lemma_new_id_distinct(before: Seq<PointId>, p: int, x: PointId, all: Seq<(u64, IdValue, usize)>, k: int)
    requires
        0 <= p <= before.len(),
        0 <= k < all.len(),
        x@ == all[k].1,
        seen_all(before, all, k),
        distinct_prefix(all, k),
        forall|j: int| 0 <= j < p ==> id_lt((#[trigger] before[j])@, x@),
        forall|j: int| p <= j < before.len() ==> id_lt(x@, (#[trigger] before[j])@),
    ensures
        distinct_prefix(all, k + 1),
{
    assert forall|i: int, j: int| 0 <= i < j < k + 1 implies (#[trigger] all[i]).1 != (#[trigger] all[j]).1 by {
        if j == k {
            let m = choose|m: int| 0 <= m < before.len() && before[m]@ == all[i].1;
            if m < p {
                lemma_id_order(before[m]@, x@, x@);
            } else {
                lemma_id_order(x@, before[m]@, before[m]@);
            }
        }
    }
}

/// Whether the candidates' IDs are pairwise distinct, as `top_k` requires.
pub fn ids_distinct(candidates: &Vec<Ranked>) -> (r: bool)
    ensures
        r == distinct_ids(candidates@.map_values(|c: Ranked| c@)),
{
    let ghost all = candidates@.map_values(|c: Ranked| c@);
    let mut seen: Vec<PointId> = Vec::new();
    let mut k: usize = 0;
    while k < candidates.len()
        invariant
            k <= candidates@.len(),
            all == candidates@.map_values(|c: Ranked| c@),
            ids_ascending(seen@),
            seen_from(seen@, all, k as int),
            seen_all(seen@, all, k as int),
            distinct_prefix(all, k as int),
        decreases candidates.len() - k,
    {
        let id = &candidates[k].id;
        assert(all[k as int].1 == id@);
        match find_id(&seen, id) {
            Ok(m) => {
                proof {
                    assert(seen_from(seen@, all, k as int));
                    let j = choose|j: int| 0 <= j < k && (#[trigger] seen@[m as int])@ == all[j].1;
                    assert(all[j].1 == all[k as int].1);
                }
                return false;
            },
            Err(p) => {
                let ghost before = seen@;
                let x = id.duplicate();
                proof {
                    lemma_insert_ascending(before, p as int, x);
                    lemma_insert_seen(before, p as int, x, all, k as int);
                    lemma_new_id_distinct(before, p as int, x, all, k as int);
                }
                seen.insert(p, x);
            },
        }
        k = k + 1;
    }
    true
}

} // verus!
