//! The training sample of the search index: the points whose ID digests come
//! first, ties broken by the canonical order of IDs.
use crate::digest::{sha256, sha256_digest};
use crate::meta::SAMPLE_LIMIT;
use crate::model::{bytes_less, bytes_lt, canonical_id_bytes, id_lt, lemma_bytes_order, lemma_id_order, IdValue};
use crate::order::{is_first_by, lemma_keep_step, strict_by};
use crate::points::{id_sorted, Point};
use vstd::prelude::*;

verus! {

/// The digest of an identifier's canonical bytes.
pub open spec fn id_digest(id: IdValue) -> Seq<u8> {
    sha256(canonical_id_bytes(id))
}

/// Whether `a` comes before `b` in the sample order: an earlier digest, or the
/// same digest and an earlier ID.
pub open spec fn sample_before(a: (IdValue, usize), b: (IdValue, usize)) -> bool {
    bytes_lt(id_digest(a.0), id_digest(b.0)) || (id_digest(a.0) == id_digest(b.0) && id_lt(a.0, b.0))
}

/// The sample order as a relation.
pub open spec fn sample_order() -> spec_fn((IdValue, usize), (IdValue, usize)) -> bool {
    |a: (IdValue, usize), b: (IdValue, usize)| sample_before(a, b)
}

/// The ID of an entry.
pub open spec fn entry_id() -> spec_fn((IdValue, usize)) -> IdValue {
    |a: (IdValue, usize)| a.0
}

/// Each point with its row.
pub open spec fn row_entries(s: Seq<Point>) -> Seq<(IdValue, usize)> {
    Seq::new(s.len(), |r: int| (s[r].id@, r as usize))
}

/// The points at some rows, each with its row.
pub open spec fn entries_at(s: Seq<Point>, rows: Seq<usize>) -> Seq<(IdValue, usize)> {
    rows.map_values(|r: usize| (s[r as int].id@, r))
}

proof fn lemma_sample_order(a: (IdValue, usize), b: (IdValue, usize), c: (IdValue, usize))
    ensures
        !sample_before(a, a),
        sample_before(a, b) && sample_before(b, c) ==> sample_before(a, c),
        a.0 != b.0 ==> sample_before(a, b) || sample_before(b, a),
{
    lemma_bytes_order(id_digest(a.0), id_digest(b.0), id_digest(c.0));
    lemma_bytes_order(id_digest(b.0), id_digest(a.0), id_digest(c.0));
    lemma_bytes_order(id_digest(a.0), id_digest(a.0), id_digest(a.0));
    lemma_id_order(a.0, b.0, c.0);
    lemma_id_order(a.0, a.0, a.0);
    lemma_id_order(b.0, a.0, c.0);
}

/// The sample order is strict, and total on entries of different IDs.
pub proof fn lemma_sample_strict()
    ensures
        strict_by(sample_order(), entry_id()),
{
    assert forall|a: (IdValue, usize)| !#[trigger] sample_order()(a, a) by {
        lemma_sample_order(a, a, a);
    }
    assert forall|a: (IdValue, usize), b: (IdValue, usize), c: (IdValue, usize)|
        #[trigger] sample_order()(a, b) && #[trigger] sample_order()(b, c) implies sample_order()(a, c) by {
        lemma_sample_order(a, b, c);
    }
    assert forall|a: (IdValue, usize), b: (IdValue, usize)|
        entry_id()(a) != entry_id()(b) implies #[trigger] sample_order()(a, b) || #[trigger] sample_order()(b, a) by {
        lemma_sample_order(a, b, b);
    }
}

/// The rows of the training sample: the first `SAMPLE_LIMIT` points in
/// sample order (all of them if there are fewer), in that order.
pub fn sample_rows(points: &Vec<Point>) -> (r: Vec<usize>)
    requires
        id_sorted(points@),
    ensures
        is_first_by(entries_at(points@, r@), row_entries(points@), SAMPLE_LIMIT as int, sample_order()),
        forall|i: int| 0 <= i < r@.len() ==> #[trigger] r@[i] < points@.len(),
{
    let ghost all = row_entries(points@);
    let mut digests: Vec<Vec<u8>> = Vec::new();
    let mut k: usize = 0;
    while k < points.len()
        invariant
            k <= points@.len(),
            digests@.len() == k,
            forall|j: int| 0 <= j < k ==> (#[trigger] digests@[j])@ == id_digest(points@[j].id@),
        decreases points.len() - k,
    {
        let canonical = points[k].id.canonical_bytes();
        digests.push(sha256_digest(canonical.as_slice()));
        k = k + 1;
    }
    let mut out: Vec<usize> = Vec::new();
    let mut i: usize = 0;
    while i < points.len()
        invariant
            all == row_entries(points@),
            id_sorted(points@),
            digests@.len() == points@.len(),
            forall|j: int| 0 <= j < points@.len() ==> (#[trigger] digests@[j])@ == id_digest(points@[j].id@),
            i <= points@.len(),
            forall|q: int| 0 <= q < out@.len() ==> #[trigger] out@[q] < i,
            is_first_by(entries_at(points@, out@), all.take(i as int), SAMPLE_LIMIT as int, sample_order()),
        decreases points.len() - i,
    {
        let ghost before = entries_at(points@, out@);
        let ghost seen = all.take(i as int);
        let ghost x = all[i as int];
        let mut p: usize = 0;
        while p < out.len() && !comes_first(&digests, points, i, out[p])
            invariant
                p <= out@.len(),
                i < points@.len(),
                digests@.len() == points@.len(),
                forall|j: int| 0 <= j < points@.len() ==> (#[trigger] digests@[j])@ == id_digest(points@[j].id@),
                forall|q: int| 0 <= q < out@.len() ==> #[trigger] out@[q] < i,
                before == entries_at(points@, out@),
                x == (points@[i as int].id@, i),
                forall|q: int| 0 <= q < p ==> !sample_order()(x, #[trigger] before[q]),
            decreases out.len() - p,
        {
            p = p + 1;
        }
        proof {
            assert forall|q: int| 0 <= q < seen.len() implies entry_id()(#[trigger] seen[q]) != entry_id()(x) by {
                assert(seen[q] == (points@[q].id@, q as usize));
                crate::model::lemma_id_order(points@[q].id@, points@[i as int].id@, points@[i as int].id@);
            }
            lemma_sample_strict();
            lemma_keep_step(before, seen, x, p as int, SAMPLE_LIMIT as int, sample_order(), entry_id());
            assert(all.take(i + 1) =~= seen.push(x));
        }
        if p < SAMPLE_LIMIT {
            out.insert(p, i);
            assert(entries_at(points@, out@) =~= before.insert(p as int, x));
            if out.len() > SAMPLE_LIMIT {
                out.pop();
                assert(entries_at(points@, out@) =~= before.insert(p as int, x).drop_last());
            }
        }
        i = i + 1;
    }
    assert(all.take(points@.len() as int) =~= all);
    out
}

/// Whether the point at row `a` comes before the one at row `b` in sample order.
fn comes_first(digests: &Vec<Vec<u8>>, points: &Vec<Point>, a: usize, b: usize) -> (r: bool)
    requires
        a < points@.len(),
        b < points@.len(),
        digests@.len() == points@.len(),
        forall|j: int| 0 <= j < points@.len() ==> (#[trigger] digests@[j])@ == id_digest(points@[j].id@),
    ensures
        r == sample_order()((points@[a as int].id@, a), (points@[b as int].id@, b)),
{
    let da = &digests[a];
    let db = &digests[b];
    assert(da@ == id_digest(points@[a as int].id@));
    assert(db@ == id_digest(points@[b as int].id@));
    if bytes_less(da.as_slice(), db.as_slice()) {
        true
    } else if bytes_less(db.as_slice(), da.as_slice()) {
        proof {
            lemma_bytes_order(db@, da@, da@);
        }
        false
    } else {
        proof {
            lemma_bytes_order(da@, db@, db@);
        }
        points[a].id.precedes(&points[b].id)
    }
}

} // verus!
