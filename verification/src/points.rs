//! Point sets in canonical ID order, and the mutation batches that change them.
use crate::filter::{filter_holds, matches_filter, Filter};
use crate::json::Json;
use crate::model::{id_lt, lemma_id_order, CollectionConfig, IdValue, PointId};
use crate::vectors::{all_finite, validate_vector_components};
use crate::Error;
use vstd::prelude::*;

verus! {

/// A vector and its JSON payload, identified by a typed ID. Vector components
/// are held by their IEEE-754 bit patterns.
#[derive(Debug)]
pub struct Point {
    /// The stable typed identifier for this point.
    pub id: PointId,
    /// The bit patterns of the vector components.
    pub vector: Vec<u32>,
    /// Application-defined metadata used by filters and optional result output.
    pub payload: Vec<(String, Json)>,
}

impl Point {
    /// A point with an empty payload.
    pub fn new(id: PointId, vector: Vec<u32>) -> (r: Point)
        ensures
            r.id == id,
            r.vector == vector,
            r.payload@.len() == 0,
    {
        Point { id, vector, payload: Vec::new() }
    }

    /// The same point with its payload replaced.
    pub fn with_payload(self, payload: Vec<(String, Json)>) -> (r: Point)
        ensures
            r.id == self.id,
            r.vector == self.vector,
            r.payload == payload,
    {
        Point { id: self.id, vector: self.vector, payload }
    }
}

/// Whether the points are in strictly increasing canonical ID order.
pub open spec fn id_sorted(s: Seq<Point>) -> bool {
    forall|i: int, j: int| 0 <= i < j < s.len() ==> id_lt((#[trigger] s[i]).id@, (#[trigger] s[j]).id@)
}

/// Whether some point has this ID.
pub open spec fn holds_id(s: Seq<Point>, id: IdValue) -> bool {
    exists|i: int| 0 <= i < s.len() && (#[trigger] s[i]).id@ == id
}

/// The points keyed by ID.
pub open spec fn point_map(s: Seq<Point>) -> Map<IdValue, Point>
    decreases s.len(),
{
    if s.len() == 0 {
        Map::empty()
    } else {
        point_map(s.drop_last()).insert(s.last().id@, s.last())
    }
}

proof fn lemma_sorted_distinct(s: Seq<Point>, i: int, j: int)
    requires
        id_sorted(s),
        0 <= i < s.len(),
        0 <= j < s.len(),
        s[i].id@ == s[j].id@,
    ensures
        i == j,
{
    if i < j {
        lemma_id_order(s[i].id@, s[j].id@, s[j].id@);
    } else if j < i {
        lemma_id_order(s[j].id@, s[i].id@, s[i].id@);
    }
}

/// A sorted point sequence keyed by ID: its keys are its IDs, and each key
/// maps to the point with that ID.
pub proof fn lemma_point_map(s: Seq<Point>)
    requires
        id_sorted(s),
    ensures
        forall|id: IdValue| #[trigger] point_map(s).contains_key(id) <==> holds_id(s, id),
        forall|i: int| 0 <= i < s.len() ==> point_map(s)[(#[trigger] s[i]).id@] == s[i],
    decreases s.len(),
{
    if s.len() > 0 {
        let init = s.drop_last();
        assert forall|i: int, j: int| 0 <= i < j < init.len() implies id_lt((#[trigger] init[i]).id@, (#[trigger] init[j]).id@) by {
            assert(init[i] == s[i] && init[j] == s[j]);
        }
        lemma_point_map(init);
        assert forall|id: IdValue| #[trigger] point_map(s).contains_key(id) <==> holds_id(s, id) by {
            let last = s.len() - 1;
            assert(s.last() == s[last]);
            if holds_id(s, id) {
                let i = choose|i: int| 0 <= i < s.len() && (#[trigger] s[i]).id@ == id;
                if i < last {
                    assert(init[i] == s[i]);
                    assert(holds_id(init, id));
                }
            }
            if point_map(s).contains_key(id) {
                if id == s.last().id@ {
                    assert(s[last].id@ == id);
                } else {
                    assert(point_map(init).contains_key(id));
                    let i = choose|i: int| 0 <= i < init.len() && (#[trigger] init[i]).id@ == id;
                    assert(s[i] == init[i]);
                }
            }
        }
        assert forall|i: int| 0 <= i < s.len() implies point_map(s)[(#[trigger] s[i]).id@] == s[i] by {
            if i < s.len() - 1 {
                assert(init[i] == s[i]);
                if s[i].id@ == s.last().id@ {
                    lemma_sorted_distinct(s, i, s.len() - 1);
                }
            }
        }
    }
}

/// The points of a sorted sequence without its last point are keyed as the
/// whole sequence is, less the last point's ID.
proof fn lemma_point_map_drop_last(s: Seq<Point>)
    requires
        id_sorted(s),
        s.len() > 0,
    ensures
        id_sorted(s.drop_last()),
        point_map(s.drop_last()) == point_map(s).remove(s.last().id@),
{
    let init = s.drop_last();
    assert forall|i: int, j: int| 0 <= i < j < init.len() implies id_lt((#[trigger] init[i]).id@, (#[trigger] init[j]).id@) by {
        assert(init[i] == s[i] && init[j] == s[j]);
    }
    lemma_point_map(init);
    if point_map(init).contains_key(s.last().id@) {
        let i = choose|i: int| 0 <= i < init.len() && (#[trigger] init[i]).id@ == s.last().id@;
        assert(init[i] == s[i]);
        assert(s[s.len() - 1] == s.last());
        lemma_sorted_distinct(s, i, s.len() - 1);
    }
    assert(point_map(init) =~= point_map(s).remove(s.last().id@));
}

/// Canonical order is unique: two ID-sorted point sequences that hold the same
/// points by ID are the same sequence, so equivalent data has exactly one
/// canonical arrangement, whatever order it arrived in.
pub proof fn lemma_canonical_unique(s: Seq<Point>, t: Seq<Point>)
    requires
        id_sorted(s),
        id_sorted(t),
        point_map(s) == point_map(t),
    ensures
        s == t,
    decreases s.len(),
{
    lemma_point_map(s);
    lemma_point_map(t);
    if s.len() == 0 || t.len() == 0 {
        if t.len() > 0 {
            assert(point_map(t).contains_key(t[0].id@));
        }
        if s.len() > 0 {
            assert(point_map(s).contains_key(s[0].id@));
        }
        assert(s =~= t);
    } else {
        let ls = s.len() - 1;
        let lt = t.len() - 1;
        let a = s[ls];
        let b = t[lt];
        assert(s.last() == a && t.last() == b);
        assert(point_map(s).contains_key(a.id@));
        assert(holds_id(t, a.id@));
        let j = choose|j: int| 0 <= j < t.len() && (#[trigger] t[j]).id@ == a.id@;
        assert(point_map(t).contains_key(b.id@));
        assert(holds_id(s, b.id@));
        let i = choose|i: int| 0 <= i < s.len() && (#[trigger] s[i]).id@ == b.id@;
        lemma_id_order(a.id@, b.id@, a.id@);
        if a.id@ != b.id@ {
            assert(j != lt);
            assert(i != ls);
            assert(id_lt(t[j].id@, t[lt].id@));
            assert(id_lt(s[i].id@, s[ls].id@));
            assert(false);
        }
        assert(point_map(s)[a.id@] == a);
        assert(point_map(t)[b.id@] == b);
        lemma_point_map_drop_last(s);
        lemma_point_map_drop_last(t);
        lemma_canonical_unique(s.drop_last(), t.drop_last());
        assert(s =~= s.drop_last().push(a));
        assert(t =~= t.drop_last().push(b));
    }
}

/// Whether points are in strictly increasing canonical ID order, as the
/// functions over point sets require.
pub fn points_sorted(points: &Vec<Point>) -> (r: bool)
    ensures
        r == id_sorted(points@),
{
    if points.len() == 0 {
        return true;
    }
    let mut k: usize = 1;
    while k < points.len()
        invariant
            1 <= k <= points@.len(),
            forall|i: int, j: int| 0 <= i < j < k ==> id_lt((#[trigger] points@[i]).id@, (#[trigger] points@[j]).id@),
        decreases points.len() - k,
    {
        if !points[k - 1].id.precedes(&points[k].id) {
            return false;
        }
        assert forall|i: int, j: int| 0 <= i < j < k + 1 implies id_lt((#[trigger] points@[i]).id@, (#[trigger] points@[j]).id@) by {
            if j == k && i < k - 1 {
                lemma_id_order(points@[i].id@, points@[k - 1].id@, points@[j].id@);
            }
        }
        k = k + 1;
    }
    true
}

/// Where an ID is, or where it would go.
pub fn find_point(points: &Vec<Point>, id: &PointId) -> (r: Result<usize, usize>)
    requires
        id_sorted(points@),
    ensures
        r matches Ok(i) ==> i < points@.len() && points@[i as int].id@ == id@,
        r matches Err(p) ==> p <= points@.len() && (forall|j: int| 0 <= j < p ==> id_lt((#[trigger] points@[j]).id@, id@))
            && (forall|j: int| p <= j < points@.len() ==> id_lt(id@, (#[trigger] points@[j]).id@)),
{
    let mut lo: usize = 0;
    let mut hi: usize = points.len();
    while lo < hi
        invariant
            id_sorted(points@),
            lo <= hi <= points@.len(),
            forall|j: int| 0 <= j < lo ==> id_lt((#[trigger] points@[j]).id@, id@),
            forall|j: int| hi <= j < points@.len() ==> id_lt(id@, (#[trigger] points@[j]).id@),
        decreases hi - lo,
    {
        let mid = lo + (hi - lo) / 2;
        let here = &points[mid];
        if here.id.same_as(id) {
            return Ok(mid);
        }
        if here.id.precedes(id) {
            assert forall|j: int| 0 <= j < mid + 1 implies id_lt((#[trigger] points@[j]).id@, id@) by {
                if j < mid {
                    lemma_id_order(points@[j].id@, points@[mid as int].id@, id@);
                }
            }
            lo = mid + 1;
        } else {
            proof {
                lemma_id_order(points@[mid as int].id@, id@, id@);
            }
            assert forall|j: int| mid <= j < points@.len() implies id_lt(id@, (#[trigger] points@[j]).id@) by {
                if j > mid {
                    lemma_id_order(id@, points@[mid as int].id@, points@[j].id@);
                }
            }
            hi = mid;
        }
    }
    Err(lo)
}

/// Adds a point, or replaces the point with the same ID.
pub fn upsert_point(points: &mut Vec<Point>, point: Point)
    requires
        id_sorted(old(points)@),
    ensures
        id_sorted(final(points)@),
        point_map(final(points)@) == point_map(old(points)@).insert(point.id@, point),
{
    let ghost before = points@;
    let ghost p = point;
    proof {
        lemma_point_map(before);
    }
    match find_point(points, &point.id) {
        Ok(i) => {
            points.set(i, point);
            let ghost after = points@;
            assert forall|a: int, b: int| 0 <= a < b < after.len() implies id_lt((#[trigger] after[a]).id@, (#[trigger] after[b]).id@) by {
                assert(after[a].id@ == before[a].id@);
                assert(after[b].id@ == before[b].id@);
            }
            proof {
                lemma_point_map(after);
                assert forall|id: IdValue| #[trigger] point_map(after).contains_key(id) <==> point_map(before).insert(p.id@, p).contains_key(id) by {
                    if holds_id(after, id) {
                        let k = choose|k: int| 0 <= k < after.len() && (#[trigger] after[k]).id@ == id;
                        assert(before[k].id@ == id);
                    }
                    if holds_id(before, id) {
                        let k = choose|k: int| 0 <= k < before.len() && (#[trigger] before[k]).id@ == id;
                        assert(after[k].id@ == id);
                    }
                }
                assert forall|id: IdValue| #[trigger] point_map(after).contains_key(id) implies point_map(after)[id] == point_map(before).insert(p.id@, p)[id] by {
                    let k = choose|k: int| 0 <= k < after.len() && (#[trigger] after[k]).id@ == id;
                    assert(point_map(after)[after[k].id@] == after[k]);
                    if k != i {
                        assert(after[k] == before[k]);
                        assert(point_map(before)[before[k].id@] == before[k]);
                        if id == p.id@ {
                            lemma_sorted_distinct(before, k, i as int);
                        }
                    }
                }
                assert(point_map(after) =~= point_map(before).insert(p.id@, p));
            }
        },
        Err(i) => {
            points.insert(i, point);
            let ghost after = points@;
            assert forall|a: int, b: int| 0 <= a < b < after.len() implies id_lt((#[trigger] after[a]).id@, (#[trigger] after[b]).id@) by {
                if b < i {
                } else if b == i {
                } else if a < i {
                    lemma_id_order(after[a].id@, p.id@, after[b].id@);
                } else if a == i {
                } else {
                }
            }
            proof {
                lemma_point_map(after);
                assert forall|id: IdValue| #[trigger] point_map(after).contains_key(id) <==> point_map(before).insert(p.id@, p).contains_key(id) by {
                    if holds_id(after, id) {
                        let k = choose|k: int| 0 <= k < after.len() && (#[trigger] after[k]).id@ == id;
                        if k < i {
                            assert(before[k].id@ == id);
                        } else if k > i {
                            assert(before[k - 1].id@ == id);
                        }
                    }
                    if holds_id(before, id) {
                        let k = choose|k: int| 0 <= k < before.len() && (#[trigger] before[k]).id@ == id;
                        if k < i {
                            assert(after[k].id@ == id);
                        } else {
                            assert(after[k + 1].id@ == id);
                        }
                    }
                    if id == p.id@ {
                        assert(after[i as int].id@ == id);
                    }
                }
                assert forall|id: IdValue| #[trigger] point_map(after).contains_key(id) implies point_map(after)[id] == point_map(before).insert(p.id@, p)[id] by {
                    let k = choose|k: int| 0 <= k < after.len() && (#[trigger] after[k]).id@ == id;
                    assert(point_map(after)[after[k].id@] == after[k]);
                    if k < i {
                        assert(after[k] == before[k]);
                        assert(point_map(before)[before[k].id@] == before[k]);
                        lemma_id_order(id, p.id@, p.id@);
                    } else if k > i {
                        assert(after[k] == before[k - 1]);
                        assert(point_map(before)[before[k - 1].id@] == before[k - 1]);
                        lemma_id_order(id, p.id@, p.id@);
                    }
                }
                assert(point_map(after) =~= point_map(before).insert(p.id@, p));
            }
        },
    }
}

/// Removes the point with this ID, if there is one.
pub fn delete_point(points: &mut Vec<Point>, id: &PointId)
    requires
        id_sorted(old(points)@),
    ensures
        id_sorted(final(points)@),
        point_map(final(points)@) == point_map(old(points)@).remove(id@),
{
    let ghost before = points@;
    proof {
        lemma_point_map(before);
    }
    match find_point(points, id) {
        Ok(i) => {
            points.remove(i);
            let ghost after = points@;
            assert forall|a: int, b: int| 0 <= a < b < after.len() implies id_lt((#[trigger] after[a]).id@, (#[trigger] after[b]).id@) by {
                if a < i && b >= i {
                    assert(after[b] == before[b + 1]);
                } else if a >= i {
                    assert(after[a] == before[a + 1]);
                    assert(after[b] == before[b + 1]);
                }
            }
            proof {
                lemma_point_map(after);
                assert forall|k: IdValue| #[trigger] point_map(after).contains_key(k) <==> point_map(before).remove(id@).contains_key(k) by {
                    if holds_id(after, k) {
                        let j = choose|j: int| 0 <= j < after.len() && (#[trigger] after[j]).id@ == k;
                        if j < i {
                            assert(before[j].id@ == k);
                            if k == id@ {
                                lemma_sorted_distinct(before, j, i as int);
                            }
                        } else {
                            assert(before[j + 1].id@ == k);
                            if k == id@ {
                                lemma_sorted_distinct(before, j + 1, i as int);
                            }
                        }
                    }
                    if holds_id(before, k) && k != id@ {
                        let j = choose|j: int| 0 <= j < before.len() && (#[trigger] before[j]).id@ == k;
                        if j < i {
                            assert(after[j].id@ == k);
                        } else if j > i {
                            assert(after[j - 1].id@ == k);
                        }
                    }
                }
                assert forall|k: IdValue| #[trigger] point_map(after).contains_key(k) implies point_map(after)[k] == point_map(before).remove(id@)[k] by {
                    let j = choose|j: int| 0 <= j < after.len() && (#[trigger] after[j]).id@ == k;
                    assert(point_map(after)[after[j].id@] == after[j]);
                    if j < i {
                        assert(after[j] == before[j]);
                        assert(point_map(before)[before[j].id@] == before[j]);
                    } else {
                        assert(after[j] == before[j + 1]);
                        assert(point_map(before)[before[j + 1].id@] == before[j + 1]);
                    }
                }
                assert(point_map(after) =~= point_map(before).remove(id@));
            }
        },
        Err(i) => {
            proof {
                assert(!holds_id(before, id@)) by {
                    if holds_id(before, id@) {
                        let j = choose|j: int| 0 <= j < before.len() && (#[trigger] before[j]).id@ == id@;
                        lemma_id_order(id@, id@, id@);
                    }
                }
                assert(point_map(before) =~= point_map(before).remove(id@));
            }
        },
    }
}

/// The points of `s` that the filter does not match, in order.
pub open spec fn unmatched(s: Seq<Point>, f: Filter) -> Seq<Point>
    decreases s.len(),
{
    if s.len() == 0 {
        Seq::empty()
    } else {
        let rest = unmatched(s.drop_last(), f);
        let p = s.last();
        if filter_holds(f, p.id@, p.payload@) {
            rest
        } else {
            rest.push(p)
        }
    }
}

/// The points of a keyed set that the filter does not match.
pub open spec fn map_unmatched(m: Map<IdValue, Point>, f: Filter) -> Map<IdValue, Point> {
    Map::new(|id: IdValue| m.contains_key(id) && !filter_holds(f, id, m[id].payload@), |id: IdValue| m[id])
}

proof fn lemma_unmatched(s: Seq<Point>, f: Filter)
    requires
        id_sorted(s),
    ensures
        id_sorted(unmatched(s, f)),
        forall|k: int| 0 <= k < unmatched(s, f).len() ==> s.contains(#[trigger] unmatched(s, f)[k]),
        forall|i: int| 0 <= i < s.len() && !filter_holds(f, (#[trigger] s[i]).id@, s[i].payload@) ==> unmatched(s, f).contains(s[i]),
        forall|k: int| 0 <= k < unmatched(s, f).len() ==> !filter_holds(f, (#[trigger] unmatched(s, f)[k]).id@, unmatched(s, f)[k].payload@),
    decreases s.len(),
{
    if s.len() > 0 {
        let init = s.drop_last();
        assert forall|i: int, j: int| 0 <= i < j < init.len() implies id_lt((#[trigger] init[i]).id@, (#[trigger] init[j]).id@) by {
            assert(init[i] == s[i] && init[j] == s[j]);
        }
        lemma_unmatched(init, f);
        let r = unmatched(init, f);
        let last = s.len() - 1;
        assert(s.last() == s[last]);
        assert forall|k: int| 0 <= k < r.len() implies s.contains(#[trigger] r[k]) by {
            assert(init.contains(r[k]));
            let i = choose|i: int| 0 <= i < init.len() && init[i] == r[k];
            assert(s[i] == init[i]);
        }
        if !filter_holds(f, s.last().id@, s.last().payload@) {
            let u = r.push(s.last());
            assert forall|a: int, b: int| 0 <= a < b < u.len() implies id_lt((#[trigger] u[a]).id@, (#[trigger] u[b]).id@) by {
                if b == u.len() - 1 {
                    assert(s.contains(r[a]));
                    let i = choose|i: int| 0 <= i < s.len() && s[i] == r[a];
                    assert(init.contains(r[a]));
                    let i2 = choose|i2: int| 0 <= i2 < init.len() && init[i2] == r[a];
                    assert(s[i2] == r[a]);
                }
            }
            assert forall|k: int| 0 <= k < u.len() implies s.contains(#[trigger] u[k]) by {
                if k < r.len() {
                    assert(u[k] == r[k]);
                } else {
                    assert(s[last] == u[k]);
                }
            }
            assert forall|i: int| 0 <= i < s.len() && !filter_holds(f, (#[trigger] s[i]).id@, s[i].payload@) implies u.contains(s[i]) by {
                if i < last {
                    assert(init[i] == s[i]);
                    assert(r.contains(s[i]));
                    let k = choose|k: int| 0 <= k < r.len() && r[k] == s[i];
                    assert(u[k] == s[i]);
                } else {
                    assert(u[r.len() as int] == s[i]);
                }
            }
            assert forall|k: int| 0 <= k < u.len() implies !filter_holds(f, (#[trigger] u[k]).id@, u[k].payload@) by {
                if k < r.len() {
                    assert(u[k] == r[k]);
                }
            }
        } else {
            assert forall|i: int| 0 <= i < s.len() && !filter_holds(f, (#[trigger] s[i]).id@, s[i].payload@) implies r.contains(s[i]) by {
                if i < last {
                    assert(init[i] == s[i]);
                }
            }
        }
    }
}

proof fn lemma_unmatched_map(s: Seq<Point>, f: Filter)
    requires
        id_sorted(s),
    ensures
        id_sorted(unmatched(s, f)),
        point_map(unmatched(s, f)) == map_unmatched(point_map(s), f),
{
    lemma_unmatched(s, f);
    let u = unmatched(s, f);
    lemma_point_map(s);
    lemma_point_map(u);
    let m = map_unmatched(point_map(s), f);
    assert forall|id: IdValue| #[trigger] point_map(u).contains_key(id) <==> m.contains_key(id) by {
        if holds_id(u, id) {
            let k = choose|k: int| 0 <= k < u.len() && (#[trigger] u[k]).id@ == id;
            assert(s.contains(u[k]));
            let i = choose|i: int| 0 <= i < s.len() && s[i] == u[k];
            assert(point_map(s)[s[i].id@] == s[i]);
        }
        if m.contains_key(id) {
            let i = choose|i: int| 0 <= i < s.len() && (#[trigger] s[i]).id@ == id;
            assert(point_map(s)[s[i].id@] == s[i]);
            assert(u.contains(s[i]));
            let k = choose|k: int| 0 <= k < u.len() && u[k] == s[i];
            assert(u[k].id@ == id);
        }
    }
    assert forall|id: IdValue| #[trigger] point_map(u).contains_key(id) implies point_map(u)[id] == m[id] by {
        let k = choose|k: int| 0 <= k < u.len() && (#[trigger] u[k]).id@ == id;
        assert(point_map(u)[u[k].id@] == u[k]);
        assert(s.contains(u[k]));
        let i = choose|i: int| 0 <= i < s.len() && s[i] == u[k];
        assert(point_map(s)[s[i].id@] == s[i]);
    }
    assert(point_map(u) =~= m);
}

/// Removes every point that the filter matches.
pub fn delete_matching(points: Vec<Point>, filter: &Filter) -> (r: Vec<Point>)
    requires
        id_sorted(points@),
    ensures
        id_sorted(r@),
        point_map(r@) == map_unmatched(point_map(points@), *filter),
{
    let ghost all = points@;
    assert(all.len() == points.len());
    let mut points = points;
    let mut reversed: Vec<Point> = Vec::new();
    while points.len() > 0
        invariant
            all == points@ + reversed@.reverse(),
        decreases points.len(),
    {
        let p = points.pop().unwrap();
        let ghost before = reversed@;
        reversed.push(p);
        assert(reversed@.reverse() =~= seq![p] + before.reverse());
    }
    assert(reversed@ =~= all.skip(0).reverse());
    let mut out: Vec<Point> = Vec::new();
    let mut j: usize = 0;
    while reversed.len() > 0
        invariant
            reversed@ == all.skip(j as int).reverse(),
            reversed@.len() + j == all.len(),
            all.len() <= usize::MAX,
            j <= all.len(),
            out@ == unmatched(all.take(j as int), *filter),
        decreases reversed.len(),
    {
        let ghost before = reversed@;
        let p = reversed.pop().unwrap();
        assert(all.take(j + 1).drop_last() =~= all.take(j as int));
        assert(all[j as int] == p) by {
            assert(before[before.len() - 1] == all.skip(j as int)[0]);
        }
        assert(reversed@ =~= all.skip(j + 1).reverse());
        if !matches_filter(filter, &p.id, &p.payload) {
            out.push(p);
        }
        j = j + 1;
    }
    assert(all.take(all.len() as int) =~= all);
    proof {
        lemma_unmatched_map(all, *filter);
    }
    out
}

/// One operation in an ordered mutation batch.
#[derive(Debug)]
pub enum SnapshotMutation {
    /// Adds a new point or replaces an existing point with the same typed ID.
    Upsert { point: Point },
    /// Deletes the supplied typed IDs; missing IDs are ignored.
    DeleteIds { ids: Vec<PointId> },
    /// Deletes every point matching a filter, evaluated on the state so far.
    DeleteFilter { filter: Filter },
}

impl SnapshotMutation {
    /// An upsert of one point.
    pub fn upsert(point: Point) -> (r: SnapshotMutation)
        ensures
            r == (SnapshotMutation::Upsert { point }),
    {
        SnapshotMutation::Upsert { point }
    }

    /// A deletion of the given typed IDs.
    pub fn delete_ids(ids: Vec<PointId>) -> (r: SnapshotMutation)
        ensures
            r == (SnapshotMutation::DeleteIds { ids }),
    {
        SnapshotMutation::DeleteIds { ids }
    }

    /// A deletion of every point that matches a filter.
    pub fn delete_filter(filter: Filter) -> (r: SnapshotMutation)
        ensures
            r == (SnapshotMutation::DeleteFilter { filter }),
    {
        SnapshotMutation::DeleteFilter { filter }
    }
}

/// Whether a point fits a collection: the configured dimension and finite components.
pub open spec fn point_ok(p: Point, config: CollectionConfig) -> bool {
    p.vector@.len() == config.dimension && all_finite(p.vector@)
}

/// Checks a point against a collection configuration: it must have the
/// collection's dimension and finite components; otherwise `Invalid`.
pub fn validate_point(point: &Point, config: &CollectionConfig) -> (r: Result<(), Error>)
    ensures
        r is Ok <==> point_ok(*point, *config),
        r matches Err(e) ==> e is Invalid,
{
    if point.vector.len() != config.dimension {
        return Err(Error::Invalid("point dimension does not match the collection".to_string()));
    }
    validate_vector_components(point.vector.as_slice())
}

/// The keyed set with the given IDs removed.
pub open spec fn remove_ids(m: Map<IdValue, Point>, ids: Seq<PointId>) -> Map<IdValue, Point>
    decreases ids.len(),
{
    if ids.len() == 0 {
        m
    } else {
        remove_ids(m.remove(ids[0]@), ids.drop_first())
    }
}

/// The result of applying mutations `ms` in order to a keyed point set, where
/// `upserted` holds the IDs already upserted in this batch, or `None` when a
/// mutation is rejected: an upserted point that does not fit the collection or
/// repeats an ID upserted earlier in the batch, or an empty ID deletion.
pub open spec fn apply_from(
    m: Map<IdValue, Point>,
    upserted: Set<IdValue>,
    config: CollectionConfig,
    ms: Seq<SnapshotMutation>,
) -> Option<Map<IdValue, Point>>
    decreases ms.len(),
{
    if ms.len() == 0 {
        Some(m)
    } else {
        match ms[0] {
            SnapshotMutation::Upsert { point } => {
                if !point_ok(point, config) || upserted.contains(point.id@) {
                    None
                } else {
                    apply_from(m.insert(point.id@, point), upserted.insert(point.id@), config, ms.drop_first())
                }
            },
            SnapshotMutation::DeleteIds { ids } => {
                if ids@.len() == 0 {
                    None
                } else {
                    apply_from(remove_ids(m, ids@), upserted, config, ms.drop_first())
                }
            },
            SnapshotMutation::DeleteFilter { filter } => apply_from(
                map_unmatched(m, filter),
                upserted,
                config,
                ms.drop_first(),
            ),
        }
    }
}

/// The result of a mutation batch: `None` for an empty batch or a rejected mutation.
pub open spec fn applied(m: Map<IdValue, Point>, config: CollectionConfig, ms: Seq<SnapshotMutation>) -> Option<Map<IdValue, Point>> {
    if ms.len() == 0 {
        None
    } else {
        apply_from(m, Set::empty(), config, ms)
    }
}

/// `v` in reverse order.
pub fn reversed<T>(v: Vec<T>) -> (r: Vec<T>)
    ensures
        r@ == v@.reverse(),
{
    let ghost all = v@;
    let mut v = v;
    let mut r: Vec<T> = Vec::new();
    while v.len() > 0
        invariant
            all == v@ + r@.reverse(),
        decreases v.len(),
    {
        let x = v.pop().unwrap();
        let ghost before = r@;
        r.push(x);
        assert(r@.reverse() =~= seq![x] + before.reverse());
    }
    assert(r@ =~= all.reverse()) by {
        assert(all =~= r@.reverse());
    }
    r
}

/// The points of a stored shard from its decoded rows: the IDs, the payload
/// objects and the vectors, joined row by row. A shard with no rows, a first
/// vector whose length is not `dimension`, and row counts that differ are
/// `Corrupt`.
#[verifier::loop_isolation(false)]
pub fn shard_points(ids: Vec<PointId>, payloads: Vec<Vec<(String, Json)>>, vectors: Vec<Vec<u32>>, dimension: usize) -> (r:
    Result<Vec<Point>, Error>)
    ensures
        r is Ok <==> ids@.len() > 0 && vectors@[0]@.len() == dimension && payloads@.len() == ids@.len()
            && vectors@.len() == ids@.len(),
        r matches Err(e) ==> e is Corrupt,
        r matches Ok(ps) ==> ps@.len() == ids@.len() && forall|i: int|
            0 <= i < ps@.len() ==> (#[trigger] ps@[i]).id == ids@[i] && ps@[i].payload == payloads@[i]
                && ps@[i].vector == vectors@[i],
{
    if ids.len() == 0 {
        return Err(Error::Corrupt("empty format-2 point shard must not exist".to_string()));
    }
    if vectors.len() > 0 && vectors[0].len() != dimension {
        return Err(Error::Corrupt("format-2 vector dimension does not match metadata".to_string()));
    }
    if ids.len() != payloads.len() || ids.len() != vectors.len() {
        return Err(Error::Corrupt("format-2 shard row counts do not match".to_string()));
    }
    let ghost all_ids = ids@;
    let ghost all_payloads = payloads@;
    let ghost all_vectors = vectors@;
    let n = ids.len();
    let mut pending_ids = reversed(ids);
    let mut pending_payloads = reversed(payloads);
    let mut pending_vectors = reversed(vectors);
    let mut out: Vec<Point> = Vec::new();
    while pending_ids.len() > 0
        invariant
            pending_ids@.len() == pending_payloads@.len(),
            pending_ids@.len() == pending_vectors@.len(),
            out@.len() + pending_ids@.len() == n,
            forall|k: int| 0 <= k < pending_ids@.len() ==> pending_ids@[k] == all_ids[n - 1 - k],
            forall|k: int| 0 <= k < pending_payloads@.len() ==> pending_payloads@[k] == all_payloads[n - 1 - k],
            forall|k: int| 0 <= k < pending_vectors@.len() ==> pending_vectors@[k] == all_vectors[n - 1 - k],
            forall|i: int| 0 <= i < out@.len() ==> (#[trigger] out@[i]).id == all_ids[i] && out@[i].payload
                == all_payloads[i] && out@[i].vector == all_vectors[i],
        decreases pending_ids.len(),
    {
        let ghost m = out@.len();
        let id = pending_ids.pop().unwrap();
        let payload = pending_payloads.pop().unwrap();
        let vector = pending_vectors.pop().unwrap();
        assert(id == all_ids[m as int] && payload == all_payloads[m as int] && vector == all_vectors[m as int]);
        out.push(Point { id, vector, payload });
    }
    Ok(out)
}

/// One upsert per point, in the points' order.
pub fn upserts(points: Vec<Point>) -> (r: Vec<SnapshotMutation>)
    ensures
        r@.len() == points@.len(),
        forall|i: int| 0 <= i < r@.len() ==> r@[i] == (SnapshotMutation::Upsert { point: points@[i] }),
{
    let ghost all = points@;
    let mut pending = reversed(points);
    let mut r: Vec<SnapshotMutation> = Vec::new();
    while pending.len() > 0
        invariant
            r@.len() + pending@.len() == all.len(),
            forall|i: int| 0 <= i < r@.len() ==> r@[i] == (SnapshotMutation::Upsert { point: all[i] }),
            forall|k: int| 0 <= k < pending@.len() ==> pending@[k] == all[all.len() - 1 - k],
        decreases pending.len(),
    {
        let ghost n = r@.len();
        let ghost last = pending@.len() - 1;
        let p = pending.pop().unwrap();
        assert(p == all[n as int]);
        r.push(SnapshotMutation::Upsert { point: p });
    }
    r
}

fn seen_id(ids: &Vec<PointId>, id: &PointId) -> (r: bool)
    ensures
        r == exists|k: int| 0 <= k < ids@.len() && (#[trigger] ids@[k])@ == id@,
{
    let mut k: usize = 0;
    while k < ids.len()
        invariant
            k <= ids@.len(),
            forall|j: int| 0 <= j < k ==> (#[trigger] ids@[j])@ != id@,
        decreases ids.len() - k,
    {
        if ids[k].same_as(id) {
            return true;
        }
        k = k + 1;
    }
    false
}

/// Applies a mutation batch in order to a point set in canonical ID order.
///
/// Fails with `Invalid` for an empty batch, an upserted point that does not
/// fit the collection, a second upsert of one ID within the batch, or an
/// empty ID deletion; the result is then discarded as a whole.
#[verifier::loop_isolation(false)]
pub fn apply_mutations(
    points: Vec<Point>,
    config: &CollectionConfig,
    mutations: Vec<SnapshotMutation>,
) -> (r: Result<Vec<Point>, Error>)
    requires
        id_sorted(points@),
    ensures
        r is Ok <==> applied(point_map(points@), *config, mutations@) is Some,
        r matches Ok(v) ==> id_sorted(v@) && Some(point_map(v@)) == applied(point_map(points@), *config, mutations@),
        r matches Err(e) ==> e is Invalid,
{
    if mutations.len() == 0 {
        return Err(Error::Invalid("snapshot mutation batch must not be empty".to_string()));
    }
    let ghost goal = applied(point_map(points@), *config, mutations@);
    let ghost all = mutations@;
    let mut pending = reversed(mutations);
    let mut points = points;
    let mut upserted: Vec<PointId> = Vec::new();
    let ghost mut up: Set<IdValue> = Set::empty();
    let mut done: usize = 0;
    assert(all.skip(0) =~= all);
    assert(pending@ =~= all.skip(0).reverse());
    while pending.len() > 0
        invariant
            id_sorted(points@),
            all.len() > 0,
            all.len() <= usize::MAX,
            done <= all.len(),
            pending@ == all.skip(done as int).reverse(),
            pending@.len() + done == all.len(),
            forall|x: IdValue| up.contains(x) <==> exists|k: int| 0 <= k < upserted@.len() && (#[trigger] upserted@[k])@ == x,
            goal == apply_from(point_map(points@), up, *config, all.skip(done as int)),
        decreases pending.len(),
    {
        let ghost rest = all.skip(done as int);
        let ghost before = pending@;
        let m = pending.pop().unwrap();
        assert(m == rest[0]) by {
            assert(before[before.len() - 1] == rest[0]);
        }
        assert(pending@ =~= all.skip(done + 1).reverse());
        assert(rest.drop_first() =~= all.skip(done + 1));
        match m {
            SnapshotMutation::Upsert { point } => {
                if validate_point(&point, config).is_err() {
                    return Err(Error::Invalid("invalid point in mutation batch".to_string()));
                }
                if seen_id(&upserted, &point.id) {
                    return Err(Error::Invalid("snapshot mutation batch contains duplicate upsert ID".to_string()));
                }
                let ghost pv = point;
                let ghost old_ups = upserted@;
                let ghost old_up = up;
                upserted.push(point.id.duplicate());
                proof {
                    up = up.insert(pv.id@);
                    assert forall|x: IdValue| up.contains(x) <==> exists|k: int| 0 <= k < upserted@.len() && (#[trigger] upserted@[k])@ == x by {
                        if old_up.contains(x) {
                            let k = choose|k: int| 0 <= k < old_ups.len() && (#[trigger] old_ups[k])@ == x;
                            assert(upserted@[k] == old_ups[k]);
                        }
                        if x == pv.id@ {
                            assert(upserted@[upserted@.len() - 1]@ == x);
                        }
                        if exists|k: int| 0 <= k < upserted@.len() && (#[trigger] upserted@[k])@ == x {
                            let k = choose|k: int| 0 <= k < upserted@.len() && (#[trigger] upserted@[k])@ == x;
                            if k < upserted@.len() - 1 {
                                assert(upserted@[k] == old_ups[k]);
                            }
                        }
                    }
                }
                upsert_point(&mut points, point);
            },
            SnapshotMutation::DeleteIds { ids } => {
                if ids.len() == 0 {
                    return Err(Error::Invalid("snapshot delete_ids mutation must not be empty".to_string()));
                }
                let mut k: usize = 0;
                assert(ids@.skip(0) =~= ids@);
                while k < ids.len()
                    invariant
                        id_sorted(points@),
                        k <= ids@.len(),
                        goal == apply_from(
                            remove_ids(point_map(points@), ids@.skip(k as int)),
                            up,
                            *config,
                            all.skip(done + 1),
                        ),
                    decreases ids.len() - k,
                {
                    let ghost tail = ids@.skip(k as int);
                    assert(tail[0] == ids@[k as int]);
                    assert(tail.drop_first() =~= ids@.skip(k + 1));
                    delete_point(&mut points, &ids[k]);
                    k = k + 1;
                }
                assert(ids@.skip(k as int) =~= Seq::<PointId>::empty());
            },
            SnapshotMutation::DeleteFilter { filter } => {
                points = delete_matching(points, &filter);
            },
        }
        done = done + 1;
    }
    assert(all.skip(done as int) =~= Seq::<SnapshotMutation>::empty());
    Ok(points)
}

/// A read gives back what a write wrote: after a batch that upserts one
/// point, that point is stored under its ID and every other point is unchanged.
pub proof fn lemma_upsert_then_read(m: Map<IdValue, Point>, config: CollectionConfig, p: Point)
    requires
        point_ok(p, config),
    ensures
        applied(m, config, seq![SnapshotMutation::Upsert { point: p }]) == Some(m.insert(p.id@, p)),
        applied(m, config, seq![SnapshotMutation::Upsert { point: p }])->0[p.id@] == p,
{
    let ms = seq![SnapshotMutation::Upsert { point: p }];
    assert(ms.drop_first() =~= Seq::<SnapshotMutation>::empty());
    assert(!Set::<IdValue>::empty().contains(p.id@));
    assert(apply_from(m.insert(p.id@, p), Set::<IdValue>::empty().insert(p.id@), config, ms.drop_first()) == Some(m.insert(p.id@, p)));
    assert(apply_from(m, Set::<IdValue>::empty(), config, ms) == Some(m.insert(p.id@, p)));
}

/// Deleted IDs are gone and nothing else changes.
pub proof fn lemma_delete_ids(m: Map<IdValue, Point>, ids: Seq<PointId>)
    ensures
        forall|k: int| 0 <= k < ids.len() ==> !remove_ids(m, ids).contains_key((#[trigger] ids[k])@),
        forall|id: IdValue|
            (forall|k: int| 0 <= k < ids.len() ==> (#[trigger] ids[k])@ != id) ==> (#[trigger] remove_ids(m, ids).contains_key(id)
                == m.contains_key(id) && (m.contains_key(id) ==> remove_ids(m, ids)[id] == m[id])),
{
    assert forall|k: int| 0 <= k < ids.len() implies !remove_ids(m, ids).contains_key((#[trigger] ids[k])@) by {
        lemma_remove_ids_gone(m, ids, k);
    }
    assert forall|id: IdValue|
        (forall|k: int| 0 <= k < ids.len() ==> (#[trigger] ids[k])@ != id) implies (#[trigger] remove_ids(m, ids).contains_key(id)
            == m.contains_key(id) && (m.contains_key(id) ==> remove_ids(m, ids)[id] == m[id])) by {
        lemma_remove_ids_other(m, ids, id);
    }
}

proof fn lemma_remove_ids_gone(m: Map<IdValue, Point>, ids: Seq<PointId>, k: int)
    requires
        0 <= k < ids.len(),
    ensures
        !remove_ids(m, ids).contains_key(ids[k]@),
    decreases ids.len(),
{
    if k == 0 {
        lemma_remove_ids_keys(m.remove(ids[0]@), ids.drop_first(), ids[0]@);
    } else {
        assert(ids[k] == ids.drop_first()[k - 1]);
        lemma_remove_ids_gone(m.remove(ids[0]@), ids.drop_first(), k - 1);
    }
}

proof fn lemma_remove_ids_other(m: Map<IdValue, Point>, ids: Seq<PointId>, id: IdValue)
    requires
        forall|k: int| 0 <= k < ids.len() ==> (#[trigger] ids[k])@ != id,
    ensures
        remove_ids(m, ids).contains_key(id) == m.contains_key(id),
        m.contains_key(id) ==> remove_ids(m, ids)[id] == m[id],
    decreases ids.len(),
{
    if ids.len() > 0 {
        let rest = ids.drop_first();
        assert(ids[0]@ != id);
        assert forall|k: int| 0 <= k < rest.len() implies (#[trigger] rest[k])@ != id by {
            assert(rest[k] == ids[k + 1]);
        }
        lemma_remove_ids_other(m.remove(ids[0]@), rest, id);
    }
}

proof fn lemma_remove_ids_keys(m: Map<IdValue, Point>, ids: Seq<PointId>, id: IdValue)
    requires
        !m.contains_key(id),
    ensures
        !remove_ids(m, ids).contains_key(id),
    decreases ids.len(),
{
    if ids.len() > 0 {
        lemma_remove_ids_keys(m.remove(ids[0]@), ids.drop_first(), id);
    }
}

/// After a filter deletion no stored point matches the filter, and every point
/// that did not match is kept unchanged.
pub proof fn lemma_delete_filter(m: Map<IdValue, Point>, f: Filter)
    ensures
        forall|id: IdValue| #[trigger] map_unmatched(m, f).contains_key(id) ==> !filter_holds(f, id, map_unmatched(m, f)[id].payload@),
        forall|id: IdValue|
            m.contains_key(id) && !filter_holds(f, id, m[id].payload@) ==> #[trigger] map_unmatched(m, f).contains_key(id)
                && map_unmatched(m, f)[id] == m[id],
{
}

/// A batch is rejected as a whole when it is empty or upserts one ID twice.
pub proof fn lemma_rejected_batches(m: Map<IdValue, Point>, config: CollectionConfig, p: Point, q: Point)
    requires
        point_ok(p, config),
        p.id@ == q.id@,
    ensures
        applied(m, config, Seq::empty()) is None,
        applied(m, config, seq![SnapshotMutation::Upsert { point: p }, SnapshotMutation::Upsert { point: q }]) is None,
{
    let ms = seq![SnapshotMutation::Upsert { point: p }, SnapshotMutation::Upsert { point: q }];
    let rest = seq![SnapshotMutation::Upsert { point: q }];
    assert(ms.drop_first() =~= rest);
    let up = Set::<IdValue>::empty().insert(p.id@);
    assert(up.contains(q.id@));
    assert(!Set::<IdValue>::empty().contains(p.id@));
    assert(apply_from(m.insert(p.id@, p), up, config, rest) is None);
    assert(apply_from(m, Set::<IdValue>::empty(), config, ms) == apply_from(m.insert(p.id@, p), up, config, rest));
}

proof fn lemma_point_map_domain(t: Seq<Point>)
    ensures
        forall|id: IdValue| #[trigger] point_map(t).contains_key(id) <==> holds_id(t, id),
    decreases t.len(),
{
    if t.len() > 0 {
        let init = t.drop_last();
        lemma_point_map_domain(init);
        assert(point_map(t) == point_map(init).insert(t.last().id@, t.last()));
        assert forall|id: IdValue| #[trigger] point_map(t).contains_key(id) <==> holds_id(t, id) by {
            let last = t.len() - 1;
            assert(t.last() == t[last]);
            if holds_id(t, id) {
                let i = choose|i: int| 0 <= i < t.len() && (#[trigger] t[i]).id@ == id;
                if i < last {
                    assert(init[i] == t[i]);
                    assert(holds_id(init, id));
                }
            }
            if id == t.last().id@ {
                assert(t[last].id@ == id);
            }
            if point_map(t).contains_key(id) && id != t.last().id@ {
                assert(point_map(init).contains_key(id));
                let i = choose|i: int| 0 <= i < init.len() && (#[trigger] init[i]).id@ == id;
                assert(t[i] == init[i]);
            }
        }
    }
}

/// Whether points can form a collection: each fits the configuration and no ID repeats.
pub open spec fn build_ok(s: Seq<Point>, config: CollectionConfig) -> bool {
    &&& forall|i: int| 0 <= i < s.len() ==> point_ok(#[trigger] s[i], config)
    &&& forall|i: int, j: int| 0 <= i < j < s.len() ==> (#[trigger] s[i]).id@ != (#[trigger] s[j]).id@
}

/// Arranges the points of a new collection in canonical ID order.
///
/// Fails with `Invalid` when a point does not fit the configuration or two
/// points share an ID.
#[verifier::loop_isolation(false)]
pub fn canonical_point_set(points: Vec<Point>, config: &CollectionConfig) -> (r: Result<Vec<Point>, Error>)
    ensures
        r is Ok <==> build_ok(points@, *config),
        r matches Ok(v) ==> id_sorted(v@) && point_map(v@) == point_map(points@),
        r matches Err(e) ==> e is Invalid,
{
    let ghost all = points@;
    assert(all.len() == points.len());
    let mut pending = reversed(points);
    let mut canonical: Vec<Point> = Vec::new();
    let mut j: usize = 0;
    assert(pending@ =~= all.skip(0).reverse());
    assert(all.take(0) =~= Seq::<Point>::empty());
    while pending.len() > 0
        invariant
            all.len() <= usize::MAX,
            j <= all.len(),
            pending@ == all.skip(j as int).reverse(),
            pending@.len() + j == all.len(),
            id_sorted(canonical@),
            point_map(canonical@) == point_map(all.take(j as int)),
            build_ok(all.take(j as int), *config),
        decreases pending.len(),
    {
        let ghost before = pending@;
        let point = pending.pop().unwrap();
        assert(all[j as int] == point) by {
            assert(before[before.len() - 1] == all.skip(j as int)[0]);
        }
        assert(pending@ =~= all.skip(j + 1).reverse());
        let ghost seen = all.take(j as int);
        let ghost next = all.take(j + 1);
        assert(next.drop_last() =~= seen);
        assert(next.last() == point);
        proof {
            lemma_point_map(canonical@);
            lemma_point_map_domain(seen);
        }
        if validate_point(&point, config).is_err() {
            assert(!build_ok(all, *config)) by {
                assert(!point_ok(all[j as int], *config));
            }
            return Err(Error::Invalid("invalid point in snapshot build".to_string()));
        }
        match find_point(&canonical, &point.id) {
            Ok(i) => {
                assert(!build_ok(all, *config)) by {
                    assert(holds_id(canonical@, point.id@));
                    assert(point_map(seen).contains_key(point.id@));
                    let k = choose|k: int| 0 <= k < seen.len() && (#[trigger] seen[k]).id@ == point.id@;
                    assert(all[k] == seen[k]);
                }
                return Err(Error::Invalid("snapshot build contains a duplicate typed point ID".to_string()));
            },
            Err(_) => {},
        }
        assert(!holds_id(seen, point.id@)) by {
            if holds_id(seen, point.id@) {
                assert(point_map(canonical@).contains_key(point.id@));
                let k = choose|k: int| 0 <= k < canonical@.len() && (#[trigger] canonical@[k]).id@ == point.id@;
                lemma_id_order(point.id@, point.id@, point.id@);
            }
        }
        proof {
            assert forall|a: int, b: int| 0 <= a < b < next.len() implies (#[trigger] next[a]).id@ != (#[trigger] next[b]).id@ by {
                if b == j {
                    assert(next[a] == seen[a]);
                } else {
                    assert(next[a] == seen[a] && next[b] == seen[b]);
                }
            }
            assert forall|a: int| 0 <= a < next.len() implies point_ok(#[trigger] next[a], *config) by {
                if a < j {
                    assert(next[a] == seen[a]);
                }
            }
        }
        upsert_point(&mut canonical, point);
        j = j + 1;
    }
    assert(all.take(j as int) =~= all);
    Ok(canonical)
}

/// The dimension shared by a first write's points: that of the first point,
/// when the batch is non-empty, that dimension is positive, and every point has it.
pub open spec fn shared_dimension(s: Seq<Point>) -> Option<usize> {
    if s.len() > 0 && s[0].vector@.len() > 0 && forall|i: int| 0 <= i < s.len() ==> (#[trigger] s[i]).vector@.len() == s[0].vector@.len() {
        Some(s[0].vector@.len() as usize)
    } else {
        None
    }
}

/// Infers a new collection's dimension from its first write; fails with
/// `Invalid` for an empty batch, an empty vector, or mixed dimensions.
pub fn inferred_dimension(points: &Vec<Point>) -> (r: Result<usize, Error>)
    ensures
        r is Ok <==> shared_dimension(points@) is Some,
        r matches Ok(d) ==> shared_dimension(points@) == Some(d),
        r matches Err(e) ==> e is Invalid,
{
    if points.len() == 0 {
        return Err(Error::Invalid("upsert batch must not be empty".to_string()));
    }
    let dimension = points[0].vector.len();
    if dimension == 0 {
        return Err(Error::Invalid("point vector must not be empty".to_string()));
    }
    let mut k: usize = 0;
    while k < points.len()
        invariant
            k <= points@.len(),
            points@.len() > 0,
            dimension == points@[0].vector@.len(),
            forall|i: int| 0 <= i < k ==> (#[trigger] points@[i]).vector@.len() == dimension,
        decreases points.len() - k,
    {
        if points[k].vector.len() != dimension {
            return Err(Error::Invalid("point has a different dimension".to_string()));
        }
        k = k + 1;
    }
    Ok(dimension)
}

/// Whether a point is selected by a retrieval: its ID is requested (or no IDs
/// are), and the filter, if any, holds.
pub open spec fn selected(p: Point, ids: Seq<PointId>, filter: Option<Filter>) -> bool {
    &&& (ids.len() == 0 || exists|k: int| 0 <= k < ids.len() && (#[trigger] ids[k])@ == p.id@)
    &&& (filter matches Some(f) ==> filter_holds(f, p.id@, p.payload@))
}

/// The positions, in order, of the selected points of `s`.
pub open spec fn selected_positions(s: Seq<Point>, ids: Seq<PointId>, filter: Option<Filter>) -> Seq<usize>
    decreases s.len(),
{
    if s.len() == 0 {
        Seq::empty()
    } else {
        let rest = selected_positions(s.drop_last(), ids, filter);
        if selected(s.last(), ids, filter) {
            rest.push((s.len() - 1) as usize)
        } else {
            rest
        }
    }
}

/// The positions of a retrieval: the selected points in canonical order,
/// after skipping `offset` of them and keeping at most `limit`.
pub open spec fn get_positions(s: Seq<Point>, ids: Seq<PointId>, filter: Option<Filter>, offset: int, limit: Option<usize>) -> Seq<usize> {
    let all = selected_positions(s, ids, filter);
    let after = if offset >= all.len() { Seq::empty() } else { all.skip(offset) };
    match limit {
        Some(n) => if n < after.len() { after.take(n as int) } else { after },
        None => after,
    }
}

fn is_selected(p: &Point, ids: &Vec<PointId>, filter: &Option<Filter>) -> (r: bool)
    ensures
        r == selected(*p, ids@, *filter),
{
    let wanted = ids.len() == 0 || seen_id(ids, &p.id);
    wanted && match filter {
        Some(f) => matches_filter(f, &p.id, &p.payload),
        None => true,
    }
}

/// The positions of the points a retrieval returns, in canonical order.
pub fn get_selection(
    points: &Vec<Point>,
    ids: &Vec<PointId>,
    filter: &Option<Filter>,
    offset: usize,
    limit: Option<usize>,
) -> (r: Vec<usize>)
    ensures
        r@ == get_positions(points@, ids@, *filter, offset as int, limit),
{
    let mut all: Vec<usize> = Vec::new();
    let mut k: usize = 0;
    while k < points.len()
        invariant
            k <= points@.len(),
            all@ == selected_positions(points@.take(k as int), ids@, *filter),
        decreases points.len() - k,
    {
        assert(points@.take(k + 1).drop_last() =~= points@.take(k as int));
        assert(points@.take(k + 1).last() == points@[k as int]);
        if is_selected(&points[k], ids, filter) {
            all.push(k);
        }
        k = k + 1;
    }
    assert(points@.take(k as int) =~= points@);
    let mut out: Vec<usize> = Vec::new();
    if offset >= all.len() {
        return out;
    }
    let mut j = offset;
    while j < all.len()
        invariant
            offset <= j <= all@.len(),
            offset < all@.len(),
            out@ == all@.subrange(offset as int, j as int),
            limit matches Some(n) ==> out@.len() <= n,
        ensures
            offset <= j <= all@.len(),
            out@ == all@.subrange(offset as int, j as int),
            limit matches Some(n) ==> out@.len() <= n,
            j == all@.len() || (limit matches Some(n) && out@.len() == n),
        decreases all.len() - j,
    {
        match limit {
            Some(n) => {
                if out.len() >= n {
                    break;
                }
            },
            None => {},
        }
        out.push(all[j]);
        assert(all@.subrange(offset as int, j + 1) =~= all@.subrange(offset as int, j as int).push(all@[j as int]));
        j = j + 1;
    }
    let ghost after = all@.skip(offset as int);
    assert(out@ =~= match limit {
        Some(n) => if n < after.len() { after.take(n as int) } else { after },
        None => after,
    });
    out
}

/// The number of points a filter selects.
pub open spec fn count_where(s: Seq<Point>, filter: Filter) -> nat {
    selected_positions(s, Seq::empty(), Some(filter)).len()
}

/// Counts the points that a filter matches.
pub fn count_matching(points: &Vec<Point>, filter: &Filter) -> (r: usize)
    ensures
        r == count_where(points@, *filter),
{
    let none: Vec<PointId> = Vec::new();
    let mut n: usize = 0;
    let mut k: usize = 0;
    let ghost f = Some(*filter);
    while k < points.len()
        invariant
            k <= points@.len(),
            none@.len() == 0,
            f == Some(*filter),
            n == selected_positions(points@.take(k as int), none@, f).len(),
            n <= k,
        decreases points.len() - k,
    {
        assert(points@.take(k + 1).drop_last() =~= points@.take(k as int));
        assert(points@.take(k + 1).last() == points@[k as int]);
        if matches_filter(filter, &points[k].id, &points[k].payload) {
            n = n + 1;
        }
        k = k + 1;
    }
    assert(points@.take(k as int) =~= points@);
    assert(none@ =~= Seq::<PointId>::empty());
    n
}

} // verus!
