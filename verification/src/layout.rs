//! The format-2 layout of a point set: which shard holds each point, and how
//! the rows of the shards are listed by the search index.
use crate::digest::sha256;
use crate::ids::{shard_for_id, shard_of, SHARD_COUNT};
use crate::index::{canonical_posting, entry_lt};
use crate::model::canonical_id_bytes;
use crate::points::Point;
use crate::Error;
use vstd::prelude::*;

verus! {

/// The rows, in increasing order, of the points of `s` that fall in `shard`.
pub open spec fn shard_positions(s: Seq<Point>, shard: u16) -> Seq<usize>
    decreases s.len(),
{
    if s.len() == 0 {
        Seq::empty()
    } else {
        let rest = shard_positions(s.drop_last(), shard);
        if shard_of(s.last().id@) == shard {
            rest.push((s.len() - 1) as usize)
        } else {
            rest
        }
    }
}

/// The shards below `upto` that hold points of `s`, in increasing order, each
/// with its rows.
pub open spec fn shard_groups(s: Seq<Point>, upto: nat) -> Seq<(u16, Seq<usize>)>
    decreases upto,
{
    if upto == 0 {
        Seq::empty()
    } else {
        let rest = shard_groups(s, (upto - 1) as nat);
        let rows = shard_positions(s, (upto - 1) as u16);
        if rows.len() == 0 {
            rest
        } else {
            rest.push(((upto - 1) as u16, rows))
        }
    }
}

/// The shard groups of a point set: every shard that holds a point.
pub open spec fn point_groups(s: Seq<Point>) -> Seq<(u16, Seq<usize>)> {
    shard_groups(s, SHARD_COUNT as nat)
}

/// The view of computed groups.
pub open spec fn groups_view(g: Seq<(u16, Vec<usize>)>) -> Seq<(u16, Seq<usize>)> {
    g.map_values(|e: (u16, Vec<usize>)| (e.0, e.1@))
}

/// Whether every shard holds at most `u32::MAX` rows, so that rows are numbered by `u32`.
pub open spec fn shards_fit(s: Seq<Point>) -> bool {
    forall|shard: u16| shard < SHARD_COUNT ==> #[trigger] shard_positions(s, shard).len() <= u32::MAX
}

/// Every shard is below the shard count.
pub proof fn lemma_shard_bound(id: crate::model::IdValue)
    ensures
        shard_of(id) < SHARD_COUNT,
{
    let b: u8 = sha256(canonical_id_bytes(id))[0];
    assert(b >> 2u8 < 64) by (bit_vector);
}

/// A row is listed for a shard exactly when it is a row of the point set and
/// its point falls in that shard; the rows are listed in increasing order.
pub proof fn lemma_shard_positions(s: Seq<Point>, shard: u16)
    requires
        s.len() <= usize::MAX,
    ensures
        forall|i: int|
            0 <= i < shard_positions(s, shard).len() ==> (#[trigger] shard_positions(s, shard)[i]) < s.len()
                && shard_of(s[shard_positions(s, shard)[i] as int].id@) == shard,
        forall|i: int, j: int|
            0 <= i < j < shard_positions(s, shard).len() ==> (#[trigger] shard_positions(s, shard)[i])
                < #[trigger] shard_positions(s, shard)[j],
        forall|r: int|
            0 <= r < s.len() && shard_of((#[trigger] s[r]).id@) == shard ==> shard_positions(s, shard).contains(
                r as usize,
            ),
    decreases s.len(),
{
    if s.len() > 0 {
        let t = s.drop_last();
        lemma_shard_positions(t, shard);
        let p = shard_positions(s, shard);
        let q = shard_positions(t, shard);
        assert forall|i: int| 0 <= i < q.len() implies #[trigger] q[i] < t.len() && s[q[i] as int] == t[q[i] as int] by {}
        assert forall|i: int|
            0 <= i < p.len() implies (#[trigger] p[i]) < s.len() && shard_of(s[p[i] as int].id@) == shard by {
            if i < q.len() {
                assert(p[i] == q[i]);
            } else {
                assert(p[i] == (s.len() - 1) as usize);
            }
        }
        assert forall|i: int, j: int| 0 <= i < j < p.len() implies (#[trigger] p[i]) < #[trigger] p[j] by {
            if j < q.len() {
                assert(p[i] == q[i] && p[j] == q[j]);
            } else {
                assert(p[i] == q[i]);
            }
        }
        assert forall|r: int| 0 <= r < s.len() && shard_of((#[trigger] s[r]).id@) == shard implies p.contains(r as usize) by {
            if r < t.len() {
                assert(t[r] == s[r]);
                assert(q.contains(r as usize));
                let k = choose|k: int| 0 <= k < q.len() && q[k] == r as usize;
                assert(p[k] == r as usize);
            } else {
                assert(p[p.len() - 1] == r as usize);
            }
        }
    }
}

/// Lists a prefix's rows of a shard no longer than the whole set's.
proof fn lemma_positions_prefix(s: Seq<Point>, shard: u16, j: int)
    requires
        0 <= j <= s.len(),
    ensures
        shard_positions(s.take(j), shard).len() <= shard_positions(s, shard).len(),
    decreases s.len() - j,
{
    if j == s.len() {
        assert(s.take(j) =~= s);
    } else {
        lemma_positions_prefix(s, shard, j + 1);
        assert(s.take(j + 1).drop_last() =~= s.take(j));
    }
}

/// The rows of one shard; fails with `Invalid` when the shard holds more than
/// `u32::MAX` points.
fn rows_of_shard(shards: &Vec<u16>, points: &Vec<Point>, shard: u16) -> (r: Result<Vec<usize>, Error>)
    requires
        shards@.len() == points@.len(),
        forall|k: int| 0 <= k < shards@.len() ==> #[trigger] shards@[k] == shard_of(points@[k].id@),
    ensures
        r is Ok <==> shard_positions(points@, shard).len() <= u32::MAX,
        r matches Ok(rows) ==> rows@ == shard_positions(points@, shard),
        r matches Err(e) ==> e is Invalid,
{
    let mut rows: Vec<usize> = Vec::new();
    let mut k: usize = 0;
    while k < shards.len()
        invariant
            k <= shards@.len() == points@.len(),
            forall|j: int| 0 <= j < shards@.len() ==> #[trigger] shards@[j] == shard_of(points@[j].id@),
            rows@ == shard_positions(points@.take(k as int), shard),
            rows@.len() <= u32::MAX,
        decreases shards.len() - k,
    {
        assert(points@.take(k + 1).drop_last() =~= points@.take(k as int));
        assert(points@.take(k + 1).last() == points@[k as int]);
        if shards[k] == shard {
            if rows.len() == 0xffff_ffffusize {
                proof {
                    lemma_positions_prefix(points@, shard, k + 1);
                }
                return Err(Error::Invalid("format-2 shard exceeds u32 rows".to_string()));
            }
            rows.push(k);
        }
        k = k + 1;
    }
    assert(points@.take(k as int) =~= points@);
    Ok(rows)
}

/// Groups the rows of a point set by shard, in increasing shard order; within
/// a shard the rows keep the order of the set. Fails with `Invalid` when a
/// shard would hold more than `u32::MAX` points.
pub fn point_shards(points: &Vec<Point>) -> (r: Result<Vec<(u16, Vec<usize>)>, Error>)
    ensures
        r is Ok <==> shards_fit(points@),
        r matches Ok(g) ==> groups_view(g@) == point_groups(points@),
        r matches Err(e) ==> e is Invalid,
{
    let mut shards: Vec<u16> = Vec::new();
    let mut k: usize = 0;
    while k < points.len()
        invariant
            k <= points@.len(),
            shards@.len() == k,
            forall|j: int| 0 <= j < k ==> #[trigger] shards@[j] == shard_of(points@[j].id@),
        decreases points.len() - k,
    {
        let s = shard_for_id(&points[k].id);
        shards.push(s);
        k = k + 1;
    }
    let mut groups: Vec<(u16, Vec<usize>)> = Vec::new();
    let mut shard: u16 = 0;
    while shard < 64
        invariant
            shard <= 64,
            shards@.len() == points@.len(),
            forall|j: int| 0 <= j < shards@.len() ==> #[trigger] shards@[j] == shard_of(points@[j].id@),
            groups_view(groups@) == shard_groups(points@, shard as nat),
            forall|s: u16| s < shard ==> #[trigger] shard_positions(points@, s).len() <= u32::MAX,
        decreases 64 - shard,
    {
        let rows = match rows_of_shard(&shards, points, shard) {
            Ok(rows) => rows,
            Err(e) => {
                return Err(e);
            },
        };
        proof {
            assert(((shard + 1) as nat - 1) as u16 == shard);
        }
        if rows.len() > 0 {
            let ghost before = groups@;
            groups.push((shard, rows));
            assert(groups_view(groups@) =~= groups_view(before).push((shard, shard_positions(points@, shard))));
        } else {
            assert(groups_view(groups@) =~= shard_groups(points@, (shard + 1) as nat));
        }
        shard = shard + 1;
    }
    Ok(groups)
}

/// The entries a shard's rows give the posting list of `centroid`: the
/// position within the shard of each row assigned to that centroid.
pub open spec fn group_entries(shard: u16, rows: Seq<usize>, assignment: Seq<usize>, centroid: usize) -> Seq<(u16, u32)>
    decreases rows.len(),
{
    if rows.len() == 0 {
        Seq::empty()
    } else {
        let rest = group_entries(shard, rows.drop_last(), assignment, centroid);
        if assignment[rows.last() as int] == centroid {
            rest.push((shard, (rows.len() - 1) as u32))
        } else {
            rest
        }
    }
}

/// The posting list of `centroid`: the entries of every shard group, in group order.
pub open spec fn posting_of(groups: Seq<(u16, Seq<usize>)>, assignment: Seq<usize>, centroid: usize) -> Seq<(u16, u32)>
    decreases groups.len(),
{
    if groups.len() == 0 {
        Seq::empty()
    } else {
        posting_of(groups.drop_last(), assignment, centroid) + group_entries(
            groups.last().0,
            groups.last().1,
            assignment,
            centroid,
        )
    }
}

/// Whether every row of every group has an assignment below `count`.
pub open spec fn assignment_covers(groups: Seq<(u16, Seq<usize>)>, assignment: Seq<usize>, count: usize) -> bool {
    &&& forall|g: int, i: int|
        0 <= g < groups.len() && 0 <= i < groups[g].1.len() ==> (#[trigger] groups[g].1[i]) < assignment.len()
            && assignment[groups[g].1[i] as int] < count
    &&& forall|g: int| 0 <= g < groups.len() ==> (#[trigger] groups[g]).1.len() <= u32::MAX
}

/// Whether an assignment covers the shard groups, as `build_postings` requires.
pub fn assignment_ok(groups: &Vec<(u16, Vec<usize>)>, assignment: &Vec<usize>, count: usize) -> (r: bool)
    ensures
        r == assignment_covers(groups_view(groups@), assignment@, count),
{
    let ghost gv = groups_view(groups@);
    let mut g: usize = 0;
    while g < groups.len()
        invariant
            g <= groups@.len(),
            gv == groups_view(groups@),
            forall|a: int, i: int|
                0 <= a < g && 0 <= i < gv[a].1.len() ==> (#[trigger] gv[a].1[i]) < assignment@.len()
                    && assignment@[gv[a].1[i] as int] < count,
            forall|a: int| 0 <= a < g ==> (#[trigger] gv[a]).1.len() <= u32::MAX,
        decreases groups.len() - g,
    {
        let rows = &groups[g].1;
        assert(gv[g as int].1 == rows@);
        if rows.len() > 0xffff_ffffusize {
            return false;
        }
        let mut i: usize = 0;
        while i < rows.len()
            invariant
                i <= rows@.len(),
                g < groups@.len(),
                gv == groups_view(groups@),
                gv[g as int].1 == rows@,
                forall|j: int| 0 <= j < i ==> (#[trigger] rows@[j]) < assignment@.len() && assignment@[rows@[j] as int] < count,
            decreases rows.len() - i,
        {
            let row = rows[i];
            if row >= assignment.len() || assignment[row] >= count {
                assert(gv[g as int].1[i as int] == row);
                return false;
            }
            i = i + 1;
        }
        assert forall|a: int, j: int|
            0 <= a < g + 1 && 0 <= j < gv[a].1.len() implies (#[trigger] gv[a].1[j]) < assignment@.len()
                && assignment@[gv[a].1[j] as int] < count by {
            if a == g {
                assert(gv[a].1[j] == rows@[j]);
            }
        }
        g = g + 1;
    }
    true
}

/// Lists, for each of `count` centroids, the `(shard, row)` entries of the
/// points assigned to it, shard by shard and row by row.
pub fn build_postings(groups: &Vec<(u16, Vec<usize>)>, assignment: &Vec<usize>, count: usize) -> (r: Vec<Vec<(u16, u32)>>)
    requires
        assignment_covers(groups_view(groups@), assignment@, count),
    ensures
        r@.len() == count,
        forall|c: int| 0 <= c < count ==> (#[trigger] r@[c])@ == posting_of(groups_view(groups@), assignment@, c as usize),
{
    let ghost gv = groups_view(groups@);
    let mut postings: Vec<Vec<(u16, u32)>> = Vec::new();
    let mut c: usize = 0;
    while c < count
        invariant
            c <= count,
            postings@.len() == c,
            forall|j: int| 0 <= j < c ==> (#[trigger] postings@[j])@ == Seq::<(u16, u32)>::empty(),
        decreases count - c,
    {
        postings.push(Vec::new());
        c = c + 1;
    }
    assert forall|j: int| 0 <= j < count implies (#[trigger] postings@[j])@ == posting_of(gv.take(0), assignment@, j as usize) by {
        assert(gv.take(0) =~= Seq::<(u16, Seq<usize>)>::empty());
    }
    let mut g: usize = 0;
    while g < groups.len()
        invariant
            g <= groups@.len(),
            gv == groups_view(groups@),
            assignment_covers(gv, assignment@, count),
            postings@.len() == count,
            forall|j: int| 0 <= j < count ==> (#[trigger] postings@[j])@ == posting_of(gv.take(g as int), assignment@, j as usize),
        decreases groups.len() - g,
    {
        let shard = groups[g].0;
        let rows = &groups[g].1;
        let ghost before = postings@;
        assert(gv[g as int] == (shard, rows@));
        let mut i: usize = 0;
        while i < rows.len()
            invariant
                g < groups@.len(),
                i <= rows@.len(),
                gv == groups_view(groups@),
                gv[g as int] == (shard, rows@),
                assignment_covers(gv, assignment@, count),
                postings@.len() == count,
                forall|j: int|
                    0 <= j < count ==> (#[trigger] postings@[j])@ == (before[j])@ + group_entries(
                        shard,
                        rows@.take(i as int),
                        assignment@,
                        j as usize,
                    ),
            decreases rows.len() - i,
        {
            let row = rows[i];
            assert(rows@[i as int] == gv[g as int].1[i as int]);
            let c = assignment[row];
            let ghost old_postings = postings@;
            assert(rows@.take(i + 1).drop_last() =~= rows@.take(i as int));
            assert(rows@.take(i + 1).last() == row);
            postings[c].push((shard, i as u32));
            assert forall|j: int|
                0 <= j < count implies (#[trigger] postings@[j])@ == (before[j])@ + group_entries(
                    shard,
                    rows@.take(i + 1),
                    assignment@,
                    j as usize,
                ) by {
                if j == c as int {
                    assert(((i + 1) - 1) as u32 == i as u32);
                } else {
                    assert(postings@[j] == old_postings[j]);
                }
            }
            i = i + 1;
        }
        assert(rows@.take(rows@.len() as int) =~= rows@);
        assert(gv.take(g + 1).drop_last() =~= gv.take(g as int));
        assert(gv.take(g + 1).last() == gv[g as int]);
        g = g + 1;
    }
    assert(gv.take(groups@.len() as int) =~= gv);
    postings
}

proof fn lemma_group_entries(shard: u16, rows: Seq<usize>, assignment: Seq<usize>, centroid: usize)
    requires
        rows.len() <= u32::MAX + 1,
    ensures
        forall|k: int|
            0 <= k < group_entries(shard, rows, assignment, centroid).len() ==> (#[trigger] group_entries(
                shard,
                rows,
                assignment,
                centroid,
            )[k]).0 == shard && group_entries(shard, rows, assignment, centroid)[k].1 < rows.len(),
        forall|k: int|
            0 < k < group_entries(shard, rows, assignment, centroid).len() ==> group_entries(
                shard,
                rows,
                assignment,
                centroid,
            )[k - 1].1 < (#[trigger] group_entries(shard, rows, assignment, centroid)[k]).1,
    decreases rows.len(),
{
    if rows.len() > 0 {
        lemma_group_entries(shard, rows.drop_last(), assignment, centroid);
        let e = group_entries(shard, rows, assignment, centroid);
        let q = group_entries(shard, rows.drop_last(), assignment, centroid);
        assert forall|k: int| 0 <= k < e.len() implies (#[trigger] e[k]).0 == shard && e[k].1 < rows.len() by {
            if k < q.len() {
                assert(e[k] == q[k]);
            }
        }
        assert forall|k: int| 0 < k < e.len() implies e[k - 1].1 < (#[trigger] e[k]).1 by {
            if k < q.len() {
                assert(e[k] == q[k] && e[k - 1] == q[k - 1]);
            } else {
                assert(e[k - 1] == q[k - 1]);
            }
        }
    }
}

proof fn lemma_groups_postings(s: Seq<Point>, upto: nat, assignment: Seq<usize>, centroid: usize)
    requires
        upto <= SHARD_COUNT,
        shards_fit(s),
    ensures
        forall|k: int|
            0 <= k < posting_of(shard_groups(s, upto), assignment, centroid).len() ==> (#[trigger] posting_of(
                shard_groups(s, upto),
                assignment,
                centroid,
            )[k]).0 < upto,
        canonical_posting(posting_of(shard_groups(s, upto), assignment, centroid)),
    decreases upto,
{
    if upto > 0 {
        let sh = (upto - 1) as u16;
        lemma_groups_postings(s, (upto - 1) as nat, assignment, centroid);
        let prev = shard_groups(s, (upto - 1) as nat);
        let rows = shard_positions(s, sh);
        if rows.len() > 0 {
            let groups = shard_groups(s, upto);
            assert(groups.drop_last() =~= prev);
            assert(groups.last() == (sh, rows));
            assert(rows.len() <= u32::MAX);
            lemma_group_entries(sh, rows, assignment, centroid);
            let a = posting_of(prev, assignment, centroid);
            let b = group_entries(sh, rows, assignment, centroid);
            let p = posting_of(groups, assignment, centroid);
            assert(p == a + b);
            assert forall|k: int| 0 <= k < p.len() implies (#[trigger] p[k]).0 < upto by {
                if k < a.len() {
                    assert(p[k] == a[k]);
                } else {
                    assert(p[k] == b[k - a.len()]);
                }
            }
            assert forall|k: int| 0 < k < p.len() implies entry_lt(p[k - 1], #[trigger] p[k]) by {
                if k < a.len() {
                    assert(p[k] == a[k] && p[k - 1] == a[k - 1]);
                } else if k == a.len() {
                    assert(p[k] == b[0] && p[k - 1] == a[k - 1]);
                } else {
                    assert(p[k] == b[k - a.len()] && p[k - 1] == b[k - 1 - a.len()]);
                }
            }
        }
    }
}

/// The posting lists of a point set's shard groups name shards below 64 in
/// strictly increasing `(shard, row)` order, as a posting blob must.
pub proof fn lemma_postings_canonical(s: Seq<Point>, assignment: Seq<usize>, centroid: usize)
    requires
        shards_fit(s),
    ensures
        canonical_posting(posting_of(point_groups(s), assignment, centroid)),
{
    lemma_groups_postings(s, SHARD_COUNT as nat, assignment, centroid);
}

/// The sample position that seeds centroid `centroid` of `count`: positions
/// spread evenly from the first sample to the last.
pub open spec fn seed_position(centroid: int, count: int, sample_len: int) -> int {
    if count == 1 {
        0
    } else {
        centroid * (sample_len - 1) / (count - 1)
    }
}

/// The sample positions whose vectors seed the `count` centroids.
pub fn seed_positions(sample_len: usize, count: usize) -> (r: Vec<usize>)
    requires
        count > 0 ==> sample_len > 0,
        count * sample_len <= usize::MAX,
    ensures
        r@.len() == count,
        forall|c: int| 0 <= c < count ==> (#[trigger] r@[c]) == seed_position(c, count as int, sample_len as int),
        forall|c: int| 0 <= c < count ==> (#[trigger] r@[c]) < sample_len,
{
    let mut r: Vec<usize> = Vec::new();
    let mut c: usize = 0;
    while c < count
        invariant
            c <= count,
            count > 0 ==> sample_len > 0,
            count * sample_len <= usize::MAX,
            r@.len() == c,
            forall|j: int| 0 <= j < c ==> (#[trigger] r@[j]) == seed_position(j, count as int, sample_len as int),
            forall|j: int| 0 <= j < c ==> (#[trigger] r@[j]) < sample_len,
        decreases count - c,
    {
        let position = if count == 1 {
            0
        } else {
            assert(c * (sample_len - 1) <= count * sample_len) by (nonlinear_arith)
                requires
                    c < count,
                    sample_len > 0,
            ;
            assert(c * (sample_len - 1) / (count - 1) <= sample_len - 1) by (nonlinear_arith)
                requires
                    c <= count - 1,
                    count > 1,
                    sample_len > 0,
            {
                assert(c * (sample_len - 1) <= (count - 1) * (sample_len - 1));
                vstd::arithmetic::div_mod::lemma_div_is_ordered(
                    c * (sample_len - 1),
                    (count - 1) * (sample_len - 1),
                    count - 1,
                );
                vstd::arithmetic::div_mod::lemma_div_multiples_vanish(sample_len - 1, count - 1);
            }
            c * (sample_len - 1) / (count - 1)
        };
        r.push(position);
        c = c + 1;
    }
    r
}

/// The kind of a tree entry.
#[derive(Clone, Copy, Debug, PartialEq, Eq)]
pub enum EntryKind {
    Tree,
    Blob,
    Other,
}

/// Whether a tree's entries are exactly the expected ones: as many, and each
/// expected name present with the expected kind. Entry names in a tree are distinct.
pub open spec fn entries_match(actual: Seq<(Seq<char>, EntryKind)>, expected: Seq<(Seq<char>, EntryKind)>) -> bool {
    &&& actual.len() == expected.len()
    &&& forall|k: int| 0 <= k < expected.len() ==> has_entry(actual, #[trigger] expected[k])
}

/// Whether some entry is `e`.
pub open spec fn has_entry(actual: Seq<(Seq<char>, EntryKind)>, e: (Seq<char>, EntryKind)) -> bool {
    exists|j: int| 0 <= j < actual.len() && actual[j] == e
}

/// The views of entries.
pub open spec fn entries_view(v: Seq<(String, EntryKind)>) -> Seq<(Seq<char>, EntryKind)> {
    v.map_values(|e: (String, EntryKind)| (e.0@, e.1))
}

fn kind_equal(a: EntryKind, b: EntryKind) -> (r: bool)
    ensures
        r == (a == b),
{
    match (a, b) {
        (EntryKind::Tree, EntryKind::Tree) => true,
        (EntryKind::Blob, EntryKind::Blob) => true,
        (EntryKind::Other, EntryKind::Other) => true,
        _ => false,
    }
}

/// Finds the entry named `name`.
fn entry_named(actual: &Vec<(String, EntryKind)>, name: &str) -> (r: Option<EntryKind>)
    ensures
        r matches Some(kind) ==> exists|j: int| 0 <= j < actual@.len() && actual@[j].0@ == name@ && #[trigger] actual@[j].1 == kind,
        r is None ==> forall|j: int| 0 <= j < actual@.len() ==> (#[trigger] actual@[j]).0@ != name@,
{
    let mut k: usize = 0;
    while k < actual.len()
        invariant
            k <= actual@.len(),
            forall|j: int| 0 <= j < k ==> (#[trigger] actual@[j]).0@ != name@,
        decreases actual.len() - k,
    {
        if crate::text::str_eq(actual[k].0.as_str(), name) {
            assert(actual@[k as int].1 == actual[k as int].1);
            return Some(actual[k].1);
        }
        k = k + 1;
    }
    None
}

/// Whether no two entries share a name, as `check_entries` requires.
pub fn entry_names_distinct(actual: &Vec<(String, EntryKind)>) -> (r: bool)
    ensures
        r == forall|i: int, j: int| 0 <= i < j < actual@.len() ==> (#[trigger] actual@[i]).0@ != (#[trigger] actual@[j]).0@,
{
    let mut j: usize = 0;
    while j < actual.len()
        invariant
            j <= actual@.len(),
            forall|a: int, b: int| 0 <= a < b < j ==> (#[trigger] actual@[a]).0@ != (#[trigger] actual@[b]).0@,
        decreases actual.len() - j,
    {
        let mut i: usize = 0;
        while i < j
            invariant
                i <= j < actual@.len(),
                forall|a: int, b: int| 0 <= a < b < j ==> (#[trigger] actual@[a]).0@ != (#[trigger] actual@[b]).0@,
                forall|a: int| 0 <= a < i ==> (#[trigger] actual@[a]).0@ != actual@[j as int].0@,
            decreases j - i,
        {
            if crate::text::str_eq(actual[i].0.as_str(), actual[j].0.as_str()) {
                return false;
            }
            i = i + 1;
        }
        j = j + 1;
    }
    true
}

/// Whether `seed_positions` may be asked for `count` seeds from a sample
/// of `sample_len` rows.
pub fn seeds_fit(sample_len: usize, count: usize) -> (r: bool)
    ensures
        r == ((count > 0 ==> sample_len > 0) && count * sample_len <= usize::MAX),
{
    if count > 0 && sample_len == 0 {
        return false;
    }
    match count.checked_mul(sample_len) {
        Some(_) => true,
        None => false,
    }
}

/// Checks a tree's entries against the expected layout; fails with `Corrupt`
/// when an entry is missing, extra, or of the wrong kind.
pub fn check_entries(actual: &Vec<(String, EntryKind)>, expected: &Vec<(String, EntryKind)>) -> (r: Result<(), Error>)
    requires
        forall|i: int, j: int| 0 <= i < j < actual@.len() ==> (#[trigger] actual@[i]).0@ != (#[trigger] actual@[j]).0@,
    ensures
        r is Ok <==> entries_match(entries_view(actual@), entries_view(expected@)),
        r matches Err(e) ==> e is Corrupt,
{
    let ghost av = entries_view(actual@);
    let ghost ev = entries_view(expected@);
    if actual.len() != expected.len() {
        assert(av.len() != ev.len());
        return Err(Error::Corrupt("format-2 tree contains missing or extra entries".to_string()));
    }
    let mut k: usize = 0;
    while k < expected.len()
        invariant
            av == entries_view(actual@),
            ev == entries_view(expected@),
            actual@.len() == expected@.len(),
            forall|i: int, j: int| 0 <= i < j < actual@.len() ==> (#[trigger] actual@[i]).0@ != (#[trigger] actual@[j]).0@,
            k <= expected@.len(),
            forall|q: int| 0 <= q < k ==> has_entry(av, #[trigger] ev[q]),
        decreases expected.len() - k,
    {
        let name = &expected[k].0;
        let kind = expected[k].1;
        match entry_named(actual, name.as_str()) {
            None => {
                proof {
                    assert(ev[k as int] == (name@, kind));
                    assert forall|j: int| 0 <= j < av.len() implies av[j] != ev[k as int] by {
                        assert(av[j].0 == actual@[j].0@);
                    }
                    assert(!entries_match(av, ev));
                }
                return Err(Error::Corrupt("missing format-2 tree entry".to_string()));
            },
            Some(found) => {
                if !kind_equal(found, kind) {
                    proof {
                        let w = choose|j: int| 0 <= j < actual@.len() && actual@[j].0@ == name@ && #[trigger] actual@[j].1 == found;
                        assert forall|j: int| 0 <= j < av.len() implies av[j] != ev[k as int] by {
                            if av[j] == ev[k as int] {
                                assert(actual@[j].0@ == name@);
                                if j != w {
                                    if j < w {
                                        assert(actual@[j].0@ != actual@[w].0@);
                                    } else {
                                        assert(actual@[w].0@ != actual@[j].0@);
                                    }
                                }
                            }
                        }
                    }
                    assert(ev[k as int] == (name@, kind));
                    assert(!entries_match(av, ev));
                    return Err(Error::Corrupt("format-2 tree entry has the wrong kind".to_string()));
                }
                proof {
                    let w = choose|j: int| 0 <= j < actual@.len() && actual@[j].0@ == name@ && #[trigger] actual@[j].1 == found;
                    assert(ev[k as int] == (name@, kind));
                    assert(av[w] == ev[k as int]);
                    assert(has_entry(av, ev[k as int]));
                }
            },
        }
        k = k + 1;
    }
    assert(av.len() == ev.len());
    Ok(())
}

/// Whether two lists of vectors hold the same component bits.
pub open spec fn same_rows(a: Seq<Vec<u32>>, b: Seq<Vec<u32>>) -> bool {
    &&& a.len() == b.len()
    &&& forall|k: int| 0 <= k < a.len() ==> (#[trigger] a[k])@ == b[k]@
}

/// Whether two sets of posting lists are equal.
pub open spec fn same_postings(a: Seq<Vec<(u16, u32)>>, b: Seq<Vec<(u16, u32)>>) -> bool {
    &&& a.len() == b.len()
    &&& forall|k: int| 0 <= k < a.len() ==> (#[trigger] a[k])@ == b[k]@
}

fn same_u32s(a: &Vec<u32>, b: &Vec<u32>) -> (r: bool)
    ensures
        r == (a@ == b@),
{
    if a.len() != b.len() {
        return false;
    }
    let mut k: usize = 0;
    while k < a.len()
        invariant
            a@.len() == b@.len(),
            k <= a@.len(),
            forall|j: int| 0 <= j < k ==> a@[j] == b@[j],
        decreases a.len() - k,
    {
        if a[k] != b[k] {
            return false;
        }
        k = k + 1;
    }
    assert(a@ =~= b@);
    true
}

fn same_entries(a: &Vec<(u16, u32)>, b: &Vec<(u16, u32)>) -> (r: bool)
    ensures
        r == (a@ == b@),
{
    if a.len() != b.len() {
        return false;
    }
    let mut k: usize = 0;
    while k < a.len()
        invariant
            a@.len() == b@.len(),
            k <= a@.len(),
            forall|j: int| 0 <= j < k ==> a@[j] == b@[j],
        decreases a.len() - k,
    {
        let (s, w) = a[k];
        let (t, v) = b[k];
        if s != t || w != v {
            return false;
        }
        k = k + 1;
    }
    assert(a@ =~= b@);
    true
}

/// Whether a stored search index is the expected one: the same centroid
/// bits and the same posting lists.
pub fn index_matches(
    centroids: &Vec<Vec<u32>>,
    postings: &Vec<Vec<(u16, u32)>>,
    expected_centroids: &Vec<Vec<u32>>,
    expected_postings: &Vec<Vec<(u16, u32)>>,
) -> (r: bool)
    ensures
        r == (same_rows(centroids@, expected_centroids@) && same_postings(postings@, expected_postings@)),
{
    if centroids.len() != expected_centroids.len() || postings.len() != expected_postings.len() {
        return false;
    }
    let mut k: usize = 0;
    while k < centroids.len()
        invariant
            centroids@.len() == expected_centroids@.len(),
            k <= centroids@.len(),
            forall|j: int| 0 <= j < k ==> (#[trigger] centroids@[j])@ == expected_centroids@[j]@,
        decreases centroids.len() - k,
    {
        if !same_u32s(&centroids[k], &expected_centroids[k]) {
            return false;
        }
        k = k + 1;
    }
    let mut k: usize = 0;
    while k < postings.len()
        invariant
            postings@.len() == expected_postings@.len(),
            k <= postings@.len(),
            forall|j: int| 0 <= j < k ==> (#[trigger] postings@[j])@ == expected_postings@[j]@,
        decreases postings.len() - k,
    {
        if !same_entries(&postings[k], &expected_postings[k]) {
            return false;
        }
        k = k + 1;
    }
    true
}

/// A tree of the format-2 layout.
#[derive(Clone, Copy, Debug, PartialEq, Eq)]
pub enum TreeLevel {
    /// The root: `index`, `meta.json` and `points`.
    Root,
    /// `points`: the `ids`, `payloads` and `vectors` shard trees.
    Points,
    /// `index`: the `ivf-flat-v2` tree.
    Index,
    /// `index/ivf-flat-v2`: `codebook.bin`, `postings` and `sample.bin`.
    Ivf,
}

/// The entries a tree of the format-2 layout holds.
pub open spec fn expected_layout(level: TreeLevel) -> Seq<(Seq<char>, EntryKind)> {
    match level {
        TreeLevel::Root => seq![("index"@, EntryKind::Tree), ("meta.json"@, EntryKind::Blob), ("points"@, EntryKind::Tree)],
        TreeLevel::Points => seq![("ids"@, EntryKind::Tree), ("payloads"@, EntryKind::Tree), ("vectors"@, EntryKind::Tree)],
        TreeLevel::Index => seq![("ivf-flat-v2"@, EntryKind::Tree)],
        TreeLevel::Ivf => seq![("codebook.bin"@, EntryKind::Blob), ("postings"@, EntryKind::Tree), ("sample.bin"@, EntryKind::Blob)],
    }
}

/// The entries a tree of the format-2 layout holds.
pub fn layout(level: TreeLevel) -> (r: Vec<(String, EntryKind)>)
    ensures
        entries_view(r@) == expected_layout(level),
{
    let r = match level {
        TreeLevel::Root => vec![
            ("index".to_owned(), EntryKind::Tree),
            ("meta.json".to_owned(), EntryKind::Blob),
            ("points".to_owned(), EntryKind::Tree),
        ],
        TreeLevel::Points => vec![
            ("ids".to_owned(), EntryKind::Tree),
            ("payloads".to_owned(), EntryKind::Tree),
            ("vectors".to_owned(), EntryKind::Tree),
        ],
        TreeLevel::Index => vec![("ivf-flat-v2".to_owned(), EntryKind::Tree)],
        TreeLevel::Ivf => vec![
            ("codebook.bin".to_owned(), EntryKind::Blob),
            ("postings".to_owned(), EntryKind::Tree),
            ("sample.bin".to_owned(), EntryKind::Blob),
        ],
    };
    assert(entries_view(r@) =~= expected_layout(level));
    r
}

} // verus!
