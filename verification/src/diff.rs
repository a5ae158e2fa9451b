//! What changed between two point sets: the IDs added, removed, and kept
//! with different content.
use crate::json::{Json, JsonNumber};
use crate::meta::same_text;
use crate::model::{CollectionConfig, Distance, IdValue, ObjectStats, PointId};
use crate::points::{find_point, holds_id, id_sorted, lemma_point_map, point_map, Point};
use crate::store::{chars_lt, lemma_chars_order, text_less};
use crate::text::chars_of;
use crate::vectors::{all_finite, finite_bits};
use vstd::prelude::*;

verus! {

broadcast use vstd::string::group_string_axioms;

/// Whether a number is written as a float: with a fraction or an exponent.
pub open spec fn float_text(t: Seq<char>) -> bool {
    t.contains('.') || t.contains('e') || t.contains('E')
}

/// Whether two JSON numbers are equal: two floats by value, two integers by
/// their digits, and never an integer and a float.
pub open spec fn same_number(a: JsonNumber, b: JsonNumber) -> bool {
    if float_text(a.text@) && float_text(b.text@) {
        a.key == b.key
    } else if !float_text(a.text@) && !float_text(b.text@) {
        a.text@ == b.text@
    } else {
        false
    }
}

/// Whether two JSON values are equal.
pub open spec fn same_json(a: Json, b: Json) -> bool
    decreases a,
{
    match (a, b) {
        (Json::Null, Json::Null) => true,
        (Json::Bool(x), Json::Bool(y)) => x == y,
        (Json::Number(x), Json::Number(y)) => same_number(x, y),
        (Json::String(x), Json::String(y)) => x@ == y@,
        (Json::Array(xs), Json::Array(ys)) => same_items(xs@, ys@),
        (Json::Object(xs), Json::Object(ys)) => same_members(xs@, ys@),
        _ => false,
    }
}

/// Whether two arrays hold equal values, position by position.
pub open spec fn same_items(xs: Seq<Json>, ys: Seq<Json>) -> bool
    decreases xs,
{
    if xs.len() == 0 {
        ys.len() == 0
    } else {
        ys.len() > 0 && same_json(xs[0], ys[0]) && same_items(xs.subrange(1, xs.len() as int), ys.subrange(1, ys.len() as int))
    }
}

/// Whether two objects have the same keys, in the same order, with equal values.
pub open spec fn same_members(xs: Seq<(String, Json)>, ys: Seq<(String, Json)>) -> bool
    decreases xs,
{
    if xs.len() == 0 {
        ys.len() == 0
    } else {
        &&& ys.len() > 0
        &&& xs[0].0@ == ys[0].0@
        &&& same_json(xs[0].1, ys[0].1)
        &&& same_members(xs.subrange(1, xs.len() as int), ys.subrange(1, ys.len() as int))
    }
}

/// Whether a component bit pattern is a NaN.
pub open spec fn is_nan_bits(b: u32) -> bool {
    b & 0x7f80_0000u32 == 0x7f80_0000u32 && b & 0x007f_ffffu32 != 0
}

/// Whether two `f32` components, given by their bits, are equal as floats:
/// neither is a NaN, and the bits agree or both are zeros.
pub open spec fn same_component(a: u32, b: u32) -> bool {
    !is_nan_bits(a) && !is_nan_bits(b) && (a == b || (a & 0x7fff_ffffu32 == 0 && b & 0x7fff_ffffu32 == 0))
}

/// Whether two points hold equal vectors and payloads.
pub open spec fn same_content(a: Point, b: Point) -> bool {
    &&& a.vector@.len() == b.vector@.len()
    &&& forall|k: int| 0 <= k < a.vector@.len() ==> same_component(#[trigger] a.vector@[k], b.vector@[k])
    &&& same_members(a.payload@, b.payload@)
}

/// The IDs of `left`, in order, that `right` does not hold.
pub open spec fn only_in(left: Seq<Point>, right: Seq<Point>) -> Seq<IdValue>
    decreases left.len(),
{
    if left.len() == 0 {
        Seq::empty()
    } else {
        let rest = only_in(left.drop_last(), right);
        if holds_id(right, left.last().id@) {
            rest
        } else {
            rest.push(left.last().id@)
        }
    }
}

/// The IDs of `left`, in order, whose point `right` holds with different content.
pub open spec fn changed_in(left: Seq<Point>, right: Seq<Point>) -> Seq<IdValue>
    decreases left.len(),
{
    if left.len() == 0 {
        Seq::empty()
    } else {
        let rest = changed_in(left.drop_last(), right);
        let p = left.last();
        if holds_id(right, p.id@) && !same_content(p, point_map(right)[p.id@]) {
            rest.push(p.id@)
        } else {
            rest
        }
    }
}

/// The IDs that differ between two point sets.
#[derive(Debug)]
pub struct PointDiff {
    /// IDs present only on the right.
    pub added: Vec<PointId>,
    /// IDs present only on the left.
    pub removed: Vec<PointId>,
    /// IDs present on both sides with different content.
    pub changed: Vec<PointId>,
}

/// The views of a sequence of IDs.
pub open spec fn ids_view(ids: Seq<PointId>) -> Seq<IdValue> {
    ids.map_values(|id: PointId| id@)
}

fn text_equal(a: &String, b: &String) -> (r: bool)
    ensures
        r == (a@ == b@),
{
    let x = chars_of(a.as_str());
    let y = chars_of(b.as_str());
    if x.len() != y.len() {
        return false;
    }
    let mut k: usize = 0;
    while k < x.len()
        invariant
            x@ == a@,
            y@ == b@,
            x@.len() == y@.len(),
            k <= x@.len(),
            forall|j: int| 0 <= j < k ==> x@[j] == y@[j],
        decreases x.len() - k,
    {
        if x[k] != y[k] {
            return false;
        }
        k = k + 1;
    }
    assert(x@ =~= y@);
    true
}

fn has_char(t: &String, c: char) -> (r: bool)
    ensures
        r == t@.contains(c),
{
    let x = chars_of(t.as_str());
    let mut k: usize = 0;
    while k < x.len()
        invariant
            x@ == t@,
            k <= x@.len(),
            forall|j: int| 0 <= j < k ==> x@[j] != c,
        decreases x.len() - k,
    {
        if x[k] == c {
            assert(t@[k as int] == c);
            return true;
        }
        k = k + 1;
    }
    false
}

fn is_float_text(t: &String) -> (r: bool)
    ensures
        r == float_text(t@),
{
    has_char(t, '.') || has_char(t, 'e') || has_char(t, 'E')
}

/// Compares two JSON values as `same_json` does.
#[verifier::loop_isolation(false)]
pub fn json_equal(a: &Json, b: &Json) -> (r: bool)
    ensures
        r == same_json(*a, *b),
    decreases a,
{
    match (a, b) {
        (Json::Null, Json::Null) => true,
        (Json::Bool(x), Json::Bool(y)) => *x == *y,
        (Json::Number(x), Json::Number(y)) => {
            let fx = is_float_text(&x.text);
            let fy = is_float_text(&y.text);
            if fx && fy {
                x.key == y.key
            } else if !fx && !fy {
                text_equal(&x.text, &y.text)
            } else {
                false
            }
        },
        (Json::String(x), Json::String(y)) => text_equal(x, y),
        (Json::Array(xs), Json::Array(ys)) => {
            if xs.len() != ys.len() {
                proof {
                    if same_items(xs@, ys@) {
                        lemma_same_items_len(xs@, ys@);
                    }
                }
                return false;
            }
            let mut k: usize = 0;
            assert(xs@.subrange(0, xs@.len() as int) =~= xs@);
            assert(ys@.subrange(0, ys@.len() as int) =~= ys@);
            while k < xs.len()
                invariant
                    xs@.len() == ys@.len(),
                    k <= xs@.len(),
                    same_items(xs@, ys@) == same_items(
                        xs@.subrange(k as int, xs@.len() as int),
                        ys@.subrange(k as int, ys@.len() as int),
                    ),
                decreases xs.len() - k,
            {
                let ghost rx = xs@.subrange(k as int, xs@.len() as int);
                let ghost ry = ys@.subrange(k as int, ys@.len() as int);
                assert(rx[0] == xs@[k as int] && ry[0] == ys@[k as int]);
                assert(rx.subrange(1, rx.len() as int) =~= xs@.subrange(k + 1, xs@.len() as int));
                assert(ry.subrange(1, ry.len() as int) =~= ys@.subrange(k + 1, ys@.len() as int));
                if !json_equal(&xs[k], &ys[k]) {
                    return false;
                }
                k = k + 1;
            }
            true
        },
        (Json::Object(xs), Json::Object(ys)) => {
            if xs.len() != ys.len() {
                proof {
                    if same_members(xs@, ys@) {
                        lemma_same_members_len(xs@, ys@);
                    }
                }
                return false;
            }
            let mut k: usize = 0;
            assert(xs@.subrange(0, xs@.len() as int) =~= xs@);
            assert(ys@.subrange(0, ys@.len() as int) =~= ys@);
            while k < xs.len()
                invariant
                    xs@.len() == ys@.len(),
                    k <= xs@.len(),
                    same_members(xs@, ys@) == same_members(
                        xs@.subrange(k as int, xs@.len() as int),
                        ys@.subrange(k as int, ys@.len() as int),
                    ),
                decreases xs.len() - k,
            {
                let ghost rx = xs@.subrange(k as int, xs@.len() as int);
                let ghost ry = ys@.subrange(k as int, ys@.len() as int);
                assert(rx[0] == xs@[k as int] && ry[0] == ys@[k as int]);
                assert(rx.subrange(1, rx.len() as int) =~= xs@.subrange(k + 1, xs@.len() as int));
                assert(ry.subrange(1, ry.len() as int) =~= ys@.subrange(k + 1, ys@.len() as int));
                let (kx, vx) = &xs[k];
                let (ky, vy) = &ys[k];
                if !text_equal(kx, ky) || !json_equal(vx, vy) {
                    return false;
                }
                k = k + 1;
            }
            true
        },
        _ => false,
    }
}

proof fn lemma_same_items_len(xs: Seq<Json>, ys: Seq<Json>)
    requires
        same_items(xs, ys),
    ensures
        xs.len() == ys.len(),
    decreases xs.len(),
{
    if xs.len() > 0 {
        lemma_same_items_len(xs.subrange(1, xs.len() as int), ys.subrange(1, ys.len() as int));
    }
}

proof fn lemma_same_members_len(xs: Seq<(String, Json)>, ys: Seq<(String, Json)>)
    requires
        same_members(xs, ys),
    ensures
        xs.len() == ys.len(),
    decreases xs.len(),
{
    if xs.len() > 0 {
        lemma_same_members_len(xs.subrange(1, xs.len() as int), ys.subrange(1, ys.len() as int));
    }
}

fn component_equal(a: u32, b: u32) -> (r: bool)
    ensures
        r == same_component(a, b),
{
    let nan_a = a & 0x7f80_0000u32 == 0x7f80_0000u32 && a & 0x007f_ffffu32 != 0;
    let nan_b = b & 0x7f80_0000u32 == 0x7f80_0000u32 && b & 0x007f_ffffu32 != 0;
    !nan_a && !nan_b && (a == b || (a & 0x7fff_ffffu32 == 0 && b & 0x7fff_ffffu32 == 0))
}

/// Compares the content of two points as `same_content` does.
pub fn content_equal(a: &Point, b: &Point) -> (r: bool)
    ensures
        r == same_content(*a, *b),
{
    if a.vector.len() != b.vector.len() {
        return false;
    }
    let mut k: usize = 0;
    while k < a.vector.len()
        invariant
            a.vector@.len() == b.vector@.len(),
            k <= a.vector@.len(),
            forall|j: int| 0 <= j < k ==> same_component(#[trigger] a.vector@[j], b.vector@[j]),
        decreases a.vector.len() - k,
    {
        if !component_equal(a.vector[k], b.vector[k]) {
            return false;
        }
        k = k + 1;
    }
    let wrapped_a = &a.payload;
    let wrapped_b = &b.payload;
    members_equal(wrapped_a, wrapped_b)
}

fn members_equal(xs: &Vec<(String, Json)>, ys: &Vec<(String, Json)>) -> (r: bool)
    ensures
        r == same_members(xs@, ys@),
{
    if xs.len() != ys.len() {
        proof {
            if same_members(xs@, ys@) {
                lemma_same_members_len(xs@, ys@);
            }
        }
        return false;
    }
    let mut k: usize = 0;
    assert(xs@.subrange(0, xs@.len() as int) =~= xs@);
    assert(ys@.subrange(0, ys@.len() as int) =~= ys@);
    while k < xs.len()
        invariant
            xs@.len() == ys@.len(),
            k <= xs@.len(),
            same_members(xs@, ys@) == same_members(
                xs@.subrange(k as int, xs@.len() as int),
                ys@.subrange(k as int, ys@.len() as int),
            ),
        decreases xs.len() - k,
    {
        let ghost rx = xs@.subrange(k as int, xs@.len() as int);
        let ghost ry = ys@.subrange(k as int, ys@.len() as int);
        assert(rx[0] == xs@[k as int] && ry[0] == ys@[k as int]);
        assert(rx.subrange(1, rx.len() as int) =~= xs@.subrange(k + 1, xs@.len() as int));
        assert(ry.subrange(1, ry.len() as int) =~= ys@.subrange(k + 1, ys@.len() as int));
        let (kx, vx) = &xs[k];
        let (ky, vy) = &ys[k];
        if !text_equal(kx, ky) || !json_equal(vx, vy) {
            return false;
        }
        k = k + 1;
    }
    true
}

/// The IDs that differ between two point sets in canonical ID order: those
/// only on the right (added), only on the left (removed), and on both sides
/// with different vectors or payloads (changed), each in canonical order.
pub fn diff_points(left: &Vec<Point>, right: &Vec<Point>) -> (r: PointDiff)
    requires
        id_sorted(left@),
        id_sorted(right@),
    ensures
        ids_view(r.added@) == only_in(right@, left@),
        ids_view(r.removed@) == only_in(left@, right@),
        ids_view(r.changed@) == changed_in(left@, right@),
{
    proof {
        lemma_point_map(right@);
    }
    let mut removed: Vec<PointId> = Vec::new();
    let mut changed: Vec<PointId> = Vec::new();
    let mut k: usize = 0;
    while k < left.len()
        invariant
            id_sorted(left@),
            id_sorted(right@),
            forall|id: IdValue| #[trigger] point_map(right@).contains_key(id) <==> holds_id(right@, id),
            forall|i: int| 0 <= i < right@.len() ==> point_map(right@)[(#[trigger] right@[i]).id@] == right@[i],
            k <= left@.len(),
            ids_view(removed@) == only_in(left@.take(k as int), right@),
            ids_view(changed@) == changed_in(left@.take(k as int), right@),
        decreases left.len() - k,
    {
        let p = &left[k];
        assert(left@.take(k + 1).drop_last() =~= left@.take(k as int));
        assert(left@.take(k + 1).last() == left@[k as int]);
        match find_point(right, &p.id) {
            Ok(i) => {
                assert(holds_id(right@, p.id@)) by {
                    assert(right@[i as int].id@ == p.id@);
                }
                assert(point_map(right@)[p.id@] == right@[i as int]);
                if !content_equal(p, &right[i]) {
                    let ghost before = changed@;
                    changed.push(p.id.duplicate());
                    assert(ids_view(changed@) =~= ids_view(before).push(p.id@));
                }
            },
            Err(_) => {
                assert(!holds_id(right@, p.id@)) by {
                    if holds_id(right@, p.id@) {
                        let j = choose|j: int| 0 <= j < right@.len() && (#[trigger] right@[j]).id@ == p.id@;
                        crate::model::lemma_id_order(p.id@, p.id@, p.id@);
                    }
                }
                let ghost before = removed@;
                removed.push(p.id.duplicate());
                assert(ids_view(removed@) =~= ids_view(before).push(p.id@));
            },
        }
        k = k + 1;
    }
    assert(left@.take(left@.len() as int) =~= left@);
    let mut added: Vec<PointId> = Vec::new();
    let mut k: usize = 0;
    while k < right.len()
        invariant
            id_sorted(left@),
            k <= right@.len(),
            ids_view(added@) == only_in(right@.take(k as int), left@),
        decreases right.len() - k,
    {
        let p = &right[k];
        assert(right@.take(k + 1).drop_last() =~= right@.take(k as int));
        assert(right@.take(k + 1).last() == right@[k as int]);
        match find_point(left, &p.id) {
            Ok(i) => {
                assert(left@[i as int].id@ == p.id@);
            },
            Err(_) => {
                assert(!holds_id(left@, p.id@)) by {
                    if holds_id(left@, p.id@) {
                        let j = choose|j: int| 0 <= j < left@.len() && (#[trigger] left@[j]).id@ == p.id@;
                        crate::model::lemma_id_order(p.id@, p.id@, p.id@);
                    }
                }
                let ghost before = added@;
                added.push(p.id.duplicate());
                assert(ids_view(added@) =~= ids_view(before).push(p.id@));
            },
        }
        k = k + 1;
    }
    assert(right@.take(right@.len() as int) =~= right@);
    PointDiff { added, removed, changed }
}

proof fn lemma_same_json_refl(a: Json)
    ensures
        same_json(a, a),
    decreases a,
{
    match a {
        Json::Array(xs) => {
            lemma_same_items_refl(xs@);
        },
        Json::Object(xs) => {
            lemma_same_members_refl(xs@);
        },
        _ => {},
    }
}

proof fn lemma_same_items_refl(xs: Seq<Json>)
    ensures
        same_items(xs, xs),
    decreases xs,
{
    if xs.len() > 0 {
        lemma_same_json_refl(xs[0]);
        lemma_same_items_refl(xs.subrange(1, xs.len() as int));
    }
}

proof fn lemma_same_members_refl(xs: Seq<(String, Json)>)
    ensures
        same_members(xs, xs),
    decreases xs,
{
    if xs.len() > 0 {
        lemma_same_json_refl(xs[0].1);
        lemma_same_members_refl(xs.subrange(1, xs.len() as int));
    }
}

/// Comparing a point set with itself finds no difference, when its vectors
/// are finite, as stored vectors are.
pub proof fn lemma_diff_self(s: Seq<Point>)
    requires
        id_sorted(s),
        forall|i: int| 0 <= i < s.len() ==> all_finite((#[trigger] s[i]).vector@),
    ensures
        only_in(s, s) == Seq::<IdValue>::empty(),
        changed_in(s, s) == Seq::<IdValue>::empty(),
{
    lemma_point_map(s);
    lemma_diff_prefix(s, s.len() as int);
    assert(s.take(s.len() as int) =~= s);
}

proof fn lemma_diff_prefix(s: Seq<Point>, n: int)
    requires
        id_sorted(s),
        0 <= n <= s.len(),
        forall|i: int| 0 <= i < s.len() ==> all_finite((#[trigger] s[i]).vector@),
        forall|id: IdValue| #[trigger] point_map(s).contains_key(id) <==> holds_id(s, id),
        forall|i: int| 0 <= i < s.len() ==> point_map(s)[(#[trigger] s[i]).id@] == s[i],
    ensures
        only_in(s.take(n), s) == Seq::<IdValue>::empty(),
        changed_in(s.take(n), s) == Seq::<IdValue>::empty(),
    decreases n,
{
    if n > 0 {
        lemma_diff_prefix(s, n - 1);
        let t = s.take(n);
        assert(t.drop_last() =~= s.take(n - 1));
        assert(t.last() == s[n - 1]);
        let p = s[n - 1];
        assert(holds_id(s, p.id@));
        assert(point_map(s)[p.id@] == p);
        lemma_same_members_refl(p.payload@);
        assert forall|k: int| 0 <= k < p.vector@.len() implies same_component(#[trigger] p.vector@[k], p.vector@[k]) by {
            let b = p.vector@[k];
            assert(finite_bits(b));
            assert(b & 0x7f80_0000u32 != 0x7f80_0000u32 ==> !(b & 0x7f80_0000u32 == 0x7f80_0000u32 && b & 0x007f_ffffu32 != 0));
        }
    }
}

/// Payload values compare by content: booleans are equal exactly when they
/// hold the same truth value, strings exactly when they hold the same text,
/// null equals null, and values of different kinds are never equal.
pub proof fn lemma_json_scalars_equal(x: bool, y: bool, s: String, t: String)
    ensures
        same_json(Json::Bool(x), Json::Bool(y)) <==> x == y,
        same_json(Json::String(s), Json::String(t)) <==> s@ == t@,
        same_json(Json::Null, Json::Null),
        !same_json(Json::Null, Json::Bool(x)),
        !same_json(Json::Bool(x), Json::Null),
        !same_json(Json::Bool(x), Json::String(s)),
        !same_json(Json::String(s), Json::Bool(x)),
        !same_json(Json::Null, Json::String(s)),
        !same_json(Json::String(s), Json::Null),
{
}

/// A diff reports a point whose payload member changes: two one-point sets
/// holding the same ID and the same finite vector, whose payloads hold one
/// member under the same name with booleans `x` and `y`, differ exactly when
/// `x != y`, and then that ID is the one reported as changed.
pub proof fn lemma_boolean_change_reported(p: Point, q: Point, x: bool, y: bool)
    requires
        p.id@ == q.id@,
        p.vector@ == q.vector@,
        all_finite(p.vector@),
        p.payload@.len() == 1,
        q.payload@.len() == 1,
        p.payload@[0].0@ == q.payload@[0].0@,
        p.payload@[0].1 == Json::Bool(x),
        q.payload@[0].1 == Json::Bool(y),
    ensures
        changed_in(seq![p], seq![q]) == (if x == y { Seq::<IdValue>::empty() } else { seq![p.id@] }),
        only_in(seq![p], seq![q]) == Seq::<IdValue>::empty(),
{
    let left = seq![p];
    let right = seq![q];
    assert(left.drop_last() =~= Seq::<Point>::empty());
    assert(right.drop_last() =~= Seq::<Point>::empty());
    assert(right[0] == q);
    assert(holds_id(right, p.id@));
    assert(right.last() == q);
    assert(point_map(Seq::<Point>::empty()) == Map::<IdValue, Point>::empty());
    assert(point_map(right) == Map::<IdValue, Point>::empty().insert(q.id@, q));
    assert(point_map(right)[p.id@] == q);
    assert forall|k: int| 0 <= k < p.vector@.len() implies same_component(#[trigger] p.vector@[k], q.vector@[k]) by {
        let b = p.vector@[k];
        assert(finite_bits(b));
        assert(b & 0x7f80_0000u32 != 0x7f80_0000u32 ==> !(b & 0x7f80_0000u32 == 0x7f80_0000u32 && b & 0x007f_ffffu32 != 0));
    }
    assert(p.payload@.subrange(1, 1) =~= Seq::<(String, Json)>::empty());
    assert(q.payload@.subrange(1, 1) =~= Seq::<(String, Json)>::empty());
    assert(same_members(Seq::<(String, Json)>::empty(), Seq::<(String, Json)>::empty()));
    assert(same_json(p.payload@[0].1, q.payload@[0].1) == (x == y));
    assert(p.payload@.subrange(1, p.payload@.len() as int) =~= Seq::<(String, Json)>::empty());
    assert(q.payload@.subrange(1, q.payload@.len() as int) =~= Seq::<(String, Json)>::empty());
    assert(same_members(p.payload@, q.payload@) == (x == y));
    assert(same_content(p, q) == (x == y));
    assert(left.last() == p);
    assert(changed_in(Seq::<Point>::empty(), right) == Seq::<IdValue>::empty());
    assert(only_in(Seq::<Point>::empty(), right) == Seq::<IdValue>::empty());
    assert(changed_in(left.drop_last(), right) == Seq::<IdValue>::empty());
    assert(only_in(left.drop_last(), right) == Seq::<IdValue>::empty());
    if x == y {
        assert(changed_in(left, right) == Seq::<IdValue>::empty());
    } else {
        assert(changed_in(left, right) =~= seq![p.id@]);
    }
}

/// Whether the object names are in strictly increasing order.
pub open spec fn names_sorted(s: Seq<(String, usize)>) -> bool {
    forall|i: int, j: int| 0 <= i < j < s.len() ==> chars_lt((#[trigger] s[i]).0@, (#[trigger] s[j]).0@)
}

/// Whether objects are listed in strictly increasing name order, as
/// `object_sharing` requires.
pub fn names_ascending(objects: &Vec<(String, usize)>) -> (r: bool)
    ensures
        r == names_sorted(objects@),
{
    if objects.len() == 0 {
        return true;
    }
    let mut k: usize = 1;
    while k < objects.len()
        invariant
            1 <= k <= objects@.len(),
            forall|i: int, j: int| 0 <= i < j < k ==> chars_lt((#[trigger] objects@[i]).0@, (#[trigger] objects@[j]).0@),
        decreases objects.len() - k,
    {
        if !text_less(objects[k - 1].0.as_str(), objects[k].0.as_str()) {
            return false;
        }
        assert forall|i: int, j: int| 0 <= i < j < k + 1 implies chars_lt((#[trigger] objects@[i]).0@, (#[trigger] objects@[j]).0@) by {
            if j == k && i < k - 1 {
                lemma_chars_order(objects@[i].0@, objects@[k - 1].0@, objects@[j].0@);
            }
        }
        k = k + 1;
    }
    true
}

/// Whether some object is named `name`.
pub open spec fn holds_object(s: Seq<(String, usize)>, name: Seq<char>) -> bool {
    exists|i: int| 0 <= i < s.len() && (#[trigger] s[i]).0@ == name
}

/// The count and byte sum of the objects of `s` that `other` holds
/// (`shared`) or does not hold (`!shared`).
pub open spec fn stats_where(s: Seq<(String, usize)>, other: Seq<(String, usize)>, shared: bool) -> (nat, nat)
    decreases s.len(),
{
    if s.len() == 0 {
        (0, 0)
    } else {
        let rest = stats_where(s.drop_last(), other, shared);
        if holds_object(other, s.last().0@) == shared {
            (rest.0 + 1, rest.1 + s.last().1 as nat)
        } else {
            rest
        }
    }
}

/// The sum of the object sizes.
pub open spec fn total_size(s: Seq<(String, usize)>) -> nat
    decreases s.len(),
{
    if s.len() == 0 {
        0
    } else {
        total_size(s.drop_last()) + s.last().1 as nat
    }
}

proof fn lemma_stats_bounded(s: Seq<(String, usize)>, other: Seq<(String, usize)>, shared: bool)
    ensures
        stats_where(s, other, shared).0 <= s.len(),
        stats_where(s, other, shared).1 <= total_size(s),
    decreases s.len(),
{
    if s.len() > 0 {
        lemma_stats_bounded(s.drop_last(), other, shared);
    }
}

fn find_object(s: &Vec<(String, usize)>, name: &String) -> (r: bool)
    requires
        names_sorted(s@),
    ensures
        r == holds_object(s@, name@),
{
    let mut lo: usize = 0;
    let mut hi: usize = s.len();
    while lo < hi
        invariant
            names_sorted(s@),
            lo <= hi <= s@.len(),
            forall|j: int| 0 <= j < lo ==> chars_lt((#[trigger] s@[j]).0@, name@),
            forall|j: int| hi <= j < s@.len() ==> chars_lt(name@, (#[trigger] s@[j]).0@),
        decreases hi - lo,
    {
        let mid = lo + (hi - lo) / 2;
        let here = &s[mid].0;
        if text_equal(here, name) {
            assert(s@[mid as int].0@ == name@);
            return true;
        }
        if text_less(here.as_str(), name.as_str()) {
            assert forall|j: int| 0 <= j < mid + 1 implies chars_lt((#[trigger] s@[j]).0@, name@) by {
                if j < mid {
                    lemma_chars_order(s@[j].0@, s@[mid as int].0@, name@);
                }
            }
            lo = mid + 1;
        } else {
            proof {
                lemma_chars_order(s@[mid as int].0@, name@, name@);
            }
            assert forall|j: int| mid <= j < s@.len() implies chars_lt(name@, (#[trigger] s@[j]).0@) by {
                if j > mid {
                    lemma_chars_order(name@, s@[mid as int].0@, s@[j].0@);
                }
            }
            hi = mid;
        }
    }
    proof {
        if holds_object(s@, name@) {
            let j = choose|j: int| 0 <= j < s@.len() && (#[trigger] s@[j]).0@ == name@;
            lemma_chars_order(name@, name@, name@);
        }
    }
    false
}

fn stats_of(s: &Vec<(String, usize)>, other: &Vec<(String, usize)>, shared: bool) -> (r: ObjectStats)
    requires
        names_sorted(other@),
        total_size(s@) <= usize::MAX,
    ensures
        r.objects == stats_where(s@, other@, shared).0,
        r.bytes == stats_where(s@, other@, shared).1,
{
    let mut objects: usize = 0;
    let mut bytes: usize = 0;
    let mut k: usize = 0;
    while k < s.len()
        invariant
            names_sorted(other@),
            total_size(s@) <= usize::MAX,
            k <= s@.len(),
            objects == stats_where(s@.take(k as int), other@, shared).0,
            bytes == stats_where(s@.take(k as int), other@, shared).1,
        decreases s.len() - k,
    {
        let ghost t = s@.take(k + 1);
        assert(t.drop_last() =~= s@.take(k as int));
        assert(t.last() == s@[k as int]);
        proof {
            lemma_stats_bounded(t, other@, shared);
            lemma_total_prefix(s@, k + 1);
        }
        if find_object(other, &s[k].0) == shared {
            objects = objects + 1;
            bytes = bytes + s[k].1;
        }
        k = k + 1;
    }
    assert(s@.take(s@.len() as int) =~= s@);
    ObjectStats { objects, bytes }
}

proof fn lemma_total_prefix(s: Seq<(String, usize)>, n: int)
    requires
        0 <= n <= s.len(),
    ensures
        total_size(s.take(n)) <= total_size(s),
    decreases s.len() - n,
{
    if n < s.len() {
        lemma_total_prefix(s, n + 1);
        assert(s.take(n + 1).drop_last() =~= s.take(n));
    } else {
        assert(s.take(n) =~= s);
    }
}

/// The objects reachable from both roots (sized as on the left) and from only
/// one of them, each given as object names with sizes in increasing name order.
pub fn object_sharing(left: &Vec<(String, usize)>, right: &Vec<(String, usize)>) -> (r: (ObjectStats, ObjectStats, ObjectStats))
    requires
        names_sorted(left@),
        names_sorted(right@),
        total_size(left@) <= usize::MAX,
        total_size(right@) <= usize::MAX,
    ensures
        (r.0.objects as nat, r.0.bytes as nat) == stats_where(left@, right@, true),
        (r.1.objects as nat, r.1.bytes as nat) == stats_where(left@, right@, false),
        (r.2.objects as nat, r.2.bytes as nat) == stats_where(right@, left@, false),
{
    let shared = stats_of(left, right, true);
    let left_unique = stats_of(left, right, false);
    let right_unique = stats_of(right, left, false);
    (shared, left_unique, right_unique)
}

/// Whether two collection configurations are equal.
pub open spec fn same_config(a: CollectionConfig, b: CollectionConfig) -> bool {
    &&& a.dimension == b.dimension
    &&& a.distance == b.distance
    &&& same_text(a.vector_space, b.vector_space)
    &&& a.index == b.index
}

/// Compares two collection configurations.
pub fn config_equal(a: &CollectionConfig, b: &CollectionConfig) -> (r: bool)
    ensures
        r == same_config(*a, *b),
{
    let space = match (&a.vector_space, &b.vector_space) {
        (Some(x), Some(y)) => text_equal(x, y),
        (None, None) => true,
        _ => false,
    };
    let i = &a.index;
    let j = &b.index;
    let index = i.tables == j.tables && i.signature_bits == j.signature_bits && i.projection_seed
        == j.projection_seed && i.full_scan_threshold == j.full_scan_threshold && i.default_probes
        == j.default_probes && i.default_candidate_limit == j.default_candidate_limit;
    let distance = match (a.distance, b.distance) {
        (Distance::Cosine, Distance::Cosine) => true,
    };
    a.dimension == b.dimension && distance && space && index
}

} // verus!
