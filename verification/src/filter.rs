//! Boolean payload filters: what they are, whether a point satisfies one, and
//! whether a filter is well formed.
use crate::json::{dot_path, get_member, get_path, lookup, member, Json, JsonNumber};
use crate::model::{IdValue, PointId};
use crate::pattern::{compile_pattern, pattern_is_match, regex_is_match, regex_valid};
use crate::text::{chars_of, contains_chars, dot_segments, lemma_last_index_none, occurs_in, split_dots};
use crate::Error;
use vstd::prelude::*;

verus! {

broadcast use vstd::string::group_string_axioms;

/// A JSON scalar value required by a field-match condition.
#[derive(Debug)]
pub struct MatchValue {
    /// The scalar value that must equal the payload field.
    pub value: Json,
}

/// Inclusive or exclusive numeric bounds for a payload field, each held by
/// the order key of its number.
#[derive(Clone, Copy, Debug, Default)]
pub struct Range {
    /// Exclusive lower bound.
    pub gt: Option<u64>,
    /// Inclusive lower bound.
    pub gte: Option<u64>,
    /// Exclusive upper bound.
    pub lt: Option<u64>,
    /// Inclusive upper bound.
    pub lte: Option<u64>,
}

/// A predicate used inside a [`Filter`].
#[derive(Debug)]
pub enum Condition {
    /// The payload has a value at a dot-separated path.
    HasField { has_field: String },
    /// The value at `key` equals one of `any`.
    FieldIn { key: String, any: Vec<Json> },
    /// The value at `key` exists and equals none of `none`.
    FieldNotIn { key: String, none: Vec<Json> },
    /// The value at `key` is an array with an element equal to `contains`.
    FieldContains { key: String, contains: Json },
    /// The `document` member is a string containing this text.
    DocumentContains { document_contains: String },
    /// The `document` member is a string in which this regular expression matches.
    DocumentRegex { document_regex: String },
    /// Matches or range-checks a dot-separated payload field.
    Field { key: String, matches: Option<MatchValue>, range: Option<Range> },
    /// The point's ID is one of these.
    HasId { has_id: Vec<PointId> },
    /// Evaluates a nested Boolean filter.
    Nested(Filter),
}

/// A Boolean point filter.
///
/// Every `must` condition and no `must_not` condition must match. When `should`
/// is non-empty, at least one `should` condition must also match.
#[derive(Debug, Default)]
pub struct Filter {
    /// Conditions that must all match.
    pub must: Vec<Condition>,
    /// Conditions of which at least one must match when the list is non-empty.
    pub should: Vec<Condition>,
    /// Conditions that must not match.
    pub must_not: Vec<Condition>,
}

impl Condition {
    /// An equality condition on a dot-separated payload path.
    pub fn matches(key: String, value: Json) -> (r: Condition)
        ensures
            r == (Condition::Field { key, matches: Some(MatchValue { value }), range: None }),
    {
        Condition::Field { key, matches: Some(MatchValue { value }), range: None }
    }

    /// A numeric-range condition on a dot-separated payload path.
    pub fn range(key: String, range: Range) -> (r: Condition)
        ensures
            r == (Condition::Field { key, matches: None, range: Some(range) }),
    {
        Condition::Field { key, matches: None, range: Some(range) }
    }

    /// A condition that accepts the given typed point IDs.
    pub fn has_id(ids: Vec<PointId>) -> (r: Condition)
        ensures
            r == (Condition::HasId { has_id: ids }),
    {
        Condition::HasId { has_id: ids }
    }
}

impl Filter {
    /// A filter holding only required conditions.
    pub fn must(conditions: Vec<Condition>) -> (r: Filter)
        ensures
            r.must == conditions,
            r.should@.len() == 0,
            r.must_not@.len() == 0,
    {
        Filter { must: conditions, should: Vec::new(), must_not: Vec::new() }
    }
}

/// Equality of JSON scalars: numbers by value, strings, booleans and nulls by
/// content; anything else, arrays and objects included, is unequal.
pub open spec fn scalar_eq(left: Json, right: Json) -> bool {
    match (left, right) {
        (Json::Number(a), Json::Number(b)) => a.key == b.key,
        (Json::String(a), Json::String(b)) => a@ == b@,
        (Json::Bool(a), Json::Bool(b)) => a == b,
        (Json::Null, Json::Null) => true,
        _ => false,
    }
}

/// Compares two JSON scalars as `scalar_eq` does.
pub fn scalar_equal(left: &Json, right: &Json) -> (r: bool)
    ensures
        r == scalar_eq(*left, *right),
{
    match (left, right) {
        (Json::Number(a), Json::Number(b)) => a.key == b.key,
        (Json::String(a), Json::String(b)) => a.eq(b),
        (Json::Bool(a), Json::Bool(b)) => *a == *b,
        (Json::Null, Json::Null) => true,
        _ => false,
    }
}

/// Whether a value is a number within every bound of a range.
pub open spec fn within(value: Json, range: Range) -> bool {
    match value {
        Json::Number(n) => {
            &&& (range.gt matches Some(b) ==> n.key > b)
            &&& (range.gte matches Some(b) ==> n.key >= b)
            &&& (range.lt matches Some(b) ==> n.key < b)
            &&& (range.lte matches Some(b) ==> n.key <= b)
        },
        _ => false,
    }
}

/// Checks a value against a range as `within` does.
pub fn in_range(value: &Json, range: &Range) -> (r: bool)
    ensures
        r == within(*value, *range),
{
    match value {
        Json::Number(n) => {
            let k = n.key;
            (match range.gt {
                Some(b) => k > b,
                None => true,
            }) && (match range.gte {
                Some(b) => k >= b,
                None => true,
            }) && (match range.lt {
                Some(b) => k < b,
                None => true,
            }) && (match range.lte {
                Some(b) => k <= b,
                None => true,
            })
        },
        _ => false,
    }
}

/// Whether some element of `values` equals `v` as a scalar.
pub open spec fn any_equal(values: Seq<Json>, v: Json) -> bool {
    exists|k: int| 0 <= k < values.len() && scalar_eq(v, #[trigger] values[k])
}

fn any_scalar_equal(values: &Vec<Json>, v: &Json) -> (r: bool)
    ensures
        r == any_equal(values@, *v),
{
    let mut k: usize = 0;
    while k < values.len()
        invariant
            k <= values@.len(),
            forall|j: int| 0 <= j < k ==> !scalar_eq(*v, #[trigger] values@[j]),
        decreases values.len() - k,
    {
        if scalar_equal(v, &values[k]) {
            return true;
        }
        k = k + 1;
    }
    false
}

/// Whether some array element equals `v` as a scalar (the value at `key` is an array).
pub open spec fn array_contains(value: Json, v: Json) -> bool {
    match value {
        Json::Array(items) => any_equal(items@, v),
        _ => false,
    }
}

/// The text of the payload's `document` member, when it is a string.
pub open spec fn document_text(payload: Seq<(String, Json)>) -> Option<Seq<char>> {
    match member(payload, "document"@) {
        Some(Json::String(d)) => Some(d@),
        _ => None,
    }
}

/// Whether a single condition holds of a point with this ID and payload.
pub open spec fn condition_holds(c: Condition, id: IdValue, payload: Seq<(String, Json)>) -> bool
    decreases c,
{
    match c {
        Condition::HasField { has_field } => dot_path(payload, has_field@) is Some,
        Condition::FieldIn { key, any } => match dot_path(payload, key@) {
            Some(v) => any_equal(any@, v),
            None => false,
        },
        Condition::FieldNotIn { key, none } => match dot_path(payload, key@) {
            Some(v) => !any_equal(none@, v),
            None => false,
        },
        Condition::FieldContains { key, contains } => match dot_path(payload, key@) {
            Some(v) => array_contains(v, contains),
            None => false,
        },
        Condition::DocumentContains { document_contains } => match document_text(payload) {
            Some(d) => occurs_in(d, document_contains@),
            None => false,
        },
        Condition::DocumentRegex { document_regex } => match document_text(payload) {
            Some(d) => regex_valid(document_regex@) && regex_is_match(document_regex@, d),
            None => false,
        },
        Condition::Field { key, matches, range } => match dot_path(payload, key@) {
            Some(v) => {
                &&& (matches matches Some(m) ==> scalar_eq(v, m.value))
                &&& (range matches Some(r) ==> within(v, r))
                &&& (matches is Some || range is Some)
            },
            None => false,
        },
        Condition::HasId { has_id } => exists|k: int| 0 <= k < has_id@.len() && (#[trigger] has_id@[k])@ == id,
        Condition::Nested(f) => filter_holds(f, id, payload),
    }
}

/// Whether every condition of `cs` holds.
pub open spec fn all_hold(cs: Seq<Condition>, id: IdValue, payload: Seq<(String, Json)>) -> bool
    decreases cs,
{
    if cs.len() == 0 {
        true
    } else {
        condition_holds(cs[0], id, payload) && all_hold(cs.subrange(1, cs.len() as int), id, payload)
    }
}

/// Whether no condition of `cs` holds.
pub open spec fn none_hold(cs: Seq<Condition>, id: IdValue, payload: Seq<(String, Json)>) -> bool
    decreases cs,
{
    if cs.len() == 0 {
        true
    } else {
        !condition_holds(cs[0], id, payload) && none_hold(cs.subrange(1, cs.len() as int), id, payload)
    }
}

/// Whether a filter holds of a point: every `must`, no `must_not`, and one
/// `should` when there are any.
pub open spec fn filter_holds(f: Filter, id: IdValue, payload: Seq<(String, Json)>) -> bool
    decreases f,
{
    &&& all_hold(f.must@, id, payload)
    &&& none_hold(f.must_not@, id, payload)
    &&& (f.should@.len() == 0 || !none_hold(f.should@, id, payload))
}

fn document_of(payload: &Vec<(String, Json)>) -> (r: Option<&String>)
    ensures
        match r {
            Some(d) => document_text(payload@) == Some(d@),
            None => document_text(payload@) is None,
        },
{
    let key = chars_of("document");
    let n = key.len();
    assert(key@.subrange(0, n as int) =~= "document"@);
    match get_member(payload, &key, 0, n) {
        Some(Json::String(d)) => Some(d),
        _ => None,
    }
}

fn has_id(ids: &Vec<PointId>, id: &PointId) -> (r: bool)
    ensures
        r == exists|k: int| 0 <= k < ids@.len() && (#[trigger] ids@[k])@ == id@,
{
    let mut k: usize = 0;
    while k < ids.len()
        invariant
            k <= ids@.len(),
            forall|j: int| 0 <= j < k ==> (#[trigger] ids@[j])@ != id@,
        decreases ids.len() - k,
    {
        if ids[k].same_as(id) {
            return true;
        }
        k = k + 1;
    }
    false
}

/// Whether one condition holds of a point with this ID and payload.
pub fn matches_condition(condition: &Condition, id: &PointId, payload: &Vec<(String, Json)>) -> (r: bool)
    ensures
        r == condition_holds(*condition, id@, payload@),
    decreases condition,
{
    match condition {
        Condition::HasField { has_field } => get_path(payload, has_field.as_str()).is_some(),
        Condition::FieldIn { key, any } => match get_path(payload, key.as_str()) {
            Some(v) => any_scalar_equal(any, v),
            None => false,
        },
        Condition::FieldNotIn { key, none } => match get_path(payload, key.as_str()) {
            Some(v) => !any_scalar_equal(none, v),
            None => false,
        },
        Condition::FieldContains { key, contains } => match get_path(payload, key.as_str()) {
            Some(Json::Array(items)) => any_scalar_equal(items, contains),
            _ => false,
        },
        Condition::DocumentContains { document_contains } => match document_of(payload) {
            Some(d) => {
                let hay = chars_of(d.as_str());
                let needle = chars_of(document_contains.as_str());
                contains_chars(&hay, &needle)
            },
            None => false,
        },
        Condition::DocumentRegex { document_regex } => match document_of(payload) {
            Some(d) => match compile_pattern(document_regex.as_str()) {
                Some(p) => pattern_is_match(&p, d.as_str()),
                None => false,
            },
            None => false,
        },
        Condition::Field { key, matches, range } => {
            let value = match get_path(payload, key.as_str()) {
                Some(v) => v,
                None => {
                    return false;
                },
            };
            let matched = match matches {
                Some(m) => scalar_equal(value, &m.value),
                None => true,
            };
            let ranged = match range {
                Some(b) => in_range(value, b),
                None => true,
            };
            matched && ranged && (matches.is_some() || range.is_some())
        },
        Condition::HasId { has_id: ids } => has_id(ids, id),
        Condition::Nested(f) => matches_filter(f, id, payload),
    }
}

/// Whether a filter holds of a point with this ID and payload.
pub fn matches_filter(filter: &Filter, id: &PointId, payload: &Vec<(String, Json)>) -> (r: bool)
    ensures
        r == filter_holds(*filter, id@, payload@),
    decreases filter,
{
    let mut k: usize = 0;
    assert(filter.must@.subrange(0, filter.must@.len() as int) =~= filter.must@);
    while k < filter.must.len()
        invariant
            k <= filter.must@.len(),
            all_hold(filter.must@, id@, payload@) == all_hold(
                filter.must@.subrange(k as int, filter.must@.len() as int),
                id@,
                payload@,
            ),
        decreases filter.must.len() - k,
    {
        let ghost rest = filter.must@.subrange(k as int, filter.must@.len() as int);
        assert(rest[0] == filter.must@[k as int]);
        assert(rest.subrange(1, rest.len() as int) =~= filter.must@.subrange(k + 1, filter.must@.len() as int));
        if !matches_condition(&filter.must[k], id, payload) {
            return false;
        }
        k = k + 1;
    }
    let mut k: usize = 0;
    assert(filter.must_not@.subrange(0, filter.must_not@.len() as int) =~= filter.must_not@);
    while k < filter.must_not.len()
        invariant
            k <= filter.must_not@.len(),
            all_hold(filter.must@, id@, payload@),
            none_hold(filter.must_not@, id@, payload@) == none_hold(
                filter.must_not@.subrange(k as int, filter.must_not@.len() as int),
                id@,
                payload@,
            ),
        decreases filter.must_not.len() - k,
    {
        let ghost rest = filter.must_not@.subrange(k as int, filter.must_not@.len() as int);
        assert(rest[0] == filter.must_not@[k as int]);
        assert(rest.subrange(1, rest.len() as int) =~= filter.must_not@.subrange(k + 1, filter.must_not@.len() as int));
        if matches_condition(&filter.must_not[k], id, payload) {
            return false;
        }
        k = k + 1;
    }
    if filter.should.len() == 0 {
        return true;
    }
    let mut k: usize = 0;
    assert(filter.should@.subrange(0, filter.should@.len() as int) =~= filter.should@);
    while k < filter.should.len()
        invariant
            k <= filter.should@.len(),
            all_hold(filter.must@, id@, payload@),
            none_hold(filter.must_not@, id@, payload@),
            filter.should@.len() > 0,
            none_hold(filter.should@, id@, payload@) == none_hold(
                filter.should@.subrange(k as int, filter.should@.len() as int),
                id@,
                payload@,
            ),
        decreases filter.should.len() - k,
    {
        let ghost rest = filter.should@.subrange(k as int, filter.should@.len() as int);
        assert(rest[0] == filter.should@[k as int]);
        assert(rest.subrange(1, rest.len() as int) =~= filter.should@.subrange(k + 1, filter.should@.len() as int));
        if matches_condition(&filter.should[k], id, payload) {
            return true;
        }
        k = k + 1;
    }
    false
}

/// Whether a dot-separated payload path has no empty segment.
pub open spec fn path_ok(path: Seq<char>) -> bool {
    forall|k: int| 0 <= k < dot_segments(path).len() ==> (#[trigger] dot_segments(path)[k]).len() > 0
}

/// Whether a value is a JSON scalar: not an array or object.
pub open spec fn scalar_ok(v: Json) -> bool {
    !(v is Array || v is Object)
}

/// Whether a value list is non-empty and holds scalars only.
pub open spec fn values_ok(values: Seq<Json>) -> bool {
    values.len() > 0 && forall|k: int| 0 <= k < values.len() ==> scalar_ok(#[trigger] values[k])
}

/// Whether a condition is well formed.
pub open spec fn condition_ok(c: Condition) -> bool
    decreases c,
{
    match c {
        Condition::HasField { has_field } => path_ok(has_field@),
        Condition::FieldIn { key, any } => path_ok(key@) && values_ok(any@),
        Condition::FieldNotIn { key, none } => path_ok(key@) && values_ok(none@),
        Condition::FieldContains { key, contains } => path_ok(key@) && scalar_ok(contains),
        Condition::DocumentContains { document_contains } => document_contains@.len() > 0,
        Condition::DocumentRegex { document_regex } => regex_valid(document_regex@),
        Condition::Field { key, matches, range } => {
            &&& path_ok(key@)
            &&& (matches is Some || range is Some)
            &&& (matches matches Some(m) ==> scalar_ok(m.value))
        },
        Condition::HasId { has_id } => has_id@.len() > 0,
        Condition::Nested(f) => filter_ok(f),
    }
}

/// Whether every condition of `cs` is well formed.
pub open spec fn conditions_ok(cs: Seq<Condition>) -> bool
    decreases cs,
{
    if cs.len() == 0 {
        true
    } else {
        condition_ok(cs[0]) && conditions_ok(cs.subrange(1, cs.len() as int))
    }
}

/// Whether every condition of a filter, nested ones included, is well formed.
pub open spec fn filter_ok(f: Filter) -> bool
    decreases f,
{
    conditions_ok(f.must@) && conditions_ok(f.should@) && conditions_ok(f.must_not@)
}

/// Checks a payload path; fails with `Invalid` when a segment is empty.
pub fn validate_path(path: &str) -> (r: Result<(), Error>)
    ensures
        r is Ok <==> path_ok(path@),
        r matches Err(e) ==> e is Invalid,
{
    let chars = chars_of(path);
    let segments = split_dots(&chars);
    let mut k: usize = 0;
    while k < segments.len()
        invariant
            chars@ == path@,
            segments@.len() == dot_segments(path@).len(),
            forall|j: int|
                0 <= j < segments@.len() ==> (#[trigger] segments@[j]).0 <= segments@[j].1 <= chars@.len()
                    && chars@.subrange(segments@[j].0 as int, segments@[j].1 as int) == dot_segments(path@)[j],
            k <= segments@.len(),
            forall|j: int| 0 <= j < k ==> (#[trigger] dot_segments(path@)[j]).len() > 0,
        decreases segments.len() - k,
    {
        let (a, b) = segments[k];
        if a == b {
            assert(dot_segments(path@)[k as int].len() == 0);
            return Err(Error::Invalid("invalid empty payload path".to_string()));
        }
        k = k + 1;
    }
    Ok(())
}

/// Checks that a value is a JSON scalar; fails with `Invalid` otherwise.
pub fn validate_scalar(value: &Json) -> (r: Result<(), Error>)
    ensures
        r is Ok <==> scalar_ok(*value),
        r matches Err(e) ==> e is Invalid,
{
    match value {
        Json::Array(_) | Json::Object(_) => Err(Error::Invalid("value must be a JSON scalar".to_string())),
        _ => Ok(()),
    }
}

/// Checks a value list: non-empty, scalars only; fails with `Invalid` otherwise.
pub fn validate_values(values: &Vec<Json>) -> (r: Result<(), Error>)
    ensures
        r is Ok <==> values_ok(values@),
        r matches Err(e) ==> e is Invalid,
{
    if values.len() == 0 {
        return Err(Error::Invalid("values must not be empty".to_string()));
    }
    let mut k: usize = 0;
    while k < values.len()
        invariant
            k <= values@.len(),
            forall|j: int| 0 <= j < k ==> scalar_ok(#[trigger] values@[j]),
        decreases values.len() - k,
    {
        if validate_scalar(&values[k]).is_err() {
            return Err(Error::Invalid("values must be JSON scalars".to_string()));
        }
        k = k + 1;
    }
    Ok(())
}

fn validate_condition(c: &Condition) -> (r: Result<(), Error>)
    ensures
        r is Ok <==> condition_ok(*c),
        r matches Err(e) ==> e is Invalid,
    decreases c,
{
    match c {
        Condition::HasField { has_field } => validate_path(has_field.as_str()),
        Condition::FieldIn { key, any } => {
            validate_path(key.as_str())?;
            validate_values(any)
        },
        Condition::FieldNotIn { key, none } => {
            validate_path(key.as_str())?;
            validate_values(none)
        },
        Condition::FieldContains { key, contains } => {
            validate_path(key.as_str())?;
            validate_scalar(contains)
        },
        Condition::DocumentContains { document_contains } => {
            if document_contains.as_str().unicode_len() == 0 {
                Err(Error::Invalid("document substring must not be empty".to_string()))
            } else {
                Ok(())
            }
        },
        Condition::DocumentRegex { document_regex } => {
            if compile_pattern(document_regex.as_str()).is_none() {
                Err(Error::Invalid("invalid document regular expression".to_string()))
            } else {
                Ok(())
            }
        },
        Condition::Field { key, matches, range } => {
            validate_path(key.as_str())?;
            if matches.is_none() && range.is_none() {
                return Err(Error::Invalid("field condition requires match or range".to_string()));
            }
            match matches {
                Some(m) => validate_scalar(&m.value),
                None => Ok(()),
            }
        },
        Condition::HasId { has_id } => {
            if has_id.len() == 0 {
                Err(Error::Invalid("has_id must not be empty".to_string()))
            } else {
                Ok(())
            }
        },
        Condition::Nested(f) => validate_filter(f),
    }
}

fn validate_conditions(cs: &Vec<Condition>) -> (r: Result<(), Error>)
    ensures
        r is Ok <==> conditions_ok(cs@),
        r matches Err(e) ==> e is Invalid,
    decreases cs,
{
    let mut k: usize = 0;
    assert(cs@.subrange(0, cs@.len() as int) =~= cs@);
    while k < cs.len()
        invariant
            k <= cs@.len(),
            conditions_ok(cs@) == conditions_ok(cs@.subrange(k as int, cs@.len() as int)),
        decreases cs.len() - k,
    {
        let ghost rest = cs@.subrange(k as int, cs@.len() as int);
        assert(rest[0] == cs@[k as int]);
        assert(rest.subrange(1, rest.len() as int) =~= cs@.subrange(k + 1, cs@.len() as int));
        validate_condition(&cs[k])?;
        k = k + 1;
    }
    Ok(())
}

/// Checks that every condition of a filter, nested filters included, is well
/// formed: paths have no empty segment, value lists are non-empty scalars,
/// field conditions carry a match or a range, document text is non-empty,
/// document patterns compile and ID sets are non-empty. Fails with `Invalid`.
pub fn validate_filter(filter: &Filter) -> (r: Result<(), Error>)
    ensures
        r is Ok <==> filter_ok(*filter),
        r matches Err(e) ==> e is Invalid,
    decreases filter,
{
    validate_conditions(&filter.must)?;
    validate_conditions(&filter.should)?;
    validate_conditions(&filter.must_not)?;
    Ok(())
}

proof fn lemma_all_hold(cs: Seq<Condition>, id: IdValue, payload: Seq<(String, Json)>)
    ensures
        all_hold(cs, id, payload) <==> forall|k: int| 0 <= k < cs.len() ==> condition_holds(#[trigger] cs[k], id, payload),
        none_hold(cs, id, payload) <==> forall|k: int| 0 <= k < cs.len() ==> !condition_holds(#[trigger] cs[k], id, payload),
    decreases cs.len(),
{
    if cs.len() > 0 {
        let rest = cs.subrange(1, cs.len() as int);
        lemma_all_hold(rest, id, payload);
        assert forall|k: int| 1 <= k < cs.len() implies #[trigger] cs[k] == rest[k - 1] by {}
        if forall|k: int| 0 <= k < rest.len() ==> condition_holds(#[trigger] rest[k], id, payload) {
            assert forall|k: int| 0 <= k < cs.len() implies condition_holds(#[trigger] cs[k], id, payload) || k == 0 by {
                if k > 0 {
                    assert(cs[k] == rest[k - 1]);
                }
            }
        }
        if forall|k: int| 0 <= k < rest.len() ==> !condition_holds(#[trigger] rest[k], id, payload) {
            assert forall|k: int| 0 <= k < cs.len() implies !condition_holds(#[trigger] cs[k], id, payload) || k == 0 by {
                if k > 0 {
                    assert(cs[k] == rest[k - 1]);
                }
            }
        }
    }
}

/// What a filter means: every `must` condition holds, no `must_not` condition
/// holds, and when `should` is non-empty at least one of its conditions holds.
pub proof fn lemma_filter_semantics(f: Filter, id: IdValue, payload: Seq<(String, Json)>)
    ensures
        filter_holds(f, id, payload) <==> {
            &&& forall|k: int| 0 <= k < f.must@.len() ==> condition_holds(#[trigger] f.must@[k], id, payload)
            &&& forall|k: int| 0 <= k < f.must_not@.len() ==> !condition_holds(#[trigger] f.must_not@[k], id, payload)
            &&& (f.should@.len() == 0 || exists|k: int| 0 <= k < f.should@.len() && condition_holds(#[trigger] f.should@[k], id, payload))
        },
{
    lemma_all_hold(f.must@, id, payload);
    lemma_all_hold(f.must_not@, id, payload);
    lemma_all_hold(f.should@, id, payload);
}

/// Numeric ranges compare a number's order key with their bounds: a number
/// is within a single bound exactly when its key is above it (`gt`), at or
/// above it (`gte`), below it (`lt`), or at or below it (`lte`); so a number
/// equal to an inclusive bound is within it and one equal to an exclusive
/// bound is not. A range without bounds holds every number and a range never
/// holds a value that is not a number.
pub proof fn lemma_range_bounds(n: JsonNumber, b: u64, v: Json, r: Range)
    ensures
        within(Json::Number(n), Range { gt: Some(b), gte: None, lt: None, lte: None }) <==> n.key > b,
        within(Json::Number(n), Range { gt: None, gte: Some(b), lt: None, lte: None }) <==> n.key >= b,
        within(Json::Number(n), Range { gt: None, gte: None, lt: Some(b), lte: None }) <==> n.key < b,
        within(Json::Number(n), Range { gt: None, gte: None, lt: None, lte: Some(b) }) <==> n.key <= b,
        within(Json::Number(n), Range { gt: None, gte: Some(n.key), lt: None, lte: Some(n.key) }),
        !within(Json::Number(n), Range { gt: Some(n.key), gte: None, lt: None, lte: None }),
        !within(Json::Number(n), Range { gt: None, gte: None, lt: Some(n.key), lte: None }),
        within(Json::Number(n), Range { gt: None, gte: None, lt: None, lte: None }),
        within(Json::Number(n), r) <==> {
            &&& (r.gt matches Some(x) ==> n.key > x)
            &&& (r.gte matches Some(x) ==> n.key >= x)
            &&& (r.lt matches Some(x) ==> n.key < x)
            &&& (r.lte matches Some(x) ==> n.key <= x)
        },
        !(v is Number) ==> !within(v, r),
{
}

/// A range filter on a top-level payload field: a point whose payload holds
/// the number `n` under a name without dots matches the filter that requires
/// only the range condition on that name exactly when `n` satisfies every
/// bound of the range; so `year <= 2025` holds of a payload with year 2025.
pub proof fn lemma_field_range_filter(
    f: Filter,
    key: String,
    n: JsonNumber,
    range: Range,
    id: IdValue,
    payload: Seq<(String, Json)>,
)
    requires
        key@.len() > 0,
        forall|k: int| 0 <= k < key@.len() ==> key@[k] != '.',
        payload == seq![(key, Json::Number(n))],
        f.must@ == seq![Condition::Field { key: key, matches: None, range: Some(range) }],
        f.should@.len() == 0,
        f.must_not@.len() == 0,
    ensures
        filter_holds(f, id, payload) <==> {
            &&& (range.gt matches Some(x) ==> n.key > x)
            &&& (range.gte matches Some(x) ==> n.key >= x)
            &&& (range.lt matches Some(x) ==> n.key < x)
            &&& (range.lte matches Some(x) ==> n.key <= x)
        },
{
    lemma_last_index_none(key@, '.');
    assert(dot_segments(key@) == seq![key@]);
    assert(member(payload, key@) == Some(Json::Number(n))) by {
        assert(payload[0].0@ == key@);
    }
    assert(lookup(payload, seq![key@]) == Some(Json::Number(n)));
    assert(dot_path(payload, key@) == Some(Json::Number(n)));
    let c = f.must@[0];
    assert(f.must@.subrange(1, 1) =~= Seq::<Condition>::empty());
    assert(all_hold(Seq::<Condition>::empty(), id, payload));
    assert(all_hold(f.must@, id, payload) == condition_holds(c, id, payload));
    assert(none_hold(f.must_not@, id, payload));
}

} // verus!
