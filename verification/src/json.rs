//! The JSON payload values that filters read.
//!
//! A number is held by its order key: an unsigned integer whose order is the
//! numeric order of the number's `f64` value, so that equal numbers have equal
//! keys. Its exact text is kept beside it.
use crate::text::{chars_of, dot_segments, range_equals, split_dots};
use vstd::prelude::*;

verus! {

broadcast use vstd::string::group_string_axioms;

/// A JSON number: its order key and its exact text.
#[derive(Clone, Debug)]
pub struct JsonNumber {
    /// Orders numbers as their `f64` values do; equal values have equal keys.
    pub key: u64,
    /// The number as written.
    pub text: String,
}

/// A JSON value.
#[derive(Debug)]
pub enum Json {
    Null,
    Bool(bool),
    Number(JsonNumber),
    String(String),
    Array(Vec<Json>),
    Object(Vec<(String, Json)>),
}

/// A JSON object: its members in order, with distinct keys.
pub type JsonObject = Vec<(String, Json)>;

/// The value of member `key` of an object's members, if present.
pub open spec fn member(members: Seq<(String, Json)>, key: Seq<char>) -> Option<Json>
    decreases members.len(),
{
    if members.len() == 0 {
        None
    } else if members[0].0@ == key {
        Some(members[0].1)
    } else {
        member(members.drop_first(), key)
    }
}

/// Looks up member `chars[from..to]` of an object.
pub fn get_member<'a>(members: &'a Vec<(String, Json)>, chars: &Vec<char>, from: usize, to: usize) -> (r: Option<&'a Json>)
    requires
        from <= to <= chars@.len(),
    ensures
        match r {
            Some(v) => member(members@, chars@.subrange(from as int, to as int)) == Some(*v),
            None => member(members@, chars@.subrange(from as int, to as int)) is None,
        },
{
    let ghost key = chars@.subrange(from as int, to as int);
    let mut k: usize = 0;
    assert(members@.skip(0) =~= members@);
    while k < members.len()
        invariant
            k <= members@.len(),
            key == chars@.subrange(from as int, to as int),
            from <= to <= chars@.len(),
            member(members@, key) == member(members@.skip(k as int), key),
        decreases members.len() - k,
    {
        let ghost rest = members@.skip(k as int);
        let name = chars_of(members[k].0.as_str());
        let n = name.len();
        assert(name@.subrange(0, n as int) =~= members@[k as int].0@);
        if range_equals(chars, from, to, members[k].0.as_str()) {
            assert(rest[0] == members@[k as int]);
            return Some(&members[k].1);
        }
        assert(rest.drop_first() =~= members@.skip(k + 1));
        k = k + 1;
    }
    None
}

/// The value at a sequence of member names, starting from an object's members.
pub open spec fn lookup(members: Seq<(String, Json)>, segments: Seq<Seq<char>>) -> Option<Json>
    decreases segments.len(),
{
    if segments.len() == 0 {
        None
    } else {
        match member(members, segments[0]) {
            None => None,
            Some(v) => if segments.len() == 1 {
                Some(v)
            } else {
                match v {
                    Json::Object(inner) => lookup(inner@, segments.drop_first()),
                    _ => None,
                }
            },
        }
    }
}

/// The value at a dot-separated path of member names, or `None` when the path
/// has an empty segment or leads nowhere.
pub open spec fn dot_path(payload: Seq<(String, Json)>, path: Seq<char>) -> Option<Json> {
    let segments = dot_segments(path);
    if exists|k: int| 0 <= k < segments.len() && (#[trigger] segments[k]).len() == 0 {
        None
    } else {
        lookup(payload, segments)
    }
}

/// Follows a dot-separated path of member names from a payload object.
pub fn get_path<'a>(payload: &'a Vec<(String, Json)>, path: &str) -> (r: Option<&'a Json>)
    ensures
        match r {
            Some(v) => dot_path(payload@, path@) == Some(*v),
            None => dot_path(payload@, path@) is None,
        },
{
    let chars = chars_of(path);
    let segments = split_dots(&chars);
    let ghost segs = dot_segments(path@);
    let mut k: usize = 0;
    while k < segments.len()
        invariant
            chars@ == path@,
            segs == dot_segments(path@),
            segments@.len() == segs.len(),
            forall|j: int|
                0 <= j < segments@.len() ==> (#[trigger] segments@[j]).0 <= segments@[j].1 <= chars@.len()
                    && chars@.subrange(segments@[j].0 as int, segments@[j].1 as int) == segs[j],
            k <= segments@.len(),
            forall|j: int| 0 <= j < k ==> (#[trigger] segs[j]).len() > 0,
        decreases segments.len() - k,
    {
        let (a, b) = segments[k];
        if a == b {
            assert(segs[k as int].len() == 0);
            return None;
        }
        k = k + 1;
    }
    assert(segs.len() >= 1);
    let mut members: &'a Vec<(String, Json)> = payload;
    let mut i: usize = 0;
    assert(segs.skip(0) =~= segs);
    loop
        invariant
            chars@ == path@,
            segs == dot_segments(path@),
            segments@.len() == segs.len(),
            forall|j: int|
                0 <= j < segments@.len() ==> (#[trigger] segments@[j]).0 <= segments@[j].1 <= chars@.len()
                    && chars@.subrange(segments@[j].0 as int, segments@[j].1 as int) == segs[j],
            forall|j: int| 0 <= j < segs.len() ==> (#[trigger] segs[j]).len() > 0,
            i < segs.len(),
            dot_path(payload@, path@) == lookup(members@, segs.skip(i as int)),
        decreases segs.len() - i,
    {
        let (a, b) = segments[i];
        let ghost rest = segs.skip(i as int);
        assert(rest[0] == segs[i as int]);
        match get_member(members, &chars, a, b) {
            None => {
                return None;
            },
            Some(v) => {
                if i == segments.len() - 1 {
                    return Some(v);
                }
                match v {
                    Json::Object(inner) => {
                        assert(rest.drop_first() =~= segs.skip(i + 1));
                        members = inner;
                        i = i + 1;
                    },
                    _ => {
                        return None;
                    },
                }
            },
        }
    }
}

} // verus!
