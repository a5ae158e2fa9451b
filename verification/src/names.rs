//! Names the database accepts: collection names and their refs, entries of a
//! materialized snapshot tree, and full object IDs.
use crate::text::{chars_of, str_eq};
use crate::Error;
use vstd::prelude::*;
use vstd::string::StringExecFns;

verus! {

broadcast use vstd::string::group_string_axioms;

/// The namespace of collection refs.
pub open spec fn collection_ref_prefix() -> Seq<char> {
    "refs/git-vdb/collections/"@
}

/// Whether a character may appear in a collection name: an ASCII letter or
/// digit, `-`, `_` or `.`.
pub open spec fn name_char(c: char) -> bool {
    ('a' <= c <= 'z') || ('A' <= c <= 'Z') || ('0' <= c <= '9') || c == '-' || c == '_' || c == '.'
}

/// Whether `name` may name a collection: 1 to 128 allowed characters, not
/// starting or ending with `.`, with no `..`.
pub open spec fn collection_name_ok(name: Seq<char>) -> bool {
    &&& 1 <= name.len() <= 128
    &&& forall|k: int| 0 <= k < name.len() ==> name_char(#[trigger] name[k])
    &&& name[0] != '.'
    &&& name.last() != '.'
    &&& forall|k: int| 0 <= k < name.len() - 1 ==> !(#[trigger] name[k] == '.' && name[k + 1] == '.')
}

/// Checks a collection name; fails with `Invalid` unless `collection_name_ok`.
pub fn validate_collection_name(name: &str) -> (r: Result<(), Error>)
    ensures
        r is Ok <==> collection_name_ok(name@),
        r matches Err(e) ==> e is Invalid,
{
    let c = chars_of(name);
    let n = c.len();
    if n == 0 || n > 128 {
        return Err(Error::Invalid("invalid collection name".to_string()));
    }
    let mut k: usize = 0;
    while k < n
        invariant
            c@ == name@,
            n == c@.len(),
            1 <= n <= 128,
            k <= n,
            forall|j: int| 0 <= j < k ==> name_char(#[trigger] c@[j]),
            forall|j: int| 0 <= j < k && j < n - 1 ==> !(#[trigger] c@[j] == '.' && c@[j + 1] == '.'),
        decreases n - k,
    {
        let x = c[k];
        let allowed = ('a' <= x && x <= 'z') || ('A' <= x && x <= 'Z') || ('0' <= x && x <= '9')
            || x == '-' || x == '_' || x == '.';
        if !allowed {
            assert(!name_char(name@[k as int]));
            return Err(Error::Invalid("invalid collection name".to_string()));
        }
        if k + 1 < n && x == '.' && c[k + 1] == '.' {
            assert(name@[k as int] == '.' && name@[k + 1] == '.');
            return Err(Error::Invalid("invalid collection name".to_string()));
        }
        k = k + 1;
    }
    if c[0] == '.' || c[n - 1] == '.' {
        return Err(Error::Invalid("invalid collection name".to_string()));
    }
    Ok(())
}

/// Every name of 1 to 128 ASCII letters (of either case), digits, `-` and
/// `_` is a valid collection name, and no name with another character is.
pub proof fn lemma_collection_names(name: Seq<char>, k: int)
    ensures
        (1 <= name.len() <= 128 && forall|i: int|
            0 <= i < name.len() ==> {
                let c = #[trigger] name[i];
                ('a' <= c <= 'z') || ('A' <= c <= 'Z') || ('0' <= c <= '9') || c == '-' || c == '_'
            }) ==> collection_name_ok(name),
        (0 <= k < name.len() && !(('a' <= name[k] <= 'z') || ('A' <= name[k] <= 'Z') || ('0' <= name[k] <= '9')
            || name[k] == '-' || name[k] == '_' || name[k] == '.')) ==> !collection_name_ok(name),
{
    if 1 <= name.len() <= 128 && forall|i: int|
        0 <= i < name.len() ==> {
            let c = #[trigger] name[i];
            ('a' <= c <= 'z') || ('A' <= c <= 'Z') || ('0' <= c <= '9') || c == '-' || c == '_'
        } {
        assert(name[0] != '.');
        assert(name[name.len() - 1] != '.');
        assert forall|j: int| 0 <= j < name.len() - 1 implies !(#[trigger] name[j] == '.' && name[j + 1] == '.') by {
            assert(name[j] != '.');
        }
    }
}

/// The ref that holds a collection's commits.
pub fn collection_ref(name: &str) -> (r: String)
    ensures
        r@ == collection_ref_prefix() + name@,
{
    "refs/git-vdb/collections/".to_owned().concat(name)
}

/// Whether a tree entry name is safe to materialize as a file name: not
/// empty, not `.` or `..`, and with no `/` or `\`.
pub open spec fn tree_name_ok(name: Seq<char>) -> bool {
    &&& name.len() > 0
    &&& name != "."@
    &&& name != ".."@
    &&& forall|k: int| 0 <= k < name.len() ==> (#[trigger] name[k]) != '/' && name[k] != '\\'
}

/// Checks a snapshot tree entry name; fails with `Corrupt` unless `tree_name_ok`.
pub fn validate_tree_name(name: &str) -> (r: Result<(), Error>)
    ensures
        r is Ok <==> tree_name_ok(name@),
        r matches Err(e) ==> e is Corrupt,
{
    let c = chars_of(name);
    if c.len() == 0 || str_eq(name, ".") || str_eq(name, "..") {
        return Err(Error::Corrupt("unsafe path name in snapshot tree".to_string()));
    }
    let mut k: usize = 0;
    while k < c.len()
        invariant
            c@ == name@,
            k <= c@.len(),
            forall|j: int| 0 <= j < k ==> (#[trigger] c@[j]) != '/' && c@[j] != '\\',
        decreases c.len() - k,
    {
        if c[k] == '/' || c[k] == '\\' {
            return Err(Error::Corrupt("unsafe path name in snapshot tree".to_string()));
        }
        k = k + 1;
    }
    Ok(())
}

/// Whether `id` is a full lowercase SHA-1 object ID: 40 characters, each a
/// decimal digit or `a` to `f`.
pub open spec fn full_object_id(id: Seq<char>) -> bool {
    &&& id.len() == 40
    &&& forall|k: int| 0 <= k < id.len() ==> ('0' <= #[trigger] id[k] <= '9') || ('a' <= id[k] <= 'f')
}

/// Whether `id` is a full lowercase SHA-1 object ID.
pub fn is_full_object_id(id: &str) -> (r: bool)
    ensures
        r == full_object_id(id@),
{
    let c = chars_of(id);
    if c.len() != 40 {
        return false;
    }
    let mut k: usize = 0;
    while k < 40
        invariant
            c@ == id@,
            c@.len() == 40,
            k <= 40,
            forall|j: int| 0 <= j < k ==> ('0' <= #[trigger] c@[j] <= '9') || ('a' <= c@[j] <= 'f'),
        decreases 40 - k,
    {
        let x = c[k];
        if !(('0' <= x && x <= '9') || ('a' <= x && x <= 'f')) {
            return false;
        }
        k = k + 1;
    }
    true
}

} // verus!
