//! Handles of the embedded database: stores, named collections and text
//! collections, and the decisions they make before touching Git.
use crate::filter::Filter;
use crate::model::{ObjectId, PointId, QueryParams};
use crate::names::{collection_ref_prefix, validate_collection_name};
use crate::points::{upserts, Point, SnapshotMutation};
use crate::json::Json;
use crate::text::{chars_of, range_equals, str_eq, trim_range};
use crate::unicode::is_whitespace;
use crate::Error;
use vstd::prelude::*;

verus! {

broadcast use vstd::string::group_string_axioms;

/// Strict lexicographic order on character sequences (a proper prefix comes
/// first); on UTF-8 text this is the byte order of `str`.
pub open spec fn chars_lt(a: Seq<char>, b: Seq<char>) -> bool
    decreases a.len(),
{
    if a.len() == 0 {
        b.len() > 0
    } else if b.len() == 0 {
        false
    } else if a[0] != b[0] {
        (a[0] as u32) < (b[0] as u32)
    } else {
        chars_lt(a.drop_first(), b.drop_first())
    }
}

proof fn lemma_chars_lt_total(a: Seq<char>, b: Seq<char>)
    ensures
        a != b ==> chars_lt(a, b) || chars_lt(b, a),
        !(chars_lt(a, b) && chars_lt(b, a)),
    decreases a.len(),
{
    if a.len() > 0 && b.len() > 0 && a[0] == b[0] {
        lemma_chars_lt_total(a.drop_first(), b.drop_first());
        if a.drop_first() == b.drop_first() {
            assert(a =~= seq![a[0]] + a.drop_first());
            assert(b =~= seq![b[0]] + b.drop_first());
        }
    } else if a.len() == 0 && b.len() == 0 {
        assert(a =~= b);
    } else if a.len() > 0 && b.len() > 0 {
        vstd::utf8::char_u32_cast(a[0], a[0] as u32);
        vstd::utf8::char_u32_cast(b[0], b[0] as u32);
    }
}

proof fn lemma_chars_lt_transitive(a: Seq<char>, b: Seq<char>, c: Seq<char>)
    requires
        chars_lt(a, b),
        chars_lt(b, c),
    ensures
        chars_lt(a, c),
    decreases a.len(),
{
    if a.len() > 0 && b.len() > 0 && c.len() > 0 && a[0] == b[0] && b[0] == c[0] {
        lemma_chars_lt_transitive(a.drop_first(), b.drop_first(), c.drop_first());
    }
}

/// Lexicographic character order is a strict total order.
pub proof fn lemma_chars_order(a: Seq<char>, b: Seq<char>, c: Seq<char>)
    ensures
        a != b ==> chars_lt(a, b) || chars_lt(b, a),
        !(chars_lt(a, b) && chars_lt(b, a)),
        chars_lt(a, b) && chars_lt(b, c) ==> chars_lt(a, c),
        !chars_lt(a, a),
{
    lemma_chars_lt_total(a, b);
    lemma_chars_lt_total(a, a);
    if chars_lt(a, b) && chars_lt(b, c) {
        lemma_chars_lt_transitive(a, b, c);
    }
}

/// Whether `a` comes before `b` in character order.
pub fn text_less(a: &str, b: &str) -> (r: bool)
    ensures
        r == chars_lt(a@, b@),
{
    let x = chars_of(a);
    let y = chars_of(b);
    let mut i: usize = 0;
    assert(x@.skip(0) =~= x@);
    assert(y@.skip(0) =~= y@);
    while i < x.len() && i < y.len()
        invariant
            x@ == a@,
            y@ == b@,
            i <= x@.len(),
            i <= y@.len(),
            chars_lt(a@, b@) == chars_lt(x@.skip(i as int), y@.skip(i as int)),
        decreases x.len() - i,
    {
        let ghost sa = x@.skip(i as int);
        let ghost sb = y@.skip(i as int);
        if x[i] != y[i] {
            return (x[i] as u32) < (y[i] as u32);
        }
        assert(sa.drop_first() =~= x@.skip(i + 1));
        assert(sb.drop_first() =~= y@.skip(i + 1));
        i = i + 1;
    }
    i < y.len()
}

/// The text views of a list of strings.
pub open spec fn texts(v: Seq<String>) -> Seq<Seq<char>> {
    v.map_values(|s: String| s@)
}

/// Whether texts are in ascending order.
pub open spec fn texts_sorted(s: Seq<Seq<char>>) -> bool {
    forall|i: int, j: int| 0 <= i < j < s.len() ==> !chars_lt(#[trigger] s[j], #[trigger] s[i])
}

/// Sorts strings into ascending order.
pub fn sort_texts(v: Vec<String>) -> (r: Vec<String>)
    ensures
        texts_sorted(texts(r@)),
        texts(r@).to_multiset() == texts(v@).to_multiset(),
{
    broadcast use vstd::seq_lib::group_to_multiset_ensures;

    let ghost all = v@;
    let mut pending = v;
    let mut out: Vec<String> = Vec::new();
    while pending.len() > 0
        invariant
            texts_sorted(texts(out@)),
            texts(out@).to_multiset().add(texts(pending@).to_multiset()) == texts(all).to_multiset(),
        decreases pending.len(),
    {
        let ghost before_pending = pending@;
        let s = pending.pop().unwrap();
        assert(texts(before_pending) =~= texts(pending@).push(s@));
        let mut p: usize = 0;
        while p < out.len() && !text_less(s.as_str(), out[p].as_str())
            invariant
                p <= out@.len(),
                forall|q: int| 0 <= q < p ==> !chars_lt(s@, #[trigger] texts(out@)[q]),
            decreases out.len() - p,
        {
            p = p + 1;
        }
        let ghost before = texts(out@);
        let ghost sv = s@;
        out.insert(p, s);
        proof {
            assert(texts(out@) =~= before.insert(p as int, sv));
            vstd::seq_lib::to_multiset_insert(before, p as int, sv);
            vstd::seq_lib::to_multiset_build(texts(pending@), sv);
            assert(texts(out@).to_multiset().add(texts(pending@).to_multiset()) =~= before.to_multiset().add(
                texts(before_pending).to_multiset(),
            ));
            let after = texts(out@);
            assert forall|i: int, j: int| 0 <= i < j < after.len() implies !chars_lt(#[trigger] after[j], #[trigger] after[i]) by {
                if j < p {
                } else if j == p {
                    lemma_chars_lt_total(sv, before[i]);
                } else if i < p {
                    assert(after[j] == before[j - 1]);
                    lemma_chars_lt_total(sv, before[i]);
                    if chars_lt(before[j - 1], before[i]) {
                    }
                } else if i == p {
                    if p < before.len() {
                        assert(chars_lt(sv, before[p as int]) || p == before.len());
                        if chars_lt(before[j - 1], sv) {
                            if j - 1 > p {
                                lemma_chars_lt_transitive(before[j - 1], sv, before[p as int]);
                            }
                            lemma_chars_lt_total(before[p as int], sv);
                        }
                    }
                } else {
                }
            }
        }
    }
    proof {
        assert(texts(pending@) =~= Seq::<Seq<char>>::empty());
    }
    out
}

/// The collection names among ref names: the part after the collection-ref
/// prefix of each ref that has it.
pub open spec fn names_of_refs(refs: Seq<Seq<char>>) -> Seq<Seq<char>>
    decreases refs.len(),
{
    if refs.len() == 0 {
        Seq::empty()
    } else {
        let rest = names_of_refs(refs.drop_last());
        let r = refs.last();
        let n = collection_ref_prefix().len();
        if r.len() >= n && r.take(n as int) == collection_ref_prefix() {
            rest.push(r.skip(n as int))
        } else {
            rest
        }
    }
}

/// Every collection name comes from a ref: the prefix followed by the name.
proof fn lemma_name_from_ref(refs: Seq<Seq<char>>, x: Seq<char>)
    requires
        names_of_refs(refs).contains(x),
    ensures
        exists|i: int| 0 <= i < refs.len() && #[trigger] refs[i] == collection_ref_prefix() + x,
    decreases refs.len(),
{
    let rest = names_of_refs(refs.drop_last());
    let r = refs.last();
    let n = collection_ref_prefix().len();
    if r.len() >= n && r.take(n as int) == collection_ref_prefix() && x == r.skip(n as int) {
        assert(r =~= collection_ref_prefix() + x);
        assert(refs[refs.len() - 1] == r);
    } else {
        if r.len() >= n && r.take(n as int) == collection_ref_prefix() {
            let k = choose|k: int| 0 <= k < names_of_refs(refs).len() && names_of_refs(refs)[k] == x;
            assert(names_of_refs(refs) == rest.push(r.skip(n as int)));
            assert(k < rest.len());
            assert(rest[k] == x);
        }
        assert(rest.contains(x));
        lemma_name_from_ref(refs.drop_last(), x);
        let i = choose|i: int| 0 <= i < refs.drop_last().len() && #[trigger] refs.drop_last()[i] == collection_ref_prefix() + x;
        assert(refs[i] == refs.drop_last()[i]);
    }
}

/// Distinct refs give distinct collection names.
pub proof fn lemma_names_distinct(refs: Seq<Seq<char>>)
    requires
        refs.no_duplicates(),
    ensures
        names_of_refs(refs).no_duplicates(),
    decreases refs.len(),
{
    if refs.len() > 0 {
        let init = refs.drop_last();
        assert(init.no_duplicates()) by {
            assert forall|i: int, j: int| 0 <= i < init.len() && 0 <= j < init.len() && i != j implies init[i] != init[j] by {
                assert(init[i] == refs[i] && init[j] == refs[j]);
            }
        }
        lemma_names_distinct(init);
        let rest = names_of_refs(init);
        let r = refs.last();
        let n = collection_ref_prefix().len();
        if r.len() >= n && r.take(n as int) == collection_ref_prefix() {
            let x = r.skip(n as int);
            if rest.contains(x) {
                lemma_name_from_ref(init, x);
                let i = choose|i: int| 0 <= i < init.len() && #[trigger] init[i] == collection_ref_prefix() + x;
                assert(r =~= collection_ref_prefix() + x);
                assert(refs[i] == init[i]);
                assert(refs[refs.len() - 1] == r);
                assert(false);
            }
            let all = rest.push(x);
            assert forall|i: int, j: int| 0 <= i < all.len() && 0 <= j < all.len() && i != j implies all[i] != all[j] by {
                if i == rest.len() {
                    assert(rest[j] == all[j]);
                } else if j == rest.len() {
                    assert(rest[i] == all[i]);
                }
            }
        }
    }
}

/// Distinct texts in ascending order are strictly ascending.
proof fn lemma_sorted_distinct_strict(t: Seq<Seq<char>>)
    requires
        texts_sorted(t),
        t.no_duplicates(),
    ensures
        forall|i: int, j: int| 0 <= i < j < t.len() ==> chars_lt(#[trigger] t[i], #[trigger] t[j]),
{
    assert forall|i: int, j: int| 0 <= i < j < t.len() implies chars_lt(#[trigger] t[i], #[trigger] t[j]) by {
        lemma_chars_order(t[i], t[j], t[j]);
    }
}

/// Collection names in ascending order, from the refs listed under the
/// collection namespace.
pub fn collection_names(refs: &Vec<String>) -> (r: Vec<String>)
    ensures
        texts_sorted(texts(r@)),
        texts(r@).to_multiset() == names_of_refs(texts(refs@)).to_multiset(),
        texts(refs@).no_duplicates() ==> forall|i: int, j: int|
            0 <= i < j < r@.len() ==> chars_lt(#[trigger] texts(r@)[i], #[trigger] texts(r@)[j]),
{
    let prefix = "refs/git-vdb/collections/";
    let n = prefix.unicode_len();
    let mut names: Vec<String> = Vec::new();
    let mut k: usize = 0;
    while k < refs.len()
        invariant
            k <= refs@.len(),
            prefix@ == collection_ref_prefix(),
            n == collection_ref_prefix().len(),
            texts(names@) == names_of_refs(texts(refs@).take(k as int)),
        decreases refs.len() - k,
    {
        let ghost t = texts(refs@).take(k + 1);
        assert(t.drop_last() =~= texts(refs@).take(k as int));
        assert(t.last() == refs@[k as int]@);
        let c = chars_of(refs[k].as_str());
        assert(c@ == t.last());
        if c.len() >= n {
            assert(c@.subrange(0, n as int) =~= c@.take(n as int));
        }
        if c.len() >= n && range_equals(&c, 0, n, prefix) {
            let name = refs[k].as_str().substring_char(n, c.len()).to_owned();
            assert(c@.subrange(0, n as int) =~= c@.take(n as int));
            let ghost before = texts(names@);
            names.push(name);
            assert(texts(names@) =~= before.push(c@.skip(n as int)));
            assert(texts(names@) == names_of_refs(t));
        } else {
            assert(names_of_refs(t) == names_of_refs(t.drop_last()));
        }
        k = k + 1;
    }
    assert(texts(refs@).take(k as int) =~= texts(refs@));
    let r = sort_texts(names);
    proof {
        if texts(refs@).no_duplicates() {
            lemma_names_distinct(texts(refs@));
            let a = names_of_refs(texts(refs@));
            a.lemma_multiset_has_no_duplicates();
            texts(r@).lemma_multiset_has_no_duplicates_conv();
            lemma_sorted_distinct_strict(texts(r@));
        }
    }
    r
}

/// A Git repository that manages named, mutable collection refs.
#[derive(Clone, Debug)]
pub struct Database {
    /// The repository's Git directory.
    pub path: String,
}

impl Database {
    /// Collection names in ascending order, given the refs listed under the
    /// collection namespace of this repository.
    pub fn list_collections(&self, refs: &Vec<String>) -> (r: Vec<String>)
        ensures
            texts_sorted(texts(r@)),
            texts(r@).to_multiset() == names_of_refs(texts(refs@)).to_multiset(),
            texts(refs@).no_duplicates() ==> forall|i: int, j: int|
                0 <= i < j < r@.len() ==> chars_lt(#[trigger] texts(r@)[i], #[trigger] texts(r@)[j]),
    {
        collection_names(refs)
    }
}

/// A persistent embedded vector database with lazy collection handles.
#[derive(Clone, Debug)]
pub struct Store {
    database: Database,
}

/// A named collection that is created with an inferred dimension on first use.
#[derive(Clone, Debug)]
pub struct CollectionHandle {
    database: Database,
    name: String,
}

impl Store {
    /// A store over an opened database.
    pub fn from_database(database: Database) -> (r: Store)
        ensures
            r.advanced_view() == database,
    {
        Store { database }
    }

    /// The database behind this store.
    pub closed spec fn advanced_view(&self) -> Database {
        self.database
    }

    /// Returns a lazy handle for a named collection; performs no write.
    pub fn collection(&self, name: &str) -> (r: CollectionHandle)
        ensures
            r.name_view() == name@,
            r.database_view().path@ == self.advanced_view().path@,
    {
        CollectionHandle { database: Database { path: self.database.path.as_str().to_owned() }, name: name.to_owned() }
    }

    /// Collection names in ascending order, given the refs listed under the
    /// collection namespace.
    pub fn list_collections(&self, refs: &Vec<String>) -> (r: Vec<String>)
        ensures
            texts_sorted(texts(r@)),
            texts(r@).to_multiset() == names_of_refs(texts(refs@)).to_multiset(),
            texts(refs@).no_duplicates() ==> forall|i: int, j: int|
                0 <= i < j < r@.len() ==> chars_lt(#[trigger] texts(r@)[i], #[trigger] texts(r@)[j]),
    {
        self.database.list_collections(refs)
    }

    /// Returns the advanced named-database API.
    pub fn advanced(&self) -> (r: &Database)
        ensures
            *r == self.advanced_view(),
    {
        &self.database
    }
}

impl CollectionHandle {
    /// The collection's name.
    pub closed spec fn name_view(&self) -> Seq<char> {
        self.name@
    }

    /// The database the collection lives in.
    pub closed spec fn database_view(&self) -> Database {
        self.database
    }

    /// The collection's name.
    pub fn name(&self) -> (r: &str)
        ensures
            r@ == self.name_view(),
    {
        self.name.as_str()
    }

    /// The database the collection lives in.
    pub fn database(&self) -> (r: &Database)
        ensures
            *r == self.database_view(),
    {
        &self.database
    }
}

/// Checks a writer's compare-and-swap precondition: with an expected root, the
/// collection's current root must be that root, else `StaleRoot` names both.
/// Without one, any current root is accepted.
pub fn check_expected_root(actual: &ObjectId, expected: Option<&ObjectId>) -> (r: Result<(), Error>)
    ensures
        r is Ok <==> (expected matches Some(e) ==> e.0@ == actual.0@),
        r matches Err(err) ==> err matches Error::StaleRoot { expected: x, actual: a }
            && x.0@ == expected.unwrap().0@ && a.0@ == actual.0@,
{
    match expected {
        Some(e) => {
            if str_eq(e.0.as_str(), actual.0.as_str()) {
                Ok(())
            } else {
                Err(Error::StaleRoot {
                    expected: ObjectId(e.0.clone()),
                    actual: ObjectId(actual.0.clone()),
                })
            }
        },
        None => Ok(()),
    }
}

/// Whether a writer gave an expected root that is not the current root.
pub open spec fn stale(actual: ObjectId, expected: Option<&ObjectId>) -> bool {
    expected matches Some(e) && e.0@ != actual.0@
}

/// The mutations of a point upsert through a collection view whose current
/// root is `actual`: one upsert per point, in order. A historical view is
/// `ReadOnly`; an empty batch is `Invalid`; a stale expected root is
/// `StaleRoot`, checked in that order.
pub fn upsert_plan(read_only: bool, points: Vec<Point>, actual: &ObjectId, expected: Option<&ObjectId>) -> (r: Result<
    Vec<SnapshotMutation>,
    Error,
>)
    ensures
        r is Ok <==> !read_only && points@.len() > 0 && !stale(*actual, expected),
        read_only ==> r matches Err(Error::ReadOnly),
        !read_only && points@.len() == 0 ==> (r matches Err(e) && e is Invalid),
        !read_only && points@.len() > 0 && stale(*actual, expected) ==> (r matches Err(Error::StaleRoot { expected: x, actual: a })
            && x.0@ == expected.unwrap().0@ && a.0@ == actual.0@),
        r matches Ok(ms) ==> ms@.len() == points@.len() && forall|i: int|
            0 <= i < ms@.len() ==> ms@[i] == (SnapshotMutation::Upsert { point: points@[i] }),
{
    if read_only {
        return Err(Error::ReadOnly);
    }
    if points.len() == 0 {
        return Err(Error::Invalid("upsert batch must not be empty".to_string()));
    }
    match check_expected_root(actual, expected) {
        Ok(()) => {},
        Err(e) => return Err(e),
    }
    Ok(upserts(points))
}

/// The mutations of a deletion through a collection view whose current root
/// is `actual`: the selector's mutations. A historical view is `ReadOnly`; an
/// empty selector is `Invalid`; a stale expected root is `StaleRoot`, checked
/// in that order.
pub fn delete_plan(read_only: bool, selector: DeleteSelector, actual: &ObjectId, expected: Option<&ObjectId>) -> (r:
    Result<Vec<SnapshotMutation>, Error>)
    ensures
        r is Ok <==> !read_only && (selector.ids@.len() > 0 || selector.filter is Some) && !stale(
            *actual,
            expected,
        ),
        read_only ==> r matches Err(Error::ReadOnly),
        !read_only && selector.ids@.len() == 0 && selector.filter is None ==> (r matches Err(e) && e is Invalid),
        !read_only && (selector.ids@.len() > 0 || selector.filter is Some) && stale(*actual, expected) ==> (r matches Err(Error::StaleRoot { expected: x, actual: a })
            && x.0@ == expected.unwrap().0@ && a.0@ == actual.0@),
        r matches Ok(ms) ==> {
            &&& ms@.len() == (if selector.ids@.len() > 0 { 1int } else { 0 }) + (if selector.filter is Some { 1int } else { 0 })
            &&& selector.ids@.len() > 0 ==> ms@[0] == SnapshotMutation::DeleteIds { ids: selector.ids }
            &&& selector.filter matches Some(f) ==> ms@.last() == SnapshotMutation::DeleteFilter { filter: f }
        },
{
    if read_only {
        return Err(Error::ReadOnly);
    }
    if selector.ids.len() == 0 && selector.filter.is_none() {
        return Err(Error::Invalid("delete selector must not be empty".to_string()));
    }
    match check_expected_root(actual, expected) {
        Ok(()) => {},
        Err(e) => return Err(e),
    }
    selector.into_mutations()
}

/// What a pull does to the local collection ref.
#[derive(Debug, Clone, Copy, PartialEq, Eq)]
pub enum PullStep {
    /// The collection is new here: create its ref at the fetched commit.
    Create,
    /// Move the existing ref forward to the fetched commit.
    FastForward,
}

/// Decides a pull from the local ref's commit (`None` when the collection is
/// not present locally), the fetched commit, and whether the fetched commit
/// descends from the local one. A missing ref is created; a ref at the fetched
/// commit or at one of its ancestors is fast-forwarded; any other pull would
/// not fast-forward and is refused as `Invalid`.
pub fn pull_step(local: Option<&ObjectId>, fetched: &ObjectId, fetched_descends: bool) -> (r: Result<PullStep, Error>)
    ensures
        local is None ==> r == Ok::<PullStep, Error>(PullStep::Create),
        local matches Some(l) ==> (r is Ok <==> (l.0@ == fetched.0@ || fetched_descends)),
        local is Some && r is Ok ==> r == Ok::<PullStep, Error>(PullStep::FastForward),
        r matches Err(e) ==> e is Invalid,
{
    match local {
        None => Ok(PullStep::Create),
        Some(l) => {
            if str_eq(l.0.as_str(), fetched.0.as_str()) || fetched_descends {
                Ok(PullStep::FastForward)
            } else {
                Err(Error::Invalid("pull would not fast-forward the collection; inspect history and restore explicitly".to_string()))
            }
        },
    }
}

/// How many times a first write through a collection handle is attempted
/// before it gives up on a collection that keeps changing.
pub const WRITE_ATTEMPTS: usize = 8;

/// The outside steps of one attempt at a first write, in order.
#[derive(Debug, Clone, Copy, PartialEq, Eq)]
pub enum WriteStage {
    /// Open the named collection.
    Open,
    /// Create the missing collection with the inferred configuration.
    Create,
    /// Check that the collection has the vector space the writer expects.
    CheckSpace,
    /// Upsert the batch into the collection.
    Upsert,
}

/// The outcome of one outside step of a first write.
#[derive(Debug, Clone, Copy, PartialEq, Eq)]
pub enum StepOutcome {
    /// The step succeeded.
    Done,
    /// The collection does not exist.
    Missing,
    /// The step lost a race with another writer: the collection was created
    /// meanwhile, its root moved, or its ref was locked or modified.
    Raced,
    /// The step failed for any other reason.
    Failed,
}

/// The next move of a first write.
#[derive(Debug, Clone, Copy, PartialEq, Eq)]
pub enum WriteMove {
    /// Run this stage, in the attempt with this number.
    Run(WriteStage, usize),
    /// Stop with the last step's own result: its success or its error.
    Finish,
    /// Stop: the collection changed on every attempt (`Invalid`).
    GiveUp,
}

/// The move after a race in attempt `attempt`: the next attempt from its
/// start, or giving up when none is left.
pub open spec fn after_race(attempt: usize) -> WriteMove {
    if attempt + 1 < WRITE_ATTEMPTS {
        WriteMove::Run(WriteStage::Open, (attempt + 1) as usize)
    } else {
        WriteMove::GiveUp
    }
}

/// The stage after the collection is opened or created: the vector-space
/// check when the writer expects a vector space, else the upsert.
pub open spec fn after_collection(checks_space: bool, attempt: usize) -> WriteMove {
    if checks_space {
        WriteMove::Run(WriteStage::CheckSpace, attempt)
    } else {
        WriteMove::Run(WriteStage::Upsert, attempt)
    }
}

/// Decides a first write, one outside step at a time: an opened or newly
/// created collection is checked for the expected vector space, when the
/// writer expects one, and then written to; a missing one is created; a
/// creation or write that lost a race starts the next attempt, up to
/// `WRITE_ATTEMPTS` of them; a finished write, a failed space check and any
/// other failure end the write with that step's result.
pub fn first_write_move(stage: WriteStage, attempt: usize, outcome: StepOutcome, checks_space: bool) -> (r: WriteMove)
    requires
        attempt < WRITE_ATTEMPTS,
    ensures
        r == (match (stage, outcome) {
            (WriteStage::Open, StepOutcome::Done) => after_collection(checks_space, attempt),
            (WriteStage::Open, StepOutcome::Missing) => WriteMove::Run(WriteStage::Create, attempt),
            (WriteStage::Create, StepOutcome::Done) => after_collection(checks_space, attempt),
            (WriteStage::Create, StepOutcome::Raced) => after_race(attempt),
            (WriteStage::CheckSpace, StepOutcome::Done) => WriteMove::Run(WriteStage::Upsert, attempt),
            (WriteStage::Upsert, StepOutcome::Raced) => after_race(attempt),
            _ => WriteMove::Finish,
        }),
        r matches WriteMove::Run(_, next) ==> attempt <= next < WRITE_ATTEMPTS,
{
    let retry = if attempt + 1 < WRITE_ATTEMPTS {
        WriteMove::Run(WriteStage::Open, attempt + 1)
    } else {
        WriteMove::GiveUp
    };
    let next = if checks_space {
        WriteMove::Run(WriteStage::CheckSpace, attempt)
    } else {
        WriteMove::Run(WriteStage::Upsert, attempt)
    };
    match stage {
        WriteStage::Open => match outcome {
            StepOutcome::Done => next,
            StepOutcome::Missing => WriteMove::Run(WriteStage::Create, attempt),
            _ => WriteMove::Finish,
        },
        WriteStage::Create => match outcome {
            StepOutcome::Done => next,
            StepOutcome::Raced => retry,
            _ => WriteMove::Finish,
        },
        WriteStage::CheckSpace => match outcome {
            StepOutcome::Done => WriteMove::Run(WriteStage::Upsert, attempt),
            _ => WriteMove::Finish,
        },
        WriteStage::Upsert => match outcome {
            StepOutcome::Raced => retry,
            _ => WriteMove::Finish,
        },
    }
}

/// The vector-space check of a write that expects `expected`: the
/// collection must record exactly that space, else `Invalid`.
pub fn check_vector_space(actual: Option<&str>, expected: &str) -> (r: Result<(), Error>)
    ensures
        r is Ok <==> (actual matches Some(a) && a@ == expected@),
        r matches Err(e) ==> e is Invalid,
{
    match actual {
        Some(a) => {
            if str_eq(a, expected) {
                Ok(())
            } else {
                Err(Error::Invalid("collection uses a different vector space".to_string()))
            }
        },
        None => Err(Error::Invalid("collection uses a different vector space".to_string())),
    }
}

/// Selects the union of typed IDs and filter matches for deletion.
#[derive(Debug, Default)]
pub struct DeleteSelector {
    /// Typed IDs to delete; missing IDs are ignored.
    pub ids: Vec<PointId>,
    /// Optional filter whose matches are also deleted.
    pub filter: Option<Filter>,
}

impl DeleteSelector {
    /// The mutations that carry out this deletion: the ID deletion, if any IDs
    /// are given, then the filter deletion, if a filter is given. Fails with
    /// `Invalid` when the selector names neither.
    pub fn into_mutations(self) -> (r: Result<Vec<SnapshotMutation>, Error>)
        ensures
            r is Ok <==> (self.ids@.len() > 0 || self.filter is Some),
            r matches Ok(ms) ==> {
                &&& ms@.len() == (if self.ids@.len() > 0 { 1int } else { 0 }) + (if self.filter is Some { 1int } else { 0 })
                &&& self.ids@.len() > 0 ==> ms@[0] == SnapshotMutation::DeleteIds { ids: self.ids }
                &&& self.filter matches Some(f) ==> ms@.last() == SnapshotMutation::DeleteFilter { filter: f }
            },
            r matches Err(e) ==> e is Invalid,
    {
        if self.ids.len() == 0 && self.filter.is_none() {
            return Err(Error::Invalid("delete selector must not be empty".to_string()));
        }
        let mut mutations: Vec<SnapshotMutation> = Vec::new();
        let DeleteSelector { ids, filter } = self;
        if ids.len() > 0 {
            mutations.push(SnapshotMutation::DeleteIds { ids });
        }
        match filter {
            Some(f) => mutations.push(SnapshotMutation::DeleteFilter { filter: f }),
            None => {},
        }
        Ok(mutations)
    }
}

/// A collection that embeds documents and text queries with one model.
pub struct TextCollection<E> {
    collection: CollectionHandle,
    embedder: E,
    model_id: String,
}

impl<E> TextCollection<E> {
    /// The model identity this collection is bound to.
    pub closed spec fn model_view(&self) -> Seq<char> {
        self.model_id@
    }

    /// The vector collection behind this text collection.
    pub closed spec fn collection_view(&self) -> CollectionHandle {
        self.collection
    }

    /// Binds a collection to an embedder whose model identity is `model_id`.
    ///
    /// The identity is trimmed of surrounding white space and must not be
    /// empty. `existing_space` is the vector space of the collection when it
    /// already exists (`Some(None)` when it records none), and must then be
    /// that identity. Failures are `Invalid`.
    pub fn new(
        collection: CollectionHandle,
        embedder: E,
        model_id: &str,
        existing_space: Option<Option<String>>,
    ) -> (r: Result<Self, Error>)
        ensures
            r is Ok <==> ({
                let t = trimmed(model_id@);
                &&& t.len() > 0
                &&& (existing_space matches Some(space) ==> space matches Some(s) && s@ == t)
            }),
            r matches Ok(c) ==> c.model_view() == trimmed(model_id@) && c.collection_view() == collection
                && c.embedder_view() == embedder,
            r matches Err(e) ==> e is Invalid,
    {
        let c = chars_of(model_id);
        let (a, b) = trim_range(&c);
        if a == b {
            return Err(Error::Invalid("embedding model identity must not be empty".to_string()));
        }
        let model = model_id.substring_char(a, b).to_owned();
        assert(model@ == trimmed(model_id@));
        match existing_space {
            Some(space) => match space {
                Some(s) => {
                    let t = chars_of(s.as_str());
                    let n = t.len();
                    assert(t@.subrange(0, n as int) =~= s@);
                    if !range_equals(&t, 0, n, model.as_str()) {
                        return Err(Error::Invalid("collection uses a different vector space".to_string()));
                    }
                },
                None => {
                    return Err(Error::Invalid("collection uses a different vector space".to_string()));
                },
            },
            None => {},
        }
        Ok(TextCollection { collection, embedder, model_id: model })
    }

    /// Returns the underlying vector collection handle.
    pub fn vectors(&self) -> (r: &CollectionHandle)
        ensures
            *r == self.collection_view(),
    {
        &self.collection
    }

    /// The embedder.
    pub fn embedder(&self) -> (r: &E)
        ensures
            *r == self.embedder_view(),
    {
        &self.embedder
    }

    /// The embedder this collection was bound to.
    pub closed spec fn embedder_view(&self) -> E {
        self.embedder
    }

    /// The model identity this collection is bound to.
    pub fn model_id(&self) -> (r: &str)
        ensures
            r@ == self.model_view(),
    {
        self.model_id.as_str()
    }
}

/// `s` without leading and trailing white space, as `str::trim` leaves it.
pub open spec fn trimmed(s: Seq<char>) -> Seq<char> {
    crate::text::trim_spec(s)
}

/// Whether the member keys of an object are in strictly increasing order, as
/// the keys of a JSON object map are.
pub open spec fn keys_sorted(members: Seq<(String, Json)>) -> bool {
    forall|i: int, j: int| 0 <= i < j < members.len() ==> chars_lt((#[trigger] members[i]).0@, (#[trigger] members[j]).0@)
}

/// Whether some member is named `key`.
pub open spec fn has_key(members: Seq<(String, Json)>, key: Seq<char>) -> bool {
    exists|i: int| 0 <= i < members.len() && (#[trigger] members[i]).0@ == key
}

/// Where a key goes among sorted members: how many keys come before it.
fn key_position(members: &Vec<(String, Json)>, key: &str) -> (r: usize)
    requires
        keys_sorted(members@),
    ensures
        r <= members@.len(),
        forall|j: int| 0 <= j < r ==> chars_lt((#[trigger] members@[j]).0@, key@),
        forall|j: int| r <= j < members@.len() ==> !chars_lt((#[trigger] members@[j]).0@, key@),
{
    let mut k: usize = 0;
    while k < members.len() && text_less(members[k].0.as_str(), key)
        invariant
            keys_sorted(members@),
            k <= members@.len(),
            forall|j: int| 0 <= j < k ==> chars_lt((#[trigger] members@[j]).0@, key@),
        decreases members.len() - k,
    {
        k = k + 1;
    }
    proof {
        if k < members@.len() {
            assert forall|j: int| k <= j < members@.len() implies !chars_lt((#[trigger] members@[j]).0@, key@) by {
                if j > k && chars_lt(members@[j].0@, key@) {
                    lemma_chars_order(members@[k as int].0@, members@[j].0@, key@);
                }
            }
        }
    }
    k
}

/// The payload of a text point: the document's metadata with its text added
/// under the key `document`, in key order. Fails with `Invalid` when the
/// metadata already has that key.
pub fn document_payload(metadata: Vec<(String, Json)>, text: String) -> (r: Result<Vec<(String, Json)>, Error>)
    requires
        keys_sorted(metadata@),
    ensures
        r is Err <==> has_key(metadata@, "document"@),
        r matches Err(e) ==> e is Invalid,
        r matches Ok(p) ==> keys_sorted(p@),
        r matches Ok(p) ==> p@.len() == metadata@.len() + 1,
        r matches Ok(p) ==> exists|k: int|
            0 <= k <= metadata@.len() && #[trigger] p@[k].0@ == "document"@ && p@[k].1 == Json::String(text)
                && p@ == metadata@.take(k) + seq![p@[k]] + metadata@.skip(k),
{
    proof {
        reveal_strlit("document");
    }
    let mut out = metadata;
    let p = key_position(&out, "document");
    if p < out.len() && str_eq(out[p].0.as_str(), "document") {
        return Err(Error::Invalid("document metadata reserves the key \"document\"".to_string()));
    }
    proof {
        assert forall|j: int| 0 <= j < out@.len() implies (#[trigger] out@[j]).0@ != "document"@ by {
            if j < p {
                lemma_chars_order(out@[j].0@, "document"@, "document"@);
            } else if j > p {
                lemma_chars_order(out@[p as int].0@, "document"@, out@[j].0@);
                lemma_chars_order("document"@, "document"@, out@[p as int].0@);
                lemma_chars_order(out@[p as int].0@, out@[j].0@, out@[j].0@);
            }
        }
    }
    let ghost before = out@;
    let ghost t = text;
    let entry = ("document".to_owned(), Json::String(text));
    assert(entry.0@ == "document"@ && entry.1 == Json::String(t));
    out.insert(p, entry);
    proof {
        let after = out@;
        assert(after == before.insert(p as int, after[p as int]));
        assert forall|i: int, j: int| 0 <= i < j < after.len() implies chars_lt((#[trigger] after[i]).0@, (#[trigger] after[j]).0@) by {
            if j < p {
            } else if j == p {
            } else if i < p {
                lemma_chars_order(before[i].0@, "document"@, before[j - 1].0@);
                lemma_chars_order("document"@, before[j - 1].0@, before[j - 1].0@);
                if before[j - 1].0@ != "document"@ {
                    lemma_chars_order(before[j - 1].0@, "document"@, "document"@);
                }
            } else if i == p {
                lemma_chars_order(before[j - 1].0@, "document"@, "document"@);
            } else {
            }
        }
        assert(after =~= before.take(p as int) + seq![after[p as int]] + before.skip(p as int));
        assert(after[p as int].0@ == "document"@ && after[p as int].1 == Json::String(t));
        assert(after.len() == before.len() + 1);
        assert(keys_sorted(after));
        let k = p as int;
        assert(0 <= k <= before.len() && after.len() == before.len() + 1 && after[k].0@ == "document"@
            && after[k].1 == Json::String(t) && after == before.take(k) + seq![after[k]] + before.skip(k));
    }
    let r: Result<Vec<(String, Json)>, Error> = Ok(out);
    proof {
        let k = p as int;
        let q = r->Ok_0@;
        assert(q[k].0@ == "document"@);
        assert(0 <= k <= metadata@.len() && q[k].0@ == "document"@ && q[k].1 == Json::String(text)
            && q == metadata@.take(k) + seq![q[k]] + metadata@.skip(k));
    }
    r
}

/// A text similarity query with optional filtering and execution controls.
#[derive(Debug)]
pub struct TextQuery {
    /// Text embedded for similarity search.
    pub text: String,
    /// Maximum number of documents returned.
    pub limit: usize,
    /// Optional metadata, ID, or document filter.
    pub filter: Option<Filter>,
    /// Exact or approximate execution controls.
    pub params: QueryParams,
}

impl TextQuery {
    /// A query for at most ten documents, unfiltered, with the collection's
    /// default execution.
    pub fn new(text: String) -> (r: TextQuery)
        ensures
            r.text == text,
            r.limit == 10,
            r.filter is None,
            r.params == (QueryParams { exact: None, probes: 0, candidate_limit: 0 }),
    {
        TextQuery { text, limit: 10, filter: None, params: QueryParams { exact: None, probes: 0, candidate_limit: 0 } }
    }

    /// The same query returning at most `limit` documents.
    pub fn limit(self, limit: usize) -> (r: TextQuery)
        ensures
            r.text == self.text && r.limit == limit && r.filter == self.filter && r.params == self.params,
    {
        TextQuery { limit, ..self }
    }

    /// The same query restricted by a filter.
    pub fn with_filter(self, filter: Filter) -> (r: TextQuery)
        ensures
            r.text == self.text && r.limit == self.limit && r.filter == Some(filter) && r.params == self.params,
    {
        TextQuery { filter: Some(filter), ..self }
    }

    /// The same query with other execution controls.
    pub fn with_params(self, params: QueryParams) -> (r: TextQuery)
        ensures
            r.text == self.text && r.limit == self.limit && r.filter == self.filter && r.params == params,
    {
        TextQuery { params, ..self }
    }
}

/// The text queries of a batch paired, in order, with the vectors the
/// embedder returned for their texts; `Invalid` unless it returned one
/// vector per query.
pub fn query_vectors(queries: Vec<TextQuery>, vectors: Vec<Vec<u32>>) -> (r: Result<Vec<(TextQuery, Vec<u32>)>, Error>)
    ensures
        r is Ok <==> vectors@.len() == queries@.len(),
        r matches Ok(pairs) ==> pairs@.len() == queries@.len() && forall|i: int|
            0 <= i < pairs@.len() ==> (#[trigger] pairs@[i]).0 == queries@[i] && pairs@[i].1 == vectors@[i],
        r matches Err(e) ==> e is Invalid,
{
    if vectors.len() != queries.len() {
        return Err(Error::Invalid("embedder returned a different number of vectors than text queries".to_string()));
    }
    let ghost all_q = queries@;
    let ghost all_v = vectors@;
    let n = queries.len();
    let mut pending_q = crate::points::reversed(queries);
    let mut pending_v = crate::points::reversed(vectors);
    let mut out: Vec<(TextQuery, Vec<u32>)> = Vec::new();
    while pending_q.len() > 0
        invariant
            n == all_q.len(),
            all_v.len() == n,
            pending_q@.len() == pending_v@.len(),
            out@.len() + pending_q@.len() == n,
            forall|k: int| 0 <= k < pending_q@.len() ==> pending_q@[k] == all_q[n - 1 - k],
            forall|k: int| 0 <= k < pending_v@.len() ==> pending_v@[k] == all_v[n - 1 - k],
            forall|i: int| 0 <= i < out@.len() ==> (#[trigger] out@[i]).0 == all_q[i] && out@[i].1 == all_v[i],
        decreases pending_q.len(),
    {
        let ghost m = out@.len();
        let q = pending_q.pop().unwrap();
        let v = pending_v.pop().unwrap();
        assert(q == all_q[m as int] && v == all_v[m as int]);
        out.push((q, v));
    }
    Ok(out)
}

/// Whether `p` is `metadata` with the text added under the key `document`:
/// in key order, at the place the key sorts to.
pub open spec fn holds_document(p: Seq<(String, Json)>, metadata: Seq<(String, Json)>, text: String) -> bool {
    &&& keys_sorted(p)
    &&& p.len() == metadata.len() + 1
    &&& exists|k: int|
        0 <= k <= metadata.len() && #[trigger] p[k].0@ == "document"@ && p[k].1 == Json::String(text) && p
            == metadata.take(k) + seq![p[k]] + metadata.skip(k)
}

/// A text document with a typed ID and metadata, an object whose members are
/// in key order.
#[derive(Debug)]
pub struct Document {
    /// Stable document identifier.
    pub id: PointId,
    /// Text embedded for similarity search.
    pub text: String,
    /// Application-defined metadata stored with the text.
    pub metadata: Vec<(String, Json)>,
}

impl Document {
    /// A document without metadata.
    pub fn new(id: PointId, text: String) -> (r: Document)
        ensures
            r.id == id,
            r.text == text,
            r.metadata@.len() == 0,
    {
        Document { id, text, metadata: Vec::new() }
    }

    /// The same document with object-shaped metadata; any other JSON value
    /// is `Invalid`.
    pub fn with_metadata(self, metadata: Json) -> (r: Result<Document, Error>)
        requires
            metadata matches Json::Object(m) ==> keys_sorted(m@),
        ensures
            r is Ok <==> metadata is Object,
            r matches Ok(d) ==> d.id == self.id && d.text == self.text && metadata == Json::Object(d.metadata),
            r matches Err(e) ==> e is Invalid,
    {
        match metadata {
            Json::Object(members) => Ok(Document { id: self.id, text: self.text, metadata: members }),
            _ => Err(Error::Invalid("document metadata must serialize to a JSON object".to_string())),
        }
    }
}

/// The points of embedded documents, given the embedder's vectors for their
/// texts: each keeps its document's ID, takes the vector at its place, and
/// carries its metadata with the text under `document`. An empty batch, a
/// vector count that differs from the document count, and metadata that
/// already uses the key `document` are `Invalid`.
#[verifier::loop_isolation(false)]
pub fn document_points(documents: Vec<Document>, vectors: Vec<Vec<u32>>) -> (r: Result<Vec<Point>, Error>)
    requires
        forall|i: int| 0 <= i < documents@.len() ==> keys_sorted((#[trigger] documents@[i]).metadata@),
    ensures
        r is Ok <==> documents@.len() > 0 && vectors@.len() == documents@.len() && forall|i: int|
            0 <= i < documents@.len() ==> !has_key((#[trigger] documents@[i]).metadata@, "document"@),
        r matches Err(e) ==> e is Invalid,
        r matches Ok(ps) ==> ps@.len() == documents@.len() && forall|i: int|
            0 <= i < ps@.len() ==> {
                &&& (#[trigger] ps@[i]).id == documents@[i].id
                &&& ps@[i].vector == vectors@[i]
                &&& holds_document(ps@[i].payload@, documents@[i].metadata@, documents@[i].text)
            },
{
    if documents.len() == 0 {
        return Err(Error::Invalid("document batch must not be empty".to_string()));
    }
    if vectors.len() != documents.len() {
        return Err(Error::Invalid("embedder returned a different number of vectors than documents".to_string()));
    }
    let ghost all_docs = documents@;
    let ghost all_vecs = vectors@;
    let mut pending_docs = crate::points::reversed(documents);
    let mut pending_vecs = crate::points::reversed(vectors);
    let mut out: Vec<Point> = Vec::new();
    let n = pending_docs.len();
    while pending_docs.len() > 0
        invariant
            n == all_docs.len(),
            all_vecs.len() == n,
            pending_docs@.len() == pending_vecs@.len(),
            out@.len() + pending_docs@.len() == n,
            forall|i: int| 0 <= i < n ==> keys_sorted((#[trigger] all_docs[i]).metadata@),
            forall|k: int| 0 <= k < pending_docs@.len() ==> pending_docs@[k] == all_docs[n - 1 - k],
            forall|k: int| 0 <= k < pending_vecs@.len() ==> pending_vecs@[k] == all_vecs[n - 1 - k],
            forall|i: int| 0 <= i < out@.len() ==> !has_key((#[trigger] all_docs[i]).metadata@, "document"@),
            forall|i: int| 0 <= i < out@.len() ==> {
                &&& (#[trigger] out@[i]).id == all_docs[i].id
                &&& out@[i].vector == all_vecs[i]
                &&& holds_document(out@[i].payload@, all_docs[i].metadata@, all_docs[i].text)
            },
        decreases pending_docs.len(),
    {
        let ghost m = out@.len();
        let d = pending_docs.pop().unwrap();
        let v = pending_vecs.pop().unwrap();
        assert(d == all_docs[m as int]);
        assert(v == all_vecs[m as int]);
        let Document { id, text, metadata } = d;
        let ghost t = text;
        match document_payload(metadata, text) {
            Ok(payload) => {
                proof {
                    let k = choose|k: int|
                        0 <= k <= all_docs[m as int].metadata@.len() && #[trigger] payload@[k].0@ == "document"@
                            && payload@[k].1 == Json::String(t) && payload@ == all_docs[m as int].metadata@.take(k)
                            + seq![payload@[k]] + all_docs[m as int].metadata@.skip(k);
                    assert(holds_document(payload@, all_docs[m as int].metadata@, all_docs[m as int].text));
                }
                out.push(Point { id, vector: v, payload });
            },
            Err(e) => {
                proof {
                    assert(has_key(all_docs[m as int].metadata@, "document"@));
                }
                return Err(e);
            },
        }
    }
    Ok(out)
}

/// The document of a text point and the rest of its payload. Fails with
/// `Corrupt` unless the payload has a string member `document`.
pub fn split_document(payload: Vec<(String, Json)>) -> (r: Result<(String, Vec<(String, Json)>), Error>)
    requires
        keys_sorted(payload@),
    ensures
        r is Ok <==> exists|k: int| 0 <= k < payload@.len() && (#[trigger] payload@[k]).0@ == "document"@ && payload@[k].1 is String,
        r matches Err(e) ==> e is Corrupt,
        r matches Ok((d, rest)) ==> exists|k: int|
            0 <= k < payload@.len() && (#[trigger] payload@[k]).0@ == "document"@ && payload@[k].1 == Json::String(d)
                && rest@ == payload@.remove(k),
{
    proof {
        reveal_strlit("document");
    }
    let mut payload = payload;
    let p = key_position(&payload, "document");
    if p < payload.len() && str_eq(payload[p].0.as_str(), "document") && matches!(payload[p].1, Json::String(_)) {
        let ghost before = payload@;
        let (_, value) = payload.remove(p);
        match value {
            Json::String(d) => {
                assert(payload@ == before.remove(p as int));
                return Ok((d, payload));
            },
            _ => {
                return Err(Error::Corrupt("text point has no string document field".to_string()));
            },
        }
    }
    proof {
        assert forall|k: int| 0 <= k < payload@.len() && (#[trigger] payload@[k]).0@ == "document"@ implies !(payload@[k].1 is String) by {
            if k < p {
                lemma_chars_order(payload@[k].0@, "document"@, "document"@);
            } else if k > p {
                lemma_chars_order(payload@[p as int].0@, "document"@, payload@[k].0@);
                lemma_chars_order(payload@[p as int].0@, payload@[k].0@, payload@[k].0@);
                lemma_chars_order("document"@, payload@[p as int].0@, payload@[p as int].0@);
            }
        }
    }
    Err(Error::Corrupt("text point has no string document field".to_string()))
}

} // verus!
