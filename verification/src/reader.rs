//! Selective reads of canonical format-2 snapshots from external object stores.
use crate::digest::{hex_digit, push_hex_digit};
use crate::ids::{decode_ids, decoded_ids, id_views, shard_of};
use crate::index::{decode_posting, decoded_posting, entry_lt, parse_shard_name, posting_file, posting_name, shard_name};
use crate::diff::same_config;
use crate::meta::{describes, canonical_ivf, check_meta_format, config_valid, meta_supported, validate_config, validate_ivf_meta, RootMeta};
use crate::model::{CollectionConfig, IdValue, ObjectId, PointId};
use crate::names::{full_object_id, is_full_object_id};
use crate::order::{is_first_by, lemma_keep_step, strict_by};
use crate::shard::{byte_views, decode_payloads, framed_rows, is_framed, payloads_magic};
use crate::store::{chars_lt, lemma_chars_order, sort_texts, texts, texts_sorted};
use crate::text::str_eq;
use crate::vectors::{all_finite, decode_codebook, decode_vectors, decoded_codebook, decoded_vectors, row_views, validate_vector_components};
use crate::Error;
use vstd::prelude::*;
use vstd::string::StringExecFns;

verus! {

broadcast use vstd::string::group_string_axioms;

/// Reads objects relative to one immutable canonical snapshot root.
///
/// Implementations must return stable bytes and immediate entry names for the
/// lifetime of a reader, and bind them to the root the reader was opened for.
/// Paths use forward slashes and never traverse parents.
pub trait SnapshotSource {
    /// The blob a source declares at a root-relative path: `Some` of its
    /// bytes, or `None` where the source declares nothing, as a source does
    /// unless it defines this.
    open spec fn blob_at(&self, path: Seq<char>) -> Option<Seq<u8>> {
        None
    }

    /// The entry names a source declares for a root-relative directory:
    /// `Some` of them, or `None` where the source declares nothing, as a
    /// source does unless it defines this.
    open spec fn entries_at(&self, path: Seq<char>) -> Option<Seq<Seq<char>>> {
        None
    }

    /// Read one complete blob at a root-relative path: a blob that is
    /// returned is the one the source declares there, if it declares one.
    fn read_blob(&self, path: &str) -> (r: Result<Vec<u8>, Error>)
        ensures
            r matches Ok(b) ==> (self.blob_at(path@) matches Some(x) ==> x == b@),
    ;

    /// List immediate entry names in a root-relative directory: names that
    /// are returned are the ones the source declares there, if it declares any.
    fn list(&self, path: &str) -> (r: Result<Vec<String>, Error>)
        ensures
            r matches Ok(names) ==> (self.entries_at(path@) matches Some(x) ==> x == texts(names@)),
    ;
}

/// Object requests made by a reader, including opening its metadata.
///
/// These count returned blob bytes, not compressed network traffic, tree bytes,
/// cache misses, or physical disk I/O.
#[derive(Clone, Copy, Debug, Default, PartialEq, Eq)]
pub struct SnapshotReadStats {
    /// Number of complete blob reads.
    pub blob_reads: usize,
    /// Sum of bytes returned by blob reads.
    pub blob_bytes: u64,
    /// Number of directory listings.
    pub directory_reads: usize,
}

/// A query reader over a format-2 snapshot that fetches only visited objects.
pub struct SnapshotReader<S> {
    source: S,
    root: ObjectId,
    meta: RootMeta,
    reads: SnapshotReadStats,
}

/// Whether a root's metadata can be read selectively: a supported format 2
/// description with a valid configuration and the canonical IVF parameters.
pub open spec fn readable_meta(meta: RootMeta) -> bool {
    &&& meta_supported(meta)
    &&& meta.format_version == 2
    &&& config_valid(meta.config_view())
    &&& meta.ivf == Some(canonical_ivf(meta.point_count))
}

impl<S> SnapshotReader<S> {
    /// The root this reader was opened for.
    pub closed spec fn root_view(&self) -> Seq<char> {
        self.root.0@
    }

    /// The metadata of the root.
    pub closed spec fn meta_view(&self) -> RootMeta {
        self.meta
    }

    /// The requests made so far.
    pub closed spec fn stats_view(&self) -> SnapshotReadStats {
        self.reads
    }

    /// The source objects are read from.
    pub closed spec fn source_view(&self) -> S {
        self.source
    }

    /// Opens a reader for the root `root` served by `source`, whose
    /// `meta.json` blob, `meta_len` bytes long, holds `meta`.
    ///
    /// Fails with `Invalid` unless the root is a full lowercase SHA-1 object
    /// ID and the metadata is format 2, and with `Corrupt` unless the format
    /// is supported, the configuration valid, and the IVF parameters canonical.
    /// The metadata read is counted as the first blob read.
    pub fn open(root: ObjectId, source: S, meta: RootMeta, meta_len: u64) -> (r: Result<Self, Error>)
        ensures
            r is Ok <==> full_object_id(root.0@) && readable_meta(meta),
            r matches Ok(reader) ==> {
                &&& reader.root_view() == root.0@
                &&& reader.meta_view() == meta
                &&& reader.source_view() == source
                &&& reader.stats_view() == SnapshotReadStats { blob_reads: 1, blob_bytes: meta_len, directory_reads: 0 }
            },
            r matches Err(e) ==> {
                &&& !full_object_id(root.0@) ==> e is Invalid
                &&& full_object_id(root.0@) && meta.format_version != 2 ==> e is Invalid
                &&& full_object_id(root.0@) && meta.format_version == 2 ==> e is Corrupt
            },
    {
        if !is_full_object_id(root.0.as_str()) {
            return Err(Error::Invalid("snapshot root must be a full lowercase SHA-1 object ID".to_string()));
        }
        if meta.format_version != 2 {
            return Err(Error::Invalid("selective snapshot reads require format 2".to_string()));
        }
        check_meta_format(&meta)?;
        let config = meta.config();
        if validate_config(&config).is_err() {
            return Err(Error::Corrupt("invalid collection configuration".to_string()));
        }
        validate_ivf_meta(&meta)?;
        Ok(SnapshotReader {
            source,
            root,
            meta,
            reads: SnapshotReadStats { blob_reads: 1, blob_bytes: meta_len, directory_reads: 0 },
        })
    }

    /// Collection configuration declared by this root.
    pub fn config(&self) -> (r: CollectionConfig)
        ensures
            r.dimension == self.meta_view().dimension,
            r.distance == self.meta_view().distance,
            crate::meta::same_text(r.vector_space, self.meta_view().vector_space),
            r.index == self.meta_view().index,
            same_config(r, self.meta_view().config_view()),
    {
        self.meta.config()
    }

    /// Cumulative object requests, including metadata read during opening.
    pub fn read_stats(&self) -> (r: SnapshotReadStats)
        ensures
            r == self.stats_view(),
    {
        self.reads
    }

    /// Borrow the underlying source, for example to inspect transport counters.
    pub fn source(&self) -> (r: &S)
        ensures
            *r == self.source_view(),
    {
        &self.source
    }

    /// The metadata of the root.
    pub fn meta(&self) -> (r: &RootMeta)
        ensures
            *r == self.meta_view(),
    {
        &self.meta
    }
}

/// A reader's configuration is the one its root was built with: when the
/// root's metadata describes configuration `c` (as `RootMeta::new_v2(c, ..)`
/// makes it), the configuration `config()` returns is `c`.
pub proof fn lemma_config_round_trip<S>(reader: SnapshotReader<S>, c: CollectionConfig, n: usize, r: CollectionConfig)
    requires
        describes(reader.meta_view(), c, n),
        same_config(r, reader.meta_view().config_view()),
    ensures
        same_config(r, c),
{
}

/// The path of a shard file: `dir`, then the shard's three-digit name and `suffix`.
pub fn shard_path(dir: &str, shard: u16, suffix: &str) -> (r: String)
    requires
        shard < 4096,
    ensures
        r@ == dir@ + shard_name(shard, suffix@),
{
    let s = dir.to_owned();
    let s = push_hex_digit(s, (shard / 256) as u64);
    let s = push_hex_digit(s, ((shard / 16) % 16) as u64);
    let s = push_hex_digit(s, (shard % 16) as u64);
    let r = s.concat(suffix);
    assert(r@ =~= dir@ + shard_name(shard, suffix@));
    r
}

/// The ID and vector rows of one loaded shard.
pub struct ShardRows {
    /// The shard's IDs, in canonical order.
    pub ids: Vec<PointId>,
    /// The shard's vectors, as component bit patterns, row by row.
    pub vectors: Vec<Vec<u32>>,
}

/// Stats after a successful blob read of `len` bytes.
pub open spec fn after_blob(s: SnapshotReadStats, len: nat) -> SnapshotReadStats {
    SnapshotReadStats {
        blob_reads: if s.blob_reads == usize::MAX { usize::MAX } else { (s.blob_reads + 1) as usize },
        blob_bytes: if s.blob_bytes + len > u64::MAX { u64::MAX } else { (s.blob_bytes + len) as u64 },
        directory_reads: s.directory_reads,
    }
}

/// Whether read counters `b` are `a` or later: no counter is lower.
pub open spec fn stats_grow(a: SnapshotReadStats, b: SnapshotReadStats) -> bool {
    &&& a.blob_reads <= b.blob_reads
    &&& a.blob_bytes <= b.blob_bytes
    &&& a.directory_reads <= b.directory_reads
}

/// How a reader counts its reads: a returned blob adds one blob read and its
/// length, a returned listing adds one directory read, each saturating at
/// its type's maximum; counters never decrease, so over any sequence of
/// reader calls (a whole query) they only grow.
pub proof fn lemma_read_counts(s: SnapshotReadStats, len: nat, t: SnapshotReadStats, u: SnapshotReadStats)
    ensures
        s.blob_reads < usize::MAX ==> after_blob(s, len).blob_reads == s.blob_reads + 1,
        s.blob_bytes + len <= u64::MAX ==> after_blob(s, len).blob_bytes == s.blob_bytes + len,
        after_blob(s, len).directory_reads == s.directory_reads,
        s.directory_reads < usize::MAX ==> after_list(s).directory_reads == s.directory_reads + 1,
        after_list(s).blob_reads == s.blob_reads && after_list(s).blob_bytes == s.blob_bytes,
        stats_grow(s, after_blob(s, len)),
        stats_grow(s, after_list(s)),
        stats_grow(s, s),
        stats_grow(s, t) && stats_grow(t, u) ==> stats_grow(s, u),
{
}

/// Stats after a successful directory listing.
pub open spec fn after_list(s: SnapshotReadStats) -> SnapshotReadStats {
    SnapshotReadStats {
        directory_reads: if s.directory_reads == usize::MAX { usize::MAX } else { (s.directory_reads + 1) as usize },
        ..s
    }
}

/// Whether `b` can be what `source` returns for the blob at `path`: the
/// blob it declares there, if it declares one.
pub open spec fn may_hold<S: SnapshotSource>(source: S, path: Seq<char>, b: Seq<u8>) -> bool {
    source.blob_at(path) matches Some(x) ==> x == b
}

/// Whether `names` can be what `source` lists for the directory at `path`:
/// the entries it declares there, if it declares any.
pub open spec fn may_list<S: SnapshotSource>(source: S, path: Seq<char>, names: Seq<Seq<char>>) -> bool {
    source.entries_at(path) matches Some(x) ==> x == names
}

/// The path of a shard's ID blob.
pub open spec fn ids_file(shard: u16) -> Seq<char> {
    "points/ids/"@ + shard_name(shard, ".bin"@)
}

/// The path of a shard's vector blob.
pub open spec fn vectors_file(shard: u16) -> Seq<char> {
    "points/vectors/"@ + shard_name(shard, ".f32le"@)
}

/// The path of a shard's payload blob.
pub open spec fn payloads_file(shard: u16) -> Seq<char> {
    "points/payloads/"@ + shard_name(shard, ".bin"@)
}

/// Whether a query vector may be used against a root: it has the root's
/// dimension and finite components, and names the root's vector space if it
/// names one.
pub open spec fn query_ok(vector: Seq<u32>, expected_space: Option<Seq<char>>, meta: RootMeta) -> bool {
    &&& vector.len() == meta.dimension
    &&& all_finite(vector)
    &&& (expected_space matches Some(e) ==> meta.vector_space matches Some(v) && v@ == e)
}

/// Checks a query vector and expected vector space against a root's
/// metadata; fails with `Invalid` unless `query_ok`.
pub fn validate_query(vector: &[u32], expected_space: Option<&str>, meta: &RootMeta) -> (r: Result<(), Error>)
    ensures
        r is Ok <==> query_ok(vector@, match expected_space { Some(e) => Some(e@), None => None }, *meta),
        r matches Err(e) ==> e is Invalid,
{
    if vector.len() != meta.dimension {
        return Err(Error::Invalid("query dimension does not match the collection".to_string()));
    }
    validate_vector_components(vector)?;
    match expected_space {
        Some(expected) => match &meta.vector_space {
            Some(actual) => {
                if !str_eq(actual.as_str(), expected) {
                    return Err(Error::Invalid("vector-space mismatch".to_string()));
                }
            },
            None => {
                return Err(Error::Invalid("vector-space mismatch".to_string()));
            },
        },
        None => {},
    }
    Ok(())
}

/// Whether a query scores every point: as requested, or, by default, when the
/// collection is no larger than its full-scan threshold.
pub open spec fn exact_mode(requested: Option<bool>, meta: RootMeta) -> bool {
    match requested {
        Some(e) => e,
        None => meta.point_count <= meta.index.full_scan_threshold,
    }
}

/// Whether a query scores every point.
pub fn query_is_exact(requested: Option<bool>, meta: &RootMeta) -> (r: bool)
    ensures
        r == exact_mode(requested, *meta),
{
    match requested {
        Some(e) => e,
        None => meta.point_count <= meta.index.full_scan_threshold,
    }
}

/// The number of centroids an approximate query probes: the requested number,
/// or by default every centroid for a filtered query and the collection
/// default otherwise; never more than there are centroids.
pub open spec fn probe_budget(requested: usize, filtered: bool, default_probes: usize, centroids: usize) -> usize {
    let wanted = if requested == 0 {
        if filtered { centroids } else { default_probes }
    } else {
        requested
    };
    if wanted < centroids { wanted } else { centroids }
}

/// Computes `probe_budget`.
pub fn probe_count(requested: usize, filtered: bool, default_probes: usize, centroids: usize) -> (r: usize)
    ensures
        r == probe_budget(requested, filtered, default_probes, centroids),
{
    let wanted = if requested == 0 {
        if filtered {
            centroids
        } else {
            default_probes
        }
    } else {
        requested
    };
    if wanted < centroids {
        wanted
    } else {
        centroids
    }
}

/// The candidate budget of an approximate query: the requested number, or the
/// collection default when none is requested.
pub fn candidate_limit(requested: usize, default_limit: usize) -> (r: usize)
    ensures
        r == if requested == 0 { default_limit } else { requested },
{
    if requested == 0 {
        default_limit
    } else {
        requested
    }
}

/// Whether centroid `a` is probed before centroid `b`: a higher score, or an
/// equal score and a lower index. Scores are held by their order keys.
pub open spec fn probes_before(a: (u64, usize), b: (u64, usize)) -> bool {
    a.0 > b.0 || (a.0 == b.0 && a.1 < b.1)
}

/// The probe order as a relation.
pub open spec fn probe_order_rel() -> spec_fn((u64, usize), (u64, usize)) -> bool {
    |a: (u64, usize), b: (u64, usize)| probes_before(a, b)
}

/// The index of a scored centroid.
pub open spec fn centroid_index() -> spec_fn((u64, usize)) -> usize {
    |a: (u64, usize)| a.1
}

/// Each centroid's score key with its index.
pub open spec fn scored_centroids(keys: Seq<u64>) -> Seq<(u64, usize)> {
    Seq::new(keys.len(), |i: int| (keys[i], i as usize))
}

/// The scored centroids at some indexes.
pub open spec fn centroids_at(keys: Seq<u64>, order: Seq<usize>) -> Seq<(u64, usize)> {
    order.map_values(|i: usize| (keys[i as int], i))
}

/// The centroids an approximate query probes, in order: the `probes`
/// best-scoring ones, higher scores first and lower indexes first on ties.
pub fn centroid_order(keys: &Vec<u64>, probes: usize) -> (r: Vec<usize>)
    ensures
        is_first_by(centroids_at(keys@, r@), scored_centroids(keys@), probes as int, probe_order_rel()),
        forall|i: int| 0 <= i < r@.len() ==> #[trigger] r@[i] < keys@.len(),
{
    let ghost all = scored_centroids(keys@);
    proof {
        assert forall|a: (u64, usize)| !#[trigger] probe_order_rel()(a, a) by {}
        assert forall|a: (u64, usize), b: (u64, usize), c: (u64, usize)|
            #[trigger] probe_order_rel()(a, b) && #[trigger] probe_order_rel()(b, c) implies probe_order_rel()(a, c) by {}
        assert forall|a: (u64, usize), b: (u64, usize)|
            centroid_index()(a) != centroid_index()(b) implies #[trigger] probe_order_rel()(a, b) || #[trigger] probe_order_rel()(b, a) by {}
        assert(strict_by(probe_order_rel(), centroid_index()));
    }
    let mut out: Vec<usize> = Vec::new();
    let mut i: usize = 0;
    while i < keys.len()
        invariant
            all == scored_centroids(keys@),
            strict_by(probe_order_rel(), centroid_index()),
            i <= keys@.len(),
            forall|q: int| 0 <= q < out@.len() ==> #[trigger] out@[q] < i,
            is_first_by(centroids_at(keys@, out@), all.take(i as int), probes as int, probe_order_rel()),
        decreases keys.len() - i,
    {
        let ghost before = centroids_at(keys@, out@);
        let ghost seen = all.take(i as int);
        let ghost x = all[i as int];
        let key = keys[i];
        let mut p: usize = 0;
        while p < out.len() && !(key > keys[out[p]] || (key == keys[out[p]] && i < out[p]))
            invariant
                p <= out@.len(),
                i < keys@.len(),
                key == keys@[i as int],
                forall|q: int| 0 <= q < out@.len() ==> #[trigger] out@[q] < i,
                before == centroids_at(keys@, out@),
                x == (keys@[i as int], i),
                forall|q: int| 0 <= q < p ==> !probe_order_rel()(x, #[trigger] before[q]),
            decreases out.len() - p,
        {
            p = p + 1;
        }
        proof {
            assert forall|q: int| 0 <= q < seen.len() implies centroid_index()(#[trigger] seen[q]) != centroid_index()(x) by {
                assert(seen[q] == (keys@[q], q as usize));
            }
            lemma_keep_step(before, seen, x, p as int, probes as int, probe_order_rel(), centroid_index());
            assert(all.take(i + 1) =~= seen.push(x));
        }
        if p < probes {
            out.insert(p, i);
            assert(centroids_at(keys@, out@) =~= before.insert(p as int, x));
            if out.len() > probes {
                out.pop();
                assert(centroids_at(keys@, out@) =~= before.insert(p as int, x).drop_last());
            }
        }
        i = i + 1;
    }
    assert(all.take(keys@.len() as int) =~= all);
    out
}

/// Whether decoded vector rows fit a shard of `count` IDs in a root of
/// dimension `dimension`: the blob decodes, the shard has at least one row,
/// and there is one vector of that dimension per ID.
pub open spec fn shard_vectors_fit(count: nat, vectors: Option<Seq<Seq<u32>>>, dimension: nat) -> bool {
    &&& vectors is Some
    &&& count > 0
    &&& vectors->0.len() == count
    &&& forall|k: int| 0 <= k < vectors->0.len() ==> (#[trigger] vectors->0[k]).len() == dimension
}

/// The rows of a shard from its decoded IDs and the bytes of its vector
/// blob; fails with `Corrupt` unless the vectors fit the IDs and dimension.
pub fn shard_rows(ids: Vec<PointId>, vector_bytes: &[u8], dimension: usize) -> (r: Result<ShardRows, Error>)
    ensures
        r is Ok <==> shard_vectors_fit(ids@.len(), decoded_vectors(vector_bytes@), dimension as nat),
        r matches Ok(rows) ==> rows.ids == ids && Some(row_views(rows.vectors@)) == decoded_vectors(vector_bytes@),
        r matches Err(e) ==> e is Corrupt,
{
    let vectors = decode_vectors(vector_bytes)?;
    if ids.len() == 0 || ids.len() != vectors.len() {
        return Err(Error::Corrupt("invalid format-2 shard row count or dimension".to_string()));
    }
    let ghost rows = decoded_vectors(vector_bytes@)->0;
    assert(row_views(vectors@) == rows);
    let mut k: usize = 0;
    while k < vectors.len()
        invariant
            k <= vectors@.len(),
            row_views(vectors@) == rows,
            decoded_vectors(vector_bytes@) == Some(rows),
            forall|j: int| 0 <= j < k ==> (#[trigger] rows[j]).len() == dimension,
        decreases vectors.len() - k,
    {
        assert(rows[k as int] == vectors@[k as int]@);
        if vectors[k].len() != dimension {
            assert(rows[k as int].len() != dimension);
            return Err(Error::Corrupt("invalid format-2 shard row count or dimension".to_string()));
        }
        k = k + 1;
    }
    Ok(ShardRows { ids, vectors })
}

/// The payload rows of a payload blob that frames exactly `expected` rows.
pub open spec fn payload_rows_of(bytes: Seq<u8>, expected: nat) -> Option<Seq<Seq<u8>>> {
    if is_framed(bytes, payloads_magic()) && framed_rows(bytes).len() == expected {
        Some(framed_rows(bytes))
    } else {
        None
    }
}

/// The payload rows of a shard's payload blob; fails with `Corrupt` unless
/// the blob is a payload shard of `expected` rows.
pub fn payload_rows(bytes: &[u8], expected: usize) -> (r: Result<Vec<Vec<u8>>, Error>)
    ensures
        r is Ok <==> payload_rows_of(bytes@, expected as nat) is Some,
        r matches Ok(rows) ==> Some(byte_views(rows@)) == payload_rows_of(bytes@, expected as nat),
        r matches Err(e) ==> e is Corrupt,
{
    let rows = decode_payloads(bytes)?;
    if rows.len() != expected {
        return Err(Error::Corrupt("format-2 payload row count mismatch".to_string()));
    }
    Ok(rows)
}

/// Whether an entry name is the ID file of a shard below 64.
pub open spec fn is_shard_file(name: Seq<char>) -> bool {
    exists|s: u16| s < 64 && name == shard_name(s, ".bin"@)
}

/// The ID file names of a list of shards.
pub open spec fn shard_files(shards: Seq<u16>) -> Seq<Seq<char>> {
    shards.map_values(|s: u16| shard_name(s, ".bin"@))
}

/// No duplicates in the sorted `t` when there are none in a sequence with the
/// same elements, and the other way round.
proof fn lemma_same_elements_no_duplicates(t: Seq<Seq<char>>, u: Seq<Seq<char>>)
    requires
        t.to_multiset() == u.to_multiset(),
        t.no_duplicates(),
    ensures
        u.no_duplicates(),
{
    t.lemma_multiset_has_no_duplicates();
    u.lemma_multiset_has_no_duplicates_conv();
}

/// The shards whose ID files are listed: the names sorted, each read as its
/// shard. Fails with `Corrupt` when a name is listed twice or is not the ID
/// file of a shard below 64.
#[verifier::loop_isolation(false)]
pub fn shard_list(names: Vec<String>) -> (r: Result<Vec<u16>, Error>)
    ensures
        r is Ok <==> texts(names@).no_duplicates() && forall|i: int|
            0 <= i < names@.len() ==> is_shard_file(#[trigger] texts(names@)[i]),
        r matches Ok(shards) ==> {
            &&& shard_files(shards@).to_multiset() == texts(names@).to_multiset()
            &&& texts_sorted(shard_files(shards@))
            &&& forall|k: int| 0 <= k < shards@.len() ==> #[trigger] shards@[k] < 64
        },
        r matches Err(e) ==> e is Corrupt,
{
    broadcast use vstd::seq_lib::group_to_multiset_ensures;

    proof {
        reveal_strlit(".bin");
    }
    let ghost given = texts(names@);
    let v = sort_texts(names);
    let ghost t = texts(v@);
    assert(t.len() == v@.len());
    let mut k: usize = 1;
    while k < v.len()
        invariant
            1 <= k,
            t == texts(v@),
            texts_sorted(t),
            forall|i: int, j: int| 0 <= i < j < k && j < t.len() ==> chars_lt(#[trigger] t[i], #[trigger] t[j]),
        decreases v.len() - k,
    {
        assert(t[k - 1] == v@[k - 1]@ && t[k as int] == v@[k as int]@);
        if str_eq(v[k - 1].as_str(), v[k].as_str()) {
            proof {
                assert(!t.no_duplicates());
                if given.no_duplicates() {
                    lemma_same_elements_no_duplicates(given, t);
                }
            }
            return Err(Error::Corrupt("duplicate shard entry".to_string()));
        }
        proof {
            lemma_chars_order(t[k - 1], t[k as int], t[k as int]);
            assert(chars_lt(t[k - 1], t[k as int]));
            assert forall|i: int, j: int| 0 <= i < j < k + 1 && j < t.len() implies chars_lt(#[trigger] t[i], #[trigger] t[j]) by {
                if j == k && i < k - 1 {
                    lemma_chars_order(t[i], t[k - 1], t[k as int]);
                }
            }
        }
        k = k + 1;
    }
    proof {
        assert forall|i: int, j: int| 0 <= i < t.len() && 0 <= j < t.len() && i != j implies t[i] != t[j] by {
            if i < j {
                lemma_chars_order(t[i], t[j], t[j]);
            } else {
                lemma_chars_order(t[j], t[i], t[i]);
            }
        }
        assert(t.no_duplicates());
        lemma_same_elements_no_duplicates(t, given);
    }
    let mut shards: Vec<u16> = Vec::new();
    let mut k: usize = 0;
    while k < v.len()
        invariant
            k <= v@.len(),
            t == texts(v@),
            shards@.len() == k,
            forall|j: int| 0 <= j < k ==> #[trigger] shards@[j] < 64 && shard_name(shards@[j], ".bin"@) == t[j],
        decreases v.len() - k,
    {
        assert(t[k as int] == v@[k as int]@);
        let shard = match parse_shard_name(v[k].as_str(), ".bin") {
            Ok(s) => s,
            Err(_) => {
                proof {
                    assert(!is_shard_file(t[k as int]));
                    assert(t.contains(t[k as int]));
                    assert(given.to_multiset().count(t[k as int]) > 0);
                    assert(given.contains(t[k as int]));
                    let i = choose|i: int| 0 <= i < given.len() && given[i] == t[k as int];
                    assert(!is_shard_file(given[i]));
                }
                return Err(Error::Corrupt("non-canonical format-2 shard name".to_string()));
            },
        };
        shards.push(shard);
        k = k + 1;
    }
    proof {
        assert(shard_files(shards@) =~= t);
        assert forall|i: int| 0 <= i < given.len() implies is_shard_file(#[trigger] given[i]) by {
            assert(given.contains(given[i]));
            assert(t.to_multiset().count(given[i]) > 0);
            assert(t.contains(given[i]));
            let j = choose|j: int| 0 <= j < t.len() && t[j] == given[i];
            assert(shards@[j] < 64 && shard_name(shards@[j], ".bin"@) == t[j]);
        }
    }
    Ok(shards)
}

/// The path of the IVF codebook blob.
pub open spec fn codebook_file() -> Seq<char> {
    "index/ivf-flat-v2/codebook.bin"@
}

/// The path of a centroid's posting blob.
pub open spec fn posting_path(centroid: u16) -> Seq<char> {
    "index/ivf-flat-v2/postings/"@ + posting_name(centroid)
}

/// The centroids a codebook blob holds, when it decodes with the root's
/// dimension and holds the number of centroids the root records.
pub open spec fn codebook_of(bytes: Seq<u8>, meta: RootMeta) -> Option<Seq<Seq<u32>>> {
    match (decoded_codebook(bytes, meta.dimension as int), meta.ivf) {
        (Some(cs), Some(ivf)) => if cs.len() == ivf.centroid_count {
            Some(cs)
        } else {
            None
        },
        _ => None,
    }
}

/// The centroids of a codebook blob; fails with `Corrupt` unless
/// `codebook_of` holds them.
pub fn codebook_rows(bytes: &[u8], meta: &RootMeta) -> (r: Result<Vec<Vec<u32>>, Error>)
    ensures
        r is Ok <==> codebook_of(bytes@, *meta) is Some,
        r matches Ok(cs) ==> Some(row_views(cs@)) == codebook_of(bytes@, *meta),
        r matches Err(e) ==> e is Corrupt,
{
    let cs = decode_codebook(bytes, meta.dimension)?;
    assert(row_views(cs@).len() == cs@.len());
    match &meta.ivf {
        Some(ivf) => {
            if cs.len() != ivf.centroid_count {
                return Err(Error::Corrupt("format-2 codebook centroid count mismatch".to_string()));
            }
        },
        None => {
            return Err(Error::Corrupt("format-2 codebook centroid count mismatch".to_string()));
        },
    }
    Ok(cs)
}

/// The rows of the listed shards, shard by shard and row by row, given each
/// shard and its row count.
pub open spec fn exact_row_list(sizes: Seq<(u16, usize)>) -> Seq<(u16, u32)>
    decreases sizes.len(),
{
    if sizes.len() == 0 {
        Seq::empty()
    } else {
        exact_row_list(sizes.drop_last()) + Seq::new(
            sizes.last().1 as nat,
            |k: int| (sizes.last().0, k as u32),
        )
    }
}

/// The total row count of the listed shards.
pub open spec fn row_total(sizes: Seq<(u16, usize)>) -> nat
    decreases sizes.len(),
{
    if sizes.len() == 0 {
        0
    } else {
        row_total(sizes.drop_last()) + sizes.last().1 as nat
    }
}

proof fn lemma_row_list_len(sizes: Seq<(u16, usize)>)
    ensures
        exact_row_list(sizes).len() == row_total(sizes),
    decreases sizes.len(),
{
    if sizes.len() > 0 {
        lemma_row_list_len(sizes.drop_last());
    }
}

/// The rows an exact query visits: every row of every listed shard, in
/// order. Fails with `Corrupt` unless the rows number `point_count`, the
/// count the root records.
#[verifier::loop_isolation(false)]
pub fn exact_rows(sizes: &Vec<(u16, usize)>, point_count: usize) -> (r: Result<Vec<(u16, u32)>, Error>)
    requires
        forall|k: int| 0 <= k < sizes@.len() ==> (#[trigger] sizes@[k]).1 <= u32::MAX + 1,
    ensures
        r is Ok <==> row_total(sizes@) == point_count,
        r matches Ok(rows) ==> rows@ == exact_row_list(sizes@),
        r matches Err(e) ==> e is Corrupt,
{
    let mut rows: Vec<(u16, u32)> = Vec::new();
    let mut i: usize = 0;
    proof {
        assert(sizes@.take(0) =~= Seq::<(u16, usize)>::empty());
    }
    while i < sizes.len()
        invariant
            i <= sizes@.len(),
            rows@ == exact_row_list(sizes@.take(i as int)),
            rows@.len() == row_total(sizes@.take(i as int)),
            rows@.len() <= point_count,
        decreases sizes.len() - i,
    {
        let (shard, count) = sizes[i];
        let ghost before = rows@;
        let ghost prefix = sizes@.take(i as int + 1);
        assert(prefix.drop_last() =~= sizes@.take(i as int));
        assert(prefix.last() == sizes@[i as int]);
        if count > point_count - rows.len() {
            proof {
                lemma_row_total_prefix(sizes@, i as int + 1);
            }
            return Err(Error::Corrupt("format-2 point count mismatch".to_string()));
        }
        let mut k: usize = 0;
        while k < count
            invariant
                k <= count,
                count <= u32::MAX + 1,
                rows@ == before + Seq::new(k as nat, |j: int| (shard, j as u32)),
            decreases count - k,
        {
            rows.push((shard, k as u32));
            proof {
                assert(rows@ =~= before + Seq::new((k + 1) as nat, |j: int| (shard, j as u32)));
            }
            k = k + 1;
        }
        proof {
            assert(rows@ =~= exact_row_list(prefix));
        }
        i = i + 1;
    }
    assert(sizes@.take(sizes@.len() as int) =~= sizes@);
    if rows.len() != point_count {
        return Err(Error::Corrupt("format-2 point count mismatch".to_string()));
    }
    Ok(rows)
}

/// Row totals grow with the prefix.
proof fn lemma_row_total_prefix(sizes: Seq<(u16, usize)>, n: int)
    requires
        0 <= n <= sizes.len(),
    ensures
        row_total(sizes.take(n)) <= row_total(sizes),
    decreases sizes.len() - n,
{
    if n < sizes.len() {
        lemma_row_total_prefix(sizes, n + 1);
        let p = sizes.take(n + 1);
        assert(p.drop_last() =~= sizes.take(n));
    } else {
        assert(sizes.take(n) =~= sizes);
    }
}

impl<S: SnapshotSource> SnapshotReader<S> {
    /// Reads one blob through the source, counting it when it is returned.
    pub fn blob(&mut self, path: &str) -> (r: Result<Vec<u8>, Error>)
        ensures
            final(self).root_view() == old(self).root_view(),
            final(self).meta_view() == old(self).meta_view(),
            final(self).source_view() == old(self).source_view(),
            stats_grow(old(self).stats_view(), final(self).stats_view()),
            r matches Ok(b) ==> (old(self).source_view().blob_at(path@) matches Some(x) ==> x == b@),
            r matches Ok(b) ==> final(self).stats_view() == after_blob(old(self).stats_view(), b@.len()),
            r is Err ==> final(self).stats_view() == old(self).stats_view(),
    {
        let bytes = self.source.read_blob(path)?;
        self.reads.blob_reads = self.reads.blob_reads.saturating_add(1);
        let len = bytes.len() as u64;
        self.reads.blob_bytes = self.reads.blob_bytes.saturating_add(len);
        Ok(bytes)
    }

    /// Lists a directory through the source, counting it when it is returned.
    pub fn list(&mut self, path: &str) -> (r: Result<Vec<String>, Error>)
        ensures
            final(self).root_view() == old(self).root_view(),
            final(self).meta_view() == old(self).meta_view(),
            final(self).source_view() == old(self).source_view(),
            stats_grow(old(self).stats_view(), final(self).stats_view()),
            r matches Ok(names) ==> (old(self).source_view().entries_at(path@) matches Some(x) ==> x == texts(names@)),
            r is Ok ==> final(self).stats_view() == (SnapshotReadStats {
                directory_reads: if old(self).stats_view().directory_reads == usize::MAX {
                    usize::MAX
                } else {
                    (old(self).stats_view().directory_reads + 1) as usize
                },
                ..old(self).stats_view()
            }),
            r is Err ==> final(self).stats_view() == old(self).stats_view(),
    {
        let names = self.source.list(path)?;
        self.reads.directory_reads = self.reads.directory_reads.saturating_add(1);
        Ok(names)
    }

    /// Loads the ID and vector rows of a shard.
    ///
    /// Reads the shard's ID blob, then, when its IDs decode, its vector blob.
    /// Fails with `Corrupt` unless both blobs decode, the shard holds at least
    /// one row, and there is one vector of the root's dimension per ID.
    pub fn load_shard(&mut self, shard: u16) -> (r: Result<ShardRows, Error>)
        requires
            shard < 64,
        ensures
            final(self).meta_view() == old(self).meta_view(),
            final(self).root_view() == old(self).root_view(),
            final(self).source_view() == old(self).source_view(),
            stats_grow(old(self).stats_view(), final(self).stats_view()),
            r matches Ok(rows) ==> {
                &&& rows.ids@.len() > 0
                &&& rows.ids@.len() == rows.vectors@.len()
                &&& forall|k: int| 0 <= k < rows.vectors@.len() ==> (#[trigger] rows.vectors@[k])@.len() == old(self).meta_view().dimension
                &&& forall|k: int| 0 <= k < rows.ids@.len() ==> shard_of((#[trigger] rows.ids@[k])@) == shard
            },
            r matches Ok(rows) ==> exists|a: Seq<u8>, b: Seq<u8>|
                #![trigger may_hold(old(self).source_view(), ids_file(shard), a), may_hold(old(self).source_view(), vectors_file(shard), b)]
                {
                    &&& may_hold(old(self).source_view(), ids_file(shard), a)
                    &&& may_hold(old(self).source_view(), vectors_file(shard), b)
                    &&& decoded_ids(a, shard) == Some(id_views(rows.ids@))
                    &&& decoded_vectors(b) == Some(row_views(rows.vectors@))
                    &&& shard_vectors_fit(rows.ids@.len(), decoded_vectors(b), old(self).meta_view().dimension as nat)
                    &&& final(self).stats_view() == after_blob(after_blob(old(self).stats_view(), a.len()), b.len())
                },
            r is Err ==> {
                ||| final(self).stats_view() == old(self).stats_view()
                ||| exists|a: Seq<u8>|
                    #[trigger] may_hold(old(self).source_view(), ids_file(shard), a) && final(self).stats_view()
                        == after_blob(old(self).stats_view(), a.len())
                ||| exists|a: Seq<u8>, b: Seq<u8>|
                    #![trigger may_hold(old(self).source_view(), ids_file(shard), a), may_hold(old(self).source_view(), vectors_file(shard), b)]
                    {
                        &&& may_hold(old(self).source_view(), ids_file(shard), a)
                        &&& may_hold(old(self).source_view(), vectors_file(shard), b)
                        &&& decoded_ids(a, shard) is Some
                        &&& !shard_vectors_fit(decoded_ids(a, shard)->0.len(), decoded_vectors(b), old(self).meta_view().dimension as nat)
                        &&& final(self).stats_view() == after_blob(after_blob(old(self).stats_view(), a.len()), b.len())
                    }
            },
    {
        let ghost s0 = self.stats_view();
        let ghost src = self.source_view();
        let ids_path = shard_path("points/ids/", shard, ".bin");
        let ids_bytes = self.blob(ids_path.as_str())?;
        let ghost s1 = self.stats_view();
        assert(may_hold(src, ids_file(shard), ids_bytes@));
        let ids = match decode_ids(ids_bytes.as_slice(), shard) {
            Ok(ids) => ids,
            Err(e) => {
                assert(may_hold(src, ids_file(shard), ids_bytes@));
                return Err(e);
            },
        };
        let vectors_path = shard_path("points/vectors/", shard, ".f32le");
        let vector_bytes = match self.blob(vectors_path.as_str()) {
            Ok(b) => b,
            Err(e) => {
                assert(may_hold(src, ids_file(shard), ids_bytes@));
                return Err(e);
            },
        };
        assert(may_hold(src, vectors_file(shard), vector_bytes@));
        let ghost count = ids@.len();
        assert(id_views(ids@).len() == count);
        let rows = match shard_rows(ids, vector_bytes.as_slice(), self.meta.dimension) {
            Ok(rows) => rows,
            Err(e) => {
                assert(may_hold(src, ids_file(shard), ids_bytes@) && may_hold(src, vectors_file(shard), vector_bytes@));
                assert(decoded_ids(ids_bytes@, shard)->0.len() == count);
                return Err(e);
            },
        };
        proof {
            crate::ids::lemma_decoded_ids_shard(ids_bytes@, shard);
            assert forall|j: int| 0 <= j < rows.ids@.len() implies shard_of((#[trigger] rows.ids@[j])@) == shard by {
                assert(id_views(rows.ids@)[j] == rows.ids@[j]@);
            }
            let vs = decoded_vectors(vector_bytes@)->0;
            assert forall|k: int| 0 <= k < rows.vectors@.len() implies (#[trigger] rows.vectors@[k])@.len() == self.meta_view().dimension by {
                assert(row_views(rows.vectors@)[k] == rows.vectors@[k]@);
                assert(vs[k].len() == self.meta.dimension);
            }
            assert(decoded_ids(ids_bytes@, shard) == Some(id_views(rows.ids@)));
            assert(decoded_vectors(vector_bytes@) == Some(row_views(rows.vectors@)));
            assert(may_hold(src, ids_file(shard), ids_bytes@) && may_hold(src, vectors_file(shard), vector_bytes@));
        }
        Ok(rows)
    }

    /// Loads the payload rows of a shard holding `expected` points; fails with
    /// `Corrupt` unless the blob is a payload shard of that many rows.
    pub fn load_payload_rows(&mut self, shard: u16, expected: usize) -> (r: Result<Vec<Vec<u8>>, Error>)
        requires
            shard < 64,
        ensures
            final(self).meta_view() == old(self).meta_view(),
            final(self).root_view() == old(self).root_view(),
            final(self).source_view() == old(self).source_view(),
            stats_grow(old(self).stats_view(), final(self).stats_view()),
            r matches Ok(rows) ==> rows@.len() == expected,
            r matches Ok(rows) ==> exists|b: Seq<u8>|
                #[trigger] may_hold(old(self).source_view(), payloads_file(shard), b)
                    && payload_rows_of(b, expected as nat) == Some(byte_views(rows@))
                    && final(self).stats_view() == after_blob(old(self).stats_view(), b.len()),
            r is Err ==> {
                ||| final(self).stats_view() == old(self).stats_view()
                ||| exists|b: Seq<u8>|
                    #[trigger] may_hold(old(self).source_view(), payloads_file(shard), b)
                        && payload_rows_of(b, expected as nat) is None
                        && final(self).stats_view() == after_blob(old(self).stats_view(), b.len())
            },
    {
        let ghost src = self.source_view();
        let path = shard_path("points/payloads/", shard, ".bin");
        let bytes = self.blob(path.as_str())?;
        assert(may_hold(src, payloads_file(shard), bytes@));
        let rows = payload_rows(bytes.as_slice(), expected)?;
        proof {
            assert(payload_rows_of(bytes@, expected as nat) == Some(byte_views(rows@)));
            assert(byte_views(rows@).len() == rows@.len());
        }
        Ok(rows)
    }

    /// The shards an exact query reads: the entries of `points/ids`, each of
    /// which must be a canonical shard file name, with no entry listed twice,
    /// in ascending order. One directory listing is made.
    pub fn exact_shards(&mut self) -> (r: Result<Vec<u16>, Error>)
        ensures
            final(self).meta_view() == old(self).meta_view(),
            final(self).root_view() == old(self).root_view(),
            final(self).source_view() == old(self).source_view(),
            stats_grow(old(self).stats_view(), final(self).stats_view()),
            r matches Ok(shards) ==> forall|k: int| 0 <= k < shards@.len() ==> #[trigger] shards@[k] < 64,
            r matches Ok(shards) ==> {
                &&& texts_sorted(shard_files(shards@))
                &&& shard_files(shards@).no_duplicates()
                &&& final(self).stats_view() == after_list(old(self).stats_view())
                &&& exists|t: Seq<Seq<char>>|
                    #[trigger] may_list(old(self).source_view(), "points/ids"@, t) && shard_files(shards@).to_multiset()
                        == t.to_multiset()
            },
            r is Err ==> {
                ||| final(self).stats_view() == old(self).stats_view()
                ||| exists|t: Seq<Seq<char>>|
                    #[trigger] may_list(old(self).source_view(), "points/ids"@, t) && final(self).stats_view() == after_list(
                        old(self).stats_view(),
                    ) && !(t.no_duplicates() && forall|i: int| 0 <= i < t.len() ==> is_shard_file(#[trigger] t[i]))
            },
    {
        let ghost src = self.source_view();
        let names = self.list("points/ids")?;
        let ghost t = texts(names@);
        assert(may_list(src, "points/ids"@, t));
        let shards = shard_list(names)?;
        proof {
            lemma_same_elements_no_duplicates(t, shard_files(shards@));
        }
        Ok(shards)
    }

    /// Loads the IVF codebook: fails with `Corrupt` unless it decodes with
    /// the root's dimension and holds as many centroids as the root records.
    pub fn load_codebook(&mut self) -> (r: Result<Vec<Vec<u32>>, Error>)
        ensures
            final(self).meta_view() == old(self).meta_view(),
            final(self).root_view() == old(self).root_view(),
            final(self).source_view() == old(self).source_view(),
            stats_grow(old(self).stats_view(), final(self).stats_view()),
            r matches Ok(cs) ==> exists|b: Seq<u8>|
                #[trigger] may_hold(old(self).source_view(), codebook_file(), b) && codebook_of(b, old(self).meta_view())
                    == Some(row_views(cs@)) && final(self).stats_view() == after_blob(old(self).stats_view(), b.len()),
            r is Err ==> {
                ||| final(self).stats_view() == old(self).stats_view()
                ||| exists|b: Seq<u8>|
                    #[trigger] may_hold(old(self).source_view(), codebook_file(), b) && codebook_of(b, old(self).meta_view())
                        is None && final(self).stats_view() == after_blob(old(self).stats_view(), b.len())
            },
    {
        let ghost src = self.source_view();
        let bytes = self.blob("index/ivf-flat-v2/codebook.bin")?;
        assert(may_hold(src, codebook_file(), bytes@));
        codebook_rows(bytes.as_slice(), &self.meta)
    }

    /// Loads the posting list of a centroid: fails with `Corrupt` unless the
    /// blob is a canonical posting list.
    pub fn load_posting(&mut self, centroid: u16) -> (r: Result<Vec<(u16, u32)>, Error>)
        ensures
            final(self).meta_view() == old(self).meta_view(),
            final(self).root_view() == old(self).root_view(),
            final(self).source_view() == old(self).source_view(),
            stats_grow(old(self).stats_view(), final(self).stats_view()),
            r matches Ok(p) ==> forall|k: int| 0 <= k < p@.len() ==> (#[trigger] p@[k]).0 < 64,
            r matches Ok(p) ==> exists|b: Seq<u8>|
                #[trigger] may_hold(old(self).source_view(), posting_path(centroid), b) && decoded_posting(b) == Some(p@)
                    && final(self).stats_view() == after_blob(old(self).stats_view(), b.len()),
            r is Err ==> {
                ||| final(self).stats_view() == old(self).stats_view()
                ||| exists|b: Seq<u8>|
                    #[trigger] may_hold(old(self).source_view(), posting_path(centroid), b) && decoded_posting(b) is None
                        && final(self).stats_view() == after_blob(old(self).stats_view(), b.len())
            },
    {
        let ghost src = self.source_view();
        let path = "index/ivf-flat-v2/postings/".to_owned().concat(posting_file(centroid).as_str());
        assert(path@ == posting_path(centroid));
        let bytes = self.blob(path.as_str())?;
        assert(may_hold(src, posting_path(centroid), bytes@));
        decode_posting(bytes.as_slice())
    }

    /// The root this reader reads.
    pub fn root(&self) -> (r: &ObjectId)
        ensures
            r.0@ == self.root_view(),
    {
        &self.root
    }
}

/// What a query does with a discovered candidate.
#[derive(Debug, Clone, Copy, PartialEq, Eq)]
pub enum Admission {
    /// The filter rejects it.
    Skip,
    /// Score it.
    Score,
    /// The candidate budget is spent: stop discovering.
    Stop,
}

/// The bookkeeping of a query's walk over candidate rows.
pub struct CandidateWalk {
    visited: Vec<(u16, u32)>,
    exact: bool,
    limit: usize,
    buckets_probed: usize,
    candidates_discovered: usize,
    vectors_scored: usize,
    candidate_limit_exhausted: bool,
}

/// Whether the pairs are in strictly increasing order.
pub open spec fn pairs_sorted(s: Seq<(u16, u32)>) -> bool {
    forall|i: int, j: int| 0 <= i < j < s.len() ==> entry_lt(#[trigger] s[i], #[trigger] s[j])
}

impl CandidateWalk {
    /// The rows visited so far.
    pub closed spec fn visited_view(&self) -> Set<(u16, u32)> {
        self.visited@.to_set()
    }

    /// Whether the walk scores every candidate.
    pub closed spec fn exact_view(&self) -> bool {
        self.exact
    }

    /// The candidate budget of an approximate walk.
    pub closed spec fn limit_view(&self) -> usize {
        self.limit
    }

    /// Posting lists read.
    pub closed spec fn probed(&self) -> usize {
        self.buckets_probed
    }

    /// Candidate rows discovered.
    pub closed spec fn discovered(&self) -> usize {
        self.candidates_discovered
    }

    /// Candidates scored.
    pub closed spec fn scored(&self) -> usize {
        self.vectors_scored
    }

    /// Whether discovery stopped at the candidate budget.
    pub closed spec fn exhausted(&self) -> bool {
        self.candidate_limit_exhausted
    }

    /// Posting lists read.
    pub fn buckets_probed(&self) -> (r: usize)
        ensures
            r == self.probed(),
    {
        self.buckets_probed
    }

    /// Candidate rows discovered.
    pub fn candidates_discovered(&self) -> (r: usize)
        ensures
            r == self.discovered(),
    {
        self.candidates_discovered
    }

    /// Candidates scored.
    pub fn vectors_scored(&self) -> (r: usize)
        ensures
            r == self.scored(),
    {
        self.vectors_scored
    }

    /// Whether discovery stopped at the candidate budget.
    pub fn candidate_limit_exhausted(&self) -> (r: bool)
        ensures
            r == self.exhausted(),
    {
        self.candidate_limit_exhausted
    }

    /// Whether the internal record of visited rows is well formed.
    pub closed spec fn wf(&self) -> bool {
        pairs_sorted(self.visited@)
    }

    /// A walk that has visited nothing.
    pub fn new(exact: bool, limit: usize) -> (r: Self)
        ensures
            r.wf(),
            r.visited_view() == Set::<(u16, u32)>::empty(),
            r.exact_view() == exact,
            r.limit_view() == limit,
            r.probed() == 0,
            r.discovered() == 0,
            r.scored() == 0,
            !r.exhausted(),
    {
        let r = CandidateWalk {
            visited: Vec::new(),
            exact,
            limit,
            buckets_probed: 0,
            candidates_discovered: 0,
            vectors_scored: 0,
            candidate_limit_exhausted: false,
        };
        assert(r.visited@.to_set() =~= Set::<(u16, u32)>::empty());
        r
    }

    /// Counts a posting list read.
    pub fn probe(&mut self)
        ensures
            final(self).probed() == if old(self).probed() == usize::MAX {
                usize::MAX
            } else {
                (old(self).probed() + 1) as usize
            },
            final(self).visited_view() == old(self).visited_view(),
            final(self).wf() == old(self).wf(),
            final(self).exact_view() == old(self).exact_view(),
            final(self).limit_view() == old(self).limit_view(),
            final(self).discovered() == old(self).discovered(),
            final(self).scored() == old(self).scored(),
            final(self).exhausted() == old(self).exhausted(),
    {
        self.buckets_probed = self.buckets_probed.saturating_add(1);
    }

    /// Records a discovered candidate row; fails with `Corrupt` when the row
    /// was discovered before.
    pub fn visit(&mut self, shard: u16, row: u32) -> (r: Result<(), Error>)
        requires
            old(self).wf(),
        ensures
            final(self).wf(),
            r is Ok <==> !old(self).visited_view().contains((shard, row)),
            r is Ok ==> final(self).visited_view() == old(self).visited_view().insert((shard, row))
                && final(self).discovered() == (if old(self).discovered() == usize::MAX {
                    usize::MAX
                } else {
                    (old(self).discovered() + 1) as usize
                }),
            r is Err ==> final(self).visited_view() == old(self).visited_view()
                && final(self).discovered() == old(self).discovered(),
            r matches Err(e) ==> e is Corrupt,
            final(self).exact_view() == old(self).exact_view(),
            final(self).limit_view() == old(self).limit_view(),
            final(self).probed() == old(self).probed(),
            final(self).scored() == old(self).scored(),
            final(self).exhausted() == old(self).exhausted(),
    {
        let x = (shard, row);
        let mut lo: usize = 0;
        let mut hi: usize = self.visited.len();
        while lo < hi
            invariant
                pairs_sorted(self.visited@),
                x == (shard, row),
                lo <= hi <= self.visited@.len(),
                forall|j: int| 0 <= j < lo ==> entry_lt(#[trigger] self.visited@[j], x),
                forall|j: int| hi <= j < self.visited@.len() ==> entry_lt(x, #[trigger] self.visited@[j]),
            decreases hi - lo,
        {
            let mid = lo + (hi - lo) / 2;
            let e = self.visited[mid];
            let s = e.0;
            let w = e.1;
            assert(self.visited@[mid as int] == e);
            if s == shard && w == row {
                assert(self.visited@[mid as int] == x);
                assert(self.visited@.to_set().contains(x));
                return Err(Error::Corrupt("duplicate format-2 posting row".to_string()));
            }
            if s < shard || (s == shard && w < row) {
                lo = mid + 1;
            } else {
                hi = mid;
            }
        }
        let ghost before = self.visited@;
        assert(!before.to_set().contains(x)) by {
            if before.to_set().contains(x) {
                let j = choose|j: int| 0 <= j < before.len() && before[j] == x;
                assert(before.contains(x));
            }
        }
        self.visited.insert(lo, x);
        proof {
            let after = self.visited@;
            assert(after == before.insert(lo as int, x));
            assert forall|i: int, j: int| 0 <= i < j < after.len() implies entry_lt(#[trigger] after[i], #[trigger] after[j]) by {
                if j < lo {
                } else if j == lo {
                } else if i < lo {
                } else if i == lo {
                } else {
                }
            }
            assert forall|y: (u16, u32)| after.to_set().contains(y) <==> before.to_set().insert(x).contains(y) by {
                if after.contains(y) {
                    let k = choose|k: int| 0 <= k < after.len() && after[k] == y;
                    if k < lo {
                        assert(before[k] == y);
                    } else if k > lo {
                        assert(before[k - 1] == y);
                    }
                }
                if before.contains(y) {
                    let k = choose|k: int| 0 <= k < before.len() && before[k] == y;
                    if k < lo {
                        assert(after[k] == y);
                    } else {
                        assert(after[k + 1] == y);
                    }
                }
                if y == x {
                    assert(after[lo as int] == x);
                }
            }
            assert(after.to_set() =~= before.to_set().insert(x));
        }
        self.candidates_discovered = self.candidates_discovered.saturating_add(1);
        Ok(())
    }

    /// Decides what happens to a discovered candidate that the filter does or
    /// does not accept: rejected candidates are skipped; an approximate walk
    /// that has scored its budget stops and records that; otherwise the
    /// candidate is scored.
    pub fn consider(&mut self, accepted: bool) -> (r: Admission)
        ensures
            !accepted ==> r == Admission::Skip && final(self).scored() == old(self).scored()
                && final(self).exhausted() == old(self).exhausted(),
            accepted && !old(self).exact_view() && old(self).scored() >= old(self).limit_view() ==> r
                == Admission::Stop && final(self).exhausted() && final(self).scored()
                == old(self).scored(),
            accepted && !(!old(self).exact_view() && old(self).scored() >= old(self).limit_view()) ==> r
                == Admission::Score && final(self).scored() == (if old(self).scored() == usize::MAX {
                usize::MAX
            } else {
                (old(self).scored() + 1) as usize
            }) && final(self).exhausted() == old(self).exhausted(),
            final(self).wf() == old(self).wf(),
            final(self).visited_view() == old(self).visited_view(),
            final(self).exact_view() == old(self).exact_view(),
            final(self).limit_view() == old(self).limit_view(),
            final(self).probed() == old(self).probed(),
            final(self).discovered() == old(self).discovered(),
    {
        if !accepted {
            return Admission::Skip;
        }
        if !self.exact && self.vectors_scored >= self.limit {
            self.candidate_limit_exhausted = true;
            return Admission::Stop;
        }
        self.vectors_scored = self.vectors_scored.saturating_add(1);
        Admission::Score
    }

    /// Whether an approximate walk stopped at its probe budget while
    /// centroids remained unprobed.
    pub fn probe_limit_exhausted(&self, probes: usize, centroids: usize) -> (r: bool)
        ensures
            r == (!self.exact_view() && self.probed() == probes && probes < centroids),
    {
        !self.exact && self.buckets_probed == probes && probes < centroids
    }
}

} // verus!
