//! Public request, response and configuration types.
use vstd::prelude::*;

verus! {

/// The mathematical value of a typed point identifier.
pub enum IdValue {
    /// A string identifier, as its characters.
    Text(Seq<char>),
    /// An unsigned integer identifier.
    Number(u64),
}

/// A typed point identifier.
///
/// String and unsigned-integer IDs occupy distinct namespaces and have a stable
/// canonical ordering used to break equal-score query ties.
#[derive(Clone, Debug)]
pub enum PointId {
    /// A UTF-8 string identifier.
    String(String),
    /// An unsigned 64-bit integer identifier.
    UInt(u64),
}

impl View for PointId {
    type V = IdValue;

    open spec fn view(&self) -> IdValue {
        match self {
            PointId::String(s) => IdValue::Text(s@),
            PointId::UInt(v) => IdValue::Number(*v),
        }
    }
}

/// Big-endian bytes of a 64-bit integer.
pub open spec fn u64_be_bytes(v: u64) -> Seq<u8> {
    vstd::bytes::spec_u64_to_le_bytes(v).reverse()
}

/// The canonical byte string of an identifier: a namespace tag, a zero byte,
/// then the UTF-8 bytes of a string or the big-endian bytes of an integer.
pub open spec fn canonical_id_bytes(id: IdValue) -> Seq<u8> {
    match id {
        IdValue::Text(s) => seq![0x73u8, 0u8] + vstd::utf8::encode_utf8(s),
        IdValue::Number(v) => seq![0x75u8, 0u8] + u64_be_bytes(v),
    }
}

/// Strict lexicographic order on byte strings (a proper prefix comes first).
pub open spec fn bytes_lt(a: Seq<u8>, b: Seq<u8>) -> bool
    decreases a.len(),
{
    if a.len() == 0 {
        b.len() > 0
    } else if b.len() == 0 {
        false
    } else if a[0] != b[0] {
        a[0] < b[0]
    } else {
        bytes_lt(a.drop_first(), b.drop_first())
    }
}

/// The canonical order of identifiers: lexicographic order of canonical bytes.
pub open spec fn id_lt(a: IdValue, b: IdValue) -> bool {
    bytes_lt(canonical_id_bytes(a), canonical_id_bytes(b))
}

/// Compares two byte strings lexicographically; `true` when `a` comes first.
pub fn bytes_less(a: &[u8], b: &[u8]) -> (r: bool)
    ensures
        r == bytes_lt(a@, b@),
{
    let mut i: usize = 0;
    assert(a@.skip(0) =~= a@);
    assert(b@.skip(0) =~= b@);
    while i < a.len() && i < b.len()
        invariant
            i <= a.len(),
            i <= b.len(),
            bytes_lt(a@, b@) == bytes_lt(a@.skip(i as int), b@.skip(i as int)),
        decreases a.len() - i,
    {
        let ghost sa = a@.skip(i as int);
        let ghost sb = b@.skip(i as int);
        if a[i] != b[i] {
            return a[i] < b[i];
        }
        assert(sa.drop_first() =~= a@.skip(i + 1));
        assert(sb.drop_first() =~= b@.skip(i + 1));
        i = i + 1;
    }
    i < b.len()
}


proof fn lemma_bytes_lt_irreflexive(a: Seq<u8>)
    ensures
        !bytes_lt(a, a),
    decreases a.len(),
{
    if a.len() > 0 {
        lemma_bytes_lt_irreflexive(a.drop_first());
    }
}

proof fn lemma_bytes_lt_transitive(a: Seq<u8>, b: Seq<u8>, c: Seq<u8>)
    requires
        bytes_lt(a, b),
        bytes_lt(b, c),
    ensures
        bytes_lt(a, c),
    decreases a.len(),
{
    if a.len() > 0 && b.len() > 0 && c.len() > 0 && a[0] == b[0] && b[0] == c[0] {
        lemma_bytes_lt_transitive(a.drop_first(), b.drop_first(), c.drop_first());
    }
}

proof fn lemma_bytes_lt_total(a: Seq<u8>, b: Seq<u8>)
    requires
        a != b,
    ensures
        bytes_lt(a, b) || bytes_lt(b, a),
    decreases a.len(),
{
    if a.len() > 0 && b.len() > 0 && a[0] == b[0] {
        if a.drop_first() == b.drop_first() {
            assert(a =~= seq![a[0]] + a.drop_first());
            assert(b =~= seq![b[0]] + b.drop_first());
        }
        lemma_bytes_lt_total(a.drop_first(), b.drop_first());
    } else if a.len() == 0 && b.len() == 0 {
        assert(a =~= b);
    }
}

/// Typed IDs do not collide: distinct identifiers, including a string and an
/// integer that print alike, have distinct canonical bytes.
pub proof fn lemma_canonical_id_bytes_injective(a: IdValue, b: IdValue)
    requires
        a != b,
    ensures
        canonical_id_bytes(a) != canonical_id_bytes(b),
{
    let ca = canonical_id_bytes(a);
    let cb = canonical_id_bytes(b);
    if ca == cb {
        match (a, b) {
            (IdValue::Text(x), IdValue::Text(y)) => {
                assert(ca.skip(2) =~= vstd::utf8::encode_utf8(x));
                assert(cb.skip(2) =~= vstd::utf8::encode_utf8(y));
                vstd::utf8::encode_utf8_decode_utf8(x);
                vstd::utf8::encode_utf8_decode_utf8(y);
            },
            (IdValue::Number(x), IdValue::Number(y)) => {
                assert(ca.skip(2).reverse() =~= vstd::bytes::spec_u64_to_le_bytes(x));
                assert(cb.skip(2).reverse() =~= vstd::bytes::spec_u64_to_le_bytes(y));
                vstd::bytes::lemma_auto_spec_u64_to_from_le_bytes();
            },
            (IdValue::Text(_), IdValue::Number(_)) => {
                assert(ca[0] != cb[0]);
            },
            (IdValue::Number(_), IdValue::Text(_)) => {
                assert(ca[0] != cb[0]);
            },
        }
    }
}

/// Lexicographic byte order is a strict total order.
pub proof fn lemma_bytes_order(a: Seq<u8>, b: Seq<u8>, c: Seq<u8>)
    ensures
        !bytes_lt(a, a),
        bytes_lt(a, b) && bytes_lt(b, c) ==> bytes_lt(a, c),
        a != b ==> bytes_lt(a, b) || bytes_lt(b, a),
        !(bytes_lt(a, b) && bytes_lt(b, a)),
{
    lemma_bytes_lt_irreflexive(a);
    if bytes_lt(a, b) && bytes_lt(b, c) {
        lemma_bytes_lt_transitive(a, b, c);
    }
    if bytes_lt(a, b) && bytes_lt(b, a) {
        lemma_bytes_lt_transitive(a, b, a);
    }
    if a != b {
        lemma_bytes_lt_total(a, b);
    }
}

/// The canonical identifier order is a strict total order: irreflexive,
/// transitive, and any two distinct identifiers are ordered one way.
pub proof fn lemma_id_order(a: IdValue, b: IdValue, c: IdValue)
    ensures
        !id_lt(a, a),
        id_lt(a, b) && id_lt(b, c) ==> id_lt(a, c),
        a != b ==> id_lt(a, b) || id_lt(b, a),
        !(id_lt(a, b) && id_lt(b, a)),
{
    lemma_bytes_lt_irreflexive(canonical_id_bytes(a));
    if id_lt(a, b) && id_lt(b, c) {
        lemma_bytes_lt_transitive(canonical_id_bytes(a), canonical_id_bytes(b), canonical_id_bytes(c));
    }
    if id_lt(a, b) && id_lt(b, a) {
        lemma_bytes_lt_transitive(canonical_id_bytes(a), canonical_id_bytes(b), canonical_id_bytes(a));
    }
    if a != b {
        lemma_canonical_id_bytes_injective(a, b);
        lemma_bytes_lt_total(canonical_id_bytes(a), canonical_id_bytes(b));
    }
}

impl PointId {
    /// The canonical byte string used to order identifiers.
    pub fn canonical_bytes(&self) -> (bytes: Vec<u8>)
        ensures
            bytes@ == canonical_id_bytes(self@),
    {
        match self {
            PointId::String(value) => {
                let mut bytes: Vec<u8> = vec![0x73u8, 0u8];
                let raw = value.as_str().as_bytes();
                let mut i: usize = 0;
                while i < raw.len()
                    invariant
                        i <= raw@.len(),
                        raw@ == vstd::utf8::encode_utf8(value@),
                        bytes@ == seq![0x73u8, 0u8] + raw@.take(i as int),
                    decreases raw.len() - i,
                {
                    bytes.push(raw[i]);
                    assert(raw@.take(i + 1) =~= raw@.take(i as int).push(raw@[i as int]));
                    i = i + 1;
                }
                assert(raw@.take(raw@.len() as int) =~= raw@);
                bytes
            },
            PointId::UInt(value) => {
                let le = vstd::bytes::u64_to_le_bytes(*value);
                let mut bytes: Vec<u8> = vec![0x75u8, 0u8];
                let mut i: usize = 8;
                while i > 0
                    invariant
                        i <= 8,
                        le@.len() == 8,
                        le@ == vstd::bytes::spec_u64_to_le_bytes(*value),
                        bytes@ == seq![0x75u8, 0u8] + le@.reverse().take(8 - i),
                    decreases i,
                {
                    i = i - 1;
                    bytes.push(le[i]);
                    assert(le@.reverse().take(8 - i) =~= le@.reverse().take(8 - i - 1).push(
                        le@[i as int],
                    ));
                }
                assert(le@.reverse().take(8) =~= le@.reverse());
                bytes
            },
        }
    }

    /// Returns `true` when `self` comes strictly before `other` in canonical order.
    pub fn precedes(&self, other: &PointId) -> (r: bool)
        ensures
            r == id_lt(self@, other@),
    {
        let left = self.canonical_bytes();
        let right = other.canonical_bytes();
        bytes_less(left.as_slice(), right.as_slice())
    }

    /// Returns a copy with the same value.
    pub fn duplicate(&self) -> (r: PointId)
        ensures
            r@ == self@,
    {
        match self {
            PointId::String(value) => PointId::String(value.clone()),
            PointId::UInt(value) => PointId::UInt(*value),
        }
    }

    /// Returns `true` when both identifiers have the same typed value.
    pub fn same_as(&self, other: &PointId) -> (r: bool)
        ensures
            r == (self@ == other@),
    {
        match (self, other) {
            (PointId::String(a), PointId::String(b)) => a.eq(b),
            (PointId::UInt(a), PointId::UInt(b)) => *a == *b,
            _ => false,
        }
    }
}

} // verus!

verus! {

/// A hexadecimal Git object ID that identifies a tree or commit.
#[derive(Clone, Debug)]
pub struct ObjectId(pub String);

/// The vector distance used for ranking.
#[derive(Clone, Copy, Debug, PartialEq, Eq)]
pub enum Distance {
    /// Cosine similarity, returned as a descending score.
    Cosine,
}

/// Deterministic index construction and query defaults.
#[derive(Clone, Copy, Debug, PartialEq, Eq)]
pub struct IndexConfig {
    /// Number of independent hash tables stored per point (format 1).
    pub tables: usize,
    /// Number of projection bits in each table signature (format 1).
    pub signature_bits: usize,
    /// Seed used to deterministically derive projection vectors.
    pub projection_seed: u64,
    /// Point-count threshold at or below which queries default to exact search.
    pub full_scan_threshold: usize,
    /// Default number of approximate buckets to probe.
    pub default_probes: usize,
    /// Default maximum number of approximate candidates to discover.
    pub default_candidate_limit: usize,
}

/// The default index configuration.
pub open spec fn default_index_config() -> IndexConfig {
    IndexConfig {
        tables: 12,
        signature_bits: 12,
        projection_seed: 0x6769_742d_7664_6231,
        full_scan_threshold: 1_000,
        default_probes: 96,
        default_candidate_limit: 10_000,
    }
}

impl Default for IndexConfig {
    fn default() -> (r: Self)
        ensures
            r == default_index_config(),
    {
        IndexConfig {
            tables: 12,
            signature_bits: 12,
            projection_seed: 0x6769_742d_7664_6231,
            full_scan_threshold: 1_000,
            default_probes: 96,
            default_candidate_limit: 10_000,
        }
    }
}

/// Collection-wide vector and index configuration.
#[derive(Clone, Debug)]
pub struct CollectionConfig {
    /// Required number of components in every stored and query vector.
    pub dimension: usize,
    /// Distance used to score vectors.
    pub distance: Distance,
    /// Optional application-defined vector-space identity checked by queries.
    pub vector_space: Option<String>,
    /// Deterministic approximate-index configuration.
    pub index: IndexConfig,
}

impl Default for CollectionConfig {
    fn default() -> (r: Self)
        ensures
            r.dimension == 0,
            r.distance == Distance::Cosine,
            r.vector_space is None,
            r.index == default_index_config(),
    {
        CollectionConfig {
            dimension: 0,
            distance: Distance::Cosine,
            vector_space: None,
            index: IndexConfig::default(),
        }
    }
}

impl CollectionConfig {
    /// Creates a cosine collection configuration for the given dimension.
    pub fn new(dimension: usize) -> (r: Self)
        ensures
            r.dimension == dimension,
            r.distance == Distance::Cosine,
            r.vector_space is None,
            r.index == default_index_config(),
    {
        let mut config = CollectionConfig::default();
        config.dimension = dimension;
        config
    }

    /// Assigns an application-defined vector-space identity.
    pub fn with_vector_space(self, vector_space: &str) -> (r: Self)
        ensures
            r.dimension == self.dimension,
            r.distance == self.distance,
            r.index == self.index,
            r.vector_space matches Some(space) && space@ == vector_space@,
    {
        let mut config = self;
        config.vector_space = Some(vector_space.to_owned());
        config
    }

    /// Replaces the deterministic index configuration.
    pub fn with_index(self, index: IndexConfig) -> (r: Self)
        ensures
            r.dimension == self.dimension,
            r.distance == self.distance,
            r.vector_space == self.vector_space,
            r.index == index,
    {
        let mut config = self;
        config.index = index;
        config
    }
}

/// Exact or approximate query execution parameters.
#[derive(Clone, Debug, Default)]
pub struct QueryParams {
    /// Explicit mode override; `None` selects exact search for small collections.
    pub exact: Option<bool>,
    /// Approximate buckets to probe, or zero to use the collection default.
    pub probes: usize,
    /// Approximate candidate limit, or zero to use the collection default.
    pub candidate_limit: usize,
}

/// Query algorithm selected after applying collection defaults.
#[derive(Clone, Copy, Debug, PartialEq, Eq)]
pub enum QueryMode {
    /// Every filter-eligible point was scored.
    Exact,
    /// Candidates were discovered through the approximate index.
    Approximate,
}

/// Work counters for a completed query.
#[derive(Clone, Debug)]
pub struct QueryStats {
    /// Algorithm selected for the query.
    pub mode: QueryMode,
    /// Total points in the resolved collection root.
    pub collection_points: usize,
    /// Index buckets visited; zero for exact search.
    pub buckets_probed: usize,
    /// Distinct approximate candidates discovered.
    pub candidates_discovered: usize,
    /// Point vectors actually scored.
    pub vectors_scored: usize,
    /// Whether approximate discovery consumed its probe budget.
    pub probe_limit_exhausted: bool,
    /// Whether approximate discovery consumed its candidate budget.
    pub candidate_limit_exhausted: bool,
}

/// The outcome of a named collection write.
#[derive(Clone, Debug)]
pub struct WriteResult {
    /// New deterministic collection root.
    pub root: ObjectId,
    /// Number of submitted upserts or points actually removed.
    pub affected_points: usize,
}

/// A count and the immutable root from which it was read.
#[derive(Clone, Debug)]
pub struct CountResult {
    /// Immutable root that was counted.
    pub root: ObjectId,
    /// Number of matching points.
    pub count: usize,
}

/// Metadata for a named or historical collection view.
#[derive(Clone, Debug)]
pub struct CollectionInfo {
    /// Resolved deterministic root.
    pub root: ObjectId,
    /// Named collection.
    pub name: String,
    /// Number of points at the resolved root.
    pub point_count: usize,
    /// Collection configuration stored in the root.
    pub config: CollectionConfig,
    /// Whether the view is historical and rejects writes.
    pub read_only: bool,
}

/// Metadata for an immutable root snapshot.
#[derive(Clone, Debug)]
pub struct SnapshotInfo {
    /// Deterministic root tree ID.
    pub root: ObjectId,
    /// Number of points in the root.
    pub point_count: usize,
    /// Collection configuration stored in the root.
    pub config: CollectionConfig,
}

/// One named-collection commit in newest-first history order.
#[derive(Clone, Debug)]
pub struct HistoryEntry {
    /// Commit object ID.
    pub commit: ObjectId,
    /// Canonical root tree recorded by the commit.
    pub root: ObjectId,
    /// First parent commit, when present.
    pub parent: Option<ObjectId>,
    /// Commit message generated for the collection operation.
    pub message: String,
    /// Commit time in Unix seconds.
    pub time_seconds: i64,
}

/// Count and logical size of a set of reachable Git objects.
#[derive(Clone, Debug, Default)]
pub struct ObjectStats {
    /// Number of Git objects.
    pub objects: usize,
    /// Sum of logical object bytes.
    pub bytes: usize,
}

/// Logical point and structural-sharing differences between two roots.
#[derive(Clone, Debug)]
pub struct DiffResult {
    /// Resolved left root.
    pub left_root: ObjectId,
    /// Resolved right root.
    pub right_root: ObjectId,
    /// IDs present only on the right.
    pub added: Vec<PointId>,
    /// IDs present only on the left.
    pub removed: Vec<PointId>,
    /// IDs present in both roots with changed point content.
    pub changed: Vec<PointId>,
    /// Whether collection metadata differs.
    pub configuration_changed: bool,
    /// Whether any approximate-index buckets differ.
    pub buckets_changed: bool,
    /// Objects reachable from both roots.
    pub shared: ObjectStats,
    /// Objects reachable only from the left root.
    pub left_unique: ObjectStats,
    /// Objects reachable only from the right root.
    pub right_unique: ObjectStats,
}

/// Result of basic or full canonical-root validation.
#[derive(Clone, Debug)]
pub struct ValidationReport {
    /// Root that was validated.
    pub root: ObjectId,
    /// Whether expensive index recomputation was requested.
    pub full: bool,
    /// Validated point count.
    pub point_count: usize,
    /// Approximate-index buckets checked during full validation.
    pub checked_buckets: usize,
    /// `true` when validation completed without finding corruption.
    pub valid: bool,
}

} // verus!
