//! Root metadata: the persisted format description of a canonical root and
//! the checks that decide whether a root, a configuration or a query may be used.
use crate::ids::SHARD_BITS;
use crate::index::{centroid_count, centroids_for};
use crate::model::{default_index_config, CollectionConfig, Distance, IndexConfig};
use crate::text::str_eq;
use crate::Error;
use vstd::prelude::*;

verus! {

broadcast use vstd::string::group_string_axioms;

/// The persisted format version of legacy hash-index roots.
pub const FORMAT_VERSION_V1: u32 = 1;

/// The persisted format version of sharded inverted-file roots.
pub const FORMAT_VERSION_V2: u32 = 2;

/// Most points used to train the format-2 centroids.
pub const SAMPLE_LIMIT: usize = 8192;

/// Training passes over the format-2 sample.
pub const TRAINING_ITERATIONS: usize = 4;

/// The inverted-file parameters of a format-2 root.
#[derive(Clone, Debug, PartialEq, Eq)]
pub struct IvfConfig {
    pub shard_bits: usize,
    pub centroid_count: usize,
    pub training_sample_limit: usize,
    pub training_iterations: usize,
}

/// The contents of `meta.json`: what a root holds and how it is encoded.
#[derive(Clone, Debug)]
pub struct RootMeta {
    pub format_version: u32,
    pub point_count: usize,
    pub dimension: usize,
    pub distance: Distance,
    pub vector_space: Option<String>,
    pub vector_codec: String,
    pub git_object_format: String,
    pub index: IndexConfig,
    pub ivf: Option<IvfConfig>,
}

/// Whether two optional strings hold the same text.
pub open spec fn same_text(a: Option<String>, b: Option<String>) -> bool {
    match (a, b) {
        (Some(x), Some(y)) => x@ == y@,
        (None, None) => true,
        _ => false,
    }
}

fn clone_text(a: &Option<String>) -> (r: Option<String>)
    ensures
        same_text(r, *a),
{
    match a {
        Some(s) => Some(s.as_str().to_owned()),
        None => None,
    }
}

/// Whether `meta` describes `config` and `point_count` points.
pub open spec fn describes(meta: RootMeta, config: CollectionConfig, point_count: usize) -> bool {
    &&& meta.point_count == point_count
    &&& meta.dimension == config.dimension
    &&& meta.distance == config.distance
    &&& same_text(meta.vector_space, config.vector_space)
    &&& meta.index == config.index
    &&& meta.git_object_format@ == "sha1"@
}

impl RootMeta {
    /// The collection configuration the metadata records.
    pub open spec fn config_view(self) -> CollectionConfig {
        CollectionConfig {
            dimension: self.dimension,
            distance: self.distance,
            vector_space: self.vector_space,
            index: self.index,
        }
    }

    /// Metadata of a format-1 root.
    pub fn new_v1(config: &CollectionConfig, point_count: usize) -> (r: Self)
        ensures
            describes(r, *config, point_count),
            r.format_version == FORMAT_VERSION_V1,
            r.vector_codec@ == "f32le-v1"@,
            r.ivf is None,
    {
        RootMeta {
            format_version: FORMAT_VERSION_V1,
            point_count,
            dimension: config.dimension,
            distance: config.distance,
            vector_space: clone_text(&config.vector_space),
            vector_codec: "f32le-v1".to_owned(),
            git_object_format: "sha1".to_owned(),
            index: config.index,
            ivf: None,
        }
    }

    /// Metadata of a format-2 root.
    pub fn new_v2(config: &CollectionConfig, point_count: usize, ivf: IvfConfig) -> (r: Self)
        ensures
            describes(r, *config, point_count),
            r.format_version == FORMAT_VERSION_V2,
            r.vector_codec@ == "f32le-sharded-v2"@,
            r.ivf == Some(ivf),
    {
        RootMeta {
            format_version: FORMAT_VERSION_V2,
            point_count,
            dimension: config.dimension,
            distance: config.distance,
            vector_space: clone_text(&config.vector_space),
            vector_codec: "f32le-sharded-v2".to_owned(),
            git_object_format: "sha1".to_owned(),
            index: config.index,
            ivf: Some(ivf),
        }
    }

    /// The collection configuration recorded in the metadata.
    pub fn config(&self) -> (r: CollectionConfig)
        ensures
            r.dimension == self.dimension,
            r.distance == self.distance,
            same_text(r.vector_space, self.vector_space),
            r.index == self.index,
    {
        CollectionConfig {
            dimension: self.dimension,
            distance: self.distance,
            vector_space: clone_text(&self.vector_space),
            index: self.index,
        }
    }

    /// The number of points in the root.
    pub fn point_count(&self) -> (r: usize)
        ensures
            r == self.point_count,
    {
        self.point_count
    }

    /// The persisted format version.
    pub fn format_version(&self) -> (r: u32)
        ensures
            r == self.format_version,
    {
        self.format_version
    }
}

/// The inverted-file parameters that a canonical format-2 root of `n` points records.
pub open spec fn canonical_ivf(n: usize) -> IvfConfig {
    IvfConfig {
        shard_bits: 6,
        centroid_count: centroids_for(n as nat) as usize,
        training_sample_limit: 8192,
        training_iterations: 4,
    }
}

/// The inverted-file parameters of a canonical format-2 root of `point_count` points.
pub fn ivf_config_for(point_count: usize) -> (r: IvfConfig)
    ensures
        r == canonical_ivf(point_count),
{
    IvfConfig {
        shard_bits: SHARD_BITS,
        centroid_count: centroid_count(point_count),
        training_sample_limit: SAMPLE_LIMIT,
        training_iterations: TRAINING_ITERATIONS,
    }
}

/// Whether the metadata names a supported format: version 1 with the `f32le-v1`
/// codec and no IVF section, or version 2 with the `f32le-sharded-v2` codec and
/// an IVF section, and SHA-1 object IDs either way.
pub open spec fn meta_supported(meta: RootMeta) -> bool {
    &&& meta.git_object_format@ == "sha1"@
    &&& (meta.format_version == 1 && meta.vector_codec@ == "f32le-v1"@ && meta.ivf is None) || (
    meta.format_version == 2 && meta.vector_codec@ == "f32le-sharded-v2"@ && meta.ivf is Some)
}

/// Checks that metadata names a supported format; fails with `Corrupt` otherwise.
pub fn check_meta_format(meta: &RootMeta) -> (r: Result<(), Error>)
    ensures
        r is Ok <==> meta_supported(*meta),
        r matches Err(e) ==> e is Corrupt,
{
    let supported = if meta.format_version == FORMAT_VERSION_V1 {
        str_eq(meta.vector_codec.as_str(), "f32le-v1") && meta.ivf.is_none()
    } else if meta.format_version == FORMAT_VERSION_V2 {
        str_eq(meta.vector_codec.as_str(), "f32le-sharded-v2") && meta.ivf.is_some()
    } else {
        false
    };
    if !supported || !str_eq(meta.git_object_format.as_str(), "sha1") {
        return Err(Error::Corrupt("unsupported format metadata".to_string()));
    }
    Ok(())
}

/// Whether a collection configuration may be stored.
pub open spec fn config_valid(config: CollectionConfig) -> bool {
    &&& 1 <= config.dimension <= u32::MAX
    &&& config.index.default_probes > 0
    &&& config.index.default_candidate_limit > 0
}

/// Which configurations are valid: every dimension from 1 to `u32::MAX`
/// with positive default probes and candidate limit, and nothing else; in
/// particular the default configuration of every such dimension.
pub proof fn lemma_valid_configs(config: CollectionConfig, d: usize)
    ensures
        (1 <= config.dimension <= u32::MAX && config.index.default_probes > 0
            && config.index.default_candidate_limit > 0) <==> config_valid(config),
        1 <= d <= u32::MAX ==> config_valid(
            CollectionConfig { dimension: d, distance: Distance::Cosine, vector_space: None, index: default_index_config() },
        ),
{
}

/// Checks a collection configuration: the dimension lies in `1..=u32::MAX` and
/// the default probe count and candidate limit are positive; otherwise `Invalid`.
pub fn validate_config(config: &CollectionConfig) -> (r: Result<(), Error>)
    ensures
        r is Ok <==> config_valid(*config),
        r matches Err(e) ==> e is Invalid,
{
    if config.dimension == 0 || config.dimension > 0xffff_ffffusize {
        return Err(Error::Invalid("dimension must be between 1 and u32::MAX".to_string()));
    }
    if config.index.default_probes == 0 || config.index.default_candidate_limit == 0 {
        return Err(Error::Invalid("index probes and candidate limit must be positive".to_string()));
    }
    Ok(())
}

/// Whether a hash-index configuration may be used by a format-1 root.
pub open spec fn v1_index_valid(index: IndexConfig) -> bool {
    index.tables > 0 && 1 <= index.signature_bits <= 64
}

/// Checks the hash-index parameters of a format-1 root: at least one table and
/// between 1 and 64 signature bits; otherwise `Invalid`.
pub fn validate_v1_index(index: &IndexConfig) -> (r: Result<(), Error>)
    ensures
        r is Ok <==> v1_index_valid(*index),
        r matches Err(e) ==> e is Invalid,
{
    if index.tables == 0 || index.signature_bits == 0 || index.signature_bits > 64 {
        return Err(Error::Invalid(
            "format-1 index tables and signature bits must be positive; signature bits must not exceed 64".to_string(),
        ));
    }
    Ok(())
}

/// Checks that format-2 metadata records the canonical inverted-file parameters
/// for its point count; fails with `Corrupt` otherwise.
pub fn validate_ivf_meta(meta: &RootMeta) -> (r: Result<(), Error>)
    ensures
        r is Ok <==> meta.ivf == Some(canonical_ivf(meta.point_count)),
        r matches Err(e) ==> e is Corrupt,
{
    match &meta.ivf {
        None => Err(Error::Corrupt("format-2 metadata is missing IVF configuration".to_string())),
        Some(ivf) => {
            let expected = centroid_count(meta.point_count);
            if ivf.shard_bits != SHARD_BITS || ivf.centroid_count != expected
                || ivf.training_sample_limit != SAMPLE_LIMIT || ivf.training_iterations
                != TRAINING_ITERATIONS {
                Err(Error::Corrupt("unsupported format-2 IVF configuration".to_string()))
            } else {
                Ok(())
            }
        },
    }
}

/// Metadata written for a new format-2 root passes every check a reader
/// makes of it: a supported format, and the canonical IVF parameters.
pub proof fn lemma_new_v2_meta_accepted(meta: RootMeta, config: CollectionConfig, n: usize)
    requires
        describes(meta, config, n),
        meta.format_version == FORMAT_VERSION_V2,
        meta.vector_codec@ == "f32le-sharded-v2"@,
        meta.ivf == Some(canonical_ivf(n)),
    ensures
        meta_supported(meta),
        meta.ivf == Some(canonical_ivf(meta.point_count)),
{
}

} // verus!
