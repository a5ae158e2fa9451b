//! A local vector database stored in Git: the verified core.
//!
//! This crate holds the logic of the database that does not touch the
//! filesystem or a Git object store: typed point identifiers and their
//! canonical order, the binary shard formats of a canonical root, payload
//! filters, ranking and mutation batches, names and metadata checks, the
//! deterministic probe order of the legacy hash index, and source chunking.
use vstd::prelude::*;

pub mod bytes;
pub mod caos;
pub mod diff;
pub mod digest;
pub mod filter;
pub mod ids;
pub mod index;
pub mod input;
pub mod json;
pub mod layout;
pub mod meta;
pub mod lsh;
pub mod model;
pub mod pattern;
pub mod points;
pub mod names;
pub mod order;
pub mod ranking;
pub mod reader;
pub mod sample;
pub mod shard;
pub mod store;
pub mod text;
pub mod unicode;
pub mod vectors;

pub use caos::{chunks, excluded_directory, selected_file, Chunk, FileLocation, Manifest};
pub use filter::{Condition, Filter, MatchValue, Range};
pub use json::{Json, JsonNumber, JsonObject};
pub use model::{
    CollectionConfig, CollectionInfo, CountResult, DiffResult, Distance, HistoryEntry, IdValue,
    IndexConfig, ObjectId, ObjectStats, PointId, QueryMode, QueryParams, QueryStats, SnapshotInfo,
    ValidationReport, WriteResult,
};
pub use points::{Point, SnapshotMutation};
pub use reader::{SnapshotReadStats, SnapshotReader, SnapshotSource};
pub use store::{CollectionHandle, Database, DeleteSelector, Document, Store, TextCollection, TextQuery};

verus! {

/// An error returned by a `git-vdb` operation.
#[derive(Debug)]
pub enum Error {
    /// The underlying Git object database returned an error (its message).
    Git(String),
    /// JSON serialization or deserialization failed (its message).
    Json(String),
    /// A filesystem operation failed (its message).
    Io(String),
    /// An embedding provider could not initialize or generate vectors.
    Embedding(String),
    /// The request or persisted value violated a declared invariant.
    Invalid(String),
    /// A requested named collection does not exist.
    CollectionNotFound(String),
    /// A collection could not be created because its name already exists.
    CollectionExists(String),
    /// A named write expected a different current collection root.
    StaleRoot {
        /// Root supplied by the writer as its compare-and-swap precondition.
        expected: ObjectId,
        /// Root resolved from the collection ref when the write was attempted.
        actual: ObjectId,
    },
    /// A write was attempted through an immutable historical collection view.
    ReadOnly,
    /// Stored objects do not form a valid canonical collection root.
    Corrupt(String),
}

} // verus!
