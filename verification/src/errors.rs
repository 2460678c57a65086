//! Error taxonomy of the ingestion pipeline.
//!
//! `MalformedInput` and `IoFailure` are fatal and abort ingestion;
//! `SchemaMismatch` marks a cache file that does not match the expected
//! structure (the recovery is to re-ingest from source); degenerate
//! geometry is not an error at all — the affected feature is dropped.

use vstd::prelude::*;

verus! {

/// What can go wrong while ingesting or reloading geometry.
#[derive(Clone, Copy, Debug, PartialEq, Eq, Structural)]
pub enum GeoError {
    /// Unrecognized classification string or unparsable geometry.
    MalformedInput,
    /// A source or cache file could not be read or written.
    IoFailure,
    /// A cache file does not match the expected structure or version.
    SchemaMismatch,
}

} // verus!
