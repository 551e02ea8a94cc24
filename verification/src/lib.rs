//! Inspects a delimited text file's sampled bytes and infers its tabular
//! structure: delimiter, column count, header names, line-terminator
//! convention, and an estimated row count.  The inferred dialect drives a
//! cell indexer, a per-column numeric/width inference pass, a fixed-width
//! table renderer, and a sample re-serializer.
//!
//! The crate works on plain byte buffers; reading the file from disk and
//! printing the rendered table are left to the embedding program.

pub mod laws;
pub mod meta;
pub mod numeric;
pub mod render;
pub mod scan;
pub mod sniff;
pub mod stats;
pub mod text;
pub mod writer;
