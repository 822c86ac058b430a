//! Access engine for very large delimited-text files: dialect detection,
//! per-row byte-offset indexing, chunked random-access reads with
//! malformed-row policies, parallel substring search, sort permutations,
//! duplicate detection, a column inverted index, and two cache layers.
//!
//! The record grammar and the full-parse model live in `record` and
//! `offsets`; `policy` resolves malformed rows; `reader`, `search`, `sort`,
//! `dups` and `colindex` are the operations over the offset array;
//! `detect` and `dialect` decide how bytes become records; `cache`,
//! `diskcache` and `session` hold the per-file state.

pub mod cache;
pub mod detect;
pub mod colindex;
pub mod dialect;
pub mod diskcache;
pub mod dups;
pub mod offsets;
pub mod policy;
pub mod reader;
pub mod record;
pub mod search;
pub mod session;
pub mod sort;
pub mod text;

use vstd::prelude::*;

verus! {

/// Warnings kept per session are capped at this many entries.
pub const MAX_WARNING_COUNT: usize = 200;

} // verus!
