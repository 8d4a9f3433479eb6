//! Hyperfetch: the planning, chunking and formatting logic of a segmented
//! HTTP downloader, with its contracts proved by Verus.

use vstd::prelude::*;

pub mod chunks;
pub mod cli;
pub mod decimal;
pub mod headers;
pub mod literal;
pub mod models;
pub mod planner;
pub mod progress;
pub mod record;
pub mod rounding;
pub mod text;
pub mod utils;

verus! {

/// Chunk size when nothing else is asked for: one mebibyte.
pub const DEFAULT_CHUNK_SIZE: u64 = 1024 * 1024;

/// Connections of a segmented download when nothing else is asked for.
pub const MAX_CONNECTIONS: usize = 16;

/// Smallest chunk that adaptive chunking picks: 64 KiB.
pub const MIN_CHUNK_SIZE: u64 = 64 * 1024;

/// Largest chunk that adaptive chunking picks: 10 MiB.
pub const MAX_CHUNK_SIZE: u64 = 10 * 1024 * 1024;

} // verus!
