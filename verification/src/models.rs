//! The plain data the downloader works on: its configuration, the chunks a
//! segmented download is split into, and the parsed command line.

use vstd::prelude::*;
use vstd::string::*;
use crate::headers::Headers;
use crate::{DEFAULT_CHUNK_SIZE, MAX_CONNECTIONS};

verus! {

/// How a download is carried out.
#[derive(Debug, Clone)]
pub struct DownloadConfig {
    /// Upper bound on simultaneous connections of a segmented download.
    pub max_connections: usize,
    /// Chunk size used when adaptive chunking is off.
    pub chunk_size: u64,
    pub user_agent: String,
    /// Extra request headers, each name at most once.
    pub headers: Headers,
    /// Retries allowed per chunk after a failed attempt: each chunk is
    /// requested at most `1 + retry_attempts` times.
    pub retry_attempts: usize,
    /// Pause after a failed chunk, in milliseconds.
    pub retry_delay_ms: u64,
    pub adaptive_chunking: bool,
    pub resume_support: bool,
    pub connection_reuse: bool,
    pub compression: bool,
}

impl Default for DownloadConfig {
    /// Sixteen connections, 1 MiB chunks, three attempts a second apart,
    /// adaptive chunking, resuming, connection reuse and compression on,
    /// and headers accepting any type with gzip, deflate or brotli encoding
    /// over a kept-alive connection.
    fn default() -> (c: Self)
        ensures
            c.max_connections == MAX_CONNECTIONS,
            c.chunk_size == DEFAULT_CHUNK_SIZE,
            c.user_agent@ == "RustDownloader/1.0"@,
            c.headers.wf(),
            c.headers.view() == map![
                "Accept"@ => "*/*"@,
                "Accept-Encoding"@ => "gzip, deflate, br"@,
                "Connection"@ => "keep-alive"@,
            ],
            c.retry_attempts == 3,
            c.retry_delay_ms == 1000,
            c.adaptive_chunking,
            c.resume_support,
            c.connection_reuse,
            c.compression,
    {
        let mut headers = Headers::new();
        headers.insert(String::from_str("Accept"), String::from_str("*/*"));
        headers.insert(String::from_str("Accept-Encoding"), String::from_str("gzip, deflate, br"));
        headers.insert(String::from_str("Connection"), String::from_str("keep-alive"));
        let c = DownloadConfig {
            max_connections: MAX_CONNECTIONS,
            chunk_size: DEFAULT_CHUNK_SIZE,
            user_agent: String::from_str("RustDownloader/1.0"),
            headers,
            retry_attempts: 3,
            retry_delay_ms: 1000,
            adaptive_chunking: true,
            resume_support: true,
            connection_reuse: true,
            compression: true,
        };
        proof {
            assert(c.headers.view() =~= map![
                "Accept"@ => "*/*"@,
                "Accept-Encoding"@ => "gzip, deflate, br"@,
                "Connection"@ => "keep-alive"@,
            ]);
        }
        c
    }
}

/// One byte range `[start, end]` of a segmented download and its state.
#[derive(Debug, Clone, Copy)]
pub struct ChunkInfo {
    pub id: usize,
    pub start: u64,
    pub end: u64,
    pub downloaded: u64,
    pub completed: bool,
    /// Attempts made on this chunk so far.
    pub retries: usize,
    /// A worker holds the chunk: an attempt on it has begun and not ended.
    pub in_flight: bool,
}

/// Message that a worker sends when the chunk with this id is written.
#[derive(Debug)]
pub struct ChunkCompleted(pub usize);

} // verus!
