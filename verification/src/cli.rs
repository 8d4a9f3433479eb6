//! The command line: what it holds once parsed, and the download
//! configuration and output name it asks for.

use vstd::prelude::*;
use vstd::string::*;
use crate::headers::{Headers, header_lines_map, headers_from_lines};
use crate::models::DownloadConfig;
use crate::utils::{SizeError, parse_size, size_value, size_result, uppercase_text, extract_filename_from_url,
    filename_for_path, parsed_url_path};
use crate::text::trim_text;

verus! {

/// The command line of the downloader, as parsed.
#[derive(Debug)]
pub struct Cli {
    /// URL to download
    pub url: String,
    /// Output file path
    pub output: Option<String>,
    /// Maximum number of concurrent connections
    pub connections: usize,
    /// Chunk size in bytes (supports K, M, G suffixes)
    pub chunk_size: String,
    /// Custom User-Agent header
    pub user_agent: Option<String>,
    /// Custom HTTP headers (format: 'Name: Value')
    pub header: Option<Vec<String>>,
    /// Disable resume support
    pub no_resume: bool,
    /// Disable adaptive chunking
    pub no_adaptive: bool,
    /// Number of retry attempts
    pub retries: usize,
    /// Connection timeout in seconds
    pub timeout: u64,
    /// Quiet mode - no progress bar
    pub quiet: bool,
    /// Verbose output
    pub verbose: bool,
}

/// The header lines of the command line, none when it gives none.
pub open spec fn cli_header_lines(cli: &Cli) -> Seq<Seq<char>> {
    match cli.header {
        Some(lines) => lines@.map_values(|l: String| l@),
        None => Seq::empty(),
    }
}

/// The configuration the command line asks for: its connections, chunk
/// size, header lines (which replace the default headers), retries,
/// resume and adaptive switches and user agent; a one-second retry delay;
/// everything else as by default.  Fails when the chunk size is not a size.
pub fn config_from_cli(cli: &Cli) -> (r: Result<DownloadConfig, SizeError>)
    ensures
        r is Err <==> size_value(uppercase_text(trim_text(cli.chunk_size@))) is None,
        r matches Err(e) ==> size_result(uppercase_text(trim_text(cli.chunk_size@))) == Err::<u64, SizeError>(e),
        r matches Ok(c) ==> ({
            &&& size_value(uppercase_text(trim_text(cli.chunk_size@))) == Some(c.chunk_size)
            &&& c.max_connections == cli.connections
            &&& c.headers.wf()
            &&& c.headers.view() == header_lines_map(cli_header_lines(cli))
            &&& c.retry_attempts == cli.retries
            &&& c.retry_delay_ms == 1000
            &&& c.resume_support == !cli.no_resume
            &&& c.adaptive_chunking == !cli.no_adaptive
            &&& c.user_agent@ == match cli.user_agent {
                Some(ua) => ua@,
                None => "RustDownloader/1.0"@,
            }
            &&& c.connection_reuse
            &&& c.compression
        }),
{
    let chunk_size = match parse_size(cli.chunk_size.as_str()) {
        Ok(n) => n,
        Err(e) => {
            return Err(e);
        },
    };
    let headers = match &cli.header {
        Some(lines) => headers_from_lines(lines),
        None => {
            let h = Headers::new();
            proof {
                assert(header_lines_map(Seq::<Seq<char>>::empty()) == Map::<Seq<char>, Seq<char>>::empty());
            }
            h
        },
    };
    let user_agent = match &cli.user_agent {
        Some(ua) => ua.clone(),
        None => String::from_str("RustDownloader/1.0"),
    };
    Ok(DownloadConfig {
        max_connections: cli.connections,
        chunk_size,
        user_agent,
        headers,
        retry_attempts: cli.retries,
        retry_delay_ms: 1000,
        adaptive_chunking: !cli.no_adaptive,
        resume_support: !cli.no_resume,
        connection_reuse: true,
        compression: true,
    })
}

/// Where the download goes: the output the command line names, or else the
/// file name taken from the URL.
pub fn output_path(cli: &Cli) -> (path: String)
    ensures
        path@ == match cli.output {
            Some(o) => o@,
            None => filename_for_path(parsed_url_path(cli.url@)),
        },
{
    match &cli.output {
        Some(o) => o.clone(),
        None => extract_filename_from_url(cli.url.as_str()),
    }
}

/// The name a downloaded file is given once its type is known: the path,
/// a dot, and the extension of the type.
pub fn path_with_extension(path: &str, extension: &str) -> (p: String)
    ensures
        p@ == path@ + "."@ + extension@,
{
    let mut p = String::from_str(path);
    p.append(".");
    p.append(extension);
    p
}

} // verus!
