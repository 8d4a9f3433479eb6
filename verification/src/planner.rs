//! The decisions of a download that do not touch the network or the disk:
//! what the server's answer to a HEAD request says, whether to resume,
//! whether to split, which byte ranges to ask for and how much of a
//! received block belongs to a chunk.

use vstd::prelude::*;
use crate::models::DownloadConfig;
use crate::record::ChunkRecord;
use crate::text::{dec_digits, digit_char, push_decimal, push_str, parse_u64_text,
    parse_u64, parse_u64_body, is_ascii_digit, digits_value};

verus! {

/// How a download goes on, given what the server reported and what is on
/// disk already.
#[derive(Debug, PartialEq, Eq, Structural)]
pub enum DownloadPlan {
    /// The file on disk already holds all the bytes.
    AlreadyComplete,
    /// One request for everything from `start_from` on.
    SingleStream { start_from: u64 },
    /// Ranged requests for `[start_from, total_size)`, split into chunks.
    Segmented { start_from: u64, total_size: u64 },
    /// Ranged requests for the chunks that the record of an interrupted
    /// segmented download does not list as written.
    ResumeRecorded,
}

/// Where a download starts: the length of the file already on disk when
/// resuming is on and the file exists, the beginning otherwise.
pub open spec fn resume_offset(existing_len: Option<u64>, resume_support: bool) -> u64 {
    match existing_len {
        Some(len) if resume_support => len,
        _ => 0,
    }
}

/// The record of an interrupted segmented download can be taken up: resuming
/// is on, the server takes byte ranges, the record is for a download of the
/// same size, and the file, which a segmented download sizes in full before
/// writing, is there at that size.
pub open spec fn record_usable(
    total_size: u64,
    supports_ranges: bool,
    existing_len: Option<u64>,
    resume_support: bool,
    recorded_total: Option<u64>,
) -> bool {
    &&& resume_support
    &&& supports_ranges
    &&& total_size > 0
    &&& recorded_total == Some(total_size)
    &&& existing_len == Some(total_size)
}

/// The plan for a download of `total_size` bytes (0 when the size is not
/// known) from a server that does or does not take byte ranges, with the
/// total size of the record of an earlier segmented download when there is
/// one.
///
/// - A usable record is taken up chunk by chunk.
/// - Without a record, a file at least as long as the download is complete.
/// - A file is continued from its length only when the server takes byte
///   ranges and no record shows the file to be a pre-sized segmented one;
///   otherwise the download starts over from the beginning.
pub open spec fn download_plan(
    total_size: u64,
    supports_ranges: bool,
    existing_len: Option<u64>,
    resume_support: bool,
    chunk_size: u64,
    recorded_total: Option<u64>,
) -> DownloadPlan {
    let existing = resume_offset(existing_len, resume_support);
    let start = if supports_ranges && recorded_total is None {
        existing
    } else {
        0
    };
    if record_usable(total_size, supports_ranges, existing_len, resume_support, recorded_total) {
        DownloadPlan::ResumeRecorded
    } else if recorded_total is None && total_size > 0 && existing >= total_size {
        DownloadPlan::AlreadyComplete
    } else if supports_ranges && total_size > chunk_size {
        DownloadPlan::Segmented { start_from: start, total_size }
    } else {
        DownloadPlan::SingleStream { start_from: start }
    }
}

/// Decides how a download goes on; `existing_len` is the length of the
/// output file if it exists, `record` the record of an earlier segmented
/// download if one was found.
pub fn plan_download(
    total_size: u64,
    supports_ranges: bool,
    existing_len: Option<u64>,
    record: Option<&ChunkRecord>,
    config: &DownloadConfig,
) -> (plan: DownloadPlan)
    ensures
        plan == download_plan(
            total_size,
            supports_ranges,
            existing_len,
            config.resume_support,
            config.chunk_size,
            match record {
                Some(r) => Some(r.total_size),
                None => None,
            },
        ),
{
    let recorded_total = match record {
        Some(r) => Some(r.total_size),
        None => None,
    };
    let existing = match existing_len {
        Some(len) if config.resume_support => len,
        _ => 0,
    };
    let start = if supports_ranges && recorded_total.is_none() {
        existing
    } else {
        0
    };
    let usable = config.resume_support && supports_ranges && total_size > 0 && match (
        recorded_total,
        existing_len,
    ) {
        (Some(r), Some(e)) => r == total_size && e == total_size,
        _ => false,
    };
    if usable {
        DownloadPlan::ResumeRecorded
    } else if recorded_total.is_none() && total_size > 0 && existing >= total_size {
        DownloadPlan::AlreadyComplete
    } else if supports_ranges && total_size > config.chunk_size {
        DownloadPlan::Segmented { start_from: start, total_size }
    } else {
        DownloadPlan::SingleStream { start_from: start }
    }
}

/// A segmented plan always leaves bytes to fetch: it starts before the end.
pub proof fn lemma_segmented_plan_has_bytes_left(
    total_size: u64,
    supports_ranges: bool,
    existing_len: Option<u64>,
    resume_support: bool,
    chunk_size: u64,
    recorded_total: Option<u64>,
)
    ensures
        download_plan(total_size, supports_ranges, existing_len, resume_support, chunk_size, recorded_total) matches DownloadPlan::Segmented { start_from, total_size: t }
            ==> (start_from < t && t == total_size),
{
}

/// Without byte ranges, or with a size that fits in one chunk, a download
/// is never split: it goes as one stream, or not at all when the file is
/// already complete.
pub proof fn lemma_no_split_without_ranges(
    total_size: u64,
    supports_ranges: bool,
    existing_len: Option<u64>,
    resume_support: bool,
    chunk_size: u64,
    recorded_total: Option<u64>,
)
    requires
        !supports_ranges || (total_size <= chunk_size && recorded_total is None),
    ensures
        download_plan(total_size, supports_ranges, existing_len, resume_support, chunk_size, recorded_total) is SingleStream
            || download_plan(total_size, supports_ranges, existing_len, resume_support, chunk_size, recorded_total) is AlreadyComplete,
{
}

/// A server that takes no byte ranges is asked for the whole file from its
/// first byte: what is on disk is only kept when it is already complete.
pub proof fn lemma_no_ranges_starts_over(
    total_size: u64,
    existing_len: Option<u64>,
    resume_support: bool,
    chunk_size: u64,
    recorded_total: Option<u64>,
)
    ensures
        match download_plan(total_size, false, existing_len, resume_support, chunk_size, recorded_total) {
            DownloadPlan::SingleStream { start_from } => start_from == 0,
            DownloadPlan::AlreadyComplete => recorded_total is None && total_size > 0
                && resume_offset(existing_len, resume_support) >= total_size,
            _ => false,
        },
{
}

/// With resuming off, a download always starts from the beginning.
pub proof fn lemma_no_resume_starts_at_zero(
    total_size: u64,
    supports_ranges: bool,
    existing_len: Option<u64>,
    chunk_size: u64,
    recorded_total: Option<u64>,
)
    ensures
        match download_plan(total_size, supports_ranges, existing_len, false, chunk_size, recorded_total) {
            DownloadPlan::SingleStream { start_from } => start_from == 0,
            DownloadPlan::Segmented { start_from, .. } => start_from == 0,
            _ => false,
        },
{
}

/// An interrupted segmented download whose record is found is taken up from
/// that record, not counted complete for the length of its pre-sized file.
pub proof fn lemma_recorded_download_resumes(total_size: u64, chunk_size: u64)
    requires
        total_size > 0,
    ensures
        download_plan(total_size, true, Some(total_size), true, chunk_size, Some(total_size))
            == DownloadPlan::ResumeRecorded,
{
}

/// A record is taken up only over a file on disk at the recorded size; with
/// no file on disk nothing is taken as done, and the whole download runs
/// from byte 0 (split when the server takes ranges and the file is larger
/// than a chunk).
pub proof fn lemma_recorded_resume_needs_the_file(
    total_size: u64,
    supports_ranges: bool,
    existing_len: Option<u64>,
    resume_support: bool,
    chunk_size: u64,
    recorded_total: Option<u64>,
)
    ensures
        download_plan(total_size, supports_ranges, existing_len, resume_support, chunk_size, recorded_total)
            == DownloadPlan::ResumeRecorded ==> existing_len == Some(total_size) && recorded_total == Some(
            total_size,
        ) && supports_ranges && resume_support && total_size > 0,
        existing_len is None ==> match download_plan(
            total_size,
            supports_ranges,
            existing_len,
            resume_support,
            chunk_size,
            recorded_total,
        ) {
            DownloadPlan::SingleStream { start_from } => start_from == 0,
            DownloadPlan::Segmented { start_from, total_size: t } => start_from == 0 && t == total_size,
            _ => false,
        },
        existing_len is None && supports_ranges && total_size > chunk_size ==> download_plan(
            total_size,
            supports_ranges,
            existing_len,
            resume_support,
            chunk_size,
            recorded_total,
        ) == (DownloadPlan::Segmented { start_from: 0, total_size }),
{
}

/// The decimal digits of `n` are digits, at least one, and denote `n`.
pub proof fn lemma_dec_digits_denote(n: nat)
    ensures
        dec_digits(n).len() > 0,
        forall|i: int| 0 <= i < dec_digits(n).len() ==> is_ascii_digit(#[trigger] dec_digits(n)[i]),
        digits_value(dec_digits(n)) == n,
    decreases n,
{
    let d = dec_digits(n);
    let r = n % 10;
    assert(digit_char(r) as nat == 48 + r);
    if n < 10 {
        assert(d.drop_last() =~= Seq::<char>::empty());
        assert(r == n);
        assert(d.last() == digit_char(n));
        assert(digits_value(d.drop_last()) == 0);
        assert(digits_value(d) == digits_value(d.drop_last()) * 10 + (d.last() as nat - 48) as nat);
    } else {
        lemma_dec_digits_denote(n / 10);
        assert(d.drop_last() =~= dec_digits(n / 10));
        assert forall|i: int| 0 <= i < d.len() implies is_ascii_digit(#[trigger] d[i]) by {
            if i < d.len() - 1 {
                assert(d[i] == dec_digits(n / 10)[i]);
            }
        }
        assert(d.last() == digit_char(r));
        assert(digits_value(d) == digits_value(d.drop_last()) * 10 + (d.last() as nat - 48) as nat);
        assert(n == (n / 10) * 10 + n % 10);
    }
}

/// A size announced as the decimal text of any `u64` (with or without a
/// leading `+`) is read as exactly that number: no size is cut short.
pub proof fn lemma_announced_size_reads_back(n: u64)
    ensures
        announced_size(Some(dec_digits(n as nat))) == n,
        announced_size(Some(seq!['+'] + dec_digits(n as nat))) == n,
        announced_size(None) == 0,
{
    lemma_dec_digits_denote(n as nat);
    let d = dec_digits(n as nat);
    assert(d[0] != '+') by {
        assert(is_ascii_digit(d[0]));
    }
    assert(parse_u64_body(d) == d);
    let e = seq!['+'] + d;
    assert(parse_u64_body(e) =~= d);
}

/// The `Range` header value that asks for everything from byte `start` on.
pub open spec fn open_range_text(start: nat) -> Seq<char> {
    "bytes="@ + dec_digits(start) + "-"@
}

/// The `Range` header value that asks for the bytes `start..=end`.
pub open spec fn closed_range_text(start: nat, end: nat) -> Seq<char> {
    "bytes="@ + dec_digits(start) + "-"@ + dec_digits(end)
}

/// The `Range` header of a single-stream download: none when it starts at
/// the beginning, an open range when it resumes.
pub fn resume_range_header(start_from: u64) -> (header: Option<String>)
    ensures
        start_from == 0 ==> header is None,
        start_from > 0 ==> (header matches Some(h) && h@ == open_range_text(start_from as nat)),
{
    if start_from > 0 {
        let mut h = String::new();
        push_str(&mut h, "bytes=");
        push_decimal(&mut h, start_from as u128);
        push_str(&mut h, "-");
        Some(h)
    } else {
        None
    }
}

/// The `Range` header that asks for the bytes `start..=end` of a chunk.
pub fn chunk_range_header(start: u64, end: u64) -> (header: String)
    ensures
        header@ == closed_range_text(start as nat, end as nat),
{
    let mut h = String::new();
    push_str(&mut h, "bytes=");
    push_decimal(&mut h, start as u128);
    push_str(&mut h, "-");
    push_decimal(&mut h, end as u128);
    h
}

/// How much of a received block of `incoming` bytes goes into a chunk of
/// `chunk_len` bytes of which `written` are written, and whether the chunk
/// is then full.
pub fn chunk_write_step(chunk_len: u64, written: u64, incoming: usize) -> (step: (usize, bool))
    requires
        written <= chunk_len,
    ensures
        step.0 == if incoming as nat <= chunk_len - written {
            incoming as nat
        } else {
            (chunk_len - written) as nat
        },
        written + step.0 <= chunk_len,
        step.1 == (written + step.0 >= chunk_len),
{
    let remaining = chunk_len - written;
    let write_size: usize = if incoming as u64 <= remaining {
        incoming
    } else {
        remaining as usize
    };
    (write_size, written + write_size as u64 >= chunk_len)
}

/// The size a server announces in `Content-Length`: the value read as a
/// decimal `u64`, 0 when it is missing or not such a number.
pub open spec fn announced_size(content_length: Option<Seq<char>>) -> u64 {
    match content_length {
        Some(v) => match parse_u64_text(v) {
            Some(n) => n,
            None => 0,
        },
        None => 0,
    }
}

/// Whether an `Accept-Ranges` value announces byte ranges: it is exactly
/// `bytes`.
pub open spec fn announces_byte_ranges(accept_ranges: Option<Seq<u8>>) -> bool {
    match accept_ranges {
        Some(v) => v == seq![98u8, 121u8, 116u8, 101u8, 115u8],
        None => false,
    }
}

/// The size of the file and whether the server takes byte ranges, from the
/// `Content-Length` and `Accept-Ranges` headers of its answer.
pub fn file_info_from_headers(content_length: Option<&str>, accept_ranges: Option<&[u8]>) -> (info: (
    u64,
    bool,
))
    ensures
        info.0 == announced_size(
            match content_length {
                Some(v) => Some(v@),
                None => None,
            },
        ),
        info.1 == announces_byte_ranges(
            match accept_ranges {
                Some(v) => Some(v@),
                None => None,
            },
        ),
{
    let total_size = match content_length {
        Some(v) => match parse_u64(v) {
            Some(n) => n,
            None => 0,
        },
        None => 0,
    };
    let supports_ranges = match accept_ranges {
        Some(v) => {
            let expected: [u8; 5] = [98u8, 121u8, 116u8, 101u8, 115u8];
            let mut same = v.len() == 5;
            let mut i: usize = 0;
            while same && i < 5
                invariant
                    i <= 5,
                    same ==> v@.len() == 5,
                    same ==> forall|j: int| 0 <= j < i ==> v@[j] == expected@[j],
                    !same ==> v@ != seq![98u8, 121u8, 116u8, 101u8, 115u8],
                    expected@ == seq![98u8, 121u8, 116u8, 101u8, 115u8],
                decreases 5 - i + if same { 1int } else { 0int },
            {
                if v[i] != expected[i] {
                    same = false;
                } else {
                    i = i + 1;
                }
            }
            proof {
                if same {
                    assert(v@ =~= seq![98u8, 121u8, 116u8, 101u8, 115u8]);
                }
            }
            same
        },
        None => false,
    };
    (total_size, supports_ranges)
}

} // verus!
