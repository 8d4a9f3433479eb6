use hyperfetch::models::DownloadConfig;
use hyperfetch::record::ChunkRecord;
use hyperfetch::chunks::{claim_next_chunk, create_chunks, mark_chunk_completed};
use hyperfetch::planner::{
    chunk_range_header, file_info_from_headers, plan_download, resume_range_header, DownloadPlan,
};
use hyperfetch::text::parse_u64;

#[test]
fn plan_splits_when_ranges_supported() {
    let config = DownloadConfig::default();
    assert_eq!(
        plan_download(10_000_000, true, None, None, &config),
        DownloadPlan::Segmented { start_from: 0, total_size: 10_000_000 }
    );
}

#[test]
fn plan_single_stream_without_ranges() {
    let config = DownloadConfig::default();
    assert_eq!(plan_download(10_000_000, false, None, None, &config), DownloadPlan::SingleStream { start_from: 0 });
    // small files go as one stream even with ranges
    assert_eq!(plan_download(1000, true, None, None, &config), DownloadPlan::SingleStream { start_from: 0 });
    // unknown size
    assert_eq!(plan_download(0, true, Some(500), None, &config), DownloadPlan::SingleStream { start_from: 500 });
}

#[test]
fn plan_resumes_from_existing_file() {
    let config = DownloadConfig::default();
    assert_eq!(
        plan_download(10_000_000, true, Some(4096), None, &config),
        DownloadPlan::Segmented { start_from: 4096, total_size: 10_000_000 }
    );
    assert_eq!(plan_download(10_000_000, true, Some(10_000_000), None, &config), DownloadPlan::AlreadyComplete);
    assert_eq!(plan_download(100, false, Some(200), None, &config), DownloadPlan::AlreadyComplete);
}

#[test]
fn plan_ignores_existing_file_without_resume() {
    let mut config = DownloadConfig::default();
    config.resume_support = false;
    assert_eq!(
        plan_download(10_000_000, true, Some(10_000_000), None, &config),
        DownloadPlan::Segmented { start_from: 0, total_size: 10_000_000 }
    );
}

#[test]
fn range_headers() {
    assert_eq!(resume_range_header(0), None);
    assert_eq!(resume_range_header(1234), Some("bytes=1234-".to_string()));
    assert_eq!(chunk_range_header(0, 1048575), "bytes=0-1048575");
    assert_eq!(chunk_range_header(u64::MAX - 1, u64::MAX), "bytes=18446744073709551614-18446744073709551615");
}

#[test]
fn file_info_from_response_headers() {
    assert_eq!(file_info_from_headers(Some("12345"), Some(b"bytes")), (12345, true));
    assert_eq!(file_info_from_headers(Some("12x45"), Some(b"none")), (0, false));
    assert_eq!(file_info_from_headers(None, None), (0, false));
    assert_eq!(file_info_from_headers(Some("+7"), Some(b"Bytes")), (7, false));
    assert_eq!(file_info_from_headers(Some("18446744073709551616"), Some(b"bytes ")), (0, false));
}

#[test]
fn u64_parsing_like_from_str() {
    let cases = ["0", "42", "+42", "-42", "", "+", "18446744073709551615", "18446744073709551616", " 1", "1 ", "007", "99999999999999999999999"];
    for c in cases {
        assert_eq!(parse_u64(c), c.parse::<u64>().ok(), "text {:?}", c);
    }
}

#[test]
fn plan_restarts_without_ranges() {
    let config = DownloadConfig::default();
    // a partial file is not continued when the server takes no ranges
    assert_eq!(plan_download(10_000_000, false, Some(4096), None, &config), DownloadPlan::SingleStream { start_from: 0 });
    assert_eq!(plan_download(0, false, Some(500), None, &config), DownloadPlan::SingleStream { start_from: 0 });
}

fn record(start: u64, total: u64, size: u64, done: Vec<bool>) -> ChunkRecord {
    ChunkRecord { start_from: start, total_size: total, chunk_size: size, done }
}

#[test]
fn plan_takes_up_recorded_download() {
    let config = DownloadConfig::default();
    let r = record(0, 10_000_000, 5_000_000, vec![true, false]);
    assert_eq!(plan_download(10_000_000, true, Some(10_000_000), Some(&r), &config), DownloadPlan::ResumeRecorded);
    // without ranges the record cannot be used: start over
    assert_eq!(
        plan_download(10_000_000, false, Some(10_000_000), Some(&r), &config),
        DownloadPlan::SingleStream { start_from: 0 }
    );
    // a record of another size: start over
    let other = record(0, 9_000_000, 4_500_000, vec![true, false]);
    assert_eq!(
        plan_download(10_000_000, true, Some(10_000_000), Some(&other), &config),
        DownloadPlan::Segmented { start_from: 0, total_size: 10_000_000 }
    );
    // resuming off: start over
    let mut off = DownloadConfig::default();
    off.resume_support = false;
    assert_eq!(
        plan_download(10_000_000, true, Some(10_000_000), Some(&r), &off),
        DownloadPlan::Segmented { start_from: 0, total_size: 10_000_000 }
    );
}

#[test]
fn record_round_trip_restores_written_chunks() {
    let mut chunks = create_chunks(100, 1100, 300);
    let c = claim_next_chunk(&mut chunks, 3).unwrap();
    let d = claim_next_chunk(&mut chunks, 3).unwrap();
    assert!(mark_chunk_completed(&mut chunks, &d));
    let r = ChunkRecord::from_chunks(&chunks, 100, 1100, 300);
    assert_eq!(r.done, vec![false, true, false, false]);
    let bytes = r.encode();
    assert_eq!(bytes.len(), 24 + 4);
    assert_eq!(&bytes[0..8], &100u64.to_le_bytes());
    assert_eq!(&bytes[8..16], &1100u64.to_le_bytes());
    assert_eq!(&bytes[16..24], &300u64.to_le_bytes());
    assert_eq!(&bytes[24..], &[0, 1, 0, 0]);
    let back = ChunkRecord::decode(&bytes).unwrap();
    assert_eq!((back.start_from, back.total_size, back.chunk_size), (100, 1100, 300));
    assert_eq!(back.done, r.done);
    let restored = back.restore_chunks();
    assert_eq!(restored.len(), 4);
    assert!(!restored[c.id].completed);
    assert!(restored[1].completed);
    assert_eq!(restored[1].downloaded, 300);
    assert_eq!((restored[3].start, restored[3].end), (1000, 1099));
    assert!(restored.iter().all(|x| x.retries == 0 && !x.in_flight));
}

#[test]
fn bad_records_are_refused() {
    assert!(ChunkRecord::decode(&[0u8; 10]).is_none());
    let good = record(0, 10, 4, vec![false, false, false]).encode();
    assert!(ChunkRecord::decode(&good).is_some());
    // a flag that is neither 0 nor 1
    let mut bad = good.clone();
    bad[25] = 2;
    assert!(ChunkRecord::decode(&bad).is_none());
    // one flag too few for the plan
    assert!(ChunkRecord::decode(&good[..26]).is_none());
    // chunk size 0
    assert!(ChunkRecord::decode(&record(0, 10, 0, vec![]).encode()).is_none());
    // nothing to download
    assert!(ChunkRecord::decode(&record(10, 10, 4, vec![]).encode()).is_none());
}
