use hyperfetch::chunks::{
    claim_next_chunk, count_completed, count_completed_bytes, create_chunks, mark_chunk_completed,
    note_chunk_completed, release_chunk, retry_may_follow, segmented_outcome, SegmentedOutcome,
};
use hyperfetch::models::{ChunkCompleted, ChunkInfo, DownloadConfig};
use hyperfetch::planner::chunk_write_step;
use hyperfetch::{MAX_CHUNK_SIZE, MIN_CHUNK_SIZE};

fn ranges(chunks: &[ChunkInfo]) -> Vec<(usize, u64, u64)> {
    chunks.iter().map(|c| (c.id, c.start, c.end)).collect()
}

#[test]
fn chunks_cover_range() {
    let chunks = create_chunks(0, 10, 4);
    assert_eq!(ranges(&chunks), vec![(0, 0, 3), (1, 4, 7), (2, 8, 9)]);
    for c in &chunks {
        assert_eq!(c.downloaded, 0);
        assert!(!c.completed);
        assert_eq!(c.retries, 0);
        assert!(!c.in_flight);
    }
}

#[test]
fn chunks_from_resume_offset() {
    let chunks = create_chunks(5, 13, 4);
    assert_eq!(ranges(&chunks), vec![(0, 5, 8), (1, 9, 12)]);
}

#[test]
fn chunks_empty_when_nothing_left() {
    assert!(create_chunks(10, 10, 4).is_empty());
    assert!(create_chunks(11, 10, 4).is_empty());
}

#[test]
fn chunks_one_when_size_large() {
    let chunks = create_chunks(0, 3, 100);
    assert_eq!(ranges(&chunks), vec![(0, 0, 2)]);
}

#[test]
fn chunks_at_end_of_u64() {
    let chunks = create_chunks(u64::MAX - 5, u64::MAX, 4);
    assert_eq!(ranges(&chunks), vec![(0, u64::MAX - 5, u64::MAX - 2), (1, u64::MAX - 1, u64::MAX - 1)]);
}

#[test]
fn chunks_tile_many() {
    let total = 10_000_019u64;
    let size = 65536u64;
    let chunks = create_chunks(123, total, size);
    assert_eq!(chunks.len() as u64, (total - 123 + size - 1) / size);
    let mut next = 123;
    for (i, c) in chunks.iter().enumerate() {
        assert_eq!(c.id, i);
        assert_eq!(c.start, next);
        assert!(c.end - c.start + 1 <= size);
        next = c.end + 1;
    }
    assert_eq!(next, total);
}

#[test]
fn adaptive_chunk_size_clamps() {
    let config = DownloadConfig::default();
    // 16 connections: a sixty-fourth of what is left
    assert_eq!(config.calculate_adaptive_chunk_size(64 * 1_000_000), 1_000_000);
    assert_eq!(config.calculate_adaptive_chunk_size(1000), MIN_CHUNK_SIZE);
    assert_eq!(config.calculate_adaptive_chunk_size(u64::MAX), MAX_CHUNK_SIZE);
    assert_eq!(config.segment_chunk_size(64 * 1_000_000), 1_000_000);
    let mut fixed = DownloadConfig::default();
    fixed.adaptive_chunking = false;
    fixed.chunk_size = 12345;
    assert_eq!(fixed.segment_chunk_size(64 * 1_000_000), 12345);
}

#[test]
fn claim_takes_first_open_chunk() {
    let mut chunks = create_chunks(0, 12, 4);
    let c = claim_next_chunk(&mut chunks, 2).unwrap();
    assert_eq!((c.id, c.retries, c.in_flight), (0, 1, true));
    assert_eq!(chunks[0].retries, 1);
    // chunk 0 is held: the next worker gets chunk 1
    let c = claim_next_chunk(&mut chunks, 2).unwrap();
    assert_eq!((c.id, c.retries), (1, 1));
}

#[test]
fn held_chunk_is_not_claimed_twice() {
    let mut chunks = create_chunks(0, 8, 4);
    let a = claim_next_chunk(&mut chunks, 3).unwrap();
    let b = claim_next_chunk(&mut chunks, 3).unwrap();
    assert_ne!(a.id, b.id);
    // both chunks held, none free: wait for a possible retry
    assert!(claim_next_chunk(&mut chunks, 3).is_none());
    assert!(retry_may_follow(&chunks, 3));
}

#[test]
fn failed_chunk_is_claimed_again_after_release() {
    let mut chunks = create_chunks(0, 4, 4);
    let c = claim_next_chunk(&mut chunks, 1).unwrap();
    assert!(claim_next_chunk(&mut chunks, 1).is_none());
    release_chunk(&mut chunks, &c);
    assert!(!chunks[0].in_flight);
    let c = claim_next_chunk(&mut chunks, 1).unwrap();
    assert_eq!((c.id, c.retries), (0, 2));
    // one retry allowed: after a second failure nothing is left
    release_chunk(&mut chunks, &c);
    assert!(claim_next_chunk(&mut chunks, 1).is_none());
    assert!(!retry_may_follow(&chunks, 1));
}

#[test]
fn zero_retries_still_tries_each_chunk_once() {
    let mut chunks = create_chunks(0, 8, 4);
    let a = claim_next_chunk(&mut chunks, 0).unwrap();
    let b = claim_next_chunk(&mut chunks, 0).unwrap();
    assert_eq!((a.id, b.id), (0, 1));
    release_chunk(&mut chunks, &a);
    assert!(claim_next_chunk(&mut chunks, 0).is_none());
}

#[test]
fn completed_chunks_are_not_claimed() {
    let mut chunks = create_chunks(0, 8, 4);
    let c = claim_next_chunk(&mut chunks, 3).unwrap();
    assert!(mark_chunk_completed(&mut chunks, &c));
    assert!(chunks[0].completed);
    assert!(!chunks[0].in_flight);
    assert_eq!(chunks[0].downloaded, 4);
    let c = claim_next_chunk(&mut chunks, 3).unwrap();
    assert_eq!(c.id, 1);
    assert!(mark_chunk_completed(&mut chunks, &c));
    assert!(claim_next_chunk(&mut chunks, 3).is_none());
    assert!(!retry_may_follow(&chunks, 3));
    assert_eq!(count_completed(&chunks), 2);
    assert_eq!(count_completed_bytes(&chunks), 8);
}

#[test]
fn second_completion_of_a_chunk_is_not_counted() {
    let mut chunks = create_chunks(0, 8, 4);
    let c = claim_next_chunk(&mut chunks, 3).unwrap();
    assert!(mark_chunk_completed(&mut chunks, &c));
    assert!(!mark_chunk_completed(&mut chunks, &c));
    assert_eq!(count_completed(&chunks), 1);
}

#[test]
fn claims_are_bounded_by_attempts() {
    let mut chunks = create_chunks(0, 100, 10);
    let mut claims = 0;
    while let Some(c) = claim_next_chunk(&mut chunks, 3) {
        claims += 1;
        release_chunk(&mut chunks, &c);
    }
    // the first attempt and three retries for each of ten chunks
    assert_eq!(claims, 40);
    assert!(chunks.iter().all(|c| c.retries == 4 && !c.completed && !c.in_flight));
}

#[test]
fn completing_unknown_chunk_changes_nothing() {
    let mut chunks = create_chunks(0, 8, 4);
    let stranger =
        ChunkInfo { id: 99, start: 0, end: 3, downloaded: 0, completed: false, retries: 0, in_flight: false };
    assert!(!mark_chunk_completed(&mut chunks, &stranger));
    assert!(chunks.iter().all(|c| !c.completed));
    release_chunk(&mut chunks, &stranger);
    assert_eq!(count_completed(&chunks), 0);
}

#[test]
fn completion_count() {
    assert_eq!(note_chunk_completed(0, 3), (1, false));
    assert_eq!(note_chunk_completed(2, 3), (3, true));
    let msg = ChunkCompleted(4);
    assert_eq!(msg.0, 4);
}

#[test]
fn write_step_stops_at_chunk_end() {
    assert_eq!(chunk_write_step(10, 0, 4), (4, false));
    assert_eq!(chunk_write_step(10, 8, 4), (2, true));
    assert_eq!(chunk_write_step(10, 6, 4), (4, true));
    assert_eq!(chunk_write_step(10, 10, 4), (0, true));
}

#[test]
fn segmented_download_outcome() {
    assert_eq!(segmented_outcome(4, 4, false), SegmentedOutcome::Done);
    assert_eq!(segmented_outcome(4, 4, true), SegmentedOutcome::Done);
    assert_eq!(segmented_outcome(1, 4, true), SegmentedOutcome::Stopped);
    assert_eq!(segmented_outcome(1, 4, false), SegmentedOutcome::Failed(3));
}
