//! Splitting a download into byte ranges and handing those ranges out to
//! workers, with a bounded number of attempts per range.

use vstd::prelude::*;
use crate::models::{ChunkInfo, DownloadConfig};
use crate::{MIN_CHUNK_SIZE, MAX_CHUNK_SIZE};

verus! {

/// How many chunks of `size` bytes cover the bytes `[start, total)`.
pub open spec fn chunk_count(start: nat, total: nat, size: nat) -> nat {
    if start < total {
        ((total - start) + size - 1) as nat / size
    } else {
        0
    }
}

/// The first byte of chunk `i`.
pub open spec fn chunk_start(start: nat, size: nat, i: nat) -> nat {
    start + i * size
}

/// The last byte of chunk `i`: `size` bytes after its first one, or the
/// last byte of the download if that comes sooner.
pub open spec fn chunk_end(start: nat, total: nat, size: nat, i: nat) -> nat {
    let next = start + (i + 1) * size;
    if next < total {
        (next - 1) as nat
    } else {
        (total - 1) as nat
    }
}

/// Chunk `i` of the plan, as `create_chunks` lays it out: nothing of it
/// downloaded yet, not completed, never attempted, held by no worker.
pub open spec fn is_planned_chunk(c: ChunkInfo, start: nat, total: nat, size: nat, i: nat) -> bool {
    &&& c.id == i
    &&& c.start == chunk_start(start, size, i)
    &&& c.end == chunk_end(start, total, size, i)
    &&& c.downloaded == 0
    &&& !c.completed
    &&& c.retries == 0
    &&& !c.in_flight
}

proof fn lemma_ceil_div(d: int, size: int, n: int)
    requires
        size > 0,
        d > 0,
        n >= 0,
    ensures
        n * size < d ==> n < (d + size - 1) / size,
        (n - 1) * size < d <= n * size ==> (d + size - 1) / size == n,
{
    if n * size < d {
        assert(n < (d + size - 1) / size) by (nonlinear_arith)
            requires size > 0, n * size < d, n >= 0;
    }
    if (n - 1) * size < d <= n * size {
        assert((d + size - 1) / size == n) by (nonlinear_arith)
            requires size > 0, (n - 1) * size < d, d <= n * size;
    }
}

/// Splits the bytes `[start, total_size)` into consecutive chunks of
/// `chunk_size` bytes, the last one possibly shorter, numbered from zero.
pub fn create_chunks(start: u64, total_size: u64, chunk_size: u64) -> (chunks: Vec<ChunkInfo>)
    requires
        chunk_size > 0,
        chunk_count(start as nat, total_size as nat, chunk_size as nat) <= usize::MAX,
    ensures
        chunks.len() == chunk_count(start as nat, total_size as nat, chunk_size as nat),
        forall|i: int|
            0 <= i < chunks.len() ==> #[trigger] is_planned_chunk(
                chunks[i],
                start as nat,
                total_size as nat,
                chunk_size as nat,
                i as nat,
            ),
{
    let mut chunks: Vec<ChunkInfo> = Vec::new();
    let mut current_start = start;
    let mut chunk_id: usize = 0;
    let ghost s = start as nat;
    let ghost t = total_size as nat;
    let ghost z = chunk_size as nat;
    while current_start < total_size
        invariant
            chunk_size > 0,
            s == start,
            t == total_size,
            z == chunk_size,
            chunk_count(s, t, z) <= usize::MAX,
            chunks.len() == chunk_id,
            chunk_id == 0 ==> current_start == start,
            chunk_id > 0 ==> start < total_size && (current_start == if s + chunk_id * z < t {
                s + chunk_id * z
            } else {
                t as int
            }),
            chunk_id > 0 ==> s + (chunk_id - 1) * z < t,
            forall|i: int|
                0 <= i < chunks.len() ==> #[trigger] is_planned_chunk(chunks[i], s, t, z, i as nat),
        decreases total_size - current_start,
    {
        proof {
            assert(current_start == s + chunk_id * z) by {
                if chunk_id > 0 {
                } else {
                    assert(chunk_id * z == 0);
                }
            }
            lemma_ceil_div(t - s, z as int, chunk_id as int);
            assert(chunk_id * z < t - s);
        }
        let chunk_end = if chunk_size - 1 >= total_size - 1 - current_start {
            total_size - 1
        } else {
            current_start + chunk_size - 1
        };
        proof {
            assert(s + (chunk_id + 1) * z == current_start + z) by (nonlinear_arith)
                requires current_start == s + chunk_id * z;
        }
        let chunk = ChunkInfo {
            id: chunk_id,
            start: current_start,
            end: chunk_end,
            downloaded: 0,
            completed: false,
            retries: 0,
            in_flight: false,
        };
        chunks.push(chunk);
        assert(is_planned_chunk(chunks[chunk_id as int], s, t, z, chunk_id as nat));
        current_start = chunk_end + 1;
        chunk_id = chunk_id + 1;
    }
    proof {
        if chunk_id > 0 {
            lemma_ceil_div(t - s, z as int, chunk_id as int);
            assert(s + chunk_id * z >= t);
        }
    }
    chunks
}

/// The chunks of a plan tile the range `[start, total)`: the first begins
/// at `start`, each begins right after the one before it ends, the last
/// ends at the last byte, and every chunk holds between one and `size`
/// bytes, exactly `size` for all but the last.
pub proof fn lemma_chunks_tile_range(start: nat, total: nat, size: nat)
    requires
        size > 0,
        start < total,
    ensures
        chunk_count(start, total, size) >= 1,
        chunk_start(start, size, 0) == start,
        chunk_end(start, total, size, (chunk_count(start, total, size) - 1) as nat) == total - 1,
        forall|i: nat|
            i < chunk_count(start, total, size) ==> chunk_start(start, size, i) <= #[trigger] chunk_end(
                start,
                total,
                size,
                i,
            ) < total && chunk_end(start, total, size, i) - chunk_start(start, size, i) + 1 <= size,
        forall|i: nat|
            i + 1 < chunk_count(start, total, size) ==> #[trigger] chunk_end(start, total, size, i) + 1
                == chunk_start(start, size, i + 1) && chunk_end(start, total, size, i) - chunk_start(
                start,
                size,
                i,
            ) + 1 == size,
{
    let n = chunk_count(start, total, size);
    let d = total - start;
    assert(n >= 1) by (nonlinear_arith)
        requires d > 0, size > 0, n == (d + size - 1) / (size as int);
    assert((n - 1) * size < d <= n * size) by (nonlinear_arith)
        requires d > 0, size > 0, n == (d + size - 1) / (size as int), n >= 1;
    assert(chunk_start(start, size, 0) == start);
    assert forall|i: nat| i < n implies chunk_start(start, size, i) <= #[trigger] chunk_end(
        start,
        total,
        size,
        i,
    ) < total && chunk_end(start, total, size, i) - chunk_start(start, size, i) + 1 <= size by {
        assert(i * size <= (n - 1) * size) by (nonlinear_arith)
            requires i < n, size > 0;
        assert((i + 1) * size == i * size + size) by (nonlinear_arith);
    }
    assert forall|i: nat| i + 1 < n implies #[trigger] chunk_end(start, total, size, i) + 1
        == chunk_start(start, size, i + 1) && chunk_end(start, total, size, i) - chunk_start(
        start,
        size,
        i,
    ) + 1 == size by {
        assert((i + 1) * size <= (n - 1) * size) by (nonlinear_arith)
            requires i + 1 < n, size > 0;
        assert((i + 1) * size == i * size + size) by (nonlinear_arith);
    }
    assert(((n - 1) + 1) * size == n * size);
}

/// `v` clamped to `[lo, hi]` (`max(lo, min(hi, v))`).
pub open spec fn clamp(v: nat, lo: nat, hi: nat) -> nat {
    let m = if hi < v { hi } else { v };
    if lo > m { lo } else { m }
}

/// Clamping keeps a value that is already in range, and otherwise gives
/// the bound it crossed: the result is always in range, equals `lo` exactly
/// when `v` is at most `lo`, and `hi` exactly when `v` is at least `hi`
/// (when the two bounds are one, that bound).
pub proof fn lemma_clamp(v: nat, lo: nat, hi: nat)
    requires
        lo <= hi,
    ensures
        lo <= clamp(v, lo, hi) <= hi,
        lo <= v <= hi ==> clamp(v, lo, hi) == v,
        clamp(v, lo, hi) == lo <==> v <= lo || lo == hi,
        clamp(v, lo, hi) == hi <==> v >= hi || lo == hi,
{
}

/// The adaptive chunk size is a quarter of an equal share of what is left
/// per connection whenever that lies between the two bounds, and the bound
/// otherwise.
pub proof fn lemma_adaptive_share(remaining: nat, connections: nat)
    requires
        connections > 0,
    ensures
        MIN_CHUNK_SIZE <= remaining / (connections * 4) <= MAX_CHUNK_SIZE ==> clamp(
            remaining / (connections * 4),
            MIN_CHUNK_SIZE as nat,
            MAX_CHUNK_SIZE as nat,
        ) == remaining / (connections * 4),
        remaining / (connections * 4) < MIN_CHUNK_SIZE ==> clamp(
            remaining / (connections * 4),
            MIN_CHUNK_SIZE as nat,
            MAX_CHUNK_SIZE as nat,
        ) == MIN_CHUNK_SIZE,
        remaining / (connections * 4) > MAX_CHUNK_SIZE ==> clamp(
            remaining / (connections * 4),
            MIN_CHUNK_SIZE as nat,
            MAX_CHUNK_SIZE as nat,
        ) == MAX_CHUNK_SIZE,
{
    lemma_clamp(remaining / (connections * 4), MIN_CHUNK_SIZE as nat, MAX_CHUNK_SIZE as nat);
}

impl DownloadConfig {
    /// The chunk size for `remaining_bytes`: a quarter of an equal share per
    /// connection, kept between `MIN_CHUNK_SIZE` and `MAX_CHUNK_SIZE`.
    pub fn calculate_adaptive_chunk_size(&self, remaining_bytes: u64) -> (size: u64)
        requires
            self.max_connections > 0,
            self.max_connections * 4 <= u64::MAX,
        ensures
            size == clamp(
                remaining_bytes as nat / (self.max_connections as nat * 4),
                MIN_CHUNK_SIZE as nat,
                MAX_CHUNK_SIZE as nat,
            ),
            MIN_CHUNK_SIZE <= size <= MAX_CHUNK_SIZE,
    {
        let base_chunk_size = remaining_bytes / (self.max_connections as u64 * 4);
        let capped = if MAX_CHUNK_SIZE < base_chunk_size {
            MAX_CHUNK_SIZE
        } else {
            base_chunk_size
        };
        if MIN_CHUNK_SIZE > capped {
            MIN_CHUNK_SIZE
        } else {
            capped
        }
    }

    /// The chunk size a segmented download of `remaining_bytes` uses: the
    /// adaptive one when adaptive chunking is on, the configured one if not.
    pub fn segment_chunk_size(&self, remaining_bytes: u64) -> (size: u64)
        requires
            self.adaptive_chunking ==> self.max_connections > 0 && self.max_connections * 4
                <= u64::MAX,
        ensures
            size == if self.adaptive_chunking {
                clamp(
                    remaining_bytes as nat / (self.max_connections as nat * 4),
                    MIN_CHUNK_SIZE as nat,
                    MAX_CHUNK_SIZE as nat,
                )
            } else {
                self.chunk_size as nat
            },
    {
        if self.adaptive_chunking {
            self.calculate_adaptive_chunk_size(remaining_bytes)
        } else {
            self.chunk_size
        }
    }
}

/// A chunk a worker may take: not completed, held by no worker, and with
/// fewer than `1 + retry_attempts` attempts made (the first attempt and up
/// to `retry_attempts` retries).
pub open spec fn claimable(c: ChunkInfo, retry_attempts: nat) -> bool {
    !c.completed && !c.in_flight && c.retries <= retry_attempts
}

/// The attempts still open to one chunk: none once it is completed,
/// `1 + retry_attempts` less those made otherwise.
pub open spec fn chunk_attempts_left(c: ChunkInfo, retry_attempts: nat) -> nat {
    if !c.completed && c.retries <= retry_attempts {
        (retry_attempts + 1 - c.retries) as nat
    } else {
        0
    }
}

/// The attempts still open to a set of chunks.
pub open spec fn attempts_left(s: Seq<ChunkInfo>, retry_attempts: nat) -> nat
    decreases s.len(),
{
    if s.len() == 0 {
        0
    } else {
        attempts_left(s.drop_last(), retry_attempts) + chunk_attempts_left(s.last(), retry_attempts)
    }
}

/// How many of the chunks are completed.
pub open spec fn completed_count(s: Seq<ChunkInfo>) -> nat
    decreases s.len(),
{
    if s.len() == 0 {
        0
    } else {
        completed_count(s.drop_last()) + if s.last().completed {
            1nat
        } else {
            0nat
        }
    }
}

/// `c` taken by a worker: one more attempt counted, and held.
pub open spec fn with_attempt(c: ChunkInfo) -> ChunkInfo {
    ChunkInfo { retries: (c.retries + 1) as usize, in_flight: true, ..c }
}

/// `c` given back after a failed attempt: held by no worker.
pub open spec fn released(c: ChunkInfo) -> ChunkInfo {
    ChunkInfo { in_flight: false, ..c }
}

/// `c` marked completed with `len` bytes downloaded, held by no worker.
pub open spec fn as_completed(c: ChunkInfo, len: u64) -> ChunkInfo {
    ChunkInfo { completed: true, downloaded: len, in_flight: false, ..c }
}

/// The index of the first chunk with id `id`, if there is one.
pub open spec fn first_with_id(s: Seq<ChunkInfo>, id: usize, i: int) -> bool {
    &&& 0 <= i < s.len()
    &&& s[i].id == id
    &&& forall|j: int| 0 <= j < i ==> #[trigger] s[j].id != id
}

/// Changing the chunk at `i` changes the open attempts only by the
/// difference of its own.
pub proof fn lemma_attempts_left_update(s: Seq<ChunkInfo>, i: int, c: ChunkInfo, limit: nat)
    requires
        0 <= i < s.len(),
    ensures
        attempts_left(s.update(i, c), limit) + chunk_attempts_left(s[i], limit) == attempts_left(s, limit)
            + chunk_attempts_left(c, limit),
    decreases s.len(),
{
    let t = s.update(i, c);
    if i == s.len() - 1 {
        assert(t.drop_last() == s.drop_last());
    } else {
        assert(t.drop_last() == s.drop_last().update(i, c));
        lemma_attempts_left_update(s.drop_last(), i, c, limit);
    }
}

/// Changing the chunk at `i` changes the completed count only by the
/// difference of its own.
pub proof fn lemma_completed_count_update(s: Seq<ChunkInfo>, i: int, c: ChunkInfo)
    requires
        0 <= i < s.len(),
    ensures
        completed_count(s.update(i, c)) + (if s[i].completed { 1nat } else { 0nat }) == completed_count(s)
            + (if c.completed { 1nat } else { 0nat }),
    decreases s.len(),
{
    let t = s.update(i, c);
    if i == s.len() - 1 {
        assert(t.drop_last() == s.drop_last());
    } else {
        assert(t.drop_last() == s.drop_last().update(i, c));
        lemma_completed_count_update(s.drop_last(), i, c);
    }
}

/// At most every chunk is completed, and when the completed count reaches
/// the number of chunks, every chunk is completed: counting completions
/// of distinct chunks tells when a download is done.
pub proof fn lemma_completed_count_full(s: Seq<ChunkInfo>)
    ensures
        completed_count(s) <= s.len(),
        completed_count(s) == s.len() <==> forall|i: int| 0 <= i < s.len() ==> (#[trigger] s[i]).completed,
    decreases s.len(),
{
    if s.len() > 0 {
        let t = s.drop_last();
        lemma_completed_count_full(t);
        if completed_count(s) == s.len() {
            assert forall|i: int| 0 <= i < s.len() implies (#[trigger] s[i]).completed by {
                if i < t.len() {
                    assert(t[i] == s[i]);
                }
            }
        }
        if forall|i: int| 0 <= i < s.len() ==> (#[trigger] s[i]).completed {
            assert forall|i: int| 0 <= i < t.len() implies (#[trigger] t[i]).completed by {
                assert(t[i] == s[i]);
            }
            assert(s[s.len() - 1].completed);
        }
    }
}

/// Takes the first claimable chunk, counts one more attempt on it, marks
/// it held, and returns a copy of it.
pub fn claim_next_chunk(chunks: &mut Vec<ChunkInfo>, retry_attempts: usize) -> (claimed: Option<
    ChunkInfo,
>)
    requires
        retry_attempts < usize::MAX,
    ensures
        claimed is None ==> final(chunks)@ == old(chunks)@ && forall|i: int|
            0 <= i < old(chunks)@.len() ==> !claimable(
                #[trigger] old(chunks)@[i],
                retry_attempts as nat,
            ),
        claimed is Some ==> exists|i: int|
            0 <= i < old(chunks)@.len() && claimable(old(chunks)@[i], retry_attempts as nat)
                && (forall|j: int|
                0 <= j < i ==> !claimable(#[trigger] old(chunks)@[j], retry_attempts as nat))
                && final(chunks)@ == old(chunks)@.update(i, with_attempt(old(chunks)@[i]))
                && claimed == Some(final(chunks)@[i]),
        claimed is Some ==> attempts_left(final(chunks)@, retry_attempts as nat) + 1
            == attempts_left(old(chunks)@, retry_attempts as nat),
        completed_count(final(chunks)@) == completed_count(old(chunks)@),
        forall|i: int|
            0 <= i < old(chunks)@.len() && old(chunks)@[i].retries <= retry_attempts + 1
                ==> #[trigger] final(chunks)@[i].retries <= retry_attempts + 1,
        final(chunks)@.len() == old(chunks)@.len(),
{
    let n = chunks.len();
    let mut i: usize = 0;
    while i < n
        invariant
            n == chunks@.len(),
            chunks@ == old(chunks)@,
            i <= n,
            retry_attempts < usize::MAX,
            forall|j: int| 0 <= j < i ==> !claimable(#[trigger] chunks@[j], retry_attempts as nat),
        decreases n - i,
    {
        if !chunks[i].completed && !chunks[i].in_flight && chunks[i].retries <= retry_attempts {
            let mut c = chunks[i];
            c.retries = c.retries + 1;
            c.in_flight = true;
            chunks.set(i, c);
            proof {
                lemma_attempts_left_update(old(chunks)@, i as int, c, retry_attempts as nat);
                lemma_completed_count_update(old(chunks)@, i as int, c);
            }
            return Some(c);
        }
        i = i + 1;
    }
    None
}

/// Whether a worker that found nothing to claim should wait rather than
/// stop: some chunk is held by a worker and, were that attempt to fail,
/// could be tried again.
pub fn retry_may_follow(chunks: &Vec<ChunkInfo>, retry_attempts: usize) -> (wait: bool)
    ensures
        wait == exists|i: int|
            0 <= i < chunks@.len() && !(#[trigger] chunks@[i]).completed && chunks@[i].in_flight
                && chunks@[i].retries <= retry_attempts + 1,
{
    let n = chunks.len();
    let mut i: usize = 0;
    while i < n
        invariant
            n == chunks@.len(),
            i <= n,
            forall|j: int|
                0 <= j < i ==> !(!(#[trigger] chunks@[j]).completed && chunks@[j].in_flight
                    && chunks@[j].retries <= retry_attempts + 1),
        decreases n - i,
    {
        let c = chunks[i];
        if !c.completed && c.in_flight && (c.retries as u128) <= (retry_attempts as u128) + 1 {
            return true;
        }
        i = i + 1;
    }
    false
}

/// Gives back the first chunk with the id of `chunk` after a failed
/// attempt, so that it can be claimed again; nothing changes if no chunk
/// has that id.
pub fn release_chunk(chunks: &mut Vec<ChunkInfo>, chunk: &ChunkInfo)
    ensures
        (forall|i: int| 0 <= i < old(chunks)@.len() ==> #[trigger] old(chunks)@[i].id != chunk.id)
            ==> final(chunks)@ == old(chunks)@,
        forall|i: int|
            first_with_id(old(chunks)@, chunk.id, i) ==> final(chunks)@ == old(chunks)@.update(
                i,
                released(old(chunks)@[i]),
            ),
        forall|limit: nat| #[trigger]
            attempts_left(final(chunks)@, limit) == attempts_left(old(chunks)@, limit),
        completed_count(final(chunks)@) == completed_count(old(chunks)@),
{
    let n = chunks.len();
    let mut i: usize = 0;
    while i < n
        invariant
            n == chunks@.len(),
            chunks@ == old(chunks)@,
            i <= n,
            forall|j: int| 0 <= j < i ==> #[trigger] chunks@[j].id != chunk.id,
        decreases n - i,
    {
        if chunks[i].id == chunk.id {
            let mut c = chunks[i];
            c.in_flight = false;
            chunks.set(i, c);
            proof {
                assert forall|limit: nat| #[trigger]
                    attempts_left(chunks@, limit) == attempts_left(old(chunks)@, limit) by {
                    lemma_attempts_left_update(old(chunks)@, i as int, c, limit);
                }
                lemma_completed_count_update(old(chunks)@, i as int, c);
                assert forall|k: int| first_with_id(old(chunks)@, chunk.id, k) implies chunks@
                    == old(chunks)@.update(k, released(old(chunks)@[k])) by {
                    if k < i {
                    } else if k > i {
                        assert(old(chunks)@[i as int].id == chunk.id);
                    }
                }
            }
            return;
        }
        i = i + 1;
    }
}

/// Marks the first chunk with the id of `chunk` as completed, with all of
/// its bytes downloaded, and no longer held; nothing changes if no chunk
/// has that id. Returns whether a chunk that was not completed became so:
/// exactly then the completed count goes up by one.
pub fn mark_chunk_completed(chunks: &mut Vec<ChunkInfo>, chunk: &ChunkInfo) -> (newly: bool)
    requires
        chunk.start <= chunk.end,
        chunk.end - chunk.start < u64::MAX,
    ensures
        (forall|i: int| 0 <= i < old(chunks)@.len() ==> #[trigger] old(chunks)@[i].id != chunk.id)
            ==> final(chunks)@ == old(chunks)@ && !newly,
        forall|i: int|
            first_with_id(old(chunks)@, chunk.id, i) ==> final(chunks)@ == old(chunks)@.update(
                i,
                as_completed(old(chunks)@[i], (chunk.end - chunk.start + 1) as u64),
            ) && newly == !old(chunks)@[i].completed,
        completed_count(final(chunks)@) == completed_count(old(chunks)@) + if newly {
            1nat
        } else {
            0nat
        },
        forall|limit: nat| #[trigger]
            attempts_left(final(chunks)@, limit) <= attempts_left(old(chunks)@, limit),
        final(chunks)@.len() == old(chunks)@.len(),
{
    let n = chunks.len();
    let mut i: usize = 0;
    while i < n
        invariant
            n == chunks@.len(),
            chunks@ == old(chunks)@,
            i <= n,
            forall|j: int| 0 <= j < i ==> #[trigger] chunks@[j].id != chunk.id,
            chunk.start <= chunk.end,
            chunk.end - chunk.start < u64::MAX,
        decreases n - i,
    {
        if chunks[i].id == chunk.id {
            let mut c = chunks[i];
            let newly = !c.completed;
            c.completed = true;
            c.in_flight = false;
            c.downloaded = chunk.end - chunk.start + 1;
            chunks.set(i, c);
            proof {
                assert forall|limit: nat| #[trigger]
                    attempts_left(chunks@, limit) <= attempts_left(old(chunks)@, limit) by {
                    lemma_attempts_left_update(old(chunks)@, i as int, c, limit);
                }
                lemma_completed_count_update(old(chunks)@, i as int, c);
                assert forall|k: int| first_with_id(old(chunks)@, chunk.id, k) implies chunks@
                    == old(chunks)@.update(
                    k,
                    as_completed(old(chunks)@[k], (chunk.end - chunk.start + 1) as u64),
                ) && newly == !old(chunks)@[k].completed by {
                    if k < i {
                    } else if k > i {
                        assert(old(chunks)@[i as int].id == chunk.id);
                    }
                }
            }
            return newly;
        }
        i = i + 1;
    }
    false
}

/// How many of the chunks are completed.
pub fn count_completed(chunks: &Vec<ChunkInfo>) -> (n: usize)
    ensures
        n == completed_count(chunks@),
{
    let len = chunks.len();
    let mut i: usize = 0;
    let mut n: usize = 0;
    while i < len
        invariant
            len == chunks@.len(),
            i <= len,
            n == completed_count(chunks@.subrange(0, i as int)),
            n <= i,
        decreases len - i,
    {
        proof {
            let t = chunks@.subrange(0, i as int + 1);
            assert(t.drop_last() =~= chunks@.subrange(0, i as int));
        }
        if chunks[i].completed {
            n = n + 1;
        }
        i = i + 1;
    }
    proof {
        assert(chunks@.subrange(0, len as int) =~= chunks@);
    }
    n
}

/// The bytes of the completed chunks.
pub open spec fn completed_bytes(s: Seq<ChunkInfo>) -> nat
    decreases s.len(),
{
    if s.len() == 0 {
        0
    } else {
        completed_bytes(s.drop_last()) + if s.last().completed {
            s.last().downloaded as nat
        } else {
            0nat
        }
    }
}

/// The bytes of the completed chunks, capped at `u64::MAX`.
pub fn count_completed_bytes(chunks: &Vec<ChunkInfo>) -> (n: u64)
    ensures
        n == if completed_bytes(chunks@) <= u64::MAX { completed_bytes(chunks@) } else { u64::MAX as nat },
{
    let len = chunks.len();
    let mut i: usize = 0;
    let mut n: u64 = 0;
    while i < len
        invariant
            len == chunks@.len(),
            i <= len,
            n == if completed_bytes(chunks@.subrange(0, i as int)) <= u64::MAX {
                completed_bytes(chunks@.subrange(0, i as int))
            } else {
                u64::MAX as nat
            },
        decreases len - i,
    {
        proof {
            let t = chunks@.subrange(0, i as int + 1);
            assert(t.drop_last() =~= chunks@.subrange(0, i as int));
        }
        if chunks[i].completed {
            n = n.saturating_add(chunks[i].downloaded);
        }
        i = i + 1;
    }
    proof {
        assert(chunks@.subrange(0, len as int) =~= chunks@);
    }
    n
}

/// A fresh plan has `1 + retry_attempts` attempts open for each chunk, so
/// a download of `n` chunks makes at most `n * (1 + retry_attempts)`
/// claims, and every chunk can be claimed at least once.
pub proof fn lemma_fresh_plan_attempts(s: Seq<ChunkInfo>, retry_attempts: nat)
    requires
        forall|i: int| 0 <= i < s.len() ==> !(#[trigger] s[i]).completed && s[i].retries == 0 && !s[i].in_flight,
    ensures
        attempts_left(s, retry_attempts) == s.len() * (retry_attempts + 1),
        forall|i: int| 0 <= i < s.len() ==> claimable(#[trigger] s[i], retry_attempts),
    decreases s.len(),
{
    if s.len() > 0 {
        let t = s.drop_last();
        assert forall|i: int| 0 <= i < t.len() implies !(#[trigger] t[i]).completed && t[i].retries
            == 0 && !t[i].in_flight by {
            assert(t[i] == s[i]);
        }
        lemma_fresh_plan_attempts(t, retry_attempts);
        assert(s.last() == s[s.len() - 1]);
        assert((t.len() + 1) * (retry_attempts + 1) == t.len() * (retry_attempts + 1) + (retry_attempts + 1))
            by (nonlinear_arith);
    }
}

/// Counts one more completed chunk out of `total`, and says whether that
/// was the last one.
pub fn note_chunk_completed(completed: usize, total: usize) -> (r: (usize, bool))
    requires
        completed < usize::MAX,
    ensures
        r.0 == completed + 1,
        r.1 == (completed + 1 >= total),
{
    let c = completed + 1;
    (c, c >= total)
}

/// How a segmented download ended.
#[derive(Debug, PartialEq, Eq, Structural)]
pub enum SegmentedOutcome {
    /// Every chunk is written.
    Done,
    /// The download was stopped before every chunk was written.
    Stopped,
    /// This many chunks ran out of attempts.
    Failed(usize),
}

/// How a segmented download of `total` chunks with `completed` of them
/// written ended: done when all are written, stopped when it was stopped
/// before that, failed with the number missing otherwise.
pub fn segmented_outcome(completed: usize, total: usize, stopped: bool) -> (o: SegmentedOutcome)
    ensures
        o == if completed >= total {
            SegmentedOutcome::Done
        } else if stopped {
            SegmentedOutcome::Stopped
        } else {
            SegmentedOutcome::Failed((total - completed) as usize)
        },
{
    if completed >= total {
        SegmentedOutcome::Done
    } else if stopped {
        SegmentedOutcome::Stopped
    } else {
        SegmentedOutcome::Failed(total - completed)
    }
}

} // verus!
