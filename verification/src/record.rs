//! The record kept beside a segmented download: where its chunks start,
//! how large they are and which of them are written, as bytes, so that an
//! interrupted download can take up the chunks that are missing.

use vstd::prelude::*;
use crate::chunks::{chunk_count, chunk_start, chunk_end, create_chunks, is_planned_chunk};
use crate::models::ChunkInfo;

verus! {

/// `256^n`.
pub open spec fn pow256(n: nat) -> nat
    decreases n,
{
    if n == 0 {
        1
    } else {
        256 * pow256((n - 1) as nat)
    }
}

/// The `n` low bytes of `x`, least significant first.
pub open spec fn le_bytes(x: nat, n: nat) -> Seq<u8>
    decreases n,
{
    if n == 0 {
        Seq::empty()
    } else {
        seq![(x % 256) as u8] + le_bytes(x / 256, (n - 1) as nat)
    }
}

/// The number that the bytes `s` stand for, least significant first.
pub open spec fn le_value(s: Seq<u8>) -> nat
    decreases s.len(),
{
    if s.len() == 0 {
        0
    } else {
        s[0] as nat + 256 * le_value(s.drop_first())
    }
}

/// One byte per chunk: 1 when it is written, 0 when not.
pub open spec fn flag_bytes(done: Seq<bool>) -> Seq<u8> {
    done.map_values(|b: bool| if b { 1u8 } else { 0u8 })
}

/// The bytes of a record: the first byte of the chunks, the size of the
/// download and the chunk size, eight bytes each, least significant first,
/// then one flag byte per chunk.
pub open spec fn record_bytes(start_from: u64, total_size: u64, chunk_size: u64, done: Seq<bool>) -> Seq<u8> {
    le_bytes(start_from as nat, 8) + le_bytes(total_size as nat, 8) + le_bytes(chunk_size as nat, 8)
        + flag_bytes(done)
}

/// A record that describes a plan: chunks of a positive size covering a
/// non-empty range, with one flag for each of them.
pub open spec fn record_fits(start_from: u64, total_size: u64, chunk_size: u64, done: Seq<bool>) -> bool {
    &&& chunk_size > 0
    &&& start_from < total_size
    &&& done.len() == chunk_count(start_from as nat, total_size as nat, chunk_size as nat)
}

/// What the bytes `b` hold as a record: its three numbers and its flags, when
/// it has the three numbers, every later byte is 0 or 1, and the record
/// describes a plan; nothing otherwise.
pub open spec fn decoded_record(b: Seq<u8>) -> Option<(u64, u64, u64, Seq<bool>)> {
    if b.len() >= 24 && forall|i: int| 24 <= i < b.len() ==> #[trigger] b[i] <= 1 {
        let start_from = le_value(b.subrange(0, 8)) as u64;
        let total_size = le_value(b.subrange(8, 16)) as u64;
        let chunk_size = le_value(b.subrange(16, 24)) as u64;
        let done = b.subrange(24, b.len() as int).map_values(|x: u8| x == 1);
        if record_fits(start_from, total_size, chunk_size, done) {
            Some((start_from, total_size, chunk_size, done))
        } else {
            None
        }
    } else {
        None
    }
}

/// Chunk `i` of a plan restored from a record: laid out as in the plan,
/// never attempted, held by no worker, and completed with all its bytes
/// exactly when the record says it is written.
pub open spec fn is_restored_chunk(c: ChunkInfo, start: nat, total: nat, size: nat, i: nat, done: bool) -> bool {
    &&& c.id == i
    &&& c.start == chunk_start(start, size, i)
    &&& c.end == chunk_end(start, total, size, i)
    &&& c.completed == done
    &&& c.downloaded == if done {
        chunk_end(start, total, size, i) - chunk_start(start, size, i) + 1
    } else {
        0
    }
    &&& c.retries == 0
    &&& !c.in_flight
}

/// A value below `256^n` is given back by its `n` low bytes.
pub proof fn lemma_le_roundtrip(x: nat, n: nat)
    requires
        x < pow256(n),
    ensures
        le_bytes(x, n).len() == n,
        le_value(le_bytes(x, n)) == x,
    decreases n,
{
    if n > 0 {
        assert(x / 256 < pow256((n - 1) as nat)) by (nonlinear_arith)
            requires x < 256 * pow256((n - 1) as nat);
        lemma_le_roundtrip(x / 256, (n - 1) as nat);
        let s = le_bytes(x, n);
        assert(s.drop_first() =~= le_bytes(x / 256, (n - 1) as nat));
        assert(x == x % 256 + 256 * (x / 256)) by (nonlinear_arith);
    }
}

/// The value of `n` bytes is below `256^n`.
pub proof fn lemma_le_value_bound(s: Seq<u8>)
    ensures
        le_value(s) < pow256(s.len()),
    decreases s.len(),
{
    if s.len() > 0 {
        lemma_le_value_bound(s.drop_first());
        let r = le_value(s.drop_first());
        let p = pow256((s.len() - 1) as nat);
        assert(s[0] + 256 * r < 256 * p) by (nonlinear_arith)
            requires s[0] < 256, r < p;
    }
}

proof fn lemma_pow256_8()
    ensures
        pow256(8) == 0x1_0000_0000_0000_0000,
{
    reveal_with_fuel(pow256, 9);
}

/// Appends the `n` low bytes of `x`, least significant first.
fn push_le_bytes(v: &mut Vec<u8>, x: u64, n: usize)
    ensures
        final(v)@ == old(v)@ + le_bytes(x as nat, n as nat),
    decreases n,
{
    if n > 0 {
        v.push((x % 256) as u8);
        push_le_bytes(v, x / 256, n - 1);
        proof {
            assert(old(v)@ + le_bytes(x as nat, n as nat) =~= old(v)@.push((x % 256) as u8) + le_bytes(
                (x / 256) as nat,
                (n - 1) as nat,
            ));
        }
    } else {
        assert(old(v)@ + le_bytes(x as nat, 0) =~= old(v)@);
    }
}

/// The number that the eight bytes `b[at..at + 8]` stand for.
fn read_le_u64(b: &[u8], at: usize) -> (x: u64)
    requires
        at + 8 <= b@.len(),
    ensures
        x == le_value(b@.subrange(at as int, at + 8)),
{
    let len = b.len();
    let mut k: usize = 8;
    let mut x: u64 = 0;
    proof {
        assert(b@.subrange(at + 8, at + 8) =~= Seq::<u8>::empty());
        lemma_pow256_8();
    }
    while k > 0
        invariant
            k <= 8,
            at + 8 <= b@.len(),
            len == b@.len(),
            x == le_value(b@.subrange(at + k, at + 8)),
            pow256(8) == 0x1_0000_0000_0000_0000,
        decreases k,
    {
        let ghost rest = b@.subrange(at + k, at + 8);
        let ghost s = b@.subrange(at + k - 1, at + 8);
        proof {
            assert(s.drop_first() =~= rest);
            lemma_le_value_bound(s);
            assert(s.len() <= 8);
            lemma_pow256_monotone(s.len(), 8);
        }
        let byte = b[at + k - 1];
        assert(le_value(s) == byte + 256 * x);
        assert(le_value(s) < 0x1_0000_0000_0000_0000);
        x = byte as u64 + 256 * x;
        k = k - 1;
    }
    x
}

proof fn lemma_pow256_monotone(m: nat, n: nat)
    requires
        m <= n,
    ensures
        pow256(m) <= pow256(n),
    decreases n,
{
    if m < n {
        lemma_pow256_monotone(m, (n - 1) as nat);
    }
}

/// What is kept of a segmented download so that it can be resumed: the
/// range its chunks cover, their size, and which of them are written.
#[derive(Debug, Clone)]
pub struct ChunkRecord {
    pub start_from: u64,
    pub total_size: u64,
    pub chunk_size: u64,
    pub done: Vec<bool>,
}

impl ChunkRecord {
    /// The record describes a plan.
    pub open spec fn fits(&self) -> bool {
        record_fits(self.start_from, self.total_size, self.chunk_size, self.done@)
    }

    /// The record of a plan's chunks: which of them are completed.
    pub fn from_chunks(chunks: &Vec<ChunkInfo>, start_from: u64, total_size: u64, chunk_size: u64) -> (r: ChunkRecord)
        ensures
            r.start_from == start_from,
            r.total_size == total_size,
            r.chunk_size == chunk_size,
            r.done@ == chunks@.map_values(|c: ChunkInfo| c.completed),
    {
        let mut done: Vec<bool> = Vec::new();
        let n = chunks.len();
        let mut i: usize = 0;
        while i < n
            invariant
                n == chunks@.len(),
                i <= n,
                done@ == chunks@.subrange(0, i as int).map_values(|c: ChunkInfo| c.completed),
            decreases n - i,
        {
            done.push(chunks[i].completed);
            i = i + 1;
            proof {
                assert(done@ =~= chunks@.subrange(0, i as int).map_values(|c: ChunkInfo| c.completed));
            }
        }
        proof {
            assert(chunks@.subrange(0, n as int) =~= chunks@);
        }
        ChunkRecord { start_from, total_size, chunk_size, done }
    }

    /// The bytes of the record.
    pub fn encode(&self) -> (b: Vec<u8>)
        ensures
            b@ == record_bytes(self.start_from, self.total_size, self.chunk_size, self.done@),
    {
        let mut b: Vec<u8> = Vec::new();
        push_le_bytes(&mut b, self.start_from, 8);
        push_le_bytes(&mut b, self.total_size, 8);
        push_le_bytes(&mut b, self.chunk_size, 8);
        let ghost head = b@;
        let n = self.done.len();
        let mut i: usize = 0;
        while i < n
            invariant
                n == self.done@.len(),
                i <= n,
                b@ == head + flag_bytes(self.done@.subrange(0, i as int)),
            decreases n - i,
        {
            if self.done[i] {
                b.push(1u8);
            } else {
                b.push(0u8);
            }
            i = i + 1;
            proof {
                assert(b@ =~= head + flag_bytes(self.done@.subrange(0, i as int)));
            }
        }
        proof {
            assert(self.done@.subrange(0, n as int) =~= self.done@);
            assert(head =~= le_bytes(self.start_from as nat, 8) + le_bytes(self.total_size as nat, 8)
                + le_bytes(self.chunk_size as nat, 8));
        }
        b
    }

    /// Reads a record back from its bytes; nothing when the bytes are not
    /// the record of a plan.
    pub fn decode(b: &[u8]) -> (r: Option<ChunkRecord>)
        ensures
            match r {
                Some(rec) => decoded_record(b@) == Some(
                    (rec.start_from, rec.total_size, rec.chunk_size, rec.done@),
                ),
                None => decoded_record(b@) is None,
            },
    {
        let n = b.len();
        if n < 24 {
            return None;
        }
        let mut done: Vec<bool> = Vec::new();
        let mut i: usize = 24;
        while i < n
            invariant
                n == b@.len(),
                24 <= i <= n,
                forall|j: int| 24 <= j < i ==> #[trigger] b@[j] <= 1,
                done@ == b@.subrange(24, i as int).map_values(|x: u8| x == 1),
            decreases n - i,
        {
            if b[i] > 1 {
                return None;
            }
            done.push(b[i] == 1);
            i = i + 1;
            proof {
                assert(done@ =~= b@.subrange(24, i as int).map_values(|x: u8| x == 1));
            }
        }
        let start_from = read_le_u64(b, 0);
        let total_size = read_le_u64(b, 8);
        let chunk_size = read_le_u64(b, 16);
        if chunk_size == 0 || start_from >= total_size {
            return None;
        }
        let len_needed = (total_size - start_from - 1) / chunk_size + 1;
        proof {
            let d = (total_size - start_from) as int;
            assert((d + chunk_size - 1) / (chunk_size as int) == (d - 1) / (chunk_size as int) + 1)
                by (nonlinear_arith)
                requires chunk_size > 0, d > 0;
        }
        if (done.len() as u64) != len_needed {
            return None;
        }
        Some(ChunkRecord { start_from, total_size, chunk_size, done })
    }

    /// The chunks of the plan that the record describes, the written ones
    /// completed with all their bytes.
    pub fn restore_chunks(&self) -> (chunks: Vec<ChunkInfo>)
        requires
            self.fits(),
        ensures
            chunks.len() == self.done@.len(),
            forall|i: int|
                0 <= i < chunks.len() ==> #[trigger] is_restored_chunk(
                    chunks[i],
                    self.start_from as nat,
                    self.total_size as nat,
                    self.chunk_size as nat,
                    i as nat,
                    self.done@[i],
                ),
    {
        let count = self.done.len();
        assert(chunk_count(self.start_from as nat, self.total_size as nat, self.chunk_size as nat) == count);
        let mut chunks = create_chunks(self.start_from, self.total_size, self.chunk_size);
        let n = chunks.len();
        let ghost s = self.start_from as nat;
        let ghost t = self.total_size as nat;
        let ghost z = self.chunk_size as nat;
        let mut i: usize = 0;
        while i < n
            invariant
                n == chunks@.len(),
                n == self.done@.len(),
                i <= n,
                s == self.start_from,
                t == self.total_size,
                z == self.chunk_size,
                self.fits(),
                n == chunk_count(s, t, z),
                forall|j: int|
                    i <= j < n ==> is_planned_chunk(#[trigger] chunks@[j], s, t, z, j as nat),
                forall|j: int|
                    0 <= j < i ==> #[trigger] is_restored_chunk(chunks@[j], s, t, z, j as nat, self.done@[j]),
            decreases n - i,
        {
            if self.done[i] {
                let mut c = chunks[i];
                assert(is_planned_chunk(chunks@[i as int], s, t, z, (i as int) as nat));
                proof {
                    crate::chunks::lemma_chunks_tile_range(s, t, z);
                    assert(chunk_end(s, t, z, i as nat) < t);
                    assert(chunk_start(s, z, i as nat) <= chunk_end(s, t, z, i as nat));
                }
                c.completed = true;
                c.downloaded = c.end - c.start + 1;
                chunks.set(i, c);
                assert(is_restored_chunk(chunks@[i as int], s, t, z, (i as int) as nat, self.done@[i as int]));
            } else {
                assert(is_planned_chunk(chunks@[i as int], s, t, z, (i as int) as nat));
                assert(is_restored_chunk(chunks@[i as int], s, t, z, (i as int) as nat, self.done@[i as int]));
            }
            i = i + 1;
        }
        chunks
    }
}

/// A record read back from its own bytes is the record that was written:
/// the range, the chunk size and which chunks are written all come back.
pub proof fn lemma_record_roundtrip(start_from: u64, total_size: u64, chunk_size: u64, done: Seq<bool>)
    requires
        record_fits(start_from, total_size, chunk_size, done),
    ensures
        decoded_record(record_bytes(start_from, total_size, chunk_size, done)) == Some(
            (start_from, total_size, chunk_size, done),
        ),
{
    let b = record_bytes(start_from, total_size, chunk_size, done);
    lemma_pow256_8();
    lemma_le_roundtrip(start_from as nat, 8);
    lemma_le_roundtrip(total_size as nat, 8);
    lemma_le_roundtrip(chunk_size as nat, 8);
    assert(b.subrange(0, 8) =~= le_bytes(start_from as nat, 8));
    assert(b.subrange(8, 16) =~= le_bytes(total_size as nat, 8));
    assert(b.subrange(16, 24) =~= le_bytes(chunk_size as nat, 8));
    assert(b.subrange(24, b.len() as int) =~= flag_bytes(done));
    assert(forall|i: int| 24 <= i < b.len() ==> #[trigger] b[i] <= 1) by {
        assert forall|i: int| 24 <= i < b.len() implies #[trigger] b[i] <= 1 by {
            assert(b[i] == flag_bytes(done)[i - 24]);
        }
    }
    assert(b.subrange(24, b.len() as int).map_values(|x: u8| x == 1) =~= done);
}

} // verus!
