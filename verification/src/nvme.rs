//! Parallel reading of a device range over several I/O queues: how the
//! range is split among the queues and how each queue walks its part.
use vstd::prelude::*;

use crate::device::{BlockReader, can_read};

verus! {

/// Reads kept in flight at once by an overlapped reader.
pub const QUEUE_DEPTH: usize = 32;

/// Size of one read (128 KiB).
pub const NVME_OPTIMAL_READ: usize = 128 * 1024;

/// Number of parallel I/O queues.
pub const PARALLEL_QUEUES: usize = 4;

/// Largest offset the reader handles (2^62 bytes).
pub const MAX_NVME_OFFSET: u64 = 0x4000_0000_0000_0000;

/// A block read by one queue: its queue, device offset, bytes, and its
/// position in the sequence of all chunks of the range.
pub struct NvmeChunk {
    pub queue_id: usize,
    pub offset: u64,
    pub data: Vec<u8>,
    pub sequence: u64,
}

/// Reader of a device over several queues.
pub struct NvmeAsyncReader {
    device_path: String,
    total_size: u64,
}

impl NvmeAsyncReader {
    /// The device read.
    pub closed spec fn path(&self) -> Seq<char> {
        self.device_path@
    }

    /// The size of the device.
    pub closed spec fn size(&self) -> u64 {
        self.total_size
    }

    pub fn new(device_path: String, total_size: u64) -> (r: Self)
        ensures
            r.path() == device_path@,
            r.size() == total_size,
    {
        NvmeAsyncReader { device_path, total_size }
    }

    /// The device read.
    pub fn device_path(&self) -> (r: &String)
        ensures
            r@ == self.path(),
    {
        &self.device_path
    }

    /// The size of the device.
    pub fn total_size(&self) -> (r: u64)
        ensures
            r == self.size(),
    {
        self.total_size
    }
}

// ── Splitting a range among the queues ──────────────────────────────────────

/// Chunks each queue reads for the range `[start, end)`: the range's chunks
/// of 128 KiB (the last one partial), shared out evenly, rounded up.
pub open spec fn chunks_per_queue(start: u64, end: u64) -> int {
    let range = if end > start { end - start } else { 0 };
    let chunks = (range + NVME_OPTIMAL_READ - 1) / (NVME_OPTIMAL_READ as int);
    (chunks + PARALLEL_QUEUES - 1) / (PARALLEL_QUEUES as int)
}

/// Bytes each queue covers.
pub open spec fn queue_span(start: u64, end: u64) -> int {
    chunks_per_queue(start, end) * NVME_OPTIMAL_READ
}

/// Where queue `q` starts reading.
pub open spec fn queue_start(start: u64, end: u64, q: int) -> int {
    start + q * queue_span(start, end)
}

/// Where queue `q` stops reading.
pub open spec fn queue_end(start: u64, end: u64, q: int) -> int {
    let e = queue_start(start, end, q) + queue_span(start, end);
    if e < end { e } else { end as int }
}

/// The part of `[start, end)` that one queue reads, and the sequence number
/// of its first chunk.
pub struct QueueRange {
    pub queue_id: usize,
    pub start: u64,
    pub end: u64,
    pub first_sequence: u64,
}

proof fn lemma_span_bounds(start: u64, end: u64)
    requires
        end <= MAX_NVME_OFFSET,
    ensures
        0 <= chunks_per_queue(start, end) <= MAX_NVME_OFFSET,
        0 <= queue_span(start, end) <= MAX_NVME_OFFSET / 4 + 2 * NVME_OPTIMAL_READ,
        end > start ==> 4 * queue_span(start, end) >= end - start,
{
    let range = if end > start { end - start } else { 0 };
    let chunks = (range + NVME_OPTIMAL_READ - 1) / (NVME_OPTIMAL_READ as int);
    let cpq = (chunks + 3) / 4;
    assert(chunks * (NVME_OPTIMAL_READ as int) >= range) by (nonlinear_arith)
        requires
            chunks == (range + 131071) / 131072,
            range >= 0,
    ;
    assert(chunks <= range / 131072 + 1) by (nonlinear_arith)
        requires
            chunks == (range + 131071) / 131072,
            range >= 0,
    ;
    assert(4 * cpq >= chunks);
    assert(cpq <= chunks / 4 + 1);
    assert(cpq * 131072 <= MAX_NVME_OFFSET / 4 + 2 * 131072) by (nonlinear_arith)
        requires
            cpq <= chunks / 4 + 1,
            chunks <= range / 131072 + 1,
            0 <= range <= MAX_NVME_OFFSET,
            cpq >= 0,
    ;
    assert(4 * (cpq * 131072) >= chunks * 131072) by (nonlinear_arith)
        requires
            4 * cpq >= chunks,
            chunks >= 0,
    ;
}

/// The part of `[start, end)` that queue `q` reads, or `None` when the
/// range is used up before it (the queue then reads nothing).
pub fn queue_range(start: u64, end: u64, q: usize) -> (r: Option<QueueRange>)
    requires
        end <= MAX_NVME_OFFSET,
        q < PARALLEL_QUEUES,
    ensures
        match r {
            Some(qr) => {
                &&& queue_start(start, end, q as int) < end
                &&& qr.queue_id == q
                &&& qr.start == queue_start(start, end, q as int)
                &&& qr.end == queue_end(start, end, q as int)
                &&& qr.first_sequence == q * chunks_per_queue(start, end)
            },
            None => queue_start(start, end, q as int) >= end,
        },
{
    proof {
        lemma_span_bounds(start, end);
    }
    let chunk: u64 = NVME_OPTIMAL_READ as u64;
    let range = if end > start { end - start } else { 0 };
    let total_chunks = (range + chunk - 1) / chunk;
    let cpq = (total_chunks + PARALLEL_QUEUES as u64 - 1) / PARALLEL_QUEUES as u64;
    assert(cpq == chunks_per_queue(start, end));
    assert(cpq * chunk == queue_span(start, end));
    let span = cpq * chunk;
    assert(q as int * span <= 3 * (MAX_NVME_OFFSET / 4 + 2 * NVME_OPTIMAL_READ)) by (nonlinear_arith)
        requires
            q < 4,
            0 <= span <= MAX_NVME_OFFSET / 4 + 2 * NVME_OPTIMAL_READ,
    ;
    if start > end {
        assert(range == 0);
        assert(chunk == 131072);
        assert(total_chunks == 131071u64 / 131072u64);
        assert(total_chunks == 0);
        assert(cpq == 0);
        assert(span == 0) by (nonlinear_arith)
            requires
                cpq == 0,
                span == cpq * chunk,
        ;
    }
    let qs = start + (q as u64) * span;
    if qs >= end {
        return None;
    }
    let qe = if qs + span < end { qs + span } else { end };
    assert(q as int * cpq <= 3 * MAX_NVME_OFFSET) by (nonlinear_arith)
        requires
            q < 4,
            0 <= cpq <= MAX_NVME_OFFSET,
    ;
    Some(QueueRange { queue_id: q, start: qs, end: qe, first_sequence: (q as u64) * cpq })
}

/// Partition law: the queue ranges of `[start, end)` cover it without gap
/// or overlap: each offset of it lies in the range of exactly one queue,
/// and the queues follow each other in order.
pub proof fn lemma_queues_partition(start: u64, end: u64, o: int)
    requires
        start <= o < end,
        end <= MAX_NVME_OFFSET,
    ensures
        exists|q: int| 0 <= q < PARALLEL_QUEUES && #[trigger] queue_start(start, end, q) <= o < queue_end(start, end, q),
        forall|q1: int, q2: int|
            0 <= q1 < q2 < PARALLEL_QUEUES ==> #[trigger] queue_end(start, end, q1) <= #[trigger] queue_start(start, end, q2),
{
    lemma_span_bounds(start, end);
    let s = queue_span(start, end);
    assert(s > 0) by {
        if s == 0 {
            assert(4 * s >= end - start);
        }
    }
    let q = (o - start) / s;
    assert(0 <= q);
    assert(q * s <= o - start < q * s + s) by (nonlinear_arith)
        requires
            q == (o - start) / s,
            s > 0,
            o - start >= 0,
    ;
    assert(q < 4) by (nonlinear_arith)
        requires
            q * s <= o - start,
            o - start < end - start,
            4 * s >= end - start,
            s > 0,
    ;
    assert(queue_start(start, end, q) == start + q * s);
    assert(queue_start(start, end, q) <= o < queue_end(start, end, q));
    assert forall|q1: int, q2: int|
        0 <= q1 < q2 < PARALLEL_QUEUES implies #[trigger] queue_end(start, end, q1) <= #[trigger] queue_start(start, end, q2) by {
        assert(q1 * s + s <= q2 * s) by (nonlinear_arith)
            requires
                q1 < q2,
                s >= 0,
        ;
    }
}

/// The queue ranges of `[start, end)`, queue by queue, leaving out queues
/// that read nothing.
pub fn queue_ranges(start: u64, end: u64) -> (r: Vec<QueueRange>)
    requires
        end <= MAX_NVME_OFFSET,
    ensures
        r@.len() <= PARALLEL_QUEUES,
        forall|k: int| 0 <= k < r@.len() ==> {
            let q = (#[trigger] r@[k]).queue_id as int;
            &&& queue_start(start, end, q) < end
            &&& r@[k].start == queue_start(start, end, q)
            &&& r@[k].end == queue_end(start, end, q)
            &&& r@[k].first_sequence == q * chunks_per_queue(start, end)
        },
        forall|k1: int, k2: int| 0 <= k1 < k2 < r@.len() ==> r@[k1].queue_id < r@[k2].queue_id,
        forall|q: int|
            0 <= q < PARALLEL_QUEUES && queue_start(start, end, q) < end ==> exists|k: int|
                0 <= k < r@.len() && (#[trigger] r@[k]).queue_id == q,
{
    let mut out: Vec<QueueRange> = Vec::new();
    let mut q: usize = 0;
    while q < PARALLEL_QUEUES
        invariant
            q <= PARALLEL_QUEUES,
            end <= MAX_NVME_OFFSET,
            out@.len() <= q,
            forall|k: int| 0 <= k < out@.len() ==> {
                let qq = (#[trigger] out@[k]).queue_id as int;
                &&& qq < q
                &&& queue_start(start, end, qq) < end
                &&& out@[k].start == queue_start(start, end, qq)
                &&& out@[k].end == queue_end(start, end, qq)
                &&& out@[k].first_sequence == qq * chunks_per_queue(start, end)
            },
            forall|k1: int, k2: int| 0 <= k1 < k2 < out@.len() ==> out@[k1].queue_id < out@[k2].queue_id,
            forall|qq: int|
                0 <= qq < q && queue_start(start, end, qq) < end ==> exists|k: int|
                    0 <= k < out@.len() && (#[trigger] out@[k]).queue_id == qq,
        decreases PARALLEL_QUEUES - q,
    {
        let ghost before = out@;
        match queue_range(start, end, q) {
            Some(qr) => {
                out.push(qr);
                assert forall|qq: int|
                    0 <= qq < q + 1 && queue_start(start, end, qq) < end implies exists|k: int|
                        0 <= k < out@.len() && (#[trigger] out@[k]).queue_id == qq by {
                    if qq < q {
                        let k = choose|k: int| 0 <= k < before.len() && (#[trigger] before[k]).queue_id == qq;
                        assert(out@[k] == before[k]);
                    } else {
                        assert(out@[before.len() as int].queue_id == qq);
                    }
                }
            },
            None => {},
        }
        q += 1;
    }
    out
}

// ── Walking one queue ───────────────────────────────────────────────────────

/// Where a queue stands in its range: the next offset to read and the
/// sequence number of the next chunk.
pub struct QueueCursor {
    queue_id: usize,
    offset: u64,
    end: u64,
    sequence: u64,
    done: bool,
}

impl QueueCursor {
    pub closed spec fn queue_id(&self) -> usize {
        self.queue_id
    }

    pub closed spec fn offset(&self) -> u64 {
        self.offset
    }

    pub closed spec fn end(&self) -> u64 {
        self.end
    }

    pub closed spec fn sequence(&self) -> u64 {
        self.sequence
    }

    /// The queue stopped early on an empty read.
    pub closed spec fn done(&self) -> bool {
        self.done
    }

    /// Bounds kept by a cursor.
    pub closed spec fn wf(&self) -> bool {
        &&& self.end <= MAX_NVME_OFFSET
        &&& self.sequence <= MAX_NVME_OFFSET + self.offset
        &&& self.offset <= self.end
    }

    /// A cursor at the start of a queue range.
    pub fn start(range: &QueueRange) -> (r: Self)
        requires
            range.end <= MAX_NVME_OFFSET,
            range.first_sequence <= MAX_NVME_OFFSET,
            range.start <= range.end,
        ensures
            r.wf(),
            r.queue_id() == range.queue_id,
            r.offset() == range.start,
            r.end() == range.end,
            r.sequence() == range.first_sequence,
            !r.done(),
    {
        QueueCursor {
            queue_id: range.queue_id,
            offset: range.start,
            end: range.end,
            sequence: range.first_sequence,
            done: false,
        }
    }

    /// The next read: where and how many bytes (at most 128 KiB, at most
    /// what is left); `None` when the range is read or the queue stopped.
    pub fn next_read(&self) -> (r: Option<(u64, usize)>)
        requires
            self.wf(),
        ensures
            match r {
                Some((o, n)) => !self.done() && self.offset() < self.end() && o == self.offset() && n == (
                if self.end() - self.offset() < NVME_OPTIMAL_READ { (self.end() - self.offset()) as usize } else { NVME_OPTIMAL_READ }),
                None => self.done() || self.offset() >= self.end(),
            },
    {
        if self.done || self.offset >= self.end {
            None
        } else {
            let left = self.end - self.offset;
            let n = if left < NVME_OPTIMAL_READ as u64 { left as usize } else { NVME_OPTIMAL_READ };
            Some((self.offset, n))
        }
    }

    /// Takes the bytes of the read last requested (`requested` of them
    /// asked for): an empty read stops the queue; otherwise the chunk of
    /// those bytes (at most `requested`) is handed out and the cursor moves
    /// past them.
    pub fn accept(&mut self, data: Vec<u8>, requested: usize) -> (r: Option<NvmeChunk>)
        requires
            old(self).wf(),
            !old(self).done(),
            old(self).offset() < old(self).end(),
            0 < requested <= old(self).end() - old(self).offset(),
        ensures
            final(self).wf(),
            final(self).queue_id() == old(self).queue_id(),
            final(self).end() == old(self).end(),
            match r {
                Some(c) => {
                    &&& data@.len() > 0
                    &&& c.queue_id == old(self).queue_id()
                    &&& c.offset == old(self).offset()
                    &&& c.sequence == old(self).sequence()
                    &&& c.data@ == data@.take(if data@.len() < requested { data@.len() as int } else { requested as int })
                    &&& final(self).offset() == old(self).offset() + c.data@.len()
                    &&& final(self).sequence() == old(self).sequence() + 1
                    &&& !final(self).done()
                },
                None => data@.len() == 0 && final(self).done() && final(self).offset() == old(self).offset()
                    && final(self).sequence() == old(self).sequence(),
            },
    {
        let n = if data.len() < requested { data.len() } else { requested };
        if n == 0 {
            self.done = true;
            return None;
        }
        let mut data = data;
        data.truncate(n);
        let chunk = NvmeChunk { queue_id: self.queue_id, offset: self.offset, data, sequence: self.sequence };
        self.offset = self.offset + n as u64;
        self.sequence = self.sequence + 1;
        Some(chunk)
    }
}

/// Receiver of the chunks a queue reads.
pub trait ChunkSink {
    fn send(&self, chunk: NvmeChunk);
}

/// How many bytes a queue reads at `pos` below `end`: at most 128 KiB.
pub open spec fn queue_request(pos: int, end: int) -> int {
    if end - pos < NVME_OPTIMAL_READ {
        end - pos
    } else {
        NVME_OPTIMAL_READ as int
    }
}

/// The bytes of a read result that a queue keeps: at most `requested` of
/// them; none for a failed read.
pub open spec fn queue_chunk(out: Option<Vec<u8>>, requested: int) -> Seq<u8> {
    match out {
        Some(v) => if v@.len() < requested {
            v@
        } else {
            v@.take(requested)
        },
        None => Seq::empty(),
    }
}

/// Position a queue reaches from `start` after the reads `outs`, each
/// adding the bytes it kept.
pub open spec fn queue_pos(start: int, end: int, outs: Seq<Option<Vec<u8>>>) -> int
    decreases outs.len(),
{
    if outs.len() == 0 {
        start
    } else {
        let p = queue_pos(start, end, outs.drop_last());
        p + queue_chunk(outs.last(), queue_request(p, end)).len()
    }
}

/// A read `out` after the reads `before` lets the queue go on: it delivered
/// bytes.
pub open spec fn queue_goes_on(start: int, end: int, before: Seq<Option<Vec<u8>>>, out: Option<Vec<u8>>) -> bool {
    out is Some && queue_chunk(out, queue_request(queue_pos(start, end, before), end)).len() > 0
}

/// `out` is a result the reader can give to the read a queue makes after
/// the reads `before`, which happens below `end`.
pub open spec fn queue_read_ok<R: BlockReader>(
    reader: &R,
    start: int,
    end: int,
    before: Seq<Option<Vec<u8>>>,
    out: Option<Vec<u8>>,
) -> bool {
    let p = queue_pos(start, end, before);
    p < end && can_read(reader, p as u64, queue_request(p, end) as usize, out)
}

/// The reads a queue over `[start, end)` makes: each one the reader can
/// give at the position reached, all but the last delivering bytes, and,
/// when the last delivers bytes too (or there is none), the range read.
pub open spec fn queue_reads<R: BlockReader>(reader: &R, start: int, end: int, outs: Seq<Option<Vec<u8>>>) -> bool {
    &&& forall|k: int| 0 <= k < outs.len() ==> queue_read_ok(reader, start, end, outs.take(k), #[trigger] outs[k])
    &&& forall|k: int| 0 <= k < outs.len() - 1 ==> queue_goes_on(start, end, outs.take(k), #[trigger] outs[k])
    &&& (outs.len() == 0 || queue_goes_on(start, end, outs.drop_last(), outs.last())) ==> queue_pos(start, end, outs) >= end
}

/// `sink` was handed a chunk of queue `queue_id` at `offset` with sequence
/// number `sequence` and the bytes `data`.
pub open spec fn chunk_sent<S: ChunkSink>(sink: &S, queue_id: usize, offset: int, sequence: int, data: Seq<u8>) -> bool {
    exists|c: NvmeChunk|
        #[trigger] call_ensures(S::send, (sink, c), ()) && c.queue_id == queue_id && c.offset == offset && c.sequence
            == sequence && c.data@ == data
}

/// Every read of `outs` that delivered bytes was handed to `sink` as a
/// chunk of the range's queue, at the position it was read from, numbered
/// in read order from the range's first sequence number.
pub open spec fn queue_sent<S: ChunkSink>(sink: &S, range: QueueRange, outs: Seq<Option<Vec<u8>>>) -> bool {
    forall|k: int|
        0 <= k < outs.len() && queue_goes_on(range.start as int, range.end as int, outs.take(k), #[trigger] outs[k])
            ==> chunk_sent(
            sink,
            range.queue_id,
            queue_pos(range.start as int, range.end as int, outs.take(k)),
            range.first_sequence + k,
            queue_chunk(outs[k], queue_request(queue_pos(range.start as int, range.end as int, outs.take(k)), range.end as int)),
        )
}

/// Reads one queue range through `reader`, chunk by chunk, handing every
/// chunk to `sink`; stops early on an empty read.  `false` when a read
/// fails.
#[verifier::spinoff_prover]
#[verifier::rlimit(80)]
pub fn read_queue<R: BlockReader, S: ChunkSink>(reader: &R, sink: &S, range: &QueueRange) -> (r: bool)
    requires
        range.end <= MAX_NVME_OFFSET,
        range.first_sequence <= MAX_NVME_OFFSET,
        range.start <= range.end,
    ensures
        exists|outs: Seq<Option<Vec<u8>>>| #[trigger] queue_reads(reader, range.start as int, range.end as int, outs)
            && r == !(outs.len() > 0 && outs.last() is None) && queue_sent(sink, *range, outs),
{
    let mut cursor = QueueCursor::start(range);
    let ghost start = range.start as int;
    let ghost end = range.end as int;
    let ghost mut outs: Seq<Option<Vec<u8>>> = Seq::empty();
    loop
        invariant
            cursor.wf(),
            cursor.end() == end,
            cursor.offset() == queue_pos(start, end, outs),
            start == range.start,
            end == range.end,
            forall|k: int| 0 <= k < outs.len() ==> queue_read_ok(reader, start, end, outs.take(k), #[trigger] outs[k]),
            forall|k: int| 0 <= k < outs.len() - 1 ==> queue_goes_on(start, end, outs.take(k), #[trigger] outs[k]),
            !cursor.done() ==> outs.len() == 0 || queue_goes_on(start, end, outs.drop_last(), outs.last()),
            cursor.done() ==> outs.len() > 0 && outs.last() is Some && !queue_goes_on(start, end, outs.drop_last(), outs.last()),
            cursor.queue_id() == range.queue_id,
            !cursor.done() ==> cursor.sequence() == range.first_sequence + outs.len(),
            queue_sent(sink, *range, outs),
        decreases (if cursor.done() { 0 } else { cursor.end() - cursor.offset() + 1 }),
    {
        match cursor.next_read() {
            None => {
                assert(queue_reads(reader, start, end, outs));
                return true;
            },
            Some((offset, n)) => {
                let out = reader.read_at(offset, n);
                let ghost before = outs;
                proof {
                    assert(can_read(reader, offset, n, out));
                    outs = outs.push(out);
                    assert(outs.drop_last() =~= before);
                    assert(outs.take(before.len() as int) =~= before);
                    assert forall|k: int| 0 <= k < before.len() implies outs.take(k) == before.take(k) && outs[k] == before[k] by {
                        assert(outs.take(k) =~= before.take(k));
                    }
                    assert forall|k: int| 0 <= k < outs.len() implies queue_read_ok(reader, start, end, outs.take(k), #[trigger] outs[k]) by {
                        if k < before.len() {
                            assert(outs.take(k) == before.take(k) && outs[k] == before[k]);
                        }
                    }
                    assert forall|k: int| 0 <= k < outs.len() - 1 implies queue_goes_on(start, end, outs.take(k), #[trigger] outs[k]) by {
                        assert(outs.take(k) == before.take(k) && outs[k] == before[k]);
                        if k == before.len() - 1 {
                            assert(before.take(k) =~= before.drop_last());
                        }
                    }
                }
                match out {
                    None => {
                        assert(queue_reads(reader, start, end, outs));
                        return false;
                    },
                    Some(data) => {
                        proof {
                            assert(data@.take(if data@.len() < n { data@.len() as int } else { n as int })
                                =~= queue_chunk(outs.last(), queue_request(queue_pos(start, end, before), end)));
                        }
                        let ghost seq0 = cursor.sequence();
                        let ghost pos0 = cursor.offset();
                        match cursor.accept(data, n) {
                            Some(chunk) => {
                                let ghost c = chunk;
                                sink.send(chunk);
                                proof {
                                    assert(call_ensures(S::send, (sink, c), ()));
                                    assert(chunk_sent(sink, range.queue_id, pos0 as int, seq0 as int, c.data@));
                                }
                            },
                            None => {},
                        }
                        proof {
                            assert forall|k: int|
                                0 <= k < outs.len() && queue_goes_on(start, end, outs.take(k), #[trigger] outs[k]) implies chunk_sent(
                                sink,
                                range.queue_id,
                                queue_pos(start, end, outs.take(k)),
                                range.first_sequence + k,
                                queue_chunk(outs[k], queue_request(queue_pos(start, end, outs.take(k)), end)),
                            ) by {
                                if k < before.len() {
                                    assert(outs.take(k) == before.take(k) && outs[k] == before[k]);
                                } else {
                                    assert(outs.take(k) =~= before);
                                }
                            }
                        }
                    },
                }
            },
        }
    }
}

/// How many bytes an overlapped reader requests next, with `pending` reads
/// in flight at `offset` of `[.., end)`: a chunk of at most 128 KiB while
/// the range lasts and fewer than 32 reads are in flight.
pub fn overlapped_next_read(offset: u64, end: u64, pending: u32) -> (r: Option<usize>)
    ensures
        match r {
            Some(n) => offset < end && pending < QUEUE_DEPTH && n == (if end - offset < NVME_OPTIMAL_READ {
                (end - offset) as usize
            } else {
                NVME_OPTIMAL_READ
            }),
            None => !(offset < end && pending < QUEUE_DEPTH),
        },
{
    if offset < end && pending < QUEUE_DEPTH as u32 {
        let left = end - offset;
        Some(if left < NVME_OPTIMAL_READ as u64 { left as usize } else { NVME_OPTIMAL_READ })
    } else {
        None
    }
}

/// Parallel reads use four queues of depth 32, reading 128 KiB at a time.
pub proof fn lemma_queue_geometry()
    ensures
        PARALLEL_QUEUES == 4,
        QUEUE_DEPTH == 32,
        NVME_OPTIMAL_READ == 131072,
{
}

} // verus!
