use std::cell::RefCell;

use aeon_recovery::device::BlockReader;
use aeon_recovery::nvme::{
    overlapped_next_read, queue_range, queue_ranges, read_queue, ChunkSink, NvmeAsyncReader, NvmeChunk,
    QueueCursor, QueueRange, NVME_OPTIMAL_READ,
};

struct MemDevice {
    bytes: Vec<u8>,
}

impl BlockReader for MemDevice {
    fn read_at(&self, offset: u64, len: usize) -> Option<Vec<u8>> {
        let start = offset as usize;
        if start >= self.bytes.len() {
            return Some(Vec::new());
        }
        let end = std::cmp::min(self.bytes.len(), start + len);
        Some(self.bytes[start..end].to_vec())
    }
}

struct Collect {
    chunks: RefCell<Vec<NvmeChunk>>,
}

impl ChunkSink for Collect {
    fn send(&self, chunk: NvmeChunk) {
        self.chunks.borrow_mut().push(chunk);
    }
}

const CHUNK: u64 = NVME_OPTIMAL_READ as u64;

#[test]
fn reader_keeps_path_and_size() {
    let r = NvmeAsyncReader::new("/dev/nvme0n1".to_string(), 1 << 30);
    assert_eq!(r.device_path(), "/dev/nvme0n1");
    assert_eq!(r.total_size(), 1 << 30);
}

#[test]
fn ranges_split_among_four_queues() {
    // 10 chunks: 3 per queue, the last queue gets one.
    let end = 10 * CHUNK;
    let qs = queue_ranges(0, end);
    assert_eq!(qs.len(), 4);
    let spans: Vec<(usize, u64, u64, u64)> = qs.iter().map(|q| (q.queue_id, q.start, q.end, q.first_sequence)).collect();
    assert_eq!(spans, vec![
        (0, 0, 3 * CHUNK, 0),
        (1, 3 * CHUNK, 6 * CHUNK, 3),
        (2, 6 * CHUNK, 9 * CHUNK, 6),
        (3, 9 * CHUNK, 10 * CHUNK, 9),
    ]);
}

#[test]
fn small_ranges_leave_queues_idle() {
    // Two chunks: one per queue for the first two queues.
    let qs = queue_ranges(1000, 1000 + CHUNK + 5);
    assert_eq!(qs.len(), 2);
    assert_eq!((qs[0].start, qs[0].end), (1000, 1000 + CHUNK));
    assert_eq!((qs[1].start, qs[1].end), (1000 + CHUNK, 1000 + CHUNK + 5));
    assert!(queue_range(1000, 1000 + CHUNK + 5, 2).is_none());
    assert!(queue_ranges(500, 500).is_empty());
    assert!(queue_ranges(900, 100).is_empty());
}

#[test]
fn ranges_cover_without_gap_or_overlap() {
    for (start, end) in [(0u64, 7 * CHUNK + 3), (12345, 12345 + 40 * CHUNK), (5, 5 + CHUNK)] {
        let qs = queue_ranges(start, end);
        let mut at = start;
        for q in &qs {
            assert_eq!(q.start, at);
            at = q.end;
        }
        assert_eq!(at, end);
    }
}

#[test]
fn queue_reads_in_chunks() {
    let bytes: Vec<u8> = (0..(3 * CHUNK as usize + 10)).map(|i| (i % 251) as u8).collect();
    let dev = MemDevice { bytes: bytes.clone() };
    let sink = Collect { chunks: RefCell::new(Vec::new()) };
    let range = QueueRange { queue_id: 2, start: 100, end: 100 + 2 * CHUNK + 7, first_sequence: 6 };
    assert!(read_queue(&dev, &sink, &range));
    let chunks = sink.chunks.borrow();
    assert_eq!(chunks.len(), 3);
    assert_eq!(chunks.iter().map(|c| (c.queue_id, c.offset, c.sequence, c.data.len())).collect::<Vec<_>>(), vec![
        (2, 100, 6, CHUNK as usize),
        (2, 100 + CHUNK, 7, CHUNK as usize),
        (2, 100 + 2 * CHUNK, 8, 7),
    ]);
    assert_eq!(chunks[2].data, bytes[(100 + 2 * CHUNK) as usize..(107 + 2 * CHUNK) as usize].to_vec());
}

#[test]
fn queue_stops_at_the_end_of_the_device() {
    let dev = MemDevice { bytes: vec![1u8; 1000] };
    let sink = Collect { chunks: RefCell::new(Vec::new()) };
    let range = QueueRange { queue_id: 0, start: 0, end: 4 * CHUNK, first_sequence: 0 };
    assert!(read_queue(&dev, &sink, &range));
    let chunks = sink.chunks.borrow();
    assert_eq!(chunks.len(), 1);
    assert_eq!(chunks[0].data.len(), 1000);
}

#[test]
fn cursor_steps() {
    let range = QueueRange { queue_id: 1, start: 0, end: CHUNK + 1, first_sequence: 4 };
    let mut c = QueueCursor::start(&range);
    assert_eq!(c.next_read(), Some((0, NVME_OPTIMAL_READ)));
    let chunk = c.accept(vec![9u8; 10], NVME_OPTIMAL_READ).unwrap();
    assert_eq!((chunk.offset, chunk.sequence, chunk.data.len()), (0, 4, 10));
    assert_eq!(c.next_read(), Some((10, NVME_OPTIMAL_READ - 9)));
    assert!(c.accept(Vec::new(), NVME_OPTIMAL_READ).is_none());
    assert_eq!(c.next_read(), None);
}

#[test]
fn overlapped_requests() {
    assert_eq!(overlapped_next_read(0, 10 * CHUNK, 0), Some(NVME_OPTIMAL_READ));
    assert_eq!(overlapped_next_read(10 * CHUNK - 3, 10 * CHUNK, 31), Some(3));
    assert_eq!(overlapped_next_read(0, 10 * CHUNK, 32), None);
    assert_eq!(overlapped_next_read(10 * CHUNK, 10 * CHUNK, 0), None);
}
