//! Signature-based file carving over a raw device.
use vstd::hash_set::HashSetWithView;
use vstd::prelude::*;

use crate::bytes::{matches_at, find_first, contains_pattern};
use crate::bytes;
use crate::device::{BlockReader, read_exact_at, can_read, can_read_exact, opt_bytes};
use crate::strs::string_from_chars;
use crate::types::{FileType, FileTypeView, FileSignature, RecoveredFile, SignatureView};
use crate::types;

verus! {

broadcast use vstd::std_specs::hash::group_hash_axioms;

/// Bytes read per block.
pub const BLOCK_SIZE: usize = 512 * 1024;

/// Sector size; an unreadable block is skipped one sector at a time.
pub const SECTOR_SIZE: u64 = 512;

/// Bytes of the previous block kept in front of the next one, so that
/// signatures spanning a block boundary are found.  Must be at least the
/// longest header plus verify offset plus verify length (16 for AVI/WAV).
pub const OVERLAP_SIZE: usize = 32;

/// Longest run of text measured from one start offset.
pub const MAX_TXT: u64 = 10 * 1024 * 1024;

// ── Pattern search ─────────────────────────────────────────────────────────

/// The positions below `i` at which `needle` occurs in `haystack`, in
/// increasing order.
pub open spec fn occurrences(haystack: Seq<u8>, needle: Seq<u8>, i: int) -> Seq<usize>
    decreases i,
{
    if i <= 0 {
        Seq::empty()
    } else if bytes::occurs_at(haystack, needle, i - 1) {
        occurrences(haystack, needle, i - 1).push((i - 1) as usize)
    } else {
        occurrences(haystack, needle, i - 1)
    }
}

proof fn lemma_occurrences_tail(haystack: Seq<u8>, needle: Seq<u8>, i: int, j: int)
    requires
        0 <= i <= j,
        forall|p: int| i <= p < j ==> !bytes::occurs_at(haystack, needle, p),
    ensures
        occurrences(haystack, needle, j) == occurrences(haystack, needle, i),
    decreases j - i,
{
    if j > i {
        lemma_occurrences_tail(haystack, needle, i, j - 1);
    }
}

/// Finds all occurrences of `needle` in `haystack`, in increasing order.
/// An empty needle, or one longer than the haystack, occurs nowhere.
pub fn find_signature_offsets(haystack: &[u8], needle: &[u8]) -> (r: Vec<usize>)
    ensures
        needle@.len() == 0 ==> r@.len() == 0,
        needle@.len() > 0 ==> r@ == occurrences(haystack@, needle@, haystack@.len() as int),
        forall|k: int| 0 <= k < r@.len() ==> bytes::occurs_at(haystack@, needle@, #[trigger] r@[k] as int),
        forall|k1: int, k2: int| 0 <= k1 < k2 < r@.len() ==> r@[k1] < r@[k2],
        needle@.len() > 0 ==> forall|i: int| #[trigger] bytes::occurs_at(haystack@, needle@, i)
            ==> r@.contains(i as usize),
{
    let mut positions: Vec<usize> = Vec::new();
    if needle.len() == 0 {
        return positions;
    }
    if haystack.len() < needle.len() {
        proof {
            lemma_occurrences_tail(haystack@, needle@, 0, haystack@.len() as int);
        }
        return positions;
    }
    let last = haystack.len() - needle.len();
    let mut i: usize = 0;
    while i <= last
        invariant
            last == haystack.len() - needle.len(),
            needle@.len() > 0,
            i <= last + 1,
            positions@ == occurrences(haystack@, needle@, i as int),
            forall|k: int| 0 <= k < positions@.len() ==> bytes::occurs_at(haystack@, needle@, #[trigger] positions@[k] as int),
            forall|k: int| 0 <= k < positions@.len() ==> #[trigger] positions@[k] < i,
            forall|k1: int, k2: int| 0 <= k1 < k2 < positions@.len() ==> positions@[k1] < positions@[k2],
            forall|j: int| 0 <= j < i && #[trigger] bytes::occurs_at(haystack@, needle@, j) ==> positions@.contains(j as usize),
        decreases last + 1 - i,
    {
        if matches_at(haystack, needle, i) {
            let ghost before = positions@;
            positions.push(i);
            assert forall|j: int| 0 <= j < i + 1 && #[trigger] bytes::occurs_at(haystack@, needle@, j) implies positions@.contains(j as usize) by {
                if j < i {
                    let k = choose|k: int| 0 <= k < before.len() && before[k] == j as usize;
                    assert(positions@[k] == j as usize);
                } else {
                    assert(positions@[positions@.len() - 1] == i);
                }
            }
        }
        i += 1;
    }
    proof {
        lemma_occurrences_tail(haystack@, needle@, last + 1, haystack@.len() as int);
    }
    assert forall|j: int| #[trigger] bytes::occurs_at(haystack@, needle@, j) implies positions@.contains(j as usize) by {
        assert(0 <= j <= last);
    }
    positions
}

// ── Text detection ─────────────────────────────────────────────────────────

/// Tab, LF, CR and the printable ASCII range 0x20..=0x7E.
pub open spec fn is_printable(b: u8) -> bool {
    b == 0x09 || b == 0x0A || b == 0x0D || (0x20 <= b && b <= 0x7E)
}

/// Number of printable bytes in `s`.
pub open spec fn printable_count(s: Seq<u8>) -> int
    decreases s.len(),
{
    if s.len() == 0 {
        0
    } else {
        printable_count(s.drop_last()) + if is_printable(s.last()) { 1int } else { 0int }
    }
}

/// Number of printable bytes among the first `n` of `s`.
pub fn count_printable(s: &[u8], n: usize) -> (r: usize)
    requires
        n <= s@.len(),
    ensures
        r as int == printable_count(s@.take(n as int)),
        r <= n,
{
    let mut c: usize = 0;
    let mut i: usize = 0;
    while i < n
        invariant
            i <= n,
            n <= s@.len(),
            c as int == printable_count(s@.take(i as int)),
            c <= i,
        decreases n - i,
    {
        let b = s[i];
        assert(s@.take(i + 1).drop_last() =~= s@.take(i as int));
        if b == 0x09 || b == 0x0A || b == 0x0D || (0x20 <= b && b <= 0x7E) {
            c += 1;
        }
        i += 1;
    }
    c
}

/// Whether a sector looks like text: its first 128 bytes (or fewer) are at
/// least 85% printable.  The comparison is the exact rational one.
pub open spec fn spec_is_text_block(s: Seq<u8>) -> bool {
    let n = if s.len() < 128 { s.len() as int } else { 128 };
    s.len() > 0 && 20 * printable_count(s.take(n)) >= 17 * n
}

/// Returns `true` if the first 128 bytes of `data` are at least 85% printable
/// ASCII.
pub fn is_text_block(data: &[u8]) -> (r: bool)
    ensures
        r == spec_is_text_block(data@),
{
    if data.len() == 0 {
        return false;
    }
    let check_len = if data.len() < 128 { data.len() } else { 128 };
    let printable = count_printable(data, check_len);
    20 * printable >= 17 * check_len
}

/// One past the last printable byte of `s`, or 0 when there is none.
pub open spec fn last_printable_end(s: Seq<u8>) -> int
    decreases s.len(),
{
    if s.len() == 0 {
        0
    } else if is_printable(s.last()) {
        s.len() as int
    } else {
        last_printable_end(s.drop_last())
    }
}

/// Where a run of text ends inside a chunk read during text measuring: when
/// fewer than 60% of its bytes are printable, just past its last printable
/// byte; otherwise the text goes on (`None`).
pub open spec fn spec_text_cut(s: Seq<u8>) -> Option<int> {
    if 5 * printable_count(s) < 3 * s.len() {
        Some(last_printable_end(s))
    } else {
        None
    }
}

/// Decides whether text stops inside `chunk`, and where.
pub fn text_cut(chunk: &[u8]) -> (r: Option<usize>)
    ensures
        match r {
            Some(e) => spec_text_cut(chunk@) == Some(e as int) && e <= chunk@.len(),
            None => spec_text_cut(chunk@) is None,
        },
{
    let n = chunk.len();
    let printable = count_printable(chunk, n);
    assert(chunk@.take(n as int) =~= chunk@);
    if 5 * (printable as u128) < 3 * (n as u128) {
        let mut k: usize = n;
        while k > 0 && !(chunk[k - 1] == 0x09 || chunk[k - 1] == 0x0A || chunk[k - 1] == 0x0D
            || (0x20 <= chunk[k - 1] && chunk[k - 1] <= 0x7E))
            invariant
                k <= n,
                n == chunk@.len(),
                last_printable_end(chunk@) == last_printable_end(chunk@.take(k as int)),
            decreases k,
        {
            assert(chunk@.take(k as int).drop_last() =~= chunk@.take(k - 1));
            k -= 1;
        }
        Some(k)
    } else {
        None
    }
}

/// How far a text run may be measured from `start`: 10 MiB, or the end of
/// the device.
pub open spec fn text_limit(start: u64, total_size: u64) -> int {
    if start + MAX_TXT < total_size {
        start + MAX_TXT
    } else {
        total_size as int
    }
}

/// How many bytes text measuring at `pos` asks for below `limit`.
pub open spec fn text_request(pos: int, limit: int) -> int {
    if limit - pos < 4096 {
        limit - pos
    } else {
        4096
    }
}

/// The bytes of a read result that text measuring looks at: at most
/// `to_read` of them; none for a failed read.
pub open spec fn text_chunk(out: Option<Vec<u8>>, to_read: int) -> Seq<u8> {
    match out {
        Some(v) => if v@.len() < to_read {
            v@
        } else {
            v@.take(to_read)
        },
        None => Seq::empty(),
    }
}

/// Position that text measuring from `start` reaches after the reads `outs`,
/// each adding the bytes it delivered.
pub open spec fn text_pos(start: int, limit: int, outs: Seq<Option<Vec<u8>>>) -> int
    decreases outs.len(),
{
    if outs.len() == 0 {
        start
    } else {
        let p = text_pos(start, limit, outs.drop_last());
        p + text_chunk(outs.last(), text_request(p, limit)).len()
    }
}

/// A read `out` at the position reached after `before` lets measuring go
/// on: it delivered bytes and the text does not stop in them.
pub open spec fn text_goes_on(start: int, limit: int, before: Seq<Option<Vec<u8>>>, out: Option<Vec<u8>>) -> bool {
    let c = text_chunk(out, text_request(text_pos(start, limit, before), limit));
    out is Some && c.len() > 0 && spec_text_cut(c) is None
}

/// `out` is a result the reader can give to the read that text measuring
/// makes after the reads `before`, which happens below `limit`.
pub open spec fn text_read_ok<R: BlockReader>(
    reader: &R,
    start: int,
    limit: int,
    before: Seq<Option<Vec<u8>>>,
    out: Option<Vec<u8>>,
) -> bool {
    let p = text_pos(start, limit, before);
    p < limit && can_read(reader, p as u64, text_request(p, limit) as usize, out)
}

/// The reads made in measuring text from `start` below `limit`: each one
/// the reader can give at the position reached, all but the last going on,
/// and, when the last goes on too (or there is none), the limit reached.
pub open spec fn text_reads<R: BlockReader>(reader: &R, start: int, limit: int, outs: Seq<Option<Vec<u8>>>) -> bool {
    &&& forall|k: int| 0 <= k < outs.len() ==> text_read_ok(reader, start, limit, outs.take(k), #[trigger] outs[k])
    &&& forall|k: int| 0 <= k < outs.len() - 1 ==> text_goes_on(start, limit, outs.take(k), #[trigger] outs[k])
    &&& (outs.len() == 0 || text_goes_on(start, limit, outs.drop_last(), outs.last())) ==> text_pos(start, limit, outs) >= limit
}

/// Just past the last printable byte that measuring from `start` has read
/// after the reads `outs` (`start` when it has read none).
pub open spec fn text_last_end(start: int, limit: int, outs: Seq<Option<Vec<u8>>>) -> int
    decreases outs.len(),
{
    if outs.len() == 0 {
        start
    } else {
        let p = text_pos(start, limit, outs.drop_last());
        let e = last_printable_end(text_chunk(outs.last(), text_request(p, limit)));
        if e > 0 {
            p + e
        } else {
            text_last_end(start, limit, outs.drop_last())
        }
    }
}

/// Where measuring ends after the reads `outs`: just past the last
/// printable byte read, or at `start` when none was.
pub open spec fn text_end(start: int, limit: int, outs: Seq<Option<Vec<u8>>>) -> int {
    text_last_end(start, limit, outs)
}

/// The end of a measured run follows a printable byte that was read (or is
/// `start`, when none was).
pub open spec fn text_ends_printable(start: int, limit: int, outs: Seq<Option<Vec<u8>>>) -> bool {
    let r = text_last_end(start, limit, outs);
    r == start || exists|k: int|
        0 <= k < outs.len() && {
            let p = text_pos(start, limit, outs.take(k));
            let c = text_chunk(#[trigger] outs[k], text_request(p, limit));
            p < r <= p + c.len() && is_printable(c[r - 1 - p])
        }
}

proof fn lemma_text_ends_printable(start: int, limit: int, outs: Seq<Option<Vec<u8>>>)
    ensures
        text_ends_printable(start, limit, outs),
    decreases outs.len(),
{
    if outs.len() > 0 {
        let prev = outs.drop_last();
        let p = text_pos(start, limit, prev);
        let c = text_chunk(outs.last(), text_request(p, limit));
        let e = last_printable_end(c);
        lemma_last_printable_end(c);
        let k = outs.len() - 1;
        assert(outs.take(k) =~= prev);
        if e > 0 {
            assert(outs[k] == outs.last());
        } else {
            lemma_text_ends_printable(start, limit, prev);
            if text_last_end(start, limit, prev) != start {
                let j = choose|j: int|
                    0 <= j < prev.len() && {
                        let p = text_pos(start, limit, prev.take(j));
                        let c = text_chunk(#[trigger] prev[j], text_request(p, limit));
                        p < text_last_end(start, limit, prev) <= p + c.len() && is_printable(
                            c[text_last_end(start, limit, prev) - 1 - p],
                        )
                    };
                assert(outs.take(j) =~= prev.take(j));
                assert(outs[j] == prev[j]);
            }
        }
    }
}

/// One past the last printable byte of `s` follows a printable byte.
pub proof fn lemma_last_printable_end(s: Seq<u8>)
    ensures
        0 <= last_printable_end(s) <= s.len(),
        last_printable_end(s) > 0 ==> is_printable(s[last_printable_end(s) - 1]),
    decreases s.len(),
{
    if s.len() > 0 && !is_printable(s.last()) {
        lemma_last_printable_end(s.drop_last());
        let e = last_printable_end(s.drop_last());
        if e > 0 {
            assert(s.drop_last()[e - 1] == s[e - 1]);
        }
    }
}

/// One past the last printable byte of `s`.
fn last_printable_end_of(chunk: &[u8]) -> (k: usize)
    ensures
        k == last_printable_end(chunk@),
{
    let n = chunk.len();
    let mut k: usize = n;
    assert(chunk@.take(n as int) =~= chunk@);
    while k > 0 && !(chunk[k - 1] == 0x09 || chunk[k - 1] == 0x0A || chunk[k - 1] == 0x0D
        || (0x20 <= chunk[k - 1] && chunk[k - 1] <= 0x7E))
        invariant
            k <= n,
            n == chunk@.len(),
            last_printable_end(chunk@) == last_printable_end(chunk@.take(k as int)),
        decreases k,
    {
        assert(chunk@.take(k as int).drop_last() =~= chunk@.take(k - 1));
        k -= 1;
    }
    proof {
        if k > 0 {
            assert(chunk@.take(k as int).last() == chunk@[k - 1]);
        }
    }
    k
}

/// `r` is where measuring text from `start` on a device of `total` bytes
/// can end: after reads the reader can give (`text_reads`), just past the
/// last printable byte read (`text_end`), which is a printable byte read
/// unless `r` is `start` (`text_ends_printable`).
#[verifier::opaque]
pub open spec fn text_measured<R: BlockReader>(reader: &R, start: u64, total: u64, r: u64) -> bool {
    exists|outs: Seq<Option<Vec<u8>>>| #[trigger] text_reads(reader, start as int, text_limit(start, total), outs)
        && r == text_end(start as int, text_limit(start, total), outs)
        && text_ends_printable(start as int, text_limit(start, total), outs)
}

/// Measures a run of text from `start`: reads forward in 4 KiB chunks until
/// a chunk is less than 60% printable (the run then ends just past that
/// chunk's last printable byte), a read fails or returns nothing, the end of
/// the device is reached, or 10 MiB have been consumed.  Returns the offset
/// just past the run.
#[verifier::spinoff_prover]
#[verifier::rlimit(80)]
pub fn find_text_end<R: BlockReader>(reader: &R, start: u64, total_size: u64) -> (r: u64)
    requires
        start <= u64::MAX - MAX_TXT,
    ensures
        start <= r,
        r <= start || r <= total_size,
        r <= start + MAX_TXT,
        text_measured(reader, start, total_size, r),
{
    let limit = if start + MAX_TXT < total_size { start + MAX_TXT } else { total_size };
    let mut pos = start;
    let mut last_end = start;
    let ghost mut outs: Seq<Option<Vec<u8>>> = Seq::empty();
    while pos < limit
        invariant
            start <= last_end <= pos,
            pos <= start || pos <= limit,
            limit <= start + MAX_TXT,
            limit <= total_size,
            limit == text_limit(start, total_size),
            pos == text_pos(start as int, limit as int, outs),
            last_end == text_last_end(start as int, limit as int, outs),
            forall|k: int| 0 <= k < outs.len() ==> text_read_ok(reader, start as int, limit as int, outs.take(k), #[trigger] outs[k]),
            forall|k: int| 0 <= k < outs.len() ==> text_goes_on(start as int, limit as int, outs.take(k), #[trigger] outs[k]),
        decreases limit - pos,
    {
        let to_read = if limit - pos < 4096 { (limit - pos) as usize } else { 4096 };
        let out = reader.read_at(pos, to_read);
        let ghost before = outs;
        proof {
            assert(can_read(reader, pos, to_read, out));
            outs = outs.push(out);
            assert(outs.drop_last() =~= before);
            assert(outs.take(before.len() as int) =~= before);
            assert forall|k: int| 0 <= k < before.len() implies outs.take(k) == before.take(k) && outs[k] == before[k] by {
                assert(outs.take(k) =~= before.take(k));
            }
            assert forall|k: int| 0 <= k < outs.len() implies text_read_ok(reader, start as int, limit as int, outs.take(k), #[trigger] outs[k]) by {
                if k < before.len() {
                    assert(outs.take(k) == before.take(k) && outs[k] == before[k]);
                }
            }
            assert forall|k: int| 0 <= k < outs.len() - 1 implies text_goes_on(start as int, limit as int, outs.take(k), #[trigger] outs[k]) by {
                assert(outs.take(k) == before.take(k) && outs[k] == before[k]);
            }
        }
        match out {
            Some(buf) => {
                let n = if buf.len() < to_read { buf.len() } else { to_read };
                let chunk = vstd::slice::slice_subrange(buf.as_slice(), 0, n);
                proof {
                    assert(chunk@ =~= text_chunk(outs.last(), text_request(pos as int, limit as int)));
                }
                if n == 0 {
                    proof {
                        assert(last_printable_end(chunk@) == 0);
                        assert(text_reads(reader, start as int, limit as int, outs));
                    lemma_text_ends_printable(start as int, limit as int, outs);
                    reveal(text_measured);
                    }
                    return last_end;
                }
                let e = last_printable_end_of(chunk);
                proof {
                    lemma_last_printable_end(chunk@);
                }
                if e > 0 {
                    last_end = pos + e as u64;
                }
                match text_cut(chunk) {
                    Some(_) => {
                        proof {
                            assert(text_reads(reader, start as int, limit as int, outs));
                    lemma_text_ends_printable(start as int, limit as int, outs);
                    reveal(text_measured);
                        }
                        return last_end;
                    },
                    None => {},
                }
                pos = pos + n as u64;
                proof {
                    assert forall|k: int| 0 <= k < outs.len() implies text_goes_on(start as int, limit as int, outs.take(k), #[trigger] outs[k]) by {
                        if k < before.len() {
                            assert(outs.take(k) == before.take(k) && outs[k] == before[k]);
                        } else {
                            assert(outs.take(k) == before);
                        }
                    }
                }
            },
            None => {
                proof {
                    assert(text_reads(reader, start as int, limit as int, outs));
                    lemma_text_ends_printable(start as int, limit as int, outs);
                    reveal(text_measured);
                }
                return last_end;
            },
        }
    }
    proof {
        if outs.len() > 0 {
            assert(outs.take(outs.len() - 1) =~= outs.drop_last());
            assert(text_goes_on(start as int, limit as int, outs.take(outs.len() - 1), outs[outs.len() - 1]));
        }
        assert(text_reads(reader, start as int, limit as int, outs));
                    lemma_text_ends_printable(start as int, limit as int, outs);
                    reveal(text_measured);
    }
    last_end
}

// ── File end ─────────────────────────────────────────────────────────────

/// `s[i..i + 512]` is all zero bytes.
pub open spec fn zeros_at(s: Seq<u8>, i: int) -> bool {
    0 <= i && i + 512 <= s.len() && forall|j: int| i <= j < i + 512 ==> s[j] == 0
}

/// `s` holds 512 consecutive zero bytes somewhere.
pub open spec fn has_zero_run(s: Seq<u8>) -> bool {
    exists|i: int| #[trigger] zeros_at(s, i)
}

/// Whether `s` holds 512 consecutive zero bytes (an erased sector).
pub fn contains_zero_run(s: &[u8]) -> (r: bool)
    ensures
        r == has_zero_run(s@),
{
    let mut run: usize = 0;
    let mut i: usize = 0;
    while i < s.len()
        invariant
            i <= s@.len(),
            run <= i,
            run < 512,
            forall|j: int| i - run <= j < i ==> s@[j] == 0,
            i > run ==> s@[i - run - 1] != 0,
            forall|a: int| a + 512 <= i ==> !#[trigger] zeros_at(s@, a),
        decreases s.len() - i,
    {
        if s[i] == 0 {
            if run == 511 {
                assert(zeros_at(s@, i + 1 - 512));
                return true;
            }
            run += 1;
        } else {
            run = 0;
        }
        assert forall|a: int| a + 512 <= i + 1 implies !#[trigger] zeros_at(s@, a) by {
            if a + 512 == i + 1 && a >= 0 {
                if s@[i as int] != 0 {
                    assert(!(s@[i as int] == 0));
                } else {
                    assert(a <= i - run);
                    assert(s@[i - run] != 0);
                }
            }
        }
        i += 1;
    }
    assert forall|a: int| !#[trigger] zeros_at(s@, a) by {
        if zeros_at(s@, a) {
            assert(a + 512 <= i);
        }
    }
    false
}


/// Progress of a footer search: where the next block starts, how many blocks
/// after the first sector held an erased sector, and whether the file counts
/// as fragmented.
pub struct FooterSearch {
    pub pos: u64,
    pub gaps: u64,
    pub fragmented: bool,
}

/// Outcome of one block of a footer search.
pub enum FooterStep {
    /// The footer ends at `end`.
    Found { end: u64, fragmented: bool },
    /// No footer in the block; the search goes on from here.
    Continue(FooterSearch),
}

/// A block read at `pos` past the first sector of a search from `start`
/// holds an erased sector.
pub open spec fn gap_block(start: u64, pos: u64, chunk: Seq<u8>) -> bool {
    has_zero_run(chunk) && pos > start + SECTOR_SIZE
}

/// Takes one block `chunk` read at `st.pos` in the search for `footer` that
/// began at `start`: a block past the first sector with an erased sector
/// counts as a gap, and more than two gaps make the file fragmented; the
/// first occurrence of the footer in the block ends the file just past it.
pub fn footer_step(start: u64, st: FooterSearch, chunk: &[u8], footer: &[u8]) -> (r: FooterStep)
    requires
        st.pos + chunk@.len() <= u64::MAX,
        st.gaps < u64::MAX,
    ensures
        ({
            let gap = gap_block(start, st.pos, chunk@);
            let gaps = if gap { st.gaps + 1 } else { st.gaps as int };
            let frag = st.fragmented || (gap && gaps > 2);
            match r {
                FooterStep::Found { end, fragmented } => fragmented == frag && exists|p: int|
                    bytes::occurs_at(chunk@, footer@, p) && (forall|q: int| 0 <= q < p ==> !bytes::occurs_at(chunk@, footer@, q))
                        && end == st.pos + p + footer@.len(),
                FooterStep::Continue(s) => !bytes::occurs_in(chunk@, footer@) && s.pos == st.pos + chunk@.len()
                    && s.gaps == gaps && s.fragmented == frag,
            }
        }),
{
    let mut gaps = st.gaps;
    let mut fragmented = st.fragmented;
    if contains_zero_run(chunk) && st.pos > start && st.pos - start > SECTOR_SIZE {
        gaps += 1;
        if gaps > 2 {
            fragmented = true;
        }
    }
    match find_first(chunk, footer) {
        Some(found) => FooterStep::Found { end: st.pos + found as u64 + footer.len() as u64, fragmented },
        None => FooterStep::Continue(FooterSearch { pos: st.pos + chunk.len() as u64, gaps, fragmented }),
    }
}

/// Where a footer search from `start` stops: `max_size` bytes on, or the end
/// of the device.
pub open spec fn footer_search_end(start: u64, max_size: u64, total: u64) -> u64 {
    if start + max_size < total {
        (start + max_size) as u64
    } else {
        total
    }
}

/// What `footer_step` gives for a block `chunk` read at `st.pos` in the
/// search for `footer` from `start`.
pub open spec fn spec_footer_step(start: u64, st: FooterSearch, chunk: Seq<u8>, footer: Seq<u8>) -> FooterStep {
    let gap = gap_block(start, st.pos, chunk);
    let gaps = if gap { st.gaps + 1 } else { st.gaps as int };
    let frag = st.fragmented || (gap && gaps > 2);
    if bytes::occurs_in(chunk, footer) {
        FooterStep::Found { end: (st.pos + bytes::first_occurrence(chunk, footer) + footer.len()) as u64, fragmented: frag }
    } else {
        FooterStep::Continue(FooterSearch { pos: (st.pos + chunk.len()) as u64, gaps: gaps as u64, fragmented: frag })
    }
}

/// How many bytes a footer search at `pos` reads below `end`: a block, or
/// what is left.
pub open spec fn footer_request(pos: u64, end: u64) -> int {
    if end - pos < BLOCK_SIZE {
        end - pos
    } else {
        BLOCK_SIZE as int
    }
}

/// One block of a footer search from state `s0` (search state and the end
/// of the last block read) to `s1`, the read giving `out`: a failed read
/// skips a sector; a block with bytes and no footer moves past them.
pub open spec fn footer_read_ok<R: BlockReader>(
    reader: &R,
    start: u64,
    end: u64,
    footer: Seq<u8>,
    s0: (FooterSearch, u64),
    out: Option<Vec<u8>>,
    s1: (FooterSearch, u64),
) -> bool {
    let req = footer_request(s0.0.pos, end);
    &&& s0.0.pos < end
    &&& can_read(reader, s0.0.pos, req as usize, out)
    &&& match out {
        None => s1 == (FooterSearch { pos: (s0.0.pos + SECTOR_SIZE) as u64, ..s0.0 }, s0.1),
        Some(_) => {
            let c = delivered_bytes(out, req);
            &&& c.len() > 0
            &&& spec_footer_step(start, s0.0, c, footer) matches FooterStep::Continue(next)
            &&& s1 == (next, next.pos)
        },
    }
}

/// The bytes a read result delivers, at most `req` of them; none for a
/// failed read.
pub open spec fn delivered_bytes(out: Option<Vec<u8>>, req: int) -> Seq<u8> {
    match out {
        Some(v) => if v@.len() < req {
            v@
        } else {
            v@.take(req)
        },
        None => Seq::empty(),
    }
}

/// `r` is what a search for `footer` from `start` below `end` can give:
/// through the blocks `outs` (states `states`), it ends at a block holding
/// the footer (just past it), or, at the end of the range or at a read that
/// delivered nothing, at the end of the last block read, fragmented.
pub open spec fn footer_search_ok<R: BlockReader>(
    reader: &R,
    start: u64,
    end: u64,
    footer: Seq<u8>,
    states: Seq<(FooterSearch, u64)>,
    outs: Seq<Option<Vec<u8>>>,
    last: Option<Option<Vec<u8>>>,
    r: (u64, bool),
) -> bool {
    let s = states.last();
    &&& states.len() == outs.len() + 1
    &&& states[0] == (FooterSearch { pos: start, gaps: 0, fragmented: false }, start)
    &&& forall|k: int| 0 <= k < outs.len() ==> footer_read_ok(reader, start, end, footer, states[k], #[trigger] outs[k], states[k + 1])
    &&& match last {
        None => s.0.pos >= end && r == (s.1, true),
        Some(out) => {
            let req = footer_request(s.0.pos, end);
            let c = delivered_bytes(out, req);
            &&& s.0.pos < end
            &&& can_read(reader, s.0.pos, req as usize, out)
            &&& out is Some
            &&& if c.len() == 0 {
                r == (s.1, true)
            } else {
                spec_footer_step(start, s.0, c, footer) matches FooterStep::Found { end: e, fragmented: fr } && r == (e, fr)
            }
        },
    }
}

/// Where a carved file ends, scanning forward from `start` for its footer,
/// block by block, up to `start + max_size` or the end of the device:
/// - without a footer: that limit, not fragmented;
/// - footer found in a block: just past it (see `footer_step`);
/// - footer not found: the end of the last block read, fragmented.
/// A block that cannot be read is skipped one sector at a time; an empty
/// read ends the search.  The footer is looked for within single blocks.
#[verifier::spinoff_prover]
#[verifier::rlimit(80)]
pub fn find_file_end<R: BlockReader>(
    reader: &R,
    start: u64,
    footer: &Option<Vec<u8>>,
    max_size: u64,
    total_size: u64,
) -> (r: (u64, bool))
    requires
        start <= u64::MAX - max_size,
        max_size <= u64::MAX - BLOCK_SIZE - SECTOR_SIZE - start,
        footer matches Some(f) ==> f@.len() > 0,
    ensures
        footer is None ==> r == (
            if start + max_size < total_size { (start + max_size) as u64 } else { total_size },
            false,
        ),
        footer is Some ==> start <= r.0,
        r.0 <= start || r.0 <= footer_search_end(start, max_size, total_size),
        footer matches Some(f) ==> exists|states: Seq<(FooterSearch, u64)>, outs: Seq<Option<Vec<u8>>>, last: Option<Option<Vec<u8>>>|
            #[trigger] footer_search_ok(
                reader,
                start,
                footer_search_end(start, max_size, total_size),
                f@,
                states,
                outs,
                last,
                r,
            ),
{
    let search_end = if start + max_size < total_size { start + max_size } else { total_size };
    let pat = match footer {
        None => return (search_end, false),
        Some(f) => f,
    };
    let mut st = FooterSearch { pos: start, gaps: 0, fragmented: false };
    let mut last_good_pos = start;
    let ghost mut states: Seq<(FooterSearch, u64)> = seq![(st, last_good_pos)];
    let ghost mut outs: Seq<Option<Vec<u8>>> = Seq::empty();
    while st.pos < search_end
        invariant
            footer == Some(*pat),
            pat@.len() > 0,
            search_end == footer_search_end(start, max_size, total_size),
            states.len() == outs.len() + 1,
            states[0] == (FooterSearch { pos: start, gaps: 0, fragmented: false }, start),
            forall|k: int| 0 <= k < outs.len() ==> footer_read_ok(reader, start, search_end, pat@, states[k], #[trigger] outs[k], states[k + 1]),
            states.last() == (st, last_good_pos),
            start <= st.pos,
            st.pos <= start + max_size + SECTOR_SIZE,
            search_end <= start + max_size,
            start <= last_good_pos <= st.pos,
            last_good_pos == start || last_good_pos <= search_end,
            footer is Some,
            st.gaps <= st.pos - start,
            max_size <= u64::MAX - BLOCK_SIZE - SECTOR_SIZE - start,
        decreases (if st.pos < search_end { search_end - st.pos } else { 0 }),
    {
        let to_read: usize = if search_end - st.pos < BLOCK_SIZE as u64 {
            (search_end - st.pos) as usize
        } else {
            BLOCK_SIZE
        };
        let out = reader.read_at(st.pos, to_read);
        let ghost og = out;
        let ghost s0 = (st, last_good_pos);
        proof {
            assert(can_read(reader, st.pos, to_read, out));
            assert(to_read as int == footer_request(st.pos, search_end));
        }
        match out {
            Some(buf) => {
                let n = if buf.len() < to_read { buf.len() } else { to_read };
                proof {
                    assert(buf@.take(n as int) =~= delivered_bytes(og, to_read as int));
                }
                if n == 0 {
                    proof {
                        assert(footer_search_ok(reader, start, search_end, pat@, states, outs, Some(og), (last_good_pos, true)));
                        assert(footer_search_ok(reader, start, footer_search_end(start, max_size, total_size), pat@, states, outs, Some(og), (last_good_pos, true)));
                        assert(footer->0@ == pat@);
                    }
                    return (last_good_pos, true);
                }
                let chunk = vstd::slice::slice_subrange(buf.as_slice(), 0, n);
                let pos = st.pos;
                let step = footer_step(start, st, chunk, pat.as_slice());
                proof {
                    lemma_footer_step_spec(start, st, chunk@, pat@, step);
                }
                match step {
                    FooterStep::Found { end, fragmented } => {
                        proof {
                            assert(footer_search_ok(reader, start, search_end, pat@, states, outs, Some(og), (end, fragmented)));
                            assert(footer_search_ok(reader, start, footer_search_end(start, max_size, total_size), pat@, states, outs, Some(og), (end, fragmented)));
                            assert(footer->0@ == pat@);
                        }
                        return (end, fragmented);
                    },
                    FooterStep::Continue(next) => {
                        st = next;
                    },
                }
                last_good_pos = st.pos;
                assert(st.pos == pos + n);
            },
            None => {
                st.pos = st.pos + SECTOR_SIZE;
            },
        }
        proof {
            let ghost_states0 = states;
            let outs0 = outs;
            assert(footer_read_ok(reader, start, search_end, pat@, s0, og, (st, last_good_pos)));
            states = states.push((st, last_good_pos));
            outs = outs.push(og);
            assert forall|k: int| 0 <= k < outs.len() implies footer_read_ok(reader, start, search_end, pat@, states[k], #[trigger] outs[k], states[k + 1]) by {
                if k < outs0.len() {
                    assert(states[k] == ghost_states0[k]);
                    assert(states[k + 1] == ghost_states0[k + 1]);
                    assert(outs[k] == outs0[k]);
                }
            }
        }
    }
    proof {
        assert(footer_search_ok(reader, start, search_end, pat@, states, outs, None, (last_good_pos, true)));
    }
    (last_good_pos, true)
}

/// `footer_step` gives what `spec_footer_step` says.
proof fn lemma_footer_step_spec(start: u64, st: FooterSearch, chunk: Seq<u8>, footer: Seq<u8>, r: FooterStep)
    requires
        ({
            let gap = gap_block(start, st.pos, chunk);
            let gaps = if gap { st.gaps + 1 } else { st.gaps as int };
            let frag = st.fragmented || (gap && gaps > 2);
            match r {
                FooterStep::Found { end, fragmented } => fragmented == frag && exists|p: int|
                    bytes::occurs_at(chunk, footer, p) && (forall|q: int| 0 <= q < p ==> !bytes::occurs_at(chunk, footer, q))
                        && end == st.pos + p + footer.len(),
                FooterStep::Continue(s) => !bytes::occurs_in(chunk, footer) && s.pos == st.pos + chunk.len()
                    && s.gaps == gaps && s.fragmented == frag,
            }
        }),
    ensures
        r == spec_footer_step(start, st, chunk, footer),
{
    match r {
        FooterStep::Found { end, fragmented } => {
            let p = choose|p: int|
                bytes::occurs_at(chunk, footer, p) && (forall|q: int| 0 <= q < p ==> !bytes::occurs_at(chunk, footer, q))
                    && end == st.pos + p + footer.len();
            bytes::lemma_first_occurrence(chunk, footer, p);
        },
        FooterStep::Continue(s) => {},
    }
}

// ── Record fields ───────────────────────────────────────────────────────────

/// Estimated recovery chance in percent: 100, minus 35 when fragmented, plus
/// 10 below 4 KiB or minus 20 above 50 MiB, minus 15 within the first GiB,
/// kept between 5 and 100.
pub open spec fn spec_recovery_percent(offset: u64, size: u64, fragmented: bool) -> u8 {
    let p = 100 - (if fragmented { 35int } else { 0int }) + (if size < 4096 {
        10int
    } else if size > 50 * 1024 * 1024 {
        -20int
    } else {
        0int
    }) - (if offset < 1024 * 1024 * 1024 { 15int } else { 0int });
    if p < 5 {
        5
    } else if p > 100 {
        100
    } else {
        p as u8
    }
}

/// Estimates the chance of recovering a carved file, in percent.
pub fn calculate_recovery_probability(offset: u64, size: u64, is_fragmented: bool) -> (r: u8)
    ensures
        r == spec_recovery_percent(offset, size, is_fragmented),
        5 <= r <= 100,
        !is_fragmented ==> r >= 65,
{
    let mut prob: i32 = 100;
    if is_fragmented {
        prob -= 35;
    }
    if size < 4096 {
        prob += 10;
    } else if size > 50 * 1024 * 1024 {
        prob -= 20;
    }
    if offset < 1024 * 1024 * 1024 {
        prob -= 15;
    }
    if prob < 5 {
        5
    } else if prob > 100 {
        100
    } else {
        prob as u8
    }
}

/// A carved file counts as overwritten below a 30% recovery chance; the
/// 30% case itself counts too, as its single-precision value (0.29999998)
/// lies just below 0.3.
pub open spec fn spec_overwritten(percent: u8) -> bool {
    percent <= 30
}

/// Upper-case hexadecimal digit of a value below 16.
pub open spec fn hex_digit(d: int) -> char {
    if d < 10 {
        (('0' as int) + d) as char
    } else {
        (('A' as int) + d - 10) as char
    }
}

/// Two upper-case hexadecimal digits of a byte.
pub open spec fn hex_byte(b: u8) -> Seq<char> {
    seq![hex_digit(b as int / 16), hex_digit(b as int % 16)]
}

/// Bytes as two-digit hex numbers separated by ", ".
pub open spec fn hex_joined(bs: Seq<u8>) -> Seq<char>
    decreases bs.len(),
{
    if bs.len() == 0 {
        Seq::empty()
    } else if bs.len() == 1 {
        hex_byte(bs[0])
    } else {
        hex_joined(bs.drop_last()) + seq![',', ' '] + hex_byte(bs.last())
    }
}

/// A byte list as `{:02X?}` prints it: "[FF, D8, FF]".
pub open spec fn hex_list(bs: Seq<u8>) -> Seq<char> {
    seq!['['] + hex_joined(bs) + seq![']']
}

fn hex_digit_char(d: u8) -> (c: char)
    requires
        d < 16,
    ensures
        c == hex_digit(d as int),
{
    if d < 10 {
        ((0x30u8 + d) as char)
    } else {
        ((0x41u8 + d - 10) as char)
    }
}

/// The first (up to) four bytes of a header, printed as a hex list, the
/// label of a signature match.
pub fn header_label(header: &[u8]) -> (r: String)
    ensures
        r@ == hex_list(header@.take(if header@.len() < 4 { header@.len() as int } else { 4 })),
{
    let n: usize = if header.len() < 4 { header.len() } else { 4 };
    let ghost bs = header@.take(n as int);
    let mut out: Vec<char> = Vec::new();
    out.push('[');
    let mut i: usize = 0;
    while i < n
        invariant
            i <= n,
            n <= header@.len(),
            bs == header@.take(n as int),
            out@ == seq!['['] + hex_joined(bs.take(i as int)),
        decreases n - i,
    {
        let b = header[i];
        if i > 0 {
            out.push(',');
            out.push(' ');
        }
        out.push(hex_digit_char(b / 16));
        out.push(hex_digit_char(b % 16));
        proof {
            let t = bs.take(i + 1);
            assert(t.drop_last() =~= bs.take(i as int));
            assert(t.last() == b);
            assert(hex_byte(b) == seq![hex_digit(b as int / 16), hex_digit(b as int % 16)]);
            if i == 0 {
                assert(bs.take(0) =~= Seq::<u8>::empty());
            }
        }
        i += 1;
        assert(out@ =~= seq!['['] + hex_joined(bs.take(i as int)));
    }
    out.push(']');
    assert(bs.take(n as int) =~= bs);
    assert(out@ =~= hex_list(bs));
    string_from_chars(&out)
}

/// The secondary check of a signature passes at header position `local`.
pub open spec fn spec_verify_ok(window: Seq<u8>, local: int, verify: Option<(usize, Seq<u8>)>) -> bool {
    match verify {
        None => true,
        Some((off, bytes)) => bytes::occurs_at(window, bytes, local + off),
    }
}

/// Checks the secondary pattern of a signature at header position `local`.
pub fn verify_ok(window: &[u8], local: usize, verify: &Option<(usize, Vec<u8>)>) -> (r: bool)
    requires
        local <= window@.len(),
    ensures
        r == spec_verify_ok(
            window@,
            local as int,
            match verify {
                Some((o, b)) => Some((*o, b@)),
                None => None,
            },
        ),
{
    match verify {
        None => true,
        Some((v_off, v_bytes)) => {
            if *v_off > window.len() - local {
                return false;
            }
            matches_at(window, v_bytes.as_slice(), local + *v_off)
        },
    }
}

/// Absolute device offset of position `local` of a window whose data starts
/// at device offset `offset` after the 32-byte overlap (clamped at 0).
pub open spec fn window_offset(offset: u64, local: int) -> u64 {
    if offset + local >= OVERLAP_SIZE {
        (offset + local - OVERLAP_SIZE) as u64
    } else {
        0
    }
}

// ── ZIP subtypes ───────────────────────────────────────────────────────────

/// Office subtype of a ZIP archive from the names in its first local file
/// headers: "word/" makes DOCX, "xl/" XLSX, "ppt/" PPTX, and otherwise ZIP.
pub open spec fn spec_zip_subtype(data: Seq<u8>) -> FileTypeView {
    if bytes::occurs_in(data, seq![0x77u8, 0x6F, 0x72, 0x64, 0x2F]) {
        FileTypeView::DOCX
    } else if bytes::occurs_in(data, seq![0x78u8, 0x6C, 0x2F]) {
        FileTypeView::XLSX
    } else if bytes::occurs_in(data, seq![0x70u8, 0x70, 0x74, 0x2F]) {
        FileTypeView::PPTX
    } else {
        FileTypeView::ZIP
    }
}

/// Refines a ZIP-signature match by the Office folder names in `data`.
pub fn zip_subtype(data: &[u8]) -> (r: FileType)
    ensures
        r@ == spec_zip_subtype(data@),
{
    let word: Vec<u8> = vec![0x77u8, 0x6F, 0x72, 0x64, 0x2F];
    let xl: Vec<u8> = vec![0x78u8, 0x6C, 0x2F];
    let ppt: Vec<u8> = vec![0x70u8, 0x70, 0x74, 0x2F];
    assert(word@ =~= seq![0x77u8, 0x6F, 0x72, 0x64, 0x2F]);
    assert(xl@ =~= seq![0x78u8, 0x6C, 0x2F]);
    assert(ppt@ =~= seq![0x70u8, 0x70, 0x74, 0x2F]);
    if contains_pattern(data, word.as_slice()) {
        FileType::DOCX
    } else if contains_pattern(data, xl.as_slice()) {
        FileType::XLSX
    } else if contains_pattern(data, ppt.as_slice()) {
        FileType::PPTX
    } else {
        FileType::ZIP
    }
}

/// A ZIP-based Office type or a plain ZIP.
pub open spec fn is_zip_family(t: FileTypeView) -> bool {
    t == FileTypeView::DOCX || t == FileTypeView::XLSX || t == FileTypeView::PPTX || t == FileTypeView::ZIP
}

/// The first 2 KiB of a read result; nothing for a failed read.
pub open spec fn zip_head(out: Option<Vec<u8>>) -> Seq<u8> {
    match out {
        Some(v) => if v@.len() < 2048 {
            v@
        } else {
            v@.take(2048)
        },
        None => Seq::empty(),
    }
}

/// `t` is the type that a 2 KiB read at `offset` can refine a ZIP match
/// into.
pub open spec fn zip_refined_by<R: BlockReader>(reader: &R, offset: u64, t: FileTypeView) -> bool {
    exists|out: Option<Vec<u8>>| #[trigger] can_read(reader, offset, 2048, out) && t == spec_zip_subtype(zip_head(out))
}

/// Reads up to 2 KiB at `offset` and refines a ZIP match from them (an
/// unreadable offset reads as empty, giving ZIP).
pub fn detect_zip_subtype<R: BlockReader>(reader: &R, offset: u64) -> (r: FileType)
    ensures
        is_zip_family(r@),
        zip_refined_by(reader, offset, r@),
{
    let out = reader.read_at(offset, 2048);
    proof {
        assert(can_read(reader, offset, 2048, out));
    }
    let data: Vec<u8> = match out {
        Some(v) => v,
        None => Vec::new(),
    };
    let n = if data.len() < 2048 { data.len() } else { 2048 };
    let head = vstd::slice::slice_subrange(data.as_slice(), 0, n);
    assert(head@ =~= zip_head(out));
    zip_subtype(head)
}

// ── Carving ─────────────────────────────────────────────────────────────────

/// Types that carving produces before ZIP refinement: the signature types
/// and TXT.
pub open spec fn carvable(t: FileTypeView) -> bool {
    t == FileTypeView::JPEG || t == FileTypeView::PNG || t == FileTypeView::GIF || t
        == FileTypeView::TIFF || t == FileTypeView::BMP || t == FileTypeView::PDF || t
        == FileTypeView::DOCX || t == FileTypeView::DOC || t == FileTypeView::RAR || t
        == FileTypeView::SevenZ || t == FileTypeView::EXE || t == FileTypeView::MP4 || t
        == FileTypeView::AVI || t == FileTypeView::MKV || t == FileTypeView::MP3 || t
        == FileTypeView::WAV || t == FileTypeView::FLAC || t == FileTypeView::SQLite || t
        == FileTypeView::TXT
}

/// A signature of the table: a non-empty header, a non-empty footer if any,
/// a size limit of at most 4 GiB, and a carvable type other than TXT (text
/// is found by its content).
pub open spec fn sig_well_formed(s: SignatureView) -> bool {
    &&& s.header.len() > 0
    &&& (s.footer matches Some(f) ==> f.len() > 0)
    &&& s.max_size <= 4 * 1024 * 1024 * 1024
    &&& carvable(s.file_type)
    &&& s.file_type != FileTypeView::TXT
}

/// Every entry of the signature table is well formed.
pub proof fn lemma_signature_table_well_formed()
    ensures
        forall|i: int| 0 <= i < types::signature_table().len() ==> sig_well_formed(#[trigger] types::signature_table()[i]),
{
    assert forall|i: int| 0 <= i < types::signature_table().len() implies sig_well_formed(#[trigger] types::signature_table()[i]) by {
        if i == 0 {
        } else if i == 1 {
        } else if i == 2 {
        } else if i == 3 {
        } else if i == 4 {
        } else if i == 5 {
        } else if i == 6 {
        } else if i == 7 {
        } else if i == 8 {
        } else if i == 9 {
        } else if i == 10 {
        } else if i == 11 {
        } else if i == 12 {
        } else if i == 13 {
        } else if i == 14 {
        } else if i == 15 {
        } else if i == 16 {
        } else if i == 17 {
        } else if i == 18 {
        } else if i == 19 {
        } else if i == 20 {
        } else if i == 21 {
        } else if i == 22 {
        } else if i == 23 {
        }
    }
}

/// Bytes a match of a signature spans from its start: the header, and the
/// secondary pattern at its offset when there is one.
pub open spec fn sig_span(s: SignatureView) -> int {
    match s.verify {
        Some((o, b)) => s.header.len() + o + b.len(),
        None => s.header.len() as int,
    }
}

/// The overlap between blocks is wide enough for every signature: no
/// signature spans more than the 32 bytes kept from the previous block, so
/// a match cut by a block boundary lies whole in the next window.
pub proof fn lemma_overlap_covers_signatures()
    ensures
        forall|i: int| 0 <= i < types::signature_table().len() ==> sig_span(#[trigger] types::signature_table()[i]) <= OVERLAP_SIZE,
{
    assert forall|i: int| 0 <= i < types::signature_table().len() implies sig_span(#[trigger] types::signature_table()[i]) <= OVERLAP_SIZE by {
        if i == 0 {
        } else if i == 1 {
        } else if i == 2 {
        } else if i == 3 {
        } else if i == 4 {
        } else if i == 5 {
        } else if i == 6 {
        } else if i == 7 {
        } else if i == 8 {
        } else if i == 9 {
        } else if i == 10 {
        } else if i == 11 {
        } else if i == 12 {
        } else if i == 13 {
        } else if i == 14 {
        } else if i == 15 {
        } else if i == 16 {
        } else if i == 17 {
        } else if i == 18 {
        } else if i == 19 {
        } else if i == 20 {
        } else if i == 21 {
        } else if i == 22 {
        } else if i == 23 {
        }
    }
}

/// Whether a type passes an optional type filter (no filter admits all).
pub open spec fn type_admitted(t: FileTypeView, allowed: Option<Seq<FileTypeView>>) -> bool {
    match allowed {
        None => true,
        Some(l) => l.contains(t),
    }
}

/// Model of an optional list of types.
pub open spec fn types_view(v: &Option<Vec<FileType>>) -> Option<Seq<FileTypeView>> {
    match v {
        Some(l) => Some(l@.map_values(|t: FileType| t@)),
        None => None,
    }
}

/// A carving monitor: tells the scan when to stop and hears its progress.
pub trait ScanMonitor {
    /// Whether the scan should stop before its next block.
    fn cancelled(&self) -> bool;

    /// Called after each block with the bytes scanned so far, the device
    /// size and the number of files found so far.
    fn progress(&self, bytes_scanned: u64, total_bytes: u64, files_found: u64);
}

/// `end - start`, or 0 when `end` is not past `start`.
pub open spec fn span(start: u64, end: u64) -> u64 {
    if end >= start {
        (end - start) as u64
    } else {
        0
    }
}

/// A text record: type TXT, label "TEXT", 128 bytes to 10 MiB, outside the
/// first 4 KiB of the device, not fragmented.
pub open spec fn text_record(f: RecoveredFile) -> bool {
    &&& f.file_type@ == FileTypeView::TXT
    &&& f.signature_matched@ == seq!['T', 'E', 'X', 'T']
    &&& f.size_bytes >= 128
    &&& f.size_bytes <= MAX_TXT
    &&& f.offset_start >= 4096
    &&& !f.is_fragmented
}

/// The first (up to) four bytes of a header.
pub open spec fn header4(h: Seq<u8>) -> Seq<u8> {
    h.take(if h.len() < 4 { h.len() as int } else { 4 })
}

/// A signature record of type `t`: some signature of the table has type `t`,
/// the record's label is the hex list of that signature's first header
/// bytes, and the record is at most the signature's size limit long.
pub open spec fn signature_record(f: RecoveredFile, t: FileTypeView) -> bool {
    exists|i: int|
        0 <= i < types::signature_table().len() && (#[trigger] types::signature_table()[i]).file_type == t
            && f.signature_matched@ == hex_list(header4(types::signature_table()[i].header))
            && f.size_bytes <= types::signature_table()[i].max_size
}

/// A record that carving under type filter `allowed`, on a device of `total`
/// bytes, produces with type `t`: an end not before its start and within
/// the device, a size that is their distance, consistent fields (previewable by `t`), a carvable type
/// the filter admits, a start on the device, and either a text record or a
/// signature record of type `t`.
pub open spec fn carved_as(f: RecoveredFile, t: FileTypeView, allowed: Option<Seq<FileTypeView>>, total: u64) -> bool {
    &&& f.offset_start <= f.offset_end
    &&& f.offset_end <= total
    &&& f.size_bytes == f.offset_end - f.offset_start
    &&& f.recovery_percent == spec_recovery_percent(f.offset_start, f.size_bytes, f.is_fragmented)
    &&& f.fragment_count == (if f.is_fragmented { 2u32 } else { 1u32 })
    &&& f.sector_overwritten == spec_overwritten(f.recovery_percent)
    &&& f.preview_available == t.previewable()
    &&& f.thumbnail_base64.is_none()
    &&& f.original_name.is_none()
    &&& carvable(t)
    &&& type_admitted(t, allowed)
    &&& f.offset_start < total
    &&& (text_record(f) || signature_record(f, t))
}

/// A record as carving produces it, before ZIP refinement.
pub open spec fn carved_ok(f: RecoveredFile, allowed: Option<Seq<FileTypeView>>, total: u64) -> bool {
    carved_as(f, f.file_type@, allowed, total)
}

/// Records carved so far: ids count up from 0 and each is a carved record.
pub open spec fn records_ok(s: Seq<RecoveredFile>, allowed: Option<Seq<FileTypeView>>, total: u64) -> bool {
    forall|k: int| 0 <= k < s.len() ==> (#[trigger] s[k]).id == k && carved_ok(s[k], allowed, total)
}

/// A record of a finished scan: a carved record, or a carved DOCX record
/// that ZIP refinement turned into DOCX, XLSX, PPTX or ZIP.
pub open spec fn scanned_ok(f: RecoveredFile, allowed: Option<Seq<FileTypeView>>, total: u64) -> bool {
    ||| carved_ok(f, allowed, total)
    ||| (is_zip_family(f.file_type@) && carved_as(f, FileTypeView::DOCX, allowed, total))
}

/// Largest device size the carver handles (2^62 bytes).
pub const MAX_DEVICE_SIZE: u64 = 0x4000_0000_0000_0000;

/// Signature and text carver for one device.
pub struct FileCarver {
    device_path: String,
    /// When `Some`, only signatures whose type is in this list are used (and
    /// text only when TXT is in it).  `None` scans for all types.
    allowed_types: Option<Vec<FileType>>,
}

/// Absolute offset of window position `local` (see `window_offset`).
fn abs_window_offset(offset: u64, local: usize) -> (r: u64)
    requires
        offset <= MAX_DEVICE_SIZE,
        local <= BLOCK_SIZE + OVERLAP_SIZE,
    ensures
        r == window_offset(offset, local as int),
{
    if offset + local as u64 >= OVERLAP_SIZE as u64 {
        offset + local as u64 - OVERLAP_SIZE as u64
    } else {
        0
    }
}

impl FileCarver {
    /// The device this carver scans.
    pub closed spec fn path(&self) -> Seq<char> {
        self.device_path@
    }

    /// The type filter of this carver.
    pub closed spec fn allowed(&self) -> Option<Seq<FileTypeView>> {
        types_view(&self.allowed_types)
    }

    pub fn new(device_path: String, allowed_types: Option<Vec<FileType>>) -> (r: Self)
        ensures
            r.path() == device_path@,
            r.allowed() == types_view(&allowed_types),
    {
        Self { device_path, allowed_types }
    }

    /// Whether the type filter admits `t`.
    pub fn admits(&self, t: &FileType) -> (r: bool)
        ensures
            r == type_admitted(t@, self.allowed()),
    {
        match &self.allowed_types {
            None => true,
            Some(list) => {
                let r = t.is_in(list);
                proof {
                    let lv = list@.map_values(|x: FileType| x@);
                    if r {
                        let i = choose|i: int| 0 <= i < list@.len() && list@[i]@ == t@;
                        assert(lv[i] == t@);
                    } else {
                        assert forall|i: int| 0 <= i < lv.len() implies lv[i] != t@ by {
                            assert(lv[i] == list@[i]@);
                        }
                    }
                }
                r
            },
        }
    }

    /// The signatures the carver uses: those of `signature_table` whose type
    /// the filter admits, in table order.
    pub fn active_signatures(&self) -> (r: Vec<FileSignature>)
        ensures
            forall|k: int| 0 <= k < r@.len() ==> exists|i: int|
                0 <= i < types::signature_table().len() && #[trigger] r@[k]@ == types::signature_table()[i]
                    && type_admitted(r@[k]@.file_type, self.allowed()),
            forall|i: int| 0 <= i < types::signature_table().len() && type_admitted(
                #[trigger] types::signature_table()[i].file_type,
                self.allowed(),
            ) ==> exists|k: int| 0 <= k < r@.len() && r@[k]@ == types::signature_table()[i],
    {
        let mut all = FileSignature::all_signatures();
        let ghost table = types::signature_table();
        let ghost orig = all@;
        let mut kept: Vec<FileSignature> = Vec::new();
        let mut idx: usize = 0;
        while all.len() > 0
            invariant
                table == types::signature_table(),
                orig.len() == table.len(),
                forall|i: int| 0 <= i < orig.len() ==> #[trigger] orig[i]@ == table[i],
                idx + all@.len() == orig.len(),
                forall|j: int| 0 <= j < all@.len() ==> #[trigger] all@[j] == orig[idx + j],
                forall|k: int| 0 <= k < kept@.len() ==> exists|i: int|
                    0 <= i < table.len() && #[trigger] kept@[k]@ == table[i] && type_admitted(kept@[k]@.file_type, self.allowed()),
                forall|i: int| 0 <= i < idx && type_admitted(#[trigger] table[i].file_type, self.allowed())
                    ==> exists|k: int| 0 <= k < kept@.len() && kept@[k]@ == table[i],
            decreases all.len(),
        {
            let sig = all.remove(0);
            assert(sig == orig[idx as int]);
            let ghost before = kept@;
            if self.admits(&sig.file_type) {
                kept.push(sig);
                assert forall|i: int| 0 <= i < idx + 1 && type_admitted(#[trigger] table[i].file_type, self.allowed())
                    implies exists|k: int| 0 <= k < kept@.len() && kept@[k]@ == table[i] by {
                    if i < idx {
                        let k = choose|k: int| 0 <= k < before.len() && before[k]@ == table[i];
                        assert(kept@[k] == before[k]);
                    } else {
                        assert(kept@[kept@.len() - 1]@ == table[i]);
                    }
                }
                assert forall|k: int| 0 <= k < kept@.len() implies exists|i: int|
                    0 <= i < table.len() && #[trigger] kept@[k]@ == table[i] && type_admitted(kept@[k]@.file_type, self.allowed()) by {
                    if k < before.len() {
                        assert(kept@[k] == before[k]);
                    } else {
                        assert(kept@[k]@ == table[idx as int]);
                    }
                }
            } else {
                assert(sig@ == table[idx as int]);
                assert(!type_admitted(table[idx as int].file_type, self.allowed()));
                assert forall|i: int| 0 <= i < idx + 1 && type_admitted(#[trigger] table[i].file_type, self.allowed())
                    implies exists|k: int| 0 <= k < kept@.len() && kept@[k]@ == table[i] by {
                    assert(i < idx);
                }
            }
            idx += 1;
            assert forall|j: int| 0 <= j < all@.len() implies #[trigger] all@[j] == orig[idx + j] by {
            }
        }
        kept
    }
}


/// A signature the carver may use under type filter `allowed`: an entry of
/// the signature table whose type the filter admits.
pub open spec fn sig_usable(s: SignatureView, allowed: Option<Seq<FileTypeView>>) -> bool {
    &&& type_admitted(s.file_type, allowed)
    &&& exists|i: int| 0 <= i < types::signature_table().len() && #[trigger] types::signature_table()[i] == s
}

/// No two TXT records of `s` overlap.
pub open spec fn texts_disjoint(s: Seq<RecoveredFile>) -> bool {
    forall|a: int, b: int|
        0 <= a < s.len() && 0 <= b < s.len() && a != b && (#[trigger] s[a]).file_type@ == FileTypeView::TXT && (
        #[trigger] s[b]).file_type@ == FileTypeView::TXT ==> s[a].offset_end <= s[b].offset_start || s[b].offset_end
            <= s[a].offset_start
}

/// Every TXT record of `s` starts at or before `x`.
pub open spec fn texts_start_by(s: Seq<RecoveredFile>, x: int) -> bool {
    forall|k: int| 0 <= k < s.len() && (#[trigger] s[k]).file_type@ == FileTypeView::TXT ==> s[k].offset_start <= x
}

/// Appending records of other types keeps the TXT records as they were.
proof fn lemma_no_new_texts(a: Seq<RecoveredFile>, b: Seq<RecoveredFile>, x: int)
    requires
        extends(a, b),
        forall|j: int| a.len() <= j < b.len() ==> (#[trigger] b[j]).file_type@ != FileTypeView::TXT,
        texts_disjoint(a),
        texts_start_by(a, x),
    ensures
        texts_disjoint(b),
        texts_start_by(b, x),
{
    assert forall|k: int| 0 <= k < a.len() implies #[trigger] b[k] == a[k] by {
        assert(b.subrange(0, a.len() as int)[k] == b[k]);
    }
    assert forall|i: int, j: int|
        0 <= i < b.len() && 0 <= j < b.len() && i != j && (#[trigger] b[i]).file_type@ == FileTypeView::TXT && (
        #[trigger] b[j]).file_type@ == FileTypeView::TXT implies b[i].offset_end <= b[j].offset_start || b[j].offset_end
        <= b[i].offset_start by {
        assert(b[i] == a[i] && b[j] == a[j]);
    }
    assert forall|k: int| 0 <= k < b.len() && (#[trigger] b[k]).file_type@ == FileTypeView::TXT implies b[k].offset_start <= x by {
        assert(b[k] == a[k]);
    }
}

/// `b` extends `a`.
pub open spec fn extends<T>(a: Seq<T>, b: Seq<T>) -> bool {
    a.len() <= b.len() && b.subrange(0, a.len() as int) == a
}

/// Whether a TXT record of `recovered` already covers offset `at`.
fn text_covered(recovered: &Vec<RecoveredFile>, at: u64) -> (r: bool)
    ensures
        r == exists|k: int|
            0 <= k < recovered@.len() && (#[trigger] recovered@[k]).file_type@ == FileTypeView::TXT
                && recovered@[k].offset_start <= at && at < recovered@[k].offset_end,
{
    let mut k: usize = 0;
    while k < recovered.len()
        invariant
            k <= recovered@.len(),
            forall|j: int| 0 <= j < k ==> !((#[trigger] recovered@[j]).file_type@ == FileTypeView::TXT
                && recovered@[j].offset_start <= at && at < recovered@[j].offset_end),
        decreases recovered.len() - k,
    {
        let f = &recovered[k];
        if matches!(f.file_type, FileType::TXT) && f.offset_start <= at && at < f.offset_end {
            return true;
        }
        k += 1;
    }
    false
}

/// The positions among `ps` at which the secondary pattern of `s` (if any)
/// is in place in `w`, in order.
pub open spec fn verified_positions(w: Seq<u8>, s: SignatureView, ps: Seq<usize>) -> Seq<usize>
    decreases ps.len(),
{
    if ps.len() == 0 {
        Seq::empty()
    } else if spec_verify_ok(w, ps.last() as int, s.verify) {
        verified_positions(w, s, ps.drop_last()).push(ps.last())
    } else {
        verified_positions(w, s, ps.drop_last())
    }
}

/// The matches of signature `s` in window `w`: where its header occurs and
/// its secondary pattern (if any) is in place, in increasing order.
pub open spec fn sig_hits(w: Seq<u8>, s: SignatureView) -> Seq<usize> {
    verified_positions(w, s, occurrences(w, s.header, w.len() as int))
}

/// The matches of a list of signatures in window `w`, signature by
/// signature, each as (index of the signature, position in the window).
pub open spec fn window_hits(w: Seq<u8>, sigs: Seq<SignatureView>) -> Seq<(usize, usize)>
    decreases sigs.len(),
{
    if sigs.len() == 0 {
        Seq::empty()
    } else {
        window_hits(w, sigs.drop_last()) + sig_hits(w, sigs.last()).map_values(
            |p: usize| ((sigs.len() - 1) as usize, p),
        )
    }
}

/// Models of a list of signatures.
pub open spec fn sig_views(sigs: Seq<FileSignature>) -> Seq<SignatureView> {
    sigs.map_values(|s: FileSignature| s@)
}

/// The matches of `sigs` in a window, signature by signature: each as the
/// index of the signature and the position in the window where its header
/// occurs and its secondary pattern is in place.
pub fn signature_hits(window: &[u8], sigs: &Vec<FileSignature>) -> (r: Vec<(usize, usize)>)
    requires
        forall|k: int| 0 <= k < sigs@.len() ==> (#[trigger] sigs@[k]).header@.len() > 0,
    ensures
        r@ == window_hits(window@, sig_views(sigs@)),
{
    let ghost sv = sig_views(sigs@);
    let mut out: Vec<(usize, usize)> = Vec::new();
    let mut si: usize = 0;
    proof {
        assert(sv.take(0) =~= Seq::<SignatureView>::empty());
    }
    while si < sigs.len()
        invariant
            si <= sigs@.len(),
            sv == sig_views(sigs@),
            forall|k: int| 0 <= k < sigs@.len() ==> (#[trigger] sigs@[k]).header@.len() > 0,
            out@ == window_hits(window@, sv.take(si as int)),
        decreases sigs.len() - si,
    {
        let sig = &sigs[si];
        let matches = find_signature_offsets(window, sig.header.as_slice());
        let ghost base = out@;
        let mut mi: usize = 0;
        proof {
            assert(matches@.take(0) =~= Seq::<usize>::empty());
            assert(base =~= base + verified_positions(window@, sig@, matches@.take(0)).map_values(|p: usize| (si, p)));
        }
        while mi < matches.len()
            invariant
                mi <= matches@.len(),
                si < sigs@.len(),
                sig == &sigs@[si as int],
                forall|k: int| 0 <= k < matches@.len() ==> bytes::occurs_at(window@, sig@.header, #[trigger] matches@[k] as int),
                out@ == base + verified_positions(window@, sig@, matches@.take(mi as int)).map_values(|p: usize| (si, p)),
            decreases matches.len() - mi,
        {
            let local = matches[mi];
            assert(bytes::occurs_at(window@, sig@.header, matches@[mi as int] as int));
            let ok = verify_ok(window, local, &sig.verify);
            proof {
                assert(matches@.take(mi + 1).drop_last() =~= matches@.take(mi as int));
                assert(matches@.take(mi + 1).last() == local);
            }
            if ok {
                let ghost before = out@;
                out.push((si, local));
                assert(out@ =~= base + verified_positions(window@, sig@, matches@.take(mi + 1)).map_values(
                    |p: usize| (si, p),
                ));
            }
            mi += 1;
        }
        proof {
            assert(matches@.take(matches@.len() as int) =~= matches@);
            assert(sv.take(si + 1).drop_last() =~= sv.take(si as int));
            assert(sv.take(si + 1).last() == sig@);
            assert(matches@ == occurrences(window@, sig@.header, window@.len() as int));
        }
        si += 1;
    }
    assert(sv.take(sigs@.len() as int) =~= sv);
    out
}

/// Every hit names a signature of the list and a header occurrence.
proof fn lemma_window_hits_bounds(w: Seq<u8>, sv: Seq<SignatureView>)
    requires
        w.len() <= usize::MAX,
        sv.len() <= usize::MAX,
    ensures
        forall|j: int| 0 <= j < window_hits(w, sv).len() ==> (#[trigger] window_hits(w, sv)[j]).0 < sv.len()
            && bytes::occurs_at(w, sv[window_hits(w, sv)[j].0 as int].header, window_hits(w, sv)[j].1 as int),
    decreases sv.len(),
{
    if sv.len() > 0 {
        let p = sv.drop_last();
        lemma_window_hits_bounds(w, p);
        let s = sv.last();
        let hs = sig_hits(w, s);
        lemma_verified_positions_subset(w, s, occurrences(w, s.header, w.len() as int));
        lemma_occurrences_occur(w, s.header, w.len() as int);
        let all = window_hits(w, sv);
        let prev = window_hits(w, p);
        assert forall|j: int| 0 <= j < all.len() implies (#[trigger] all[j]).0 < sv.len()
            && bytes::occurs_at(w, sv[all[j].0 as int].header, all[j].1 as int) by {
            if j < prev.len() {
                assert(all[j] == prev[j]);
                assert(sv[prev[j].0 as int] == p[prev[j].0 as int]);
            } else {
                let q = j - prev.len();
                let occ = occurrences(w, s.header, w.len() as int);
                assert(all[j] == ((sv.len() - 1) as usize, hs[q]));
                assert(occ.contains(hs[q]));
                let k = choose|k: int| 0 <= k < occ.len() && occ[k] == hs[q];
                assert(bytes::occurs_at(w, s.header, occ[k] as int));
                assert(sv[sv.len() - 1] == s);
            }
        }
    }
}

proof fn lemma_verified_positions_subset(w: Seq<u8>, s: SignatureView, ps: Seq<usize>)
    ensures
        forall|i: int| 0 <= i < verified_positions(w, s, ps).len() ==> ps.contains(#[trigger] verified_positions(w, s, ps)[i]),
    decreases ps.len(),
{
    if ps.len() > 0 {
        let p = ps.drop_last();
        lemma_verified_positions_subset(w, s, p);
        let v = verified_positions(w, s, ps);
        assert forall|i: int| 0 <= i < v.len() implies ps.contains(#[trigger] v[i]) by {
            let vp = verified_positions(w, s, p);
            if i < vp.len() {
                assert(v[i] == vp[i]);
                let k = choose|k: int| 0 <= k < p.len() && p[k] == vp[i];
                assert(ps[k] == p[k]);
            } else {
                assert(v[i] == ps.last());
                assert(ps[ps.len() - 1] == ps.last());
            }
        }
    }
}

proof fn lemma_occurrences_occur(h: Seq<u8>, n: Seq<u8>, i: int)
    requires
        h.len() <= usize::MAX,
    ensures
        forall|k: int| 0 <= k < occurrences(h, n, i).len() ==> bytes::occurs_at(h, n, #[trigger] occurrences(h, n, i)[k] as int),
    decreases i,
{
    if i > 0 {
        lemma_occurrences_occur(h, n, i - 1);
        let o = occurrences(h, n, i);
        let po = occurrences(h, n, i - 1);
        assert forall|k: int| 0 <= k < o.len() implies bytes::occurs_at(h, n, #[trigger] o[k] as int) by {
            if k < po.len() {
                assert(o[k] == po[k]);
            } else {
                assert(bytes::occurs_at(h, n, i - 1));
                assert(i - 1 <= h.len());
                assert(o[k] == (i - 1) as usize);
            }
        }
    }
}

impl FileCarver {
    /// Carves the signature matches of one window: every match of an active
    /// signature (see `signature_hits`) becomes a record at its device
    /// offset, its end found by `find_file_end`.  The window's data starts at
    /// device offset `offset` after the overlap.
    #[verifier::spinoff_prover]
    #[verifier::rlimit(80)]
    fn carve_signatures<R: BlockReader>(
        &self,
        reader: &R,
        window: &[u8],
        offset: u64,
        total_size: u64,
        sigs: &Vec<FileSignature>,
        recovered: &mut Vec<RecoveredFile>,
    )
        requires
            offset < total_size,
            total_size <= MAX_DEVICE_SIZE,
            window@.len() <= BLOCK_SIZE + OVERLAP_SIZE,
            offset + window@.len() <= total_size + OVERLAP_SIZE,
            forall|k: int| 0 <= k < sigs@.len() ==> sig_usable(#[trigger] sigs@[k]@, self.allowed()),
            records_ok(old(recovered)@, self.allowed(), total_size),
        ensures
            extends(old(recovered)@, final(recovered)@),
            records_ok(final(recovered)@, self.allowed(), total_size),
            final(recovered)@.len() == old(recovered)@.len() + window_hits(window@, sig_views(sigs@)).len(),
            forall|j: int| old(recovered)@.len() <= j < final(recovered)@.len() ==> (#[trigger] final(recovered)@[j]).file_type@
                != FileTypeView::TXT,
            forall|j: int| 0 <= j < window_hits(window@, sig_views(sigs@)).len() ==> {
                let h = #[trigger] window_hits(window@, sig_views(sigs@))[j];
                let f = final(recovered)@[old(recovered)@.len() + j];
                &&& f.file_type@ == sigs@[h.0 as int]@.file_type
                &&& f.offset_start == window_offset(offset, h.1 as int)
            },
    {
        let ghost start = recovered@;
        proof {
            lemma_signature_table_well_formed();
            assert(recovered@.subrange(0, start.len() as int) =~= start);
            assert forall|k: int| 0 <= k < sigs@.len() implies (#[trigger] sigs@[k]).header@.len() > 0 by {
                assert(sig_usable(sigs@[k]@, self.allowed()));
                let i = choose|i: int| 0 <= i < types::signature_table().len() && #[trigger] types::signature_table()[i] == sigs@[k]@;
                assert(sig_well_formed(types::signature_table()[i]));
            }
        }
        let hits = signature_hits(window, sigs);
        let ghost hv = window_hits(window@, sig_views(sigs@));
        proof {
            assert(sig_views(sigs@).len() == sigs@.len());
            assert(sigs@.len() == sigs.len());
            lemma_window_hits_bounds(window@, sig_views(sigs@));
        }
        let mut hi: usize = 0;
        while hi < hits.len()
            invariant
                hi <= hits@.len(),
                hits@ == hv,
                hv == window_hits(window@, sig_views(sigs@)),
                forall|j: int| 0 <= j < hv.len() ==> (#[trigger] hv[j]).0 < sigs@.len() && bytes::occurs_at(
                    window@,
                    sigs@[hv[j].0 as int]@.header,
                    hv[j].1 as int,
                ),
                offset < total_size,
                total_size <= MAX_DEVICE_SIZE,
                window@.len() <= BLOCK_SIZE + OVERLAP_SIZE,
                offset + window@.len() <= total_size + OVERLAP_SIZE,
                forall|k: int| 0 <= k < sigs@.len() ==> sig_usable(#[trigger] sigs@[k]@, self.allowed()),
                forall|i: int| 0 <= i < types::signature_table().len() ==> sig_well_formed(#[trigger] types::signature_table()[i]),
                extends(start, recovered@),
                records_ok(recovered@, self.allowed(), total_size),
                recovered@.len() == start.len() + hi,
                forall|j: int| start.len() <= j < recovered@.len() ==> (#[trigger] recovered@[j]).file_type@ != FileTypeView::TXT,
                forall|j: int| 0 <= j < hi ==> {
                    let h = #[trigger] hv[j];
                    let f = recovered@[start.len() + j];
                    &&& f.file_type@ == sigs@[h.0 as int]@.file_type
                    &&& f.offset_start == window_offset(offset, h.1 as int)
                },
            decreases hits.len() - hi,
        {
            let (k, local) = hits[hi];
            assert(hv[hi as int] == (k, local));
            let sig = &sigs[k];
            assert(sig_usable(sig@, self.allowed()));
            let ghost ti = choose|i: int| 0 <= i < types::signature_table().len() && #[trigger] types::signature_table()[i] == sig@;
            assert(sig_well_formed(types::signature_table()[ti]));
            assert(bytes::occurs_at(window@, sig@.header, local as int));
            let abs_offset = abs_window_offset(offset, local);
            let (end_offset, is_fragmented) = find_file_end(
                reader,
                abs_offset,
                &sig.footer,
                sig.max_size,
                total_size,
            );
            let size = if end_offset >= abs_offset { end_offset - abs_offset } else { 0 };
            let prob = calculate_recovery_probability(abs_offset, size, is_fragmented);
            let label = header_label(sig.header.as_slice());
            let file_type = sig.file_type.clone();
            let preview = file_type.is_previewable();
            let rec = RecoveredFile {
                id: recovered.len() as u64,
                file_type,
                offset_start: abs_offset,
                offset_end: end_offset,
                size_bytes: size,
                recovery_percent: prob,
                signature_matched: label,
                is_fragmented,
                fragment_count: if is_fragmented { 2 } else { 1 },
                sector_overwritten: prob <= 30,
                preview_available: preview,
                thumbnail_base64: None,
                original_name: None,
            };
            assert(signature_record(rec, rec.file_type@));
            assert(rec.file_type@ != FileTypeView::TXT);
            let ghost before = recovered@;
            recovered.push(rec);
            assert forall|j: int| start.len() <= j < recovered@.len() implies (#[trigger] recovered@[j]).file_type@ != FileTypeView::TXT by {
                if j < before.len() {
                    assert(recovered@[j] == before[j]);
                }
            }
            assert(records_ok(recovered@, self.allowed(), total_size)) by {
                assert forall|j: int| 0 <= j < recovered@.len() implies (#[trigger] recovered@[j]).id == j
                    && carved_ok(recovered@[j], self.allowed(), total_size) by {
                    if j < before.len() {
                        assert(recovered@[j] == before[j]);
                    }
                }
            }
            assert(recovered@.subrange(0, start.len() as int) =~= start) by {
                assert(before.subrange(0, start.len() as int) == start);
            }
            assert forall|j: int| 0 <= j < hi + 1 implies {
                let h = #[trigger] hv[j];
                let f = recovered@[start.len() + j];
                &&& f.file_type@ == sigs@[h.0 as int]@.file_type
                &&& f.offset_start == window_offset(offset, h.1 as int)
            } by {
                if j < hi {
                    assert(recovered@[start.len() + j] == before[start.len() + j]);
                }
            }
            hi += 1;
        }
    }

    /// Text detection over the newly read part of a window: each 512-byte
    /// sector from the overlap on that looks like text (`is_text_block`),
    /// lies past the first 4 KiB and is not inside a TXT record found
    /// before, starts a run measured by `find_text_end`; a run of at least
    /// 128 bytes becomes a TXT record and the sectors it covers are skipped.
    #[verifier::spinoff_prover]
    #[verifier::rlimit(80)]
    fn carve_text<R: BlockReader>(
        &self,
        reader: &R,
        buffer: &Vec<u8>,
        n: usize,
        offset: u64,
        total_size: u64,
        recovered: &mut Vec<RecoveredFile>,
    )
        requires
            buffer@.len() == BLOCK_SIZE + OVERLAP_SIZE,
            n <= BLOCK_SIZE,
            offset < total_size,
            total_size <= MAX_DEVICE_SIZE,
            offset + n <= total_size,
            type_admitted(FileTypeView::TXT, self.allowed()),
            records_ok(old(recovered)@, self.allowed(), total_size),
            texts_disjoint(old(recovered)@),
            texts_start_by(old(recovered)@, offset as int),
        ensures
            extends(old(recovered)@, final(recovered)@),
            records_ok(final(recovered)@, self.allowed(), total_size),
            texts_disjoint(final(recovered)@),
            texts_start_by(final(recovered)@, offset + n),
            forall|j: int| old(recovered)@.len() <= j < final(recovered)@.len() ==> text_record(#[trigger] final(recovered)@[j]),
    {
        let ghost start = recovered@;
        proof {
            assert(recovered@.subrange(0, start.len() as int) =~= start);
        }
        let end = OVERLAP_SIZE + n;
        let mut ts: usize = OVERLAP_SIZE;
        while ts + 512 <= end
            invariant
                end == OVERLAP_SIZE + n,
                buffer@.len() == BLOCK_SIZE + OVERLAP_SIZE,
                n <= BLOCK_SIZE,
                ts <= end + MAX_TXT + 512,
                offset < total_size,
                total_size <= MAX_DEVICE_SIZE,
                offset + n <= total_size,
                type_admitted(FileTypeView::TXT, self.allowed()),
                extends(start, recovered@),
                records_ok(recovered@, self.allowed(), total_size),
                ts >= OVERLAP_SIZE,
                texts_disjoint(recovered@),
                texts_start_by(recovered@, offset + (if ts < end { ts as int } else { end as int }) - OVERLAP_SIZE),
                forall|j: int| start.len() <= j < recovered@.len() ==> text_record(#[trigger] recovered@[j]),
            decreases (if ts <= end { end - ts } else { 0 }),
        {
            let sector = vstd::slice::slice_subrange(buffer.as_slice(), ts, ts + 512);
            if is_text_block(sector) {
                let abs_txt = abs_window_offset(offset, ts);
                let in_metadata = abs_txt < 4096;
                if !in_metadata && !text_covered(recovered, abs_txt) {
                    let txt_end = find_text_end(reader, abs_txt, total_size);
                    let txt_size = txt_end - abs_txt;
                    if txt_size >= 128 {
                        let prob = calculate_recovery_probability(abs_txt, txt_size, false);
                        proof {
                            reveal_strlit("TEXT");
                        }
                        let label = String::from_str("TEXT");
                        assert(label@ =~= seq!['T', 'E', 'X', 'T']);
                        let rec = RecoveredFile {
                            id: recovered.len() as u64,
                            file_type: FileType::TXT,
                            offset_start: abs_txt,
                            offset_end: txt_end,
                            size_bytes: txt_size,
                            recovery_percent: prob,
                            signature_matched: label,
                            is_fragmented: false,
                            fragment_count: 1,
                            sector_overwritten: false,
                            preview_available: true,
                            thumbnail_base64: None,
                            original_name: None,
                        };
                        assert(text_record(rec));
                        let ghost before = recovered@;
                        recovered.push(rec);
                        proof {
                            assert(abs_txt == offset + ts - OVERLAP_SIZE);
                            assert forall|k: int| 0 <= k < before.len() implies #[trigger] recovered@[k] == before[k] by {}
                            assert forall|a: int, b: int|
                                0 <= a < recovered@.len() && 0 <= b < recovered@.len() && a != b && (#[trigger] recovered@[a]).file_type@
                                    == FileTypeView::TXT && (#[trigger] recovered@[b]).file_type@ == FileTypeView::TXT implies recovered@[a].offset_end
                                <= recovered@[b].offset_start || recovered@[b].offset_end <= recovered@[a].offset_start by {
                                if a < before.len() && b < before.len() {
                                    assert(recovered@[a] == before[a] && recovered@[b] == before[b]);
                                } else if a < before.len() {
                                    assert(recovered@[a] == before[a]);
                                    assert(!(before[a].file_type@ == FileTypeView::TXT && before[a].offset_start <= abs_txt && abs_txt < before[a].offset_end));
                                } else if b < before.len() {
                                    assert(recovered@[b] == before[b]);
                                    assert(!(before[b].file_type@ == FileTypeView::TXT && before[b].offset_start <= abs_txt && abs_txt < before[b].offset_end));
                                }
                            }
                        }
                        assert(records_ok(recovered@, self.allowed(), total_size)) by {
                            assert forall|k: int| 0 <= k < recovered@.len() implies (#[trigger] recovered@[k]).id == k
                                && carved_ok(recovered@[k], self.allowed(), total_size) by {
                                if k < before.len() {
                                    assert(recovered@[k] == before[k]);
                                }
                            }
                        }
                        assert(recovered@.subrange(0, start.len() as int) =~= start) by {
                            assert(before.subrange(0, start.len() as int) == start);
                        }
                        assert forall|j: int| start.len() <= j < recovered@.len() implies text_record(#[trigger] recovered@[j]) by {
                            if j < before.len() {
                                assert(recovered@[j] == before[j]);
                            }
                        }
                        let skip = txt_size as usize;
                        ts = ts + ((skip / 512) + 1) * 512;
                        continue;
                    }
                }
            }
            ts += 512;
        }
    }

    /// One block of a scan at `offset`: the previous block's tail goes in
    /// front of the bytes read there, and signature matches and (when TXT is
    /// admitted) text runs are carved out of that window; the last 32 bytes
    /// read become the next tail.  A failed read skips one sector.  Returns
    /// the next offset, or `None` when the read returned nothing, with the
    /// read result and the window scanned.
    #[verifier::spinoff_prover]
    #[verifier::rlimit(40)]
    fn carve_block<R: BlockReader>(
        &self,
        reader: &R,
        sigs: &Vec<FileSignature>,
        scan_txt: bool,
        offset: u64,
        total_size: u64,
        buffer: &mut Vec<u8>,
        tail_overlap: &mut Vec<u8>,
        recovered: &mut Vec<RecoveredFile>,
    ) -> (r: (Option<u64>, Ghost<Option<Vec<u8>>>, Ghost<Seq<u8>>))
        requires
            offset < total_size,
            total_size <= MAX_DEVICE_SIZE,
            old(buffer)@.len() == BLOCK_SIZE + OVERLAP_SIZE,
            old(tail_overlap)@.len() == OVERLAP_SIZE,
            forall|k: int| 0 <= k < sigs@.len() ==> sig_usable(#[trigger] sigs@[k]@, self.allowed()),
            scan_txt == type_admitted(FileTypeView::TXT, self.allowed()),
            records_ok(old(recovered)@, self.allowed(), total_size),
            texts_disjoint(old(recovered)@),
            texts_start_by(old(recovered)@, offset as int),
        ensures
            final(buffer)@.len() == BLOCK_SIZE + OVERLAP_SIZE,
            final(tail_overlap)@.len() == OVERLAP_SIZE,
            records_ok(final(recovered)@, self.allowed(), total_size),
            texts_disjoint(final(recovered)@),
            match r.0 {
                Some(next) => {
                    &&& offset < next <= total_size + SECTOR_SIZE
                    &&& texts_start_by(final(recovered)@, next as int)
                    &&& carve_block_ok(
                        reader,
                        sig_views(sigs@),
                        total_size,
                        (offset, old(recovered)@, old(tail_overlap)@),
                        r.1@,
                        r.2@,
                        (next, final(recovered)@, final(tail_overlap)@),
                    )
                },
                None => {
                    &&& final(recovered)@ == old(recovered)@
                    &&& can_read(reader, offset, carve_request(offset, total_size) as usize, r.1@)
                    &&& r.1@ is Some
                    &&& delivered(r.1@, carve_request(offset, total_size)).len() == 0
                },
            },
    {
        let ghost tail0 = tail_overlap@;
        let ghost rec0 = recovered@;
        // The previous block's tail goes in front of the new data.
        let mut i: usize = 0;
        while i < OVERLAP_SIZE
            invariant
                i <= OVERLAP_SIZE,
                buffer@.len() == BLOCK_SIZE + OVERLAP_SIZE,
                tail_overlap@ == tail0,
                tail0.len() == OVERLAP_SIZE,
                forall|t: int| 0 <= t < i ==> buffer@[t] == tail0[t],
            decreases OVERLAP_SIZE - i,
        {
            buffer[i] = tail_overlap[i];
            i += 1;
        }
        let read_size: usize = if total_size - offset < BLOCK_SIZE as u64 {
            (total_size - offset) as usize
        } else {
            BLOCK_SIZE
        };
        assert(read_size as int == carve_request(offset, total_size));
        let out = reader.read_at(offset, read_size);
        let ghost og = out;
        proof {
            assert(can_read(reader, offset, read_size, out));
        }
        match out {
            None => {
                proof {
                    reveal(carve_block_ok);
                }
                (Some(offset + SECTOR_SIZE), Ghost(og), Ghost(Seq::empty()))
            },
            Some(data) => {
                let n: usize = if data.len() < read_size { data.len() } else { read_size };
                proof {
                    assert(data@.take(n as int) =~= delivered(og, read_size as int));
                }
                if n == 0 {
                    return (None, Ghost(og), Ghost(Seq::empty()));
                }
                let mut j: usize = 0;
                while j < n
                    invariant
                        j <= n,
                        n <= read_size,
                        read_size <= BLOCK_SIZE,
                        n <= data@.len(),
                        buffer@.len() == BLOCK_SIZE + OVERLAP_SIZE,
                        tail0.len() == OVERLAP_SIZE,
                        forall|t: int| 0 <= t < OVERLAP_SIZE ==> buffer@[t] == tail0[t],
                        forall|t: int| 0 <= t < j ==> buffer@[OVERLAP_SIZE + t] == data@[t],
                    decreases n - j,
                {
                    buffer[OVERLAP_SIZE + j] = data[j];
                    j += 1;
                }
                let window = vstd::slice::slice_subrange(buffer.as_slice(), 0, OVERLAP_SIZE + n);
                let ghost w = window@;
                proof {
                    assert(w =~= tail0 + data@.take(n as int));
                }
                self.carve_signatures(reader, window, offset, total_size, sigs, recovered);
                let ghost rec1 = recovered@;
                proof {
                    lemma_no_new_texts(rec0, recovered@, offset as int);
                }
                if scan_txt {
                    self.carve_text(reader, buffer, n, offset, total_size, recovered);
                }
                proof {
                    if !scan_txt {
                        assert(rec1.subrange(0, rec1.len() as int) =~= rec1);
                    }
                    assert(sigs@.len() == sigs.len());
                    lemma_hit_records_kept(w, sigs@, rec0, rec1, recovered@, offset);
                }
                // Keep the last 32 bytes of the data read (with what lies
                // behind a shorter read) for the next window.
                let tail_start: usize = if n >= OVERLAP_SIZE { n - OVERLAP_SIZE } else { 0 };
                let mut k: usize = 0;
                while k < OVERLAP_SIZE
                    invariant
                        k <= OVERLAP_SIZE,
                        tail_start + OVERLAP_SIZE <= BLOCK_SIZE,
                        n >= OVERLAP_SIZE ==> tail_start == n - OVERLAP_SIZE,
                        n <= data@.len(),
                        buffer@.len() == BLOCK_SIZE + OVERLAP_SIZE,
                        tail_overlap@.len() == OVERLAP_SIZE,
                        forall|t: int| 0 <= t < n ==> buffer@[OVERLAP_SIZE + t] == data@[t],
                        forall|t: int| 0 <= t < k ==> tail_overlap@[t] == buffer@[OVERLAP_SIZE + tail_start + t],
                    decreases OVERLAP_SIZE - k,
                {
                    tail_overlap.set(k, buffer[OVERLAP_SIZE + tail_start + k]);
                    k += 1;
                }
                proof {
                    let d = data@.take(n as int);
                    if n >= OVERLAP_SIZE {
                        assert(tail_overlap@ =~= d.skip(d.len() - OVERLAP_SIZE));
                    }
                    lemma_carve_block_data(
                        reader,
                        sig_views(sigs@),
                        total_size,
                        (offset, rec0, tail0),
                        og,
                        w,
                        ((offset + n) as u64, recovered@, tail_overlap@),
                    );
                }
                (Some(offset + n as u64), Ghost(og), Ghost(w))
            },
        }
    }

    /// The block loop of a scan: reads the device in 512 KiB blocks from
    /// offset 0 (see `carve_block`), until `monitor` asks to stop before a
    /// block, a read returns nothing, or the end of the device.  After each
    /// block the monitor hears the offset reached and the number of records
    /// so far.
    #[verifier::spinoff_prover]
    fn carve_blocks<R: BlockReader, M: ScanMonitor>(&self, reader: &R, monitor: &M, total_size: u64) -> (r: Vec<RecoveredFile>)
        requires
            total_size <= MAX_DEVICE_SIZE,
        ensures
            records_ok(r@, self.allowed(), total_size),
            texts_disjoint(r@),
            carve_result_ok(reader, monitor, self.allowed(), total_size, r@),
    {
        let sigs = self.active_signatures();
        let ghost sv = sig_views(sigs@);
        proof {
            lemma_active_sig_views(sigs@, self.allowed());
        }
        assert forall|k: int| 0 <= k < sigs@.len() implies sig_usable(#[trigger] sigs@[k]@, self.allowed()) by {
            let i = choose|i: int| 0 <= i < types::signature_table().len() && #[trigger] sigs@[k]@ == types::signature_table()[i]
                && type_admitted(sigs@[k]@.file_type, self.allowed());
            assert(types::signature_table()[i] == sigs@[k]@);
        }
        let scan_txt = self.admits(&FileType::TXT);
        let mut recovered: Vec<RecoveredFile> = Vec::new();
        let mut buffer: Vec<u8> = vec![0u8; BLOCK_SIZE + OVERLAP_SIZE];
        let mut tail_overlap: Vec<u8> = vec![0u8; OVERLAP_SIZE];
        let mut offset: u64 = 0;
        let ghost mut states: Seq<CarveState> = seq![(0u64, Seq::<RecoveredFile>::empty(), tail_overlap@)];
        let ghost mut outs: Seq<Option<Vec<u8>>> = Seq::empty();
        let ghost mut windows: Seq<Seq<u8>> = Seq::empty();
        proof {
            assert(recovered@ =~= Seq::<RecoveredFile>::empty());
            assert(tail_overlap@ =~= Seq::new(OVERLAP_SIZE as nat, |t: int| 0u8));
            assert(sv.len() == sigs.len());
        }
        while offset < total_size
            invariant
                total_size <= MAX_DEVICE_SIZE,
                offset <= total_size + SECTOR_SIZE,
                buffer@.len() == BLOCK_SIZE + OVERLAP_SIZE,
                tail_overlap@.len() == OVERLAP_SIZE,
                forall|k: int| 0 <= k < sigs@.len() ==> sig_usable(#[trigger] sigs@[k]@, self.allowed()),
                sv == sig_views(sigs@),
                active_sig_views(sv, self.allowed()),
                scan_txt == type_admitted(FileTypeView::TXT, self.allowed()),
                records_ok(recovered@, self.allowed(), total_size),
                texts_disjoint(recovered@),
                texts_start_by(recovered@, offset as int),
                carve_trace_ok(reader, monitor, sv, total_size, states, outs, windows),
                states.last() == (offset, recovered@, tail_overlap@),
            decreases (if offset < total_size { total_size - offset } else { 0 }),
        {
            let cancel = monitor.cancelled();
            proof {
                assert(call_ensures(M::cancelled, (monitor,), cancel));
            }
            if cancel {
                proof {
                    lemma_carve_result(reader, monitor, self.allowed(), sv, total_size, states, outs, windows, Some(None));
                }
                return recovered;
            }
            let ghost s0 = states.last();
            let (next, Ghost(og), Ghost(w)) = self.carve_block(
                reader,
                &sigs,
                scan_txt,
                offset,
                total_size,
                &mut buffer,
                &mut tail_overlap,
                &mut recovered,
            );
            match next {
                None => {
                    proof {
                        lemma_carve_result(reader, monitor, self.allowed(), sv, total_size, states, outs, windows, Some(og));
                    }
                    return recovered;
                },
                Some(nx) => {
                    proof {
                        let s1 = (nx, recovered@, tail_overlap@);
                        lemma_carve_trace_push(reader, monitor, sv, total_size, states, outs, windows, og, w, s1);
                        states = states.push(s1);
                        outs = outs.push(og);
                        windows = windows.push(w);
                    }
                    offset = nx;
                    monitor.progress(offset, total_size, recovered.len() as u64);
                },
            }
        }
        proof {
            lemma_carve_result(reader, monitor, self.allowed(), sv, total_size, states, outs, windows, None);
        }
        recovered
    }
}

// ── The block schedule of a scan ────────────────────────────────────────────

/// A point of a block scan: the offset reached, the records carved so far,
/// and the 32 bytes carried in front of the next window.
pub type CarveState = (u64, Seq<RecoveredFile>, Seq<u8>);

/// `sv` are the signatures a carver with filter `allowed` uses: entries of
/// `signature_table` of admitted types, and every such entry.
pub open spec fn active_sig_views(sv: Seq<SignatureView>, allowed: Option<Seq<FileTypeView>>) -> bool {
    sigs_from_table(sv, allowed) && table_in_sigs(sv, allowed)
}

/// Each of `sv` is an entry of `signature_table` of an admitted type.
#[verifier::opaque]
pub open spec fn sigs_from_table(sv: Seq<SignatureView>, allowed: Option<Seq<FileTypeView>>) -> bool {
    forall|k: int| 0 <= k < sv.len() ==> exists|i: int|
        0 <= i < types::signature_table().len() && #[trigger] sv[k] == types::signature_table()[i]
            && type_admitted(sv[k].file_type, allowed)
}

/// Each entry of `signature_table` of an admitted type is among `sv`.
#[verifier::opaque]
pub open spec fn table_in_sigs(sv: Seq<SignatureView>, allowed: Option<Seq<FileTypeView>>) -> bool {
    forall|i: int| 0 <= i < types::signature_table().len() && type_admitted(
        #[trigger] types::signature_table()[i].file_type,
        allowed,
    ) ==> exists|k: int| 0 <= k < sv.len() && sv[k] == types::signature_table()[i]
}

/// How many bytes a scan asks for at `offset`: a block, or what is left.
pub open spec fn carve_request(offset: u64, total: u64) -> int {
    if total - offset < BLOCK_SIZE {
        total - offset
    } else {
        BLOCK_SIZE as int
    }
}

/// The bytes a read result delivers, at most `req` of them; none for a
/// failed read.
pub open spec fn delivered(out: Option<Vec<u8>>, req: int) -> Seq<u8> {
    match out {
        Some(v) => if v@.len() < req {
            v@
        } else {
            v@.take(req)
        },
        None => Seq::empty(),
    }
}

/// One block of a scan with signatures `sigs`, from `s0` to `s1`, the read
/// of `carve_request` bytes at the offset of `s0` giving `out`: a failed
/// read skips a sector; a read that delivered bytes `d` is scanned in the
/// window `w`, the carried bytes followed by `d`; every signature match of
/// the window (see `window_hits`) is appended, in order, as a record of its
/// signature's type at its offset on the device, then text records may
/// follow; the last 32 bytes of `d` are carried on when there are that many.
#[verifier::opaque]
pub open spec fn carve_block_ok<R: BlockReader>(
    reader: &R,
    sigs: Seq<SignatureView>,
    total: u64,
    s0: CarveState,
    out: Option<Vec<u8>>,
    w: Seq<u8>,
    s1: CarveState,
) -> bool {
    let req = carve_request(s0.0, total);
    &&& s0.0 < total
    &&& s0.2.len() == OVERLAP_SIZE
    &&& can_read(reader, s0.0, req as usize, out)
    &&& match out {
        None => s1 == ((s0.0 + SECTOR_SIZE) as u64, s0.1, s0.2),
        Some(_) => {
            let d = delivered(out, req);
            let hits = window_hits(w, sigs);
            &&& d.len() > 0
            &&& w == s0.2 + d
            &&& s1.0 == s0.0 + d.len()
            &&& s1.2.len() == OVERLAP_SIZE
            &&& (d.len() >= OVERLAP_SIZE ==> s1.2 == d.skip(d.len() - OVERLAP_SIZE))
            &&& extends(s0.1, s1.1)
            &&& s1.1.len() >= s0.1.len() + hits.len()
            &&& forall|j: int| 0 <= j < hits.len() ==> {
                let h = #[trigger] hits[j];
                let f = s1.1[s0.1.len() + j];
                &&& f.file_type@ == sigs[h.0 as int].file_type
                &&& f.offset_start == window_offset(s0.0, h.1 as int)
            }
            &&& forall|j: int| s0.1.len() + hits.len() <= j < s1.1.len() ==> text_record(#[trigger] s1.1[j])
        },
    }
}

/// The blocks of a scan so far: from offset 0, no records and 32 zero bytes
/// carried, through `states`, one block per read in `outs` (scanned in
/// `windows`), the monitor having let each block go ahead.
pub open spec fn carve_trace_ok<R: BlockReader, M: ScanMonitor>(
    reader: &R,
    monitor: &M,
    sigs: Seq<SignatureView>,
    total: u64,
    states: Seq<CarveState>,
    outs: Seq<Option<Vec<u8>>>,
    windows: Seq<Seq<u8>>,
) -> bool {
    &&& states.len() == outs.len() + 1
    &&& windows.len() == outs.len()
    &&& sigs.len() <= usize::MAX
    &&& states[0] == (0u64, Seq::<RecoveredFile>::empty(), Seq::new(OVERLAP_SIZE as nat, |t: int| 0u8))
    &&& outs.len() > 0 ==> call_ensures(M::cancelled, (monitor,), false)
    &&& forall|k: int| 0 <= k < outs.len() ==> carve_block_ok(reader, sigs, total, states[k], #[trigger] outs[k], windows[k], states[k + 1])
}

/// Why a scan that reached `last` stopped: the end of the device (`None`),
/// the monitor asking to stop (`Some(None)`), or a read that delivered
/// nothing (`Some(Some(out))`).
pub open spec fn carve_stop_ok<R: BlockReader, M: ScanMonitor>(
    reader: &R,
    monitor: &M,
    total: u64,
    last: CarveState,
    stop: Option<Option<Vec<u8>>>,
) -> bool {
    match stop {
        None => last.0 >= total,
        Some(None) => last.0 < total && call_ensures(M::cancelled, (monitor,), true),
        Some(Some(v)) => {
            &&& last.0 < total
            &&& call_ensures(M::cancelled, (monitor,), false)
            &&& can_read(reader, last.0, carve_request(last.0, total) as usize, Some(v))
            &&& delivered(Some(v), carve_request(last.0, total)).len() == 0
        },
    }
}

/// `c` are the records a block scan through `reader` and `monitor`, with
/// the signatures of filter `allowed`, can carve from a device of `total`
/// bytes.
#[verifier::opaque]
pub open spec fn carve_result_ok<R: BlockReader, M: ScanMonitor>(
    reader: &R,
    monitor: &M,
    allowed: Option<Seq<FileTypeView>>,
    total: u64,
    c: Seq<RecoveredFile>,
) -> bool {
    exists|sv: Seq<SignatureView>, states: Seq<CarveState>, outs: Seq<Option<Vec<u8>>>, windows: Seq<Seq<u8>>, stop: Option<Option<Vec<u8>>>|
        #![trigger carve_trace_ok(reader, monitor, sv, total, states, outs, windows), carve_stop_ok(reader, monitor, total, states.last(), stop)]
        active_sig_views(sv, allowed) && carve_trace_ok(reader, monitor, sv, total, states, outs, windows)
            && carve_stop_ok(reader, monitor, total, states.last(), stop) && c == states.last().1
}

proof fn lemma_active_sig_views(sigs: Seq<FileSignature>, allowed: Option<Seq<FileTypeView>>)
    requires
        forall|k: int| 0 <= k < sigs.len() ==> exists|i: int|
            0 <= i < types::signature_table().len() && #[trigger] sigs[k]@ == types::signature_table()[i]
                && type_admitted(sigs[k]@.file_type, allowed),
        forall|i: int| 0 <= i < types::signature_table().len() && type_admitted(
            #[trigger] types::signature_table()[i].file_type,
            allowed,
        ) ==> exists|k: int| 0 <= k < sigs.len() && sigs[k]@ == types::signature_table()[i],
    ensures
        active_sig_views(sig_views(sigs), allowed),
{
    let sv = sig_views(sigs);
    assert(sigs_from_table(sv, allowed)) by {
        reveal(sigs_from_table);
        assert forall|k: int| 0 <= k < sv.len() implies exists|i: int|
            0 <= i < types::signature_table().len() && #[trigger] sv[k] == types::signature_table()[i]
                && type_admitted(sv[k].file_type, allowed) by {
            assert(sv[k] == sigs[k]@);
        }
    }
    assert(table_in_sigs(sv, allowed)) by {
        reveal(table_in_sigs);
        assert forall|i: int| 0 <= i < types::signature_table().len() && type_admitted(
            #[trigger] types::signature_table()[i].file_type,
            allowed,
        ) implies exists|k: int| 0 <= k < sv.len() && sv[k] == types::signature_table()[i] by {
            let k = choose|k: int| 0 <= k < sigs.len() && sigs[k]@ == types::signature_table()[i];
            assert(sv[k] == sigs[k]@);
        }
    }
}

/// A block that the monitor let go ahead extends a scan's blocks.
proof fn lemma_carve_trace_push<R: BlockReader, M: ScanMonitor>(
    reader: &R,
    monitor: &M,
    sigs: Seq<SignatureView>,
    total: u64,
    states: Seq<CarveState>,
    outs: Seq<Option<Vec<u8>>>,
    windows: Seq<Seq<u8>>,
    out: Option<Vec<u8>>,
    w: Seq<u8>,
    s1: CarveState,
)
    requires
        carve_trace_ok(reader, monitor, sigs, total, states, outs, windows),
        call_ensures(M::cancelled, (monitor,), false),
        carve_block_ok(reader, sigs, total, states.last(), out, w, s1),
    ensures
        carve_trace_ok(reader, monitor, sigs, total, states.push(s1), outs.push(out), windows.push(w)),
{
    let st = states.push(s1);
    let os = outs.push(out);
    let ws = windows.push(w);
    assert forall|k: int| 0 <= k < os.len() implies carve_block_ok(reader, sigs, total, st[k], #[trigger] os[k], ws[k], st[k + 1]) by {
        if k < outs.len() {
            assert(st[k] == states[k] && st[k + 1] == states[k + 1]);
            assert(os[k] == outs[k] && ws[k] == windows[k]);
        } else {
            assert(st[k] == states.last());
        }
    }
}

/// A scan's blocks with the reason it stopped make its result.
proof fn lemma_carve_result<R: BlockReader, M: ScanMonitor>(
    reader: &R,
    monitor: &M,
    allowed: Option<Seq<FileTypeView>>,
    sigs: Seq<SignatureView>,
    total: u64,
    states: Seq<CarveState>,
    outs: Seq<Option<Vec<u8>>>,
    windows: Seq<Seq<u8>>,
    stop: Option<Option<Vec<u8>>>,
)
    requires
        active_sig_views(sigs, allowed),
        carve_trace_ok(reader, monitor, sigs, total, states, outs, windows),
        carve_stop_ok(reader, monitor, total, states.last(), stop),
    ensures
        carve_result_ok(reader, monitor, allowed, total, states.last().1),
{
    reveal(carve_result_ok);
}

/// A read that delivered bytes makes one block of a scan.
proof fn lemma_carve_block_data<R: BlockReader>(
    reader: &R,
    sigs: Seq<SignatureView>,
    total: u64,
    s0: CarveState,
    out: Option<Vec<u8>>,
    w: Seq<u8>,
    s1: CarveState,
)
    requires
        s0.0 < total,
        s0.2.len() == OVERLAP_SIZE,
        can_read(reader, s0.0, carve_request(s0.0, total) as usize, out),
        out is Some,
        delivered(out, carve_request(s0.0, total)).len() > 0,
        w == s0.2 + delivered(out, carve_request(s0.0, total)),
        s1.0 == s0.0 + delivered(out, carve_request(s0.0, total)).len(),
        s1.2.len() == OVERLAP_SIZE,
        delivered(out, carve_request(s0.0, total)).len() >= OVERLAP_SIZE ==> s1.2 == delivered(
            out,
            carve_request(s0.0, total),
        ).skip(delivered(out, carve_request(s0.0, total)).len() - OVERLAP_SIZE),
        extends(s0.1, s1.1),
        s1.1.len() >= s0.1.len() + window_hits(w, sigs).len(),
        forall|j: int| 0 <= j < window_hits(w, sigs).len() ==> {
            let h = #[trigger] window_hits(w, sigs)[j];
            let f = s1.1[s0.1.len() + j];
            &&& f.file_type@ == sigs[h.0 as int].file_type
            &&& f.offset_start == window_offset(s0.0, h.1 as int)
        },
        forall|j: int| s0.1.len() + window_hits(w, sigs).len() <= j < s1.1.len() ==> text_record(#[trigger] s1.1[j]),
    ensures
        carve_block_ok(reader, sigs, total, s0, out, w, s1),
{
    reveal(carve_block_ok);
}

/// Records appended for the signature hits of a window keep their place
/// when text records follow.
proof fn lemma_hit_records_kept(
    w: Seq<u8>,
    sigs: Seq<FileSignature>,
    rec0: Seq<RecoveredFile>,
    rec1: Seq<RecoveredFile>,
    rec2: Seq<RecoveredFile>,
    offset: u64,
)
    requires
        w.len() <= usize::MAX,
        sigs.len() <= usize::MAX,
        extends(rec0, rec1),
        rec1.len() == rec0.len() + window_hits(w, sig_views(sigs)).len(),
        forall|j: int| 0 <= j < window_hits(w, sig_views(sigs)).len() ==> {
            let h = #[trigger] window_hits(w, sig_views(sigs))[j];
            let f = rec1[rec0.len() + j];
            &&& f.file_type@ == sigs[h.0 as int]@.file_type
            &&& f.offset_start == window_offset(offset, h.1 as int)
        },
        extends(rec1, rec2),
    ensures
        extends(rec0, rec2),
        rec2.len() >= rec0.len() + window_hits(w, sig_views(sigs)).len(),
        forall|j: int| 0 <= j < window_hits(w, sig_views(sigs)).len() ==> {
            let h = #[trigger] window_hits(w, sig_views(sigs))[j];
            let f = rec2[rec0.len() + j];
            &&& f.file_type@ == sig_views(sigs)[h.0 as int].file_type
            &&& f.offset_start == window_offset(offset, h.1 as int)
        },
{
    lemma_window_hits_bounds(w, sig_views(sigs));
    assert forall|j: int| 0 <= j < window_hits(w, sig_views(sigs)).len() implies {
        let h = #[trigger] window_hits(w, sig_views(sigs))[j];
        let f = rec2[rec0.len() + j];
        &&& f.file_type@ == sig_views(sigs)[h.0 as int].file_type
        &&& f.offset_start == window_offset(offset, h.1 as int)
    } by {
        assert(rec2.subrange(0, rec1.len() as int)[rec0.len() + j] == rec2[rec0.len() + j]);
    }
    assert(rec2.subrange(0, rec0.len() as int) =~= rec0) by {
        assert forall|t: int| 0 <= t < rec0.len() implies rec2.subrange(0, rec0.len() as int)[t] == rec0[t] by {
            assert(rec2.subrange(0, rec1.len() as int)[t] == rec1[t]);
            assert(rec1.subrange(0, rec0.len() as int)[t] == rec0[t]);
        }
    }
}

// ── Deduplication and ZIP refinement ───────────────────────────────────────

/// Two records have the same type and start offset.
pub open spec fn same_key(a: RecoveredFile, b: RecoveredFile) -> bool {
    a.file_type@ == b.file_type@ && a.offset_start == b.offset_start
}

/// The records of `s` whose type and start offset occur in no earlier
/// record, in order.
pub open spec fn first_occurrences(s: Seq<RecoveredFile>) -> Seq<RecoveredFile>
    decreases s.len(),
{
    if s.len() == 0 {
        Seq::empty()
    } else {
        let d = first_occurrences(s.drop_last());
        if exists|j: int| 0 <= j < s.len() - 1 && same_key(#[trigger] s[j], s.last()) {
            d
        } else {
            d.push(s.last())
        }
    }
}

/// `f` with its id set to `id`.
pub open spec fn with_id(f: RecoveredFile, id: u64) -> RecoveredFile {
    RecoveredFile { id, ..f }
}

/// A record whose type is one of the named variants.
pub open spec fn known_type(f: RecoveredFile) -> bool {
    !(f.file_type@ is Unknown)
}

/// Hash key of a known type and an offset: the type's code above the offset.
pub open spec fn type_offset_key(t: FileTypeView, o: u64) -> u128 {
    (t.code() as int * 0x1_0000_0000_0000_0000 + o as int) as u128
}

/// For known types, keys are equal exactly when types and offsets are.
pub proof fn lemma_type_offset_key(t1: FileTypeView, o1: u64, t2: FileTypeView, o2: u64)
    requires
        !(t1 is Unknown),
        !(t2 is Unknown),
    ensures
        (type_offset_key(t1, o1) == type_offset_key(t2, o2)) == (t1 == t2 && o1 == o2),
{
    let ca = t1.code() as int;
    let cb = t2.code() as int;
    assert(ca < 255 && cb < 255);
    if type_offset_key(t1, o1) == type_offset_key(t2, o2) {
        assert(ca * 0x1_0000_0000_0000_0000 + o1 == cb * 0x1_0000_0000_0000_0000 + o2);
        if ca < cb {
            assert(ca * 0x1_0000_0000_0000_0000 + 0x1_0000_0000_0000_0000 <= cb * 0x1_0000_0000_0000_0000);
        }
        if cb < ca {
            assert(cb * 0x1_0000_0000_0000_0000 + 0x1_0000_0000_0000_0000 <= ca * 0x1_0000_0000_0000_0000);
        }
        assert(ca == cb);
        assert(t1 == t2);
    }
}

/// Hash key of a known type and an offset.
pub fn type_offset_key_of(t: &FileType, o: u64) -> (k: u128)
    requires
        !(t@ is Unknown),
    ensures
        k == type_offset_key(t@, o),
{
    (t.code() as u128) * 0x1_0000_0000_0000_0000u128 + o as u128
}

/// Hash key of a record of known type: type code above start offset.
spec fn key_of(f: RecoveredFile) -> u128 {
    type_offset_key(f.file_type@, f.offset_start)
}

proof fn lemma_key_of(a: RecoveredFile, b: RecoveredFile)
    requires
        known_type(a),
        known_type(b),
    ensures
        (key_of(a) == key_of(b)) == same_key(a, b),
{
    lemma_type_offset_key(a.file_type@, a.offset_start, b.file_type@, b.offset_start);
}

fn record_key(f: &RecoveredFile) -> (k: u128)
    requires
        known_type(*f),
    ensures
        k == key_of(*f),
{
    type_offset_key_of(&f.file_type, f.offset_start)
}

/// The elements of `v` in reverse order.
pub(crate) fn reversed<T>(v: Vec<T>) -> (r: Vec<T>)
    ensures
        r@.len() == v@.len(),
        forall|j: int| 0 <= j < v@.len() ==> #[trigger] r@[j] == v@[v@.len() - 1 - j],
{
    let ghost orig = v@;
    let mut v = v;
    let mut r: Vec<T> = Vec::new();
    while v.len() > 0
        invariant
            v@.len() + r@.len() == orig.len(),
            forall|j: int| 0 <= j < v@.len() ==> #[trigger] v@[j] == orig[j],
            forall|j: int| 0 <= j < r@.len() ==> #[trigger] r@[j] == orig[orig.len() - 1 - j],
        decreases v.len(),
    {
        let x = v.pop().unwrap();
        r.push(x);
    }
    r
}

/// Keeps the first record of each type and start offset, in order, and
/// numbers the kept records from 0 (the overlap between blocks can report
/// one match twice).
pub fn dedup_records(records: Vec<RecoveredFile>) -> (r: Vec<RecoveredFile>)
    requires
        forall|k: int| 0 <= k < records@.len() ==> known_type(#[trigger] records@[k]),
    ensures
        r@.len() == first_occurrences(records@).len(),
        forall|k: int| 0 <= k < r@.len() ==> #[trigger] r@[k] == with_id(first_occurrences(records@)[k], k as u64),
{
    let ghost orig = records@;
    let len = records.len();
    let mut rev = reversed(records);
    let mut seen: HashSetWithView<u128> = HashSetWithView::new();
    let mut out: Vec<RecoveredFile> = Vec::new();
    let mut i: usize = 0;
    proof {
        assert(orig.take(0) =~= Seq::<RecoveredFile>::empty());
    }
    while rev.len() > 0
        invariant
            len == orig.len(),
            i + rev@.len() == len,
            forall|j: int| 0 <= j < rev@.len() ==> #[trigger] rev@[j] == orig[len - 1 - j],
            forall|k: int| 0 <= k < orig.len() ==> known_type(#[trigger] orig[k]),
            forall|x: u128| seen@.contains(x) <==> exists|j: int| 0 <= j < i && #[trigger] key_of(orig[j]) == x,
            out@.len() == first_occurrences(orig.take(i as int)).len(),
            forall|k: int| 0 <= k < out@.len() ==> #[trigger] out@[k] == with_id(first_occurrences(orig.take(i as int))[k], k as u64),
        decreases rev.len(),
    {
        let mut f = rev.pop().unwrap();
        assert(f == orig[i as int]);
        let key = record_key(&f);
        let ghost prefix = orig.take(i as int);
        let ghost next = orig.take(i + 1);
        proof {
            assert(next.drop_last() =~= prefix);
            assert(next.last() == orig[i as int]);
            assert((exists|j: int| 0 <= j < next.len() - 1 && same_key(#[trigger] next[j], next.last()))
                == seen@.contains(key)) by {
                if seen@.contains(key) {
                    let j = choose|j: int| 0 <= j < i && #[trigger] key_of(orig[j]) == key;
                    lemma_key_of(orig[j], f);
                    assert(next[j] == orig[j]);
                }
                if exists|j: int| 0 <= j < next.len() - 1 && same_key(#[trigger] next[j], next.last()) {
                    let j = choose|j: int| 0 <= j < next.len() - 1 && same_key(#[trigger] next[j], next.last());
                    assert(next[j] == orig[j]);
                    lemma_key_of(orig[j], f);
                }
            }
        }
        let fresh = seen.insert(key);
        if fresh {
            let ghost before = out@;
            f.id = out.len() as u64;
            out.push(f);
            assert forall|k: int| 0 <= k < out@.len() implies #[trigger] out@[k] == with_id(first_occurrences(next)[k], k as u64) by {
                if k < before.len() {
                    assert(out@[k] == before[k]);
                }
            }
        }
        i += 1;
        assert forall|x: u128| seen@.contains(x) <==> exists|j: int| 0 <= j < i && #[trigger] key_of(orig[j]) == x by {
            if seen@.contains(x) && x != key {
                let j = choose|j: int| 0 <= j < i - 1 && #[trigger] key_of(orig[j]) == x;
            }
            if x == key {
                assert(key_of(orig[i - 1]) == x);
            }
        }
    }
    assert(orig.take(len as int) =~= orig);
    out
}


/// Every record kept by `first_occurrences` is a record of the input.
pub proof fn lemma_first_occurrences_from_input(s: Seq<RecoveredFile>)
    ensures
        forall|k: int| 0 <= k < first_occurrences(s).len() ==> exists|j: int| 0 <= j < s.len() && #[trigger] first_occurrences(s)[k] == s[j],
    decreases s.len(),
{
    if s.len() > 0 {
        let p = s.drop_last();
        lemma_first_occurrences_from_input(p);
        let d = first_occurrences(p);
        assert forall|k: int| 0 <= k < first_occurrences(s).len() implies exists|j: int| 0 <= j < s.len() && #[trigger] first_occurrences(s)[k] == s[j] by {
            if k < d.len() {
                let j = choose|j: int| 0 <= j < p.len() && #[trigger] d[k] == p[j];
                assert(first_occurrences(s)[k] == s[j]);
            } else {
                assert(first_occurrences(s)[k] == s[s.len() - 1]);
            }
        }
    }
}

/// Deduplication law: no two records kept by `first_occurrences` share
/// type and start offset.
pub proof fn lemma_first_occurrences_unique(s: Seq<RecoveredFile>)
    ensures
        forall|a: int, b: int| 0 <= a < b < first_occurrences(s).len() ==> !same_key(
            #[trigger] first_occurrences(s)[a],
            #[trigger] first_occurrences(s)[b],
        ),
    decreases s.len(),
{
    if s.len() > 0 {
        let p = s.drop_last();
        lemma_first_occurrences_unique(p);
        lemma_first_occurrences_from_input(p);
        let d = first_occurrences(p);
        if !(exists|j: int| 0 <= j < s.len() - 1 && same_key(#[trigger] s[j], s.last())) {
            assert forall|a: int, b: int| 0 <= a < b < first_occurrences(s).len() implies !same_key(
                #[trigger] first_occurrences(s)[a],
                #[trigger] first_occurrences(s)[b],
            ) by {
                if b == d.len() {
                    let j = choose|j: int| 0 <= j < p.len() && #[trigger] d[a] == p[j];
                    assert(s[j] == p[j]);
                    if same_key(d[a], s.last()) {
                        assert(same_key(s[j], s.last()));
                    }
                } else {
                    assert(first_occurrences(s)[a] == d[a]);
                    assert(first_occurrences(s)[b] == d[b]);
                }
            }
        }
    }
}

/// Deduplication law: every record of the input has a kept record with the
/// same type and start offset.
pub proof fn lemma_first_occurrences_cover(s: Seq<RecoveredFile>)
    ensures
        forall|j: int| 0 <= j < s.len() ==> exists|k: int| 0 <= k < first_occurrences(s).len() && same_key(
            #[trigger] s[j],
            first_occurrences(s)[k],
        ),
    decreases s.len(),
{
    if s.len() > 0 {
        let p = s.drop_last();
        lemma_first_occurrences_cover(p);
        let d = first_occurrences(p);
        let fo = first_occurrences(s);
        assert forall|j: int| 0 <= j < s.len() implies exists|k: int| 0 <= k < fo.len() && same_key(#[trigger] s[j], fo[k]) by {
            if j < s.len() - 1 {
                assert(s[j] == p[j]);
                let k = choose|k: int| 0 <= k < d.len() && same_key(#[trigger] p[j], d[k]);
                assert(fo[k] == d[k]);
            } else if exists|i: int| 0 <= i < s.len() - 1 && same_key(#[trigger] s[i], s.last()) {
                let i = choose|i: int| 0 <= i < s.len() - 1 && same_key(#[trigger] s[i], s.last());
                assert(s[i] == p[i]);
                let k = choose|k: int| 0 <= k < d.len() && same_key(#[trigger] p[i], d[k]);
                assert(fo[k] == d[k]);
            } else {
                assert(fo[d.len() as int] == s.last());
            }
        }
    }
}


/// `b` is `a` with, possibly, another file type.
pub open spec fn same_but_type(a: RecoveredFile, b: RecoveredFile) -> bool {
    b == RecoveredFile { file_type: b.file_type, ..a }
}

/// Refines every DOCX record (a ZIP signature match) into DOCX, XLSX, PPTX
/// or ZIP by the folder names near its start; other records stay as they
/// are.
pub fn refine_zip_types<R: BlockReader>(reader: &R, records: &mut Vec<RecoveredFile>)
    ensures
        final(records)@.len() == old(records)@.len(),
        forall|k: int| 0 <= k < old(records)@.len() ==> {
            &&& same_but_type(old(records)@[k], #[trigger] final(records)@[k])
            &&& (old(records)@[k].file_type@ == FileTypeView::DOCX ==> is_zip_family(final(records)@[k].file_type@))
            &&& (old(records)@[k].file_type@ == FileTypeView::DOCX ==> zip_refined_by(
                reader,
                old(records)@[k].offset_start,
                final(records)@[k].file_type@,
            ))
            &&& (old(records)@[k].file_type@ != FileTypeView::DOCX ==> final(records)@[k] == old(records)@[k])
        },
{
    let ghost orig = records@;
    let mut k: usize = 0;
    while k < records.len()
        invariant
            k <= records@.len(),
            records@.len() == orig.len(),
            forall|j: int| k <= j < orig.len() ==> #[trigger] records@[j] == orig[j],
            forall|j: int| 0 <= j < k ==> {
                &&& same_but_type(orig[j], #[trigger] records@[j])
                &&& (orig[j].file_type@ == FileTypeView::DOCX ==> is_zip_family(records@[j].file_type@))
                &&& (orig[j].file_type@ == FileTypeView::DOCX ==> zip_refined_by(reader, orig[j].offset_start, records@[j].file_type@))
                &&& (orig[j].file_type@ != FileTypeView::DOCX ==> records@[j] == orig[j])
            },
        decreases records.len() - k,
    {
        if matches!(records[k].file_type, FileType::DOCX) {
            let t = detect_zip_subtype(reader, records[k].offset_start);
            records[k].file_type = t;
        }
        k += 1;
    }
}


/// A finished scan's records `r` come from the carved records `c`: they are
/// the first occurrences of `c`, numbered from 0, with each DOCX record
/// refined into the ZIP family and every other record unchanged.
pub open spec fn scan_result(c: Seq<RecoveredFile>, r: Seq<RecoveredFile>) -> bool {
    &&& r.len() == first_occurrences(c).len()
    &&& forall|k: int| 0 <= k < r.len() ==> {
        let f = with_id(first_occurrences(c)[k], k as u64);
        &&& same_but_type(f, #[trigger] r[k])
        &&& (f.file_type@ == FileTypeView::DOCX ==> is_zip_family(r[k].file_type@))
        &&& (f.file_type@ != FileTypeView::DOCX ==> r[k] == f)
    }
}

// ── Completeness of a scan ─────────────────────────────────────────────────

/// `reader` delivers the bytes of `dev` in full: every read of a range of
/// the device succeeds with at least the bytes asked for, and those are the
/// device's bytes there.
pub open spec fn reads_device<R: BlockReader>(reader: &R, dev: Seq<u8>) -> bool {
    forall|o: u64, len: usize, out: Option<Vec<u8>>|
        o + len <= dev.len() && #[trigger] can_read(reader, o, len, out) ==> out is Some && delivered(out, len as int)
            == dev.subrange(o as int, o + len)
}

/// Signature `s` matches `dev` at `o`: its header occurs there, its
/// secondary pattern (if any) is in place, and the match ends on the device.
pub open spec fn sig_match_at(dev: Seq<u8>, s: SignatureView, o: int) -> bool {
    &&& bytes::occurs_at(dev, s.header, o)
    &&& spec_verify_ok(dev, o, s.verify)
    &&& o + sig_span(s) <= dev.len()
}

proof fn lemma_occurrences_complete(h: Seq<u8>, n: Seq<u8>, i: int, p: int)
    requires
        0 <= p < i,
        bytes::occurs_at(h, n, p),
    ensures
        occurrences(h, n, i).contains(p as usize),
    decreases i,
{
    let o = occurrences(h, n, i);
    if p == i - 1 {
        assert(o.last() == p as usize);
        assert(o[o.len() - 1] == p as usize);
    } else {
        lemma_occurrences_complete(h, n, i - 1, p);
        let po = occurrences(h, n, i - 1);
        let k = choose|k: int| 0 <= k < po.len() && po[k] == p as usize;
        assert(o[k] == po[k]);
    }
}

proof fn lemma_verified_positions_complete(w: Seq<u8>, s: SignatureView, ps: Seq<usize>, p: usize)
    requires
        ps.contains(p),
        spec_verify_ok(w, p as int, s.verify),
    ensures
        verified_positions(w, s, ps).contains(p),
    decreases ps.len(),
{
    let v = verified_positions(w, s, ps);
    if ps.last() == p {
        assert(v[v.len() - 1] == p);
    } else {
        let k = choose|k: int| 0 <= k < ps.len() && ps[k] == p;
        assert(ps.drop_last()[k] == p);
        lemma_verified_positions_complete(w, s, ps.drop_last(), p);
        let pv = verified_positions(w, s, ps.drop_last());
        let j = choose|j: int| 0 <= j < pv.len() && pv[j] == p;
        assert(v[j] == pv[j]);
    }
}

/// Every match of a signature in a window is among the window's hits.
proof fn lemma_window_hits_complete(w: Seq<u8>, sv: Seq<SignatureView>, si: int, p: int)
    requires
        0 <= si < sv.len(),
        sv.len() <= usize::MAX,
        w.len() <= usize::MAX,
        sv[si].header.len() > 0,
        bytes::occurs_at(w, sv[si].header, p),
        spec_verify_ok(w, p, sv[si].verify),
    ensures
        exists|j: int| 0 <= j < window_hits(w, sv).len() && window_hits(w, sv)[j] == (si as usize, p as usize),
    decreases sv.len(),
{
    let pre = window_hits(w, sv.drop_last());
    if si == sv.len() - 1 {
        let s = sv.last();
        lemma_occurrences_complete(w, s.header, w.len() as int, p);
        lemma_verified_positions_complete(w, s, occurrences(w, s.header, w.len() as int), p as usize);
        let hs = sig_hits(w, s);
        let m = choose|m: int| 0 <= m < hs.len() && hs[m] == p as usize;
        let all = window_hits(w, sv);
        assert(all[pre.len() + m] == (si as usize, p as usize));
    } else {
        assert(sv.drop_last()[si] == sv[si]);
        lemma_window_hits_complete(w, sv.drop_last(), si, p);
        let j = choose|j: int| 0 <= j < pre.len() && pre[j] == (si as usize, p as usize);
        assert(window_hits(w, sv)[j] == pre[j]);
    }
}

/// A match lying in a stretch of the device that a window holds (device
/// byte `i` at window position `i + c`) is a match of the window.
proof fn lemma_match_in_window(w: Seq<u8>, dev: Seq<u8>, c: int, lo: int, hi: int, s: SignatureView, o: int)
    requires
        0 <= lo + c,
        hi + c <= w.len(),
        lo <= o,
        o + sig_span(s) <= hi,
        forall|i: int| lo <= i < hi ==> w[i + c] == dev[i],
        sig_match_at(dev, s, o),
    ensures
        bytes::occurs_at(w, s.header, o + c),
        spec_verify_ok(w, o + c, s.verify),
{
    assert(w.subrange(o + c, o + c + s.header.len()) =~= s.header) by {
        assert forall|t: int| 0 <= t < s.header.len() implies w.subrange(o + c, o + c + s.header.len())[t] == s.header[t] by {
            assert(dev.subrange(o, o + s.header.len())[t] == dev[o + t]);
            assert(w[o + t + c] == dev[o + t]);
        }
    }
    match s.verify {
        Some((vo, vb)) => {
            assert(w.subrange(o + c + vo, o + c + vo + vb.len()) =~= vb) by {
                assert forall|t: int| 0 <= t < vb.len() implies w.subrange(o + c + vo, o + c + vo + vb.len())[t] == vb[t] by {
                    assert(dev.subrange(o + vo, o + vo + vb.len())[t] == dev[o + vo + t]);
                    assert(w[o + vo + t + c] == dev[o + vo + t]);
                }
            }
        },
        None => {},
    }
}

/// A block read in full holds the device's bytes at its offset.
proof fn lemma_block_reads_device<R: BlockReader>(
    reader: &R,
    sigs: Seq<SignatureView>,
    total: u64,
    s0: CarveState,
    out: Option<Vec<u8>>,
    w: Seq<u8>,
    s1: CarveState,
    dev: Seq<u8>,
)
    requires
        carve_block_ok(reader, sigs, total, s0, out, w, s1),
        reads_device(reader, dev),
        dev.len() == total,
    ensures
        out is Some,
        s1.0 == s0.0 + carve_request(s0.0, total),
        s1.0 <= total,
        w == s0.2 + dev.subrange(s0.0 as int, s1.0 as int),
        s0.2.len() == OVERLAP_SIZE,
        w.len() == OVERLAP_SIZE + (s1.0 - s0.0),
        w.len() <= OVERLAP_SIZE + BLOCK_SIZE,
        carve_request(s0.0, total) >= OVERLAP_SIZE ==> s1.2 == dev.subrange(s1.0 - OVERLAP_SIZE, s1.0 as int),
{
    reveal(carve_block_ok);
    let req = carve_request(s0.0, total);
    assert(can_read(reader, s0.0, req as usize, out));
    assert(delivered(out, req) == dev.subrange(s0.0 as int, s0.0 + req));
    if req >= OVERLAP_SIZE {
        assert(dev.subrange(s0.0 as int, s0.0 + req).skip(req - OVERLAP_SIZE) =~= dev.subrange(s1.0 - OVERLAP_SIZE, s1.0 as int));
    }
}

/// A match of a window of a block is carved in that block.
proof fn lemma_block_hit_record<R: BlockReader>(
    reader: &R,
    sigs: Seq<SignatureView>,
    total: u64,
    s0: CarveState,
    out: Option<Vec<u8>>,
    w: Seq<u8>,
    s1: CarveState,
    si: int,
    p: int,
)
    requires
        carve_block_ok(reader, sigs, total, s0, out, w, s1),
        out is Some,
        0 <= si < sigs.len(),
        sigs.len() <= usize::MAX,
        w.len() <= usize::MAX,
        sigs[si].header.len() > 0,
        bytes::occurs_at(w, sigs[si].header, p),
        spec_verify_ok(w, p, sigs[si].verify),
    ensures
        exists|j: int|
            s0.1.len() <= j < s1.1.len() && (#[trigger] s1.1[j]).offset_start == window_offset(s0.0, p) && s1.1[j].file_type@
                == sigs[si].file_type,
{
    reveal(carve_block_ok);
    lemma_window_hits_complete(w, sigs, si, p);
    let hits = window_hits(w, sigs);
    let j = choose|j: int| 0 <= j < hits.len() && hits[j] == (si as usize, p as usize);
    assert(hits[j] == (si as usize, p as usize));
    let f = s1.1[s0.1.len() + j];
    assert(f.offset_start == window_offset(s0.0, p));
}

/// Records of a scan state stay in every later state.
proof fn lemma_trace_keeps<R: BlockReader, M: ScanMonitor>(
    reader: &R,
    monitor: &M,
    sigs: Seq<SignatureView>,
    total: u64,
    states: Seq<CarveState>,
    outs: Seq<Option<Vec<u8>>>,
    windows: Seq<Seq<u8>>,
    k: int,
)
    requires
        carve_trace_ok(reader, monitor, sigs, total, states, outs, windows),
        0 <= k < states.len(),
    ensures
        extends(states[k].1, states.last().1),
    decreases states.len() - k,
{
    if k == states.len() - 1 {
        assert(states.last().1.subrange(0, states.last().1.len() as int) =~= states.last().1);
    } else {
        lemma_trace_keeps(reader, monitor, sigs, total, states, outs, windows, k + 1);
        assert(carve_block_ok(reader, sigs, total, states[k], outs[k], windows[k], states[k + 1]));
        reveal(carve_block_ok);
        let a = states[k].1;
        let b = states[k + 1].1;
        let c = states.last().1;
        if outs[k] is None {
            assert(b.subrange(0, a.len() as int) =~= a);
        }
        assert(extends(a, b));
        assert(c.subrange(0, a.len() as int) =~= a) by {
            assert forall|t: int| 0 <= t < a.len() implies c.subrange(0, a.len() as int)[t] == a[t] by {
                assert(c.subrange(0, b.len() as int)[t] == b[t]);
                assert(b.subrange(0, a.len() as int)[t] == a[t]);
            }
        }
    }
}

/// Offsets of a scan read in full stay within the device, the last one
/// reaching its end when the scan was not stopped.
proof fn lemma_trace_offsets<R: BlockReader, M: ScanMonitor>(
    reader: &R,
    monitor: &M,
    sigs: Seq<SignatureView>,
    total: u64,
    states: Seq<CarveState>,
    outs: Seq<Option<Vec<u8>>>,
    windows: Seq<Seq<u8>>,
    dev: Seq<u8>,
)
    requires
        carve_trace_ok(reader, monitor, sigs, total, states, outs, windows),
        reads_device(reader, dev),
        dev.len() == total,
    ensures
        forall|k: int| 0 <= k < states.len() ==> (#[trigger] states[k]).0 <= total,
{
    assert forall|k: int| 0 <= k < states.len() implies (#[trigger] states[k]).0 <= total by {
        if k > 0 {
            assert(carve_block_ok(reader, sigs, total, states[k - 1], outs[k - 1], windows[k - 1], states[k]));
            lemma_block_reads_device(reader, sigs, total, states[k - 1], outs[k - 1], windows[k - 1], states[k], dev);
        }
    }
}

/// An offset below the last of an increasing run of block offsets lies in
/// one of the blocks.
proof fn lemma_block_of(states: Seq<CarveState>, o: int)
    requires
        states.len() >= 1,
        states[0].0 <= o < states.last().0,
    ensures
        exists|k: int| 0 <= k < states.len() - 1 && states[k].0 <= o < (#[trigger] states[k + 1]).0,
    decreases states.len(),
{
    let n = states.len();
    if o >= states[n - 2].0 {
        assert(states[(n - 2) + 1] == states.last());
    } else {
        let p = states.drop_last();
        lemma_block_of(p, o);
        let k = choose|k: int| 0 <= k < p.len() - 1 && p[k].0 <= o < (#[trigger] p[k + 1]).0;
        assert(states[k + 1] == p[k + 1]);
    }
}

/// With a monitor that never stops the scan and a reader that delivers the
/// device's bytes `dev` in full, the carving finds every signature match on
/// the device, also one cut by a block boundary: wherever an admitted
/// signature's header occurs with its secondary pattern in place, a carved
/// record of its type starts there, and the finished scan has a record
/// there of that type (of the ZIP family for a DOCX match).
pub proof fn lemma_scan_finds_every_match<R: BlockReader, M: ScanMonitor>(
    reader: &R,
    monitor: &M,
    allowed: Option<Seq<FileTypeView>>,
    dev: Seq<u8>,
    c: Seq<RecoveredFile>,
    r: Seq<RecoveredFile>,
    i: int,
    o: int,
)
    requires
        dev.len() <= MAX_DEVICE_SIZE,
        carve_result_ok(reader, monitor, allowed, dev.len() as u64, c),
        scan_covers(c, r),
        reads_device(reader, dev),
        !call_ensures(M::cancelled, (monitor,), true),
        0 <= i < types::signature_table().len(),
        type_admitted(types::signature_table()[i].file_type, allowed),
        sig_match_at(dev, types::signature_table()[i], o),
    ensures
        exists|m: int|
            0 <= m < c.len() && (#[trigger] c[m]).offset_start == o && c[m].file_type@ == types::signature_table()[i].file_type,
        exists|m: int|
            0 <= m < r.len() && (#[trigger] r[m]).offset_start == o && (r[m].file_type@ == types::signature_table()[i].file_type
                || (types::signature_table()[i].file_type == FileTypeView::DOCX && is_zip_family(r[m].file_type@))),
{
    let total = dev.len() as u64;
    let s = types::signature_table()[i];
    reveal(carve_result_ok);
    let (sv, states, outs, windows, stop) = choose|
        sv: Seq<SignatureView>,
        states: Seq<CarveState>,
        outs: Seq<Option<Vec<u8>>>,
        windows: Seq<Seq<u8>>,
        stop: Option<Option<Vec<u8>>>,
    |
        #![trigger carve_trace_ok(reader, monitor, sv, total, states, outs, windows), carve_stop_ok(reader, monitor, total, states.last(), stop)]
        active_sig_views(sv, allowed) && carve_trace_ok(reader, monitor, sv, total, states, outs, windows) && carve_stop_ok(
            reader,
            monitor,
            total,
            states.last(),
            stop,
        ) && c == states.last().1;
    reveal(table_in_sigs);
    let si = choose|k: int| 0 <= k < sv.len() && sv[k] == types::signature_table()[i];
    lemma_signature_table_well_formed();
    lemma_overlap_covers_signatures();
    assert(sig_well_formed(s));
    assert(sig_span(s) <= OVERLAP_SIZE);
    lemma_trace_offsets(reader, monitor, sv, total, states, outs, windows, dev);
    let last = states.last();
    // The scan ran to the end of the device.
    match stop {
        None => {},
        Some(None) => {},
        Some(Some(v)) => {
            let req = carve_request(last.0, total);
            assert(can_read(reader, last.0, req as usize, Some(v)));
        },
    }
    assert(last.0 == total);
    assert(states[0].0 == 0);
    lemma_block_of(states, o);
    let k = choose|k: int| 0 <= k < states.len() - 1 && states[k].0 <= o < (#[trigger] states[k + 1]).0;
    let b0 = states[k].0 as int;
    let b1 = states[k + 1].0 as int;
    assert(carve_block_ok(reader, sv, total, states[k], outs[k], windows[k], states[k + 1]));
    lemma_block_reads_device(reader, sv, total, states[k], outs[k], windows[k], states[k + 1], dev);
    let d0 = dev.subrange(b0, b1);
    assert(sv.len() <= usize::MAX);
    if o + sig_span(s) <= b1 {
        // The match lies in this block's data.
        let w = windows[k];
        assert forall|t: int| b0 <= t < b1 implies w[t + (OVERLAP_SIZE - b0)] == dev[t] by {
            assert(w[t + (OVERLAP_SIZE - b0)] == d0[t - b0]);
        }
        lemma_match_in_window(w, dev, OVERLAP_SIZE - b0, b0, b1, s, o);
        let p = o + OVERLAP_SIZE - b0;
        lemma_block_hit_record(reader, sv, total, states[k], outs[k], w, states[k + 1], si, p);
        let j = choose|j: int|
            states[k].1.len() <= j < states[k + 1].1.len() && (#[trigger] states[k + 1].1[j]).offset_start == window_offset(
                states[k].0,
                p,
            ) && states[k + 1].1[j].file_type@ == sv[si].file_type;
        lemma_trace_keeps(reader, monitor, sv, total, states, outs, windows, k + 1);
        assert(c[j] == states[k + 1].1[j]);
    } else {
        // The match is cut by the end of this block: the next window holds it.
        assert(k + 1 < states.len() - 1);
        assert(carve_request(states[k].0, total) == BLOCK_SIZE);
        let b2 = states[k + 2].0 as int;
        assert(carve_block_ok(reader, sv, total, states[k + 1], outs[k + 1], windows[k + 1], states[k + 2]));
        lemma_block_reads_device(reader, sv, total, states[k + 1], outs[k + 1], windows[k + 1], states[k + 2], dev);
        let w = windows[k + 1];
        let carry = states[k + 1].2;
        let d1 = dev.subrange(b1, b2);
        assert(carry == dev.subrange(b1 - OVERLAP_SIZE, b1));
        assert forall|t: int| b1 - OVERLAP_SIZE <= t < b2 implies w[t + (OVERLAP_SIZE - b1)] == dev[t] by {
            if t < b1 {
                assert(w[t + (OVERLAP_SIZE - b1)] == carry[t - (b1 - OVERLAP_SIZE)]);
            } else {
                assert(w[t + (OVERLAP_SIZE - b1)] == d1[t - b1]);
            }
        }
        lemma_match_in_window(w, dev, OVERLAP_SIZE - b1, b1 - OVERLAP_SIZE, b2, s, o);
        let p = o + OVERLAP_SIZE - b1;
        lemma_block_hit_record(reader, sv, total, states[k + 1], outs[k + 1], w, states[k + 2], si, p);
        let j = choose|j: int|
            states[k + 1].1.len() <= j < states[k + 2].1.len() && (#[trigger] states[k + 2].1[j]).offset_start
                == window_offset(states[k + 1].0, p) && states[k + 2].1[j].file_type@ == sv[si].file_type;
        lemma_trace_keeps(reader, monitor, sv, total, states, outs, windows, k + 2);
        assert(c[j] == states[k + 2].1[j]);
    }
    let m = choose|m: int| 0 <= m < c.len() && (#[trigger] c[m]).offset_start == o && c[m].file_type@ == s.file_type;
    assert(exists|n: int|
        0 <= n < r.len() && (#[trigger] r[n]).offset_start == (#[trigger] c[m]).offset_start && (r[n].file_type@
            == c[m].file_type@ || (c[m].file_type@ == FileTypeView::DOCX && is_zip_family(r[n].file_type@))));
}

/// Signature record `f` comes from a match in a window that a scan of a
/// device of `total` bytes read: the read of a block at `b` gave `out`, the
/// window `w` is 32 carried bytes followed by the bytes delivered, and entry
/// `i` of `signature_table`, of the record's type, matches `w` at `p` (header
/// and secondary pattern), which is where the record starts on the device.
pub open spec fn carved_from_window<R: BlockReader>(reader: &R, total: u64, f: RecoveredFile) -> bool {
    exists|b: u64, out: Option<Vec<u8>>, w: Seq<u8>, i: int, p: int|
        #![trigger can_read(reader, b, carve_request(b, total) as usize, out), bytes::occurs_at(w, types::signature_table()[i].header, p)]
        {
            &&& 0 <= i < types::signature_table().len()
            &&& types::signature_table()[i].file_type == f.file_type@
            &&& can_read(reader, b, carve_request(b, total) as usize, out)
            &&& w.len() >= OVERLAP_SIZE
            &&& w.skip(OVERLAP_SIZE as int) == delivered(out, carve_request(b, total))
            &&& bytes::occurs_at(w, types::signature_table()[i].header, p)
            &&& spec_verify_ok(w, p, types::signature_table()[i].verify)
            &&& f.offset_start == window_offset(b, p)
        }
}

proof fn lemma_verified_positions_pass(w: Seq<u8>, s: SignatureView, ps: Seq<usize>)
    ensures
        forall|k: int| 0 <= k < verified_positions(w, s, ps).len() ==> spec_verify_ok(
            w,
            #[trigger] verified_positions(w, s, ps)[k] as int,
            s.verify,
        ),
    decreases ps.len(),
{
    if ps.len() > 0 {
        lemma_verified_positions_pass(w, s, ps.drop_last());
        let v = verified_positions(w, s, ps);
        let pv = verified_positions(w, s, ps.drop_last());
        assert forall|k: int| 0 <= k < v.len() implies spec_verify_ok(w, #[trigger] v[k] as int, s.verify) by {
            if k < pv.len() {
                assert(v[k] == pv[k]);
            }
        }
    }
}

/// Every hit of a window passes its signature's secondary check.
proof fn lemma_window_hits_verified(w: Seq<u8>, sv: Seq<SignatureView>)
    requires
        sv.len() <= usize::MAX,
    ensures
        forall|j: int| 0 <= j < window_hits(w, sv).len() ==> (#[trigger] window_hits(w, sv)[j]).0 < sv.len() && spec_verify_ok(
            w,
            window_hits(w, sv)[j].1 as int,
            sv[window_hits(w, sv)[j].0 as int].verify,
        ),
    decreases sv.len(),
{
    if sv.len() > 0 {
        let p = sv.drop_last();
        lemma_window_hits_verified(w, p);
        let s = sv.last();
        let hs = sig_hits(w, s);
        lemma_verified_positions_pass(w, s, occurrences(w, s.header, w.len() as int));
        let all = window_hits(w, sv);
        let pre = window_hits(w, p);
        assert forall|j: int| 0 <= j < all.len() implies (#[trigger] all[j]).0 < sv.len() && spec_verify_ok(
            w,
            all[j].1 as int,
            sv[all[j].0 as int].verify,
        ) by {
            if j < pre.len() {
                assert(all[j] == pre[j]);
                assert(sv[pre[j].0 as int] == p[pre[j].0 as int]);
            } else {
                assert(all[j] == ((sv.len() - 1) as usize, hs[j - pre.len()]));
            }
        }
    }
}

/// The records of every state of a scan's blocks are text records or come
/// from a match in a window read.
proof fn lemma_trace_records_matched<R: BlockReader, M: ScanMonitor>(
    reader: &R,
    monitor: &M,
    allowed: Option<Seq<FileTypeView>>,
    sigs: Seq<SignatureView>,
    total: u64,
    states: Seq<CarveState>,
    outs: Seq<Option<Vec<u8>>>,
    windows: Seq<Seq<u8>>,
    n: int,
)
    requires
        carve_trace_ok(reader, monitor, sigs, total, states, outs, windows),
        sigs_from_table(sigs, allowed),
        0 <= n < states.len(),
    ensures
        forall|j: int| 0 <= j < states[n].1.len() ==> text_record(#[trigger] states[n].1[j]) || carved_from_window(
            reader,
            total,
            states[n].1[j],
        ),
    decreases n,
{
    if n > 0 {
        lemma_trace_records_matched(reader, monitor, allowed, sigs, total, states, outs, windows, n - 1);
        let s0 = states[n - 1];
        let s1 = states[n];
        let out = outs[n - 1];
        let w = windows[n - 1];
        assert(carve_block_ok(reader, sigs, total, s0, out, w, s1));
        reveal(carve_block_ok);
        reveal(sigs_from_table);
        let hits = window_hits(w, sigs);
        if out is Some {
            assert(w.len() <= OVERLAP_SIZE + BLOCK_SIZE);
            lemma_window_hits_bounds(w, sigs);
            lemma_window_hits_verified(w, sigs);
        }
        assert forall|j: int| 0 <= j < s1.1.len() implies text_record(#[trigger] s1.1[j]) || carved_from_window(
            reader,
            total,
            s1.1[j],
        ) by {
            if j < s0.1.len() {
                if out is Some {
                    assert(s1.1.subrange(0, s0.1.len() as int)[j] == s0.1[j]);
                }
            } else if j < s0.1.len() + hits.len() {
                let h = hits[j - s0.1.len()];
                let si = h.0 as int;
                let p = h.1 as int;
                let i = choose|i: int|
                    0 <= i < types::signature_table().len() && #[trigger] sigs[si] == types::signature_table()[i]
                        && type_admitted(sigs[si].file_type, allowed);
                let req = carve_request(s0.0, total);
                assert(w.skip(OVERLAP_SIZE as int) =~= delivered(out, req));
                assert(can_read(reader, s0.0, req as usize, out));
                assert(bytes::occurs_at(w, types::signature_table()[i].header, p));
            }
        }
    }
}

/// Every signature record that a scan carves comes from a match in a
/// window it read: the header of a signature of its type, with the
/// secondary pattern in place, at the window position that maps to the
/// record's offset on the device.
pub proof fn lemma_carved_records_matched<R: BlockReader, M: ScanMonitor>(
    reader: &R,
    monitor: &M,
    allowed: Option<Seq<FileTypeView>>,
    total: u64,
    c: Seq<RecoveredFile>,
    m: int,
)
    requires
        carve_result_ok(reader, monitor, allowed, total, c),
        0 <= m < c.len(),
        c[m].file_type@ != FileTypeView::TXT,
    ensures
        carved_from_window(reader, total, c[m]),
{
    reveal(carve_result_ok);
    let (sv, states, outs, windows, stop) = choose|
        sv: Seq<SignatureView>,
        states: Seq<CarveState>,
        outs: Seq<Option<Vec<u8>>>,
        windows: Seq<Seq<u8>>,
        stop: Option<Option<Vec<u8>>>,
    |
        #![trigger carve_trace_ok(reader, monitor, sv, total, states, outs, windows), carve_stop_ok(reader, monitor, total, states.last(), stop)]
        active_sig_views(sv, allowed) && carve_trace_ok(reader, monitor, sv, total, states, outs, windows) && carve_stop_ok(
            reader,
            monitor,
            total,
            states.last(),
            stop,
        ) && c == states.last().1;
    lemma_trace_records_matched(reader, monitor, allowed, sv, total, states, outs, windows, states.len() - 1);
    assert(text_record(c[m]) || carved_from_window(reader, total, c[m]));
}

/// A finished scan keeps a record for every carved one.
proof fn lemma_scan_covers(c: Seq<RecoveredFile>, r: Seq<RecoveredFile>)
    requires
        scan_result(c, r),
    ensures
        scan_covers(c, r),
{
    let fo = first_occurrences(c);
    lemma_first_occurrences_cover(c);
    assert forall|i: int| 0 <= i < c.len() implies exists|m: int|
        0 <= m < r.len() && (#[trigger] r[m]).offset_start == (#[trigger] c[i]).offset_start && (r[m].file_type@
            == c[i].file_type@ || (c[i].file_type@ == FileTypeView::DOCX && is_zip_family(r[m].file_type@))) by {
        let m = choose|k: int| 0 <= k < fo.len() && same_key(#[trigger] c[i], fo[k]);
        let f = with_id(fo[m], m as u64);
        assert(same_but_type(f, r[m]));
        assert(r[m].offset_start == c[i].offset_start);
    }
}

/// Every carved record of `c` is found in `r`: a record at the same offset
/// with its type, or, for a DOCX match, one of the ZIP family.
pub open spec fn scan_covers(c: Seq<RecoveredFile>, r: Seq<RecoveredFile>) -> bool {
    forall|i: int| 0 <= i < c.len() ==> exists|m: int|
        0 <= m < r.len() && (#[trigger] r[m]).offset_start == (#[trigger] c[i]).offset_start && (r[m].file_type@
            == c[i].file_type@ || (c[i].file_type@ == FileTypeView::DOCX && is_zip_family(r[m].file_type@)))
}

impl FileCarver {
    /// Scans a device of `total_size` bytes through `reader`: carves it block
    /// by block (see `carve_blocks`), drops repeated matches of one type at
    /// one offset, numbers the records from 0 and refines ZIP matches into
    /// DOCX, XLSX, PPTX or ZIP.  The carved records are those of a run of
    /// blocks that the reads and the monitor allow (`carve_result_ok`), and
    /// each of them keeps a record in the result; `lemma_scan_finds_every_match`
    /// and `lemma_carved_records_matched` say what that means for the bytes
    /// on the device.
    #[verifier::spinoff_prover]
    #[verifier::rlimit(30)]
    pub fn scan<R: BlockReader, M: ScanMonitor>(&self, reader: &R, monitor: &M, total_size: u64) -> (r: Vec<RecoveredFile>)
        requires
            total_size <= MAX_DEVICE_SIZE,
        ensures
            exists|c: Seq<RecoveredFile>|
                records_ok(c, self.allowed(), total_size) && scan_result(c, r@) && carve_result_ok(
                    reader,
                    monitor,
                    self.allowed(),
                    total_size,
                    c,
                ) && scan_covers(c, r@),
            forall|k: int| 0 <= k < r@.len() ==> (#[trigger] r@[k]).id == k && scanned_ok(r@[k], self.allowed(), total_size),
            forall|a: int, b: int|
                0 <= a < b < r@.len() && (#[trigger] r@[a]).offset_start == (#[trigger] r@[b]).offset_start
                    ==> r@[a].file_type@ != r@[b].file_type@,
            forall|k: int| 0 <= k < r@.len() && (#[trigger] r@[k]).file_type@ == FileTypeView::TXT ==> text_record(r@[k]),
            texts_disjoint(r@),
    {
        let carved = self.carve_blocks(reader, monitor, total_size);
        let ghost c = carved@;
        assert forall|k: int| 0 <= k < carved@.len() implies known_type(#[trigger] carved@[k]) by {
            assert(carved_ok(carved@[k], self.allowed(), total_size));
        }
        let mut out = dedup_records(carved);
        let ghost deduped = out@;
        refine_zip_types(reader, &mut out);
        proof {
            let fo = first_occurrences(c);
            lemma_first_occurrences_from_input(c);
            lemma_first_occurrences_unique(c);
            assert(scan_result(c, out@));
            lemma_scan_covers(c, out@);
            assert forall|k: int| 0 <= k < out@.len() implies (#[trigger] out@[k]).id == k && scanned_ok(
                out@[k],
                self.allowed(),
                total_size,
            ) by {
                assert(out.len() == out@.len());
                assert(k as u64 == k);
                let j = choose|j: int| 0 <= j < c.len() && #[trigger] fo[k] == c[j];
                let g = c[j];
                let f = out@[k];
                assert(carved_ok(g, self.allowed(), total_size));
                assert(deduped[k] == with_id(fo[k], k as u64));
                assert(f.signature_matched == g.signature_matched);
                assert(f.offset_start == g.offset_start && f.size_bytes == g.size_bytes);
                if g.file_type@ == FileTypeView::DOCX {
                    assert(!text_record(g));
                    assert(signature_record(g, FileTypeView::DOCX));
                    let i = choose|i: int|
                        0 <= i < types::signature_table().len() && (#[trigger] types::signature_table()[i]).file_type
                            == FileTypeView::DOCX && g.signature_matched@ == hex_list(header4(types::signature_table()[i].header));
                    assert(signature_record(f, FileTypeView::DOCX));
                    assert(carved_as(f, FileTypeView::DOCX, self.allowed(), total_size));
                } else {
                    assert(f == with_id(g, k as u64));
                    if text_record(g) {
                        assert(text_record(f));
                    } else {
                        let i = choose|i: int|
                            0 <= i < types::signature_table().len() && (#[trigger] types::signature_table()[i]).file_type
                                == g.file_type@ && g.signature_matched@ == hex_list(header4(types::signature_table()[i].header));
                        assert(signature_record(f, f.file_type@));
                    }
                    assert(carved_ok(f, self.allowed(), total_size));
                }
            }
            assert forall|a: int, b: int|
                0 <= a < b < out@.len() && (#[trigger] out@[a]).offset_start == (#[trigger] out@[b]).offset_start
                    implies out@[a].file_type@ != out@[b].file_type@ by {
                assert(!same_key(fo[a], fo[b]));
                let ja = choose|j: int| 0 <= j < c.len() && #[trigger] fo[a] == c[j];
                let jb = choose|j: int| 0 <= j < c.len() && #[trigger] fo[b] == c[j];
                assert(carved_ok(c[ja], self.allowed(), total_size));
                assert(carved_ok(c[jb], self.allowed(), total_size));
                assert(deduped[a] == with_id(fo[a], a as u64));
                assert(deduped[b] == with_id(fo[b], b as u64));
            }
            lemma_signature_table_well_formed();
            assert forall|k: int| 0 <= k < out@.len() && (#[trigger] out@[k]).file_type@ == FileTypeView::TXT implies text_record(
                out@[k],
            ) && out@[k] == with_id(fo[k], k as u64) by {
                let j = choose|j: int| 0 <= j < c.len() && #[trigger] fo[k] == c[j];
                let g = c[j];
                assert(carved_ok(g, self.allowed(), total_size));
                assert(deduped[k] == with_id(fo[k], k as u64));
                if g.file_type@ == FileTypeView::DOCX {
                    assert(is_zip_family(out@[k].file_type@));
                } else {
                    assert(out@[k] == with_id(g, k as u64));
                    if !text_record(g) {
                        let i = choose|i: int|
                            0 <= i < types::signature_table().len() && (#[trigger] types::signature_table()[i]).file_type
                                == g.file_type@ && g.signature_matched@ == hex_list(header4(types::signature_table()[i].header))
                                && g.size_bytes <= types::signature_table()[i].max_size;
                        assert(sig_well_formed(types::signature_table()[i]));
                    }
                }
            }
            assert forall|a: int, b: int|
                0 <= a < out@.len() && 0 <= b < out@.len() && a != b && (#[trigger] out@[a]).file_type@ == FileTypeView::TXT && (
                #[trigger] out@[b]).file_type@ == FileTypeView::TXT implies out@[a].offset_end <= out@[b].offset_start
                || out@[b].offset_end <= out@[a].offset_start by {
                let ja = choose|j: int| 0 <= j < c.len() && #[trigger] fo[a] == c[j];
                let jb = choose|j: int| 0 <= j < c.len() && #[trigger] fo[b] == c[j];
                if a < b {
                    assert(!same_key(fo[a], fo[b]));
                } else {
                    assert(!same_key(fo[b], fo[a]));
                }
                assert(ja != jb);
                assert(c[ja].file_type@ == FileTypeView::TXT && c[jb].file_type@ == FileTypeView::TXT);
            }
        }
        out
    }
}


// ── Fragment reassembly ─────────────────────────────────────────────────────

/// Total size of a list of `(offset, size)` fragments.
pub open spec fn fragments_total(f: Seq<(u64, u64)>) -> int
    decreases f.len(),
{
    if f.len() == 0 {
        0
    } else {
        fragments_total(f.drop_last()) + f.last().1
    }
}

/// The reads made in reassembling `frags`: one exact read per fragment, in
/// order, each a result the reader can give, every one but the last
/// complete, stopping early only at a failed read.
pub open spec fn reassembly_reads<R: BlockReader>(reader: &R, frags: Seq<(u64, u64)>, reads: Seq<Option<Seq<u8>>>) -> bool {
    &&& reads.len() <= frags.len()
    &&& forall|i: int| 0 <= i < reads.len() ==> can_read_exact(reader, frags[i].0, frags[i].1 as usize, #[trigger] reads[i])
    &&& forall|i: int| 0 <= i < reads.len() - 1 ==> (#[trigger] reads[i]) is Some
    &&& reads.len() < frags.len() ==> reads.len() > 0 && reads.last() is None
}

/// The bytes of complete reads joined in order.
pub open spec fn joined_reads(reads: Seq<Option<Seq<u8>>>) -> Seq<u8>
    decreases reads.len(),
{
    if reads.len() == 0 {
        Seq::empty()
    } else {
        joined_reads(reads.drop_last()) + match reads.last() {
            Some(s) => s,
            None => Seq::empty(),
        }
    }
}

/// What a reassembly made of `reads` returns: `None` after a failed read,
/// otherwise all the bytes read.
pub open spec fn reassembly_result(reads: Seq<Option<Seq<u8>>>) -> Option<Seq<u8>> {
    if reads.len() > 0 && reads.last() is None {
        None
    } else {
        Some(joined_reads(reads))
    }
}

/// `r` is what reading `frags` exactly, one after another, can give: the
/// bytes of all of them joined in order, or `None` when one of the reads
/// fails or comes back short.
pub open spec fn can_reassemble<R: BlockReader>(reader: &R, frags: Seq<(u64, u64)>, r: Option<Seq<u8>>) -> bool {
    exists|reads: Seq<Option<Seq<u8>>>| #[trigger] reassembly_reads(reader, frags, reads) && r == reassembly_result(reads)
}

proof fn lemma_fragments_total_prefix(f: Seq<(u64, u64)>, i: int)
    requires
        0 <= i <= f.len(),
    ensures
        0 <= fragments_total(f.take(i)) <= fragments_total(f),
    decreases f.len() - i,
{
    if i < f.len() {
        lemma_fragments_total_prefix(f, i + 1);
        assert(f.take(i + 1).drop_last() =~= f.take(i));
    } else {
        assert(f.take(i) =~= f);
    }
    lemma_fragments_total_nonneg(f.take(i));
}

proof fn lemma_fragments_total_nonneg(f: Seq<(u64, u64)>)
    ensures
        fragments_total(f) >= 0,
    decreases f.len(),
{
    if f.len() > 0 {
        lemma_fragments_total_nonneg(f.drop_last());
    }
}

/// Joins the fragments of a fragmented file.
pub struct FragmentReassembler;

impl FragmentReassembler {
    /// Reads each `(offset, size)` fragment in full, in order, and joins
    /// them; `None` when a fragment cannot be read in full.
    pub fn reassemble<R: BlockReader>(reader: &R, fragments: &[(u64, u64)]) -> (r: Option<Vec<u8>>)
        requires
            fragments_total(fragments@) <= usize::MAX,
        ensures
            r matches Some(out) ==> out@.len() == fragments_total(fragments@),
            can_reassemble(reader, fragments@, opt_bytes(r)),
    {
        let mut output: Vec<u8> = Vec::new();
        let mut i: usize = 0;
        let ghost mut reads: Seq<Option<Seq<u8>>> = Seq::empty();
        proof {
            assert(fragments@.take(0) =~= Seq::<(u64, u64)>::empty());
        }
        while i < fragments.len()
            invariant
                i <= fragments@.len(),
                fragments_total(fragments@) <= usize::MAX,
                output@.len() == fragments_total(fragments@.take(i as int)),
                reads.len() == i,
                forall|j: int| 0 <= j < i ==> can_read_exact(reader, fragments@[j].0, fragments@[j].1 as usize, #[trigger] reads[j]),
                forall|j: int| 0 <= j < i ==> (#[trigger] reads[j]) is Some,
                output@ == joined_reads(reads),
            decreases fragments.len() - i,
        {
            let (offset, size) = fragments[i];
            proof {
                assert(fragments@.take(i + 1).drop_last() =~= fragments@.take(i as int));
                lemma_fragments_total_prefix(fragments@, i + 1);
            }
            let res = read_exact_at(reader, offset, size as usize);
            let ghost b = opt_bytes(res);
            let ghost before = reads;
            proof {
                reads = reads.push(b);
                assert(reads.drop_last() =~= before);
                assert forall|j: int| 0 <= j < i + 1 implies can_read_exact(reader, fragments@[j].0, fragments@[j].1 as usize, #[trigger] reads[j]) by {
                    if j < i {
                        assert(reads[j] == before[j]);
                    }
                }
            }
            match res {
                None => {
                    proof {
                        assert forall|j: int| 0 <= j < reads.len() - 1 implies (#[trigger] reads[j]) is Some by {
                            assert(reads[j] == before[j]);
                        }
                        assert(reassembly_reads(reader, fragments@, reads));
                        assert(reassembly_result(reads) == opt_bytes(None::<Vec<u8>>));
                    }
                    return None;
                },
                Some(buf) => {
                    let mut buf = buf;
                    output.append(&mut buf);
                    proof {
                        assert forall|j: int| 0 <= j < i + 1 implies (#[trigger] reads[j]) is Some by {
                            if j < i {
                                assert(reads[j] == before[j]);
                            }
                        }
                    }
                },
            }
            i += 1;
        }
        assert(fragments@.take(fragments@.len() as int) =~= fragments@);
        proof {
            assert(reassembly_reads(reader, fragments@, reads));
        }
        Some(output)
    }
}

/// The recovery estimate by cases: an unfragmented file of 4 KiB to 50 MiB
/// gets 100 past the first GiB and 85 within it; a smaller one 100 and 95; a
/// larger one 80 and 65; fragmentation costs 35 points in every case.
pub proof fn lemma_recovery_percent_cases(offset: u64, size: u64)
    ensures
        4096 <= size <= 50 * 1024 * 1024 ==> spec_recovery_percent(offset, size, false) == (if offset
            >= 1024 * 1024 * 1024 { 100u8 } else { 85u8 }),
        size < 4096 ==> spec_recovery_percent(offset, size, false) == (if offset >= 1024 * 1024 * 1024 {
            100u8
        } else {
            95u8
        }),
        size > 50 * 1024 * 1024 ==> spec_recovery_percent(offset, size, false) == (if offset >= 1024 * 1024 * 1024 {
            80u8
        } else {
            65u8
        }),
        spec_recovery_percent(offset, size, true) == spec_recovery_percent(offset, size, false) - 35
            || (size < 4096 && offset >= 1024 * 1024 * 1024 && spec_recovery_percent(offset, size, true) == 75),
{
}

/// A sector of at least 128 bytes counts as text exactly when at least 109
/// of its first 128 bytes are printable (85% of 128 is 108.8); a shorter
/// non-empty one when at least 85% of its bytes are.
pub proof fn lemma_text_block_threshold(s: Seq<u8>)
    ensures
        s.len() >= 128 ==> (spec_is_text_block(s) <==> printable_count(s.take(128)) >= 109),
        0 < s.len() < 128 ==> (spec_is_text_block(s) <==> 100 * printable_count(s) >= 85 * s.len()),
{
    if 0 < s.len() < 128 {
        assert(s.take(s.len() as int) =~= s);
    }
}

/// The geometry of a scan: 512 KiB blocks, 32 bytes carried between
/// windows, a 512-byte sector skipped after a failed read, text runs of at
/// most 10 MiB.
pub proof fn lemma_scan_geometry()
    ensures
        BLOCK_SIZE == 524288,
        OVERLAP_SIZE == 32,
        SECTOR_SIZE == 512,
        MAX_TXT == 10485760,
{
}

/// Hex digits are those of "0123456789ABCDEF", upper case.
pub proof fn lemma_hex_digits(d: int)
    requires
        0 <= d < 16,
    ensures
        hex_digit(d) == "0123456789ABCDEF"@[d],
{
    reveal_strlit("0123456789ABCDEF");
    if d == 0 {} else if d == 1 {} else if d == 2 {} else if d == 3 {} else if d == 4 {} else if d == 5 {}
    else if d == 6 {} else if d == 7 {} else if d == 8 {} else if d == 9 {} else if d == 10 {}
    else if d == 11 {} else if d == 12 {} else if d == 13 {} else if d == 14 {} else {}
}

proof fn lemma_hex_joined_layout(bs: Seq<u8>)
    requires
        bs.len() >= 1,
    ensures
        hex_joined(bs).len() == 4 * bs.len() - 2,
        forall|k: int| 0 <= k < bs.len() ==> #[trigger] hex_joined(bs)[4 * k] == hex_digit(bs[k] as int / 16)
            && hex_joined(bs)[4 * k + 1] == hex_digit(bs[k] as int % 16),
        forall|k: int| 0 <= k < bs.len() - 1 ==> #[trigger] hex_joined(bs)[4 * k + 2] == ',' && hex_joined(bs)[4 * k
            + 3] == ' ',
    decreases bs.len(),
{
    if bs.len() > 1 {
        let p = bs.drop_last();
        lemma_hex_joined_layout(p);
        let j = hex_joined(bs);
        let pj = hex_joined(p);
        assert(j == pj + seq![',', ' '] + hex_byte(bs.last()));
        assert forall|k: int| 0 <= k < bs.len() implies #[trigger] j[4 * k] == hex_digit(bs[k] as int / 16) && j[4 * k
            + 1] == hex_digit(bs[k] as int % 16) by {
            if k < p.len() {
                assert(j[4 * k] == pj[4 * k]);
                assert(j[4 * k + 1] == pj[4 * k + 1]);
                assert(bs[k] == p[k]);
            }
        }
        assert forall|k: int| 0 <= k < bs.len() - 1 implies #[trigger] j[4 * k + 2] == ',' && j[4 * k + 3] == ' ' by {
            if k < p.len() - 1 {
                assert(j[4 * k + 2] == pj[4 * k + 2]);
                assert(j[4 * k + 3] == pj[4 * k + 3]);
            }
        }
    }
}

/// A carved signature's label lists its header bytes as `{:02X?}` prints
/// them: "[" then each byte as two upper-case hex digits, the bytes
/// separated by ", ", then "]" (so "[FF, D8, FF]" for FF D8 FF).
pub proof fn lemma_hex_list_layout(bs: Seq<u8>)
    requires
        bs.len() >= 1,
    ensures
        hex_list(bs).len() == 4 * bs.len(),
        hex_list(bs)[0] == '[',
        hex_list(bs)[4 * bs.len() - 1] == ']',
        forall|k: int| 0 <= k < bs.len() ==> #[trigger] hex_list(bs)[4 * k + 1] == "0123456789ABCDEF"@[bs[k] as int / 16]
            && hex_list(bs)[4 * k + 2] == "0123456789ABCDEF"@[bs[k] as int % 16],
        forall|k: int| 0 <= k < bs.len() - 1 ==> #[trigger] hex_list(bs)[4 * k + 3] == ',' && hex_list(bs)[4 * k + 4] == ' ',
{
    lemma_hex_joined_layout(bs);
    let l = hex_list(bs);
    let j = hex_joined(bs);
    assert forall|k: int| 0 <= k < bs.len() implies #[trigger] l[4 * k + 1] == "0123456789ABCDEF"@[bs[k] as int / 16]
        && l[4 * k + 2] == "0123456789ABCDEF"@[bs[k] as int % 16] by {
        assert(l[4 * k + 1] == j[4 * k]);
        assert(l[4 * k + 2] == j[4 * k + 1]);
        lemma_hex_digits(bs[k] as int / 16);
        lemma_hex_digits(bs[k] as int % 16);
    }
    assert forall|k: int| 0 <= k < bs.len() - 1 implies #[trigger] l[4 * k + 3] == ',' && l[4 * k + 4] == ' ' by {
        assert(l[4 * k + 3] == j[4 * k + 2]);
        assert(l[4 * k + 4] == j[4 * k + 3]);
    }
}

/// ZIP archives are told apart by the folder names of Office packages:
/// "word/" makes a Word document, else "xl/" a workbook, else "ppt/" a
/// presentation; an archive naming none of them stays a ZIP.
pub proof fn lemma_zip_subtype_by_folder(data: Seq<u8>)
    ensures
        bytes::occurs_in(data, seq![0x77u8, 0x6F, 0x72, 0x64, 0x2F]) ==> spec_zip_subtype(data) == FileTypeView::DOCX,
        !bytes::occurs_in(data, seq![0x77u8, 0x6F, 0x72, 0x64, 0x2F]) && bytes::occurs_in(data, seq![0x78u8, 0x6C, 0x2F])
            ==> spec_zip_subtype(data) == FileTypeView::XLSX,
        !bytes::occurs_in(data, seq![0x77u8, 0x6F, 0x72, 0x64, 0x2F]) && !bytes::occurs_in(data, seq![0x78u8, 0x6C, 0x2F])
            && bytes::occurs_in(data, seq![0x70u8, 0x70, 0x74, 0x2F]) ==> spec_zip_subtype(data) == FileTypeView::PPTX,
        !bytes::occurs_in(data, seq![0x77u8, 0x6F, 0x72, 0x64, 0x2F]) && !bytes::occurs_in(data, seq![0x78u8, 0x6C, 0x2F])
            && !bytes::occurs_in(data, seq![0x70u8, 0x70, 0x74, 0x2F]) ==> spec_zip_subtype(data) == FileTypeView::ZIP,
{
}

/// A footer search block by block: a block holding the footer ends the
/// file just past the footer's first occurrence in it; a block past the
/// first sector with an erased sector is a gap, and the third gap (not the
/// first or second) marks the file fragmented, which it then stays.
pub proof fn lemma_footer_step_outcomes(start: u64, st: FooterSearch, chunk: Seq<u8>, footer: Seq<u8>, p: int)
    requires
        st.pos + chunk.len() <= u64::MAX,
        st.gaps < u64::MAX,
    ensures
        bytes::occurs_at(chunk, footer, p) && (forall|q: int| 0 <= q < p ==> !bytes::occurs_at(chunk, footer, q))
            ==> (match spec_footer_step(start, st, chunk, footer) {
            FooterStep::Found { end, .. } => end == st.pos + p + footer.len(),
            FooterStep::Continue(_) => false,
        }),
        !bytes::occurs_in(chunk, footer) ==> (match spec_footer_step(start, st, chunk, footer) {
            FooterStep::Found { .. } => false,
            FooterStep::Continue(s) => s.pos == st.pos + chunk.len(),
        }),
        has_zero_run(chunk) && st.pos > start + 512 && st.gaps == 2 ==> (match spec_footer_step(
            start,
            st,
            chunk,
            footer,
        ) {
            FooterStep::Found { fragmented, .. } => fragmented,
            FooterStep::Continue(s) => s.fragmented && s.gaps == 3,
        }),
        st.gaps <= 1 && !st.fragmented ==> !(match spec_footer_step(start, st, chunk, footer) {
            FooterStep::Found { fragmented, .. } => fragmented,
            FooterStep::Continue(s) => s.fragmented,
        }),
        st.fragmented ==> (match spec_footer_step(start, st, chunk, footer) {
            FooterStep::Found { fragmented, .. } => fragmented,
            FooterStep::Continue(s) => s.fragmented,
        }),
{
    if bytes::occurs_at(chunk, footer, p) && (forall|q: int| 0 <= q < p ==> !bytes::occurs_at(chunk, footer, q)) {
        bytes::lemma_first_occurrence(chunk, footer, p);
        assert(bytes::occurs_in(chunk, footer));
    }
}

} // verus!
