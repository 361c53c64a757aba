//! Access to raw device bytes.
use vstd::prelude::*;

verus! {

/// A source of raw device bytes addressed by absolute byte offset.
///
/// `read_at(offset, len)` returns up to `len` bytes starting at `offset`: all
/// `len` of them unless the end of the device comes first, an empty vector at
/// or past the end, and `None` when the read fails.  The scanners take nothing
/// else for granted: they check the length of whatever comes back.
pub trait BlockReader {
    fn read_at(&self, offset: u64, len: usize) -> Option<Vec<u8>>;
}

/// `out` is a result that `reader.read_at(offset, len)` can give.  Nothing is
/// assumed of the reader: the contracts of the functions that read say of
/// each read only that its result is one the reader can give.
pub open spec fn can_read<R: BlockReader>(reader: &R, offset: u64, len: usize, out: Option<Vec<u8>>) -> bool {
    call_ensures(R::read_at, (reader, offset, len), out)
}

/// The bytes of a read result when there are exactly `len` of them.
pub open spec fn exact_bytes(out: Option<Vec<u8>>, len: usize) -> Option<Seq<u8>> {
    match out {
        Some(v) => if v@.len() == len {
            Some(v@)
        } else {
            None
        },
        None => None,
    }
}

/// `b` is what an exact read of `len` bytes at `offset` can give: the bytes
/// of a result of `read_at` that has exactly `len` of them, or `None` for a
/// failed or short read.
pub open spec fn can_read_exact<R: BlockReader>(reader: &R, offset: u64, len: usize, b: Option<Seq<u8>>) -> bool {
    exists|out: Option<Vec<u8>>| #[trigger] can_read(reader, offset, len, out) && exact_bytes(out, len) == b
}

/// The bytes of an optional vector.
pub open spec fn opt_bytes(v: Option<Vec<u8>>) -> Option<Seq<u8>> {
    match v {
        Some(v) => Some(v@),
        None => None,
    }
}

/// Reads exactly `len` bytes at `offset`; `None` unless the reader delivered
/// exactly that many.
pub fn read_exact_at<R: BlockReader>(reader: &R, offset: u64, len: usize) -> (r: Option<Vec<u8>>)
    ensures
        r is Some ==> r->0@.len() == len,
        can_read_exact(reader, offset, len, opt_bytes(r)),
{
    let out = reader.read_at(offset, len);
    proof {
        assert(can_read(reader, offset, len, out));
    }
    match out {
        Some(v) => {
            if v.len() == len {
                Some(v)
            } else {
                None
            }
        },
        None => None,
    }
}

} // verus!
