//! Little-endian integer fields and byte-pattern matching over raw sectors.
use vstd::prelude::*;

verus! {

/// Little-endian 16-bit value of `s[i..i+2]`.
pub open spec fn le16(s: Seq<u8>, i: int) -> int {
    s[i] as int + s[i + 1] as int * 0x100
}

/// Little-endian 32-bit value of `s[i..i+4]`.
pub open spec fn le32(s: Seq<u8>, i: int) -> int {
    le16(s, i) + le16(s, i + 2) * 0x1_0000
}

/// Little-endian 64-bit value of `s[i..i+8]`.
pub open spec fn le64(s: Seq<u8>, i: int) -> int {
    le32(s, i) + le32(s, i + 4) * 0x1_0000_0000
}

/// Reads a little-endian `u16` at byte `i`.
pub fn read_u16(s: &[u8], i: usize) -> (r: u16)
    requires
        i + 2 <= s.len(),
    ensures
        r as int == le16(s@, i as int),
{
    s[i] as u16 + (s[i + 1] as u16) * 0x100
}

/// Reads a little-endian `u32` at byte `i`.
pub fn read_u32(s: &[u8], i: usize) -> (r: u32)
    requires
        i + 4 <= s.len(),
    ensures
        r as int == le32(s@, i as int),
{
    let lo = read_u16(s, i) as u32;
    let hi = read_u16(s, i + 2) as u32;
    lo + hi * 0x1_0000
}

/// Reads a little-endian `u64` at byte `i`.
pub fn read_u64(s: &[u8], i: usize) -> (r: u64)
    requires
        i + 8 <= s.len(),
    ensures
        r as int == le64(s@, i as int),
{
    let lo = read_u32(s, i) as u64;
    let hi = read_u32(s, i + 4) as u64;
    lo + hi * 0x1_0000_0000
}

/// `pat` occurs in `s` at position `i`.
pub open spec fn occurs_at(s: Seq<u8>, pat: Seq<u8>, i: int) -> bool {
    0 <= i && i + pat.len() <= s.len() && s.subrange(i, i + pat.len()) == pat
}

/// Whether `pat` occurs in `s` at position `i`.
pub fn matches_at(s: &[u8], pat: &[u8], i: usize) -> (r: bool)
    ensures
        r == occurs_at(s@, pat@, i as int),
{
    if pat.len() > s.len() || i > s.len() - pat.len() {
        return false;
    }
    let mut k: usize = 0;
    while k < pat.len()
        invariant
            i + pat.len() <= s.len(),
            k <= pat@.len(),
            forall|t: int| 0 <= t < k ==> s@[i + t] == pat@[t],
        decreases pat.len() - k,
    {
        if s[i + k] != pat[k] {
            assert(s@.subrange(i as int, i + pat@.len())[k as int] != pat@[k as int]);
            return false;
        }
        k += 1;
    }
    assert(s@.subrange(i as int, i + pat@.len()) =~= pat@);
    true
}

/// `pat` occurs somewhere in `s`.
pub open spec fn occurs_in(s: Seq<u8>, pat: Seq<u8>) -> bool {
    exists|i: int| occurs_at(s, pat, i)
}

/// Position of the first occurrence of `pat` in `s` (meaningful when it
/// occurs).
pub open spec fn first_occurrence(s: Seq<u8>, pat: Seq<u8>) -> int {
    choose|p: int| occurs_at(s, pat, p) && forall|q: int| 0 <= q < p ==> !occurs_at(s, pat, q)
}

/// An occurrence with none before it is the first occurrence.
pub proof fn lemma_first_occurrence(s: Seq<u8>, pat: Seq<u8>, p: int)
    requires
        occurs_at(s, pat, p),
        forall|q: int| 0 <= q < p ==> !occurs_at(s, pat, q),
    ensures
        first_occurrence(s, pat) == p,
{
    let f = first_occurrence(s, pat);
    assert(occurs_at(s, pat, f) && forall|q: int| 0 <= q < f ==> !occurs_at(s, pat, q));
    if f < p {
        assert(!occurs_at(s, pat, f));
    } else if f > p {
        assert(!occurs_at(s, pat, p));
    }
}

/// Position of the first occurrence of `pat` in `s`, if any (an empty pattern
/// occurs at 0).
pub fn find_first(s: &[u8], pat: &[u8]) -> (r: Option<usize>)
    ensures
        match r {
            Some(p) => occurs_at(s@, pat@, p as int) && forall|q: int|
                0 <= q < p ==> !occurs_at(s@, pat@, q),
            None => !occurs_in(s@, pat@),
        },
{
    if pat.len() > s.len() {
        return None;
    }
    if pat.len() == 0 {
        assert(s@.subrange(0, 0) =~= pat@);
        return Some(0);
    }
    let last = s.len() - pat.len();
    let mut i: usize = 0;
    while i <= last
        invariant
            last == s.len() - pat.len(),
            pat.len() > 0,
            i <= last + 1,
            forall|q: int| 0 <= q < i ==> !occurs_at(s@, pat@, q),
        decreases last + 1 - i,
    {
        if matches_at(s, pat, i) {
            return Some(i);
        }
        i += 1;
    }
    None
}

/// Whether `pat` occurs anywhere in `s`.
pub fn contains_pattern(s: &[u8], pat: &[u8]) -> (r: bool)
    ensures
        r == occurs_in(s@, pat@),
{
    find_first(s, pat).is_some()
}

} // verus!
