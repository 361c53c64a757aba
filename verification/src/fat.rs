//! FAT32 and exFAT directory recovery.
//!
//! Scans directory structures for deleted entries (0xE5 marker on FAT32,
//! cleared bit-7 type codes on exFAT) and reconstructs filenames from LFN
//! records.  Offsets are relative to the volume: offset 0 is the boot sector.
use vstd::hash_set::HashSetWithView;
use vstd::prelude::*;
use vstd::arithmetic::power2::{pow2, lemma2_to64};

use crate::bytes::{read_u16, read_u32, read_u64, matches_at};
use crate::bytes;
use crate::device::{BlockReader, read_exact_at, can_read_exact, opt_bytes};
use crate::strs::{to_lower, to_upper, from_utf16_lossy, string_from_chars, chars_of, str_eq};
use crate::strs;
use crate::types::{FileType, FileTypeView, RecoveredFile};

verus! {

broadcast use vstd::std_specs::hash::group_hash_axioms;

// ── Filesystem detection ────────────────────────────────────────────────────

/// Filesystem found in a boot sector.
#[derive(PartialEq, Eq, Structural, Clone, Copy, Debug)]
pub enum FsType {
    Fat32,
    ExFat,
    Unknown,
}

/// OEM name of an exFAT boot sector: "EXFAT   ".
pub open spec fn exfat_oem() -> Seq<u8> {
    seq![0x45u8, 0x58, 0x46, 0x41, 0x54, 0x20, 0x20, 0x20]
}

/// FAT32 file-system type string at offset 82: "FAT32   ".
pub open spec fn fat32_label() -> Seq<u8> {
    seq![0x46u8, 0x41, 0x54, 0x33, 0x32, 0x20, 0x20, 0x20]
}

fn exfat_oem_bytes() -> (r: Vec<u8>)
    ensures
        r@ == exfat_oem(),
{
    let r: Vec<u8> = vec![0x45u8, 0x58, 0x46, 0x41, 0x54, 0x20, 0x20, 0x20];
    assert(r@ =~= exfat_oem());
    r
}

fn fat32_label_bytes() -> (r: Vec<u8>)
    ensures
        r@ == fat32_label(),
{
    let r: Vec<u8> = vec![0x46u8, 0x41, 0x54, 0x33, 0x32, 0x20, 0x20, 0x20];
    assert(r@ =~= fat32_label());
    r
}

/// Filesystem of a boot sector: exFAT by its OEM name, FAT32 by its type
/// string or, failing that, by a zero 16-bit FAT size, a non-zero 32-bit FAT
/// size and a zero root-entry count.  Sectors shorter than 90 bytes are unknown.
pub open spec fn spec_detect_fs_type(b: Seq<u8>) -> FsType {
    if b.len() < 90 {
        FsType::Unknown
    } else if bytes::occurs_at(b, exfat_oem(), 3) {
        FsType::ExFat
    } else if bytes::occurs_at(b, fat32_label(), 82) {
        FsType::Fat32
    } else if bytes::le16(b, 22) == 0 && bytes::le32(b, 36) != 0 && bytes::le16(b, 17) == 0 {
        FsType::Fat32
    } else {
        FsType::Unknown
    }
}

/// Detects FAT32 or exFAT from a boot sector.
pub fn detect_fs_type(boot: &[u8]) -> (r: FsType)
    ensures
        r == spec_detect_fs_type(boot@),
{
    if boot.len() < 90 {
        return FsType::Unknown;
    }
    let oem = exfat_oem_bytes();
    if matches_at(boot, oem.as_slice(), 3) {
        return FsType::ExFat;
    }
    let label = fat32_label_bytes();
    if matches_at(boot, label.as_slice(), 82) {
        return FsType::Fat32;
    }
    let fat16_sz = read_u16(boot, 22);
    let fat32_sz = read_u32(boot, 36);
    let root_ent = read_u16(boot, 17);
    if fat16_sz == 0 && fat32_sz != 0 && root_ent == 0 {
        return FsType::Fat32;
    }
    FsType::Unknown
}

// ── FAT32 parameters ───────────────────────────────────────────────────────

/// Geometry of a FAT32 volume, in bytes from the start of the volume.
pub struct Fat32Params {
    pub cluster_size: u64,
    /// Byte offset of FAT[0].
    pub fat_start: u64,
    /// Byte offset of the first data cluster (cluster 2).
    pub data_start: u64,
    pub root_cluster: u32,
}

impl Fat32Params {
    /// Bounds that every parsed geometry satisfies: they keep all cluster and
    /// FAT-entry offsets inside 64 bits.
    pub open spec fn bounded(&self) -> bool {
        &&& self.cluster_size <= 0xFF * 0xFFFF
        &&& self.fat_start <= 0xFFFF * 0xFFFF
        &&& self.data_start <= (0xFFFF + 0xFF * 0xFFFF_FFFF) * 0xFFFF
    }

    /// Byte offset of a data cluster.
    pub open spec fn spec_cluster_offset(&self, cluster: int) -> int {
        self.data_start + (cluster - 2) * self.cluster_size
    }
}

/// FAT32 geometry from a boot sector: bytes per sector (offset 11), sectors
/// per cluster (13), reserved sectors (14), number of FATs (16), FAT size in
/// sectors (36) and root cluster (44).  `None` for sectors shorter than 80
/// bytes, fewer than 512 bytes per sector, zero sectors per cluster or a zero
/// FAT size.
pub open spec fn spec_parse_fat32_params(b: Seq<u8>) -> Option<(u64, u64, u64, u32)> {
    if b.len() < 80 {
        None
    } else {
        let bps = bytes::le16(b, 11);
        let spc = b[13] as int;
        let rsc = bytes::le16(b, 14);
        let nf = b[16] as int;
        let fsz = bytes::le32(b, 36);
        if bps < 512 || spc == 0 || fsz == 0 {
            None
        } else {
            Some((
                (spc * bps) as u64,
                (rsc * bps) as u64,
                ((rsc + nf * fsz) * bps) as u64,
                bytes::le32(b, 44) as u32,
            ))
        }
    }
}

proof fn lemma_fat32_geometry_bounds(bps: int, spc: int, rsc: int, nf: int, fsz: int)
    requires
        0 <= bps <= 0xFFFF,
        0 <= spc <= 0xFF,
        0 <= rsc <= 0xFFFF,
        0 <= nf <= 0xFF,
        0 <= fsz <= 0xFFFF_FFFF,
    ensures
        spc * bps <= 0xFF * 0xFFFF,
        rsc * bps <= 0xFFFF * 0xFFFF,
        nf * fsz <= 0xFF * 0xFFFF_FFFF,
        (rsc + nf * fsz) * bps <= (0xFFFF + 0xFF * 0xFFFF_FFFF) * 0xFFFF,
        0 <= spc * bps,
        0 <= rsc * bps,
        0 <= nf * fsz,
        0 <= (rsc + nf * fsz) * bps,
{
    assert(spc * bps <= 0xFF * 0xFFFF) by (nonlinear_arith)
        requires 0 <= bps <= 0xFFFF, 0 <= spc <= 0xFF;
    assert(rsc * bps <= 0xFFFF * 0xFFFF) by (nonlinear_arith)
        requires 0 <= bps <= 0xFFFF, 0 <= rsc <= 0xFFFF;
    assert(nf * fsz <= 0xFF * 0xFFFF_FFFF) by (nonlinear_arith)
        requires 0 <= nf <= 0xFF, 0 <= fsz <= 0xFFFF_FFFF;
    assert((rsc + nf * fsz) * bps <= (0xFFFF + 0xFF * 0xFFFF_FFFF) * 0xFFFF) by (nonlinear_arith)
        requires 0 <= bps <= 0xFFFF, 0 <= rsc + nf * fsz <= 0xFFFF + 0xFF * 0xFFFF_FFFF;
    assert(0 <= spc * bps) by (nonlinear_arith)
        requires 0 <= bps, 0 <= spc;
    assert(0 <= rsc * bps) by (nonlinear_arith)
        requires 0 <= bps, 0 <= rsc;
    assert(0 <= nf * fsz) by (nonlinear_arith)
        requires 0 <= nf, 0 <= fsz;
    assert(0 <= (rsc + nf * fsz) * bps) by (nonlinear_arith)
        requires 0 <= bps, 0 <= rsc + nf * fsz;
}

/// Parses the FAT32 geometry of a boot sector.
pub fn parse_fat32_params(boot: &[u8]) -> (r: Option<Fat32Params>)
    ensures
        match r {
            Some(p) => spec_parse_fat32_params(boot@) == Some(
                (p.cluster_size, p.fat_start, p.data_start, p.root_cluster),
            ) && p.bounded(),
            None => spec_parse_fat32_params(boot@) is None,
        },
{
    if boot.len() < 80 {
        return None;
    }
    let bps = read_u16(boot, 11) as u64;
    let spc = boot[13] as u64;
    let rsc = read_u16(boot, 14) as u64;
    let nf = boot[16] as u64;
    let fsz = read_u32(boot, 36) as u64;
    let root = read_u32(boot, 44);
    if bps < 512 || spc == 0 || fsz == 0 {
        return None;
    }
    proof {
        lemma_fat32_geometry_bounds(bps as int, spc as int, rsc as int, nf as int, fsz as int);
    }
    Some(Fat32Params {
        cluster_size: spc * bps,
        fat_start: rsc * bps,
        data_start: (rsc + nf * fsz) * bps,
        root_cluster: root,
    })
}

proof fn lemma_fat32_offset_fits(p: &Fat32Params, cluster: int)
    requires
        p.bounded(),
        2 <= cluster <= 0xFFFF_FFFF,
    ensures
        0 <= (cluster - 2) * p.cluster_size <= 0xFFFF_FFFF * (0xFF * 0xFFFF),
        p.spec_cluster_offset(cluster) <= 0x0400_0000_0000_0000,
{
    let c = cluster - 2;
    let cs = p.cluster_size as int;
    assert(0 <= c * cs <= 0xFFFF_FFFF * (0xFF * 0xFFFF)) by (nonlinear_arith)
        requires 0 <= c <= 0xFFFF_FFFF, 0 <= cs <= 0xFF * 0xFFFF;
}

/// Byte offset of a FAT32 data cluster (clusters are numbered from 2).
pub fn fat32_cluster_offset(cluster: u32, p: &Fat32Params) -> (r: u64)
    requires
        cluster >= 2,
        p.bounded(),
    ensures
        r as int == p.spec_cluster_offset(cluster as int),
{
    proof {
        lemma_fat32_offset_fits(p, cluster as int);
    }
    p.data_start + (cluster as u64 - 2) * p.cluster_size
}

/// Successor of a cluster given its raw FAT32 entry: the low 28 bits, when
/// they name a data cluster (2 to 0x0FFF_FFF6); `None` for free, reserved,
/// bad and end-of-chain markers.
pub open spec fn fat32_successor(entry: int) -> Option<u32> {
    let next = entry % 0x1000_0000;
    if 2 <= next < 0x0FFF_FFF7 {
        Some(next as u32)
    } else {
        None
    }
}

/// Decodes a raw FAT32 entry into the next cluster of a chain.
pub fn fat32_next_from_entry(entry: u32) -> (r: Option<u32>)
    ensures
        r == fat32_successor(entry as int),
{
    let next = entry & 0x0FFF_FFFF;
    assert(entry & 0x0FFF_FFFF == entry % 0x1000_0000) by (bit_vector);
    if 2 <= next && next < 0x0FFF_FFF7 {
        Some(next)
    } else {
        None
    }
}

/// The successor that an exact read of a 4-byte FAT32 entry gives: none
/// when the read failed.
pub open spec fn fat32_next_of(b: Option<Seq<u8>>) -> Option<u32> {
    match b {
        Some(s) => fat32_successor(bytes::le32(s, 0)),
        None => None,
    }
}

/// Byte position of the FAT entry of `cluster`, 4 bytes per entry.
pub open spec fn fat_entry_pos(fat_start: u64, cluster: u32) -> u64 {
    (fat_start + cluster * 4) as u64
}

/// Reads the FAT entry of `cluster` and returns its successor.
fn fat32_next_cluster<R: BlockReader>(reader: &R, cluster: u32, p: &Fat32Params) -> (r: Option<u32>)
    requires
        p.bounded(),
    ensures
        r is Some ==> 2 <= r->0 < 0x0FFF_FFF7,
        exists|b: Option<Seq<u8>>| #[trigger] can_read_exact(reader, fat_entry_pos(p.fat_start, cluster), 4, b)
            && r == fat32_next_of(b),
{
    let off = p.fat_start + cluster as u64 * 4;
    let res = read_exact_at(reader, off, 4);
    let ghost b = crate::device::opt_bytes(res);
    assert(can_read_exact(reader, fat_entry_pos(p.fat_start, cluster), 4, b));
    match res {
        Some(buf) => {
            let entry = read_u32(buf.as_slice(), 0);
            fat32_next_from_entry(entry)
        },
        None => None,
    }
}

/// Properties of every cluster chain: at most `max` clusters, all of them
/// data clusters below `limit`, no cluster twice, starting at `start`.
pub open spec fn chain_ok(chain: Seq<u32>, start: u32, max: usize, limit: u32) -> bool {
    &&& chain.len() <= max
    &&& forall|i: int| 0 <= i < chain.len() ==> 2 <= #[trigger] chain[i] < limit
    &&& forall|i: int, j: int| 0 <= i < j < chain.len() ==> chain[i] != chain[j]
    &&& chain.len() > 0 ==> chain[0] == start
    &&& (max > 0 && 2 <= start < limit) ==> chain.len() > 0
}

/// `n` is the successor that an exact read of the FAT32 entry of `c` can
/// give.
pub open spec fn fat32_link<R: BlockReader>(reader: &R, fat_start: u64, c: u32, n: Option<u32>) -> bool {
    exists|b: Option<Seq<u8>>| #[trigger] can_read_exact(reader, fat_entry_pos(fat_start, c), 4, b) && n == fat32_next_of(b)
}

/// `chain` is a cluster chain that following the FAT32 table from `start`
/// can give: each cluster after the first is what the entry of the one
/// before names, and a chain shorter than `max` ends where the entry of its
/// last cluster names no data cluster or one already in the chain.
pub open spec fn fat32_chain_from<R: BlockReader>(reader: &R, fat_start: u64, start: u32, max: usize, chain: Seq<u32>) -> bool {
    &&& chain_ok(chain, start, max, 0x0FFF_FFF7)
    &&& forall|i: int| 0 <= i < chain.len() - 1 ==> fat32_link(reader, fat_start, #[trigger] chain[i], Some(chain[i + 1]))
    &&& 0 < chain.len() < max ==> exists|n: Option<u32>| #[trigger] fat32_link(reader, fat_start, chain.last(), n) && (n is None
        || chain.contains(n->0))
}

/// Follows a FAT32 cluster chain from `start`, stopping at `max` clusters, at
/// the end of the chain, at an unreadable entry or at the first repeated
/// cluster.
pub fn fat32_cluster_chain<R: BlockReader>(reader: &R, start: u32, p: &Fat32Params, max: usize) -> (r: Vec<u32>)
    requires
        p.bounded(),
    ensures
        chain_ok(r@, start, max, 0x0FFF_FFF7),
        fat32_chain_from(reader, p.fat_start, start, max, r@),
{
    let mut chain: Vec<u32> = Vec::new();
    let mut seen: HashSetWithView<u32> = HashSetWithView::new();
    let mut cur = start;
    while chain.len() < max && 2 <= cur && cur < 0x0FFF_FFF7
        invariant_except_break
            chain.len() > 0 ==> fat32_link(reader, p.fat_start, chain@.last(), Some(cur)),
        invariant
            forall|i: int| 0 <= i < chain.len() - 1 ==> fat32_link(reader, p.fat_start, #[trigger] chain@[i], Some(chain@[i + 1])),
            p.bounded(),
            chain.len() <= max,
            forall|i: int| 0 <= i < chain.len() ==> 2 <= #[trigger] chain[i] < 0x0FFF_FFF7,
            forall|i: int, j: int| 0 <= i < j < chain.len() ==> chain[i] != chain[j],
            chain.len() > 0 ==> chain[0] == start,
            chain.len() == 0 ==> cur == start,
            forall|x: u32| seen@.contains(x) <==> chain@.contains(x),
        ensures
            (max > 0 && 2 <= start < 0x0FFF_FFF7) ==> chain.len() > 0,
            chain.len() <= max,
            forall|i: int| 0 <= i < chain.len() ==> 2 <= #[trigger] chain[i] < 0x0FFF_FFF7,
            forall|i: int, j: int| 0 <= i < j < chain.len() ==> chain[i] != chain[j],
            chain.len() > 0 ==> chain[0] == start,
            0 < chain.len() < max ==> exists|n: Option<u32>| #[trigger] fat32_link(reader, p.fat_start, chain@.last(), n) && (n
                is None || chain@.contains(n->0)),
            forall|i: int| 0 <= i < chain.len() - 1 ==> fat32_link(reader, p.fat_start, #[trigger] chain@[i], Some(chain@[i + 1])),
        decreases max - chain.len(),
    {
        if !seen.insert(cur) {
            assert(chain@.contains(cur));
            break;
        }
        assert(!chain@.contains(cur));
        let ghost old_chain = chain@;
        chain.push(cur);
        assert(forall|i: int| 0 <= i < chain.len() - 1 ==> chain[i] != cur);
        assert forall|x: u32| seen@.contains(x) <==> chain@.contains(x) by {
            if x == cur {
                assert(chain@[chain.len() - 1] == x);
            } else {
                if old_chain.contains(x) {
                    let k = choose|k: int| 0 <= k < old_chain.len() && old_chain[k] == x;
                    assert(chain@[k] == x);
                }
                if chain@.contains(x) {
                    let k = choose|k: int| 0 <= k < chain.len() && chain@[k] == x;
                    assert(old_chain[k] == x);
                }
            }
        }
        assert forall|i: int| 0 <= i < chain.len() - 1 implies fat32_link(reader, p.fat_start, #[trigger] chain@[i], Some(chain@[i + 1])) by {
            if i < chain.len() - 2 {
                assert(chain@[i] == old_chain[i] && chain@[i + 1] == old_chain[i + 1]);
            }
        }
        let next = fat32_next_cluster(reader, cur, p);
        assert(fat32_link(reader, p.fat_start, chain@.last(), next));
        match next {
            Some(n) => cur = n,
            None => break,
        }
    }
    assert(fat32_chain_from(reader, p.fat_start, start, max, chain@));
    chain
}


// ── LFN reconstruction ─────────────────────────────────────────────────────

/// The 13 UTF-16 code units stored in one long-filename entry: five at byte 1,
/// six at byte 14 and two at byte 28.
pub open spec fn lfn_entry_units(e: Seq<u8>) -> Seq<u16> {
    seq![
        bytes::le16(e, 1) as u16, bytes::le16(e, 3) as u16, bytes::le16(e, 5) as u16, bytes::le16(e, 7) as u16,
        bytes::le16(e, 9) as u16, bytes::le16(e, 14) as u16, bytes::le16(e, 16) as u16, bytes::le16(e, 18) as u16,
        bytes::le16(e, 20) as u16, bytes::le16(e, 22) as u16, bytes::le16(e, 24) as u16, bytes::le16(e, 28) as u16,
        bytes::le16(e, 30) as u16,
    ]
}

/// Code units of the entries `es[i..]` taken from the last one back to `es[i]`
/// (the directory stores the highest sequence number first).
pub open spec fn lfn_units_from(es: Seq<Seq<u8>>, i: int) -> Seq<u16>
    decreases es.len() - i,
{
    if i < 0 || i >= es.len() {
        Seq::empty()
    } else {
        lfn_units_from(es, i + 1) + lfn_entry_units(es[i])
    }
}

/// 0x0000 and 0xFFFF end a long filename.
pub open spec fn is_lfn_terminator(u: u16) -> bool {
    u == 0 || u == 0xFFFF
}

/// Index of the first terminator in `u` at or after `i`, or the length of `u`.
pub open spec fn first_terminator_from(u: Seq<u16>, i: int) -> int
    decreases u.len() - i,
{
    if i < 0 || i >= u.len() {
        u.len() as int
    } else if is_lfn_terminator(u[i]) {
        i
    } else {
        first_terminator_from(u, i + 1)
    }
}

/// The code units of a long filename: all units of the entries, in name
/// order, up to the first terminator.
pub open spec fn lfn_name_units(es: Seq<Seq<u8>>) -> Seq<u16> {
    let u = lfn_units_from(es, 0);
    u.take(first_terminator_from(u, 0))
}

/// The raw bytes of each entry of a run.
pub open spec fn entry_bytes(es: Seq<[u8; 32]>) -> Seq<Seq<u8>> {
    es.map_values(|e: [u8; 32]| e@)
}

/// The long filename spelled by a run of LFN entries.
pub open spec fn spec_lfn_name(es: Seq<Seq<u8>>) -> Seq<char> {
    strs::utf16_lossy(lfn_name_units(es))
}

fn lfn_entry_units_of(e: &[u8; 32]) -> (r: Vec<u16>)
    ensures
        r@ == lfn_entry_units(e@),
{
    let s = e.as_slice();
    let mut r: Vec<u16> = Vec::new();
    r.push(read_u16(s, 1));
    r.push(read_u16(s, 3));
    r.push(read_u16(s, 5));
    r.push(read_u16(s, 7));
    r.push(read_u16(s, 9));
    r.push(read_u16(s, 14));
    r.push(read_u16(s, 16));
    r.push(read_u16(s, 18));
    r.push(read_u16(s, 20));
    r.push(read_u16(s, 22));
    r.push(read_u16(s, 24));
    r.push(read_u16(s, 28));
    r.push(read_u16(s, 30));
    assert(r@ =~= lfn_entry_units(e@));
    r
}

/// Reconstructs a long filename from raw 32-byte LFN entries given in
/// directory order (highest sequence number first).  Characters are read
/// from the last entry back to the first and stop at the first 0x0000 or
/// 0xFFFF; invalid UTF-16 is replaced by U+FFFD.
pub fn reconstruct_lfn(entries: &[[u8; 32]]) -> (r: String)
    ensures
        r@ == spec_lfn_name(entry_bytes(entries@)),
        strs::no_surrogates(lfn_name_units(entry_bytes(entries@))) ==> r@ == strs::bmp_chars(
            lfn_name_units(entry_bytes(entries@)),
        ),
{
    let ghost es = entry_bytes(entries@);
    let mut units: Vec<u16> = Vec::new();
    let mut i: usize = entries.len();
    while i > 0
        invariant
            i <= entries@.len(),
            es == entry_bytes(entries@),
            units@ == lfn_units_from(es, i as int),
        decreases i,
    {
        let eu = lfn_entry_units_of(&entries[i - 1]);
        let mut k: usize = 0;
        let ghost base = units@;
        while k < eu.len()
            invariant
                k <= eu@.len(),
                units@ == base + eu@.subrange(0, k as int),
            decreases eu.len() - k,
        {
            units.push(eu[k]);
            k += 1;
            assert(units@ =~= base + eu@.subrange(0, k as int));
        }
        assert(eu@.subrange(0, eu@.len() as int) =~= eu@);
        i -= 1;
    }
    let mut cut: usize = 0;
    while cut < units.len() && !(units[cut] == 0 || units[cut] == 0xFFFF)
        invariant
            cut <= units@.len(),
            first_terminator_from(units@, 0) == first_terminator_from(units@, cut as int),
        decreases units.len() - cut,
    {
        cut += 1;
    }
    let name_units = vstd::slice::slice_subrange(units.as_slice(), 0, cut);
    assert(name_units@ =~= lfn_name_units(es));
    proof {
        if strs::no_surrogates(name_units@) {
            strs::lemma_utf16_without_surrogates(name_units@);
        }
    }
    from_utf16_lossy(name_units)
}

// ── 8.3 names ─────────────────────────────────────────────────────────────

/// Space and NUL pad 8.3 name fields.
pub open spec fn is_pad(b: u8) -> bool {
    b == 0x20 || b == 0x00
}

/// Index of the first pad byte in `s` at or after `i`, or the length of `s`.
pub open spec fn first_pad_from(s: Seq<u8>, i: int) -> int
    decreases s.len() - i,
{
    if i < 0 || i >= s.len() {
        s.len() as int
    } else if is_pad(s[i]) {
        i
    } else {
        first_pad_from(s, i + 1)
    }
}

/// An 8.3 name byte as an ASCII character: itself below 0x80, '_' otherwise.
pub open spec fn short_name_char(b: u8) -> char {
    if b < 0x80 {
        b as char
    } else {
        '_'
    }
}

/// Name bytes as ASCII characters (see `short_name_char`).
pub open spec fn ascii_name(s: Seq<u8>) -> Seq<char> {
    s.map_values(|b: u8| short_name_char(b))
}

/// The 8-byte name field with a leading 0xE5 (deleted marker) replaced by '_'.
pub open spec fn short_name_base(raw: Seq<u8>) -> Seq<u8> {
    let n = raw.subrange(0, 8);
    if n[0] == 0xE5 {
        n.update(0, 0x5F)
    } else {
        n
    }
}

/// The 8.3 name of a directory entry: the name field and the 3-byte extension
/// field (byte 8), each cut at its first pad byte, joined by '.' when the
/// extension is not empty.
pub open spec fn spec_short_name(raw: Seq<u8>) -> Seq<char> {
    let base = short_name_base(raw);
    let name = base.take(first_pad_from(base, 0));
    let ext0 = raw.subrange(8, 11);
    let ext = ext0.take(first_pad_from(ext0, 0));
    if ext.len() == 0 {
        ascii_name(name)
    } else {
        ascii_name(name) + seq!['.'] + ascii_name(ext)
    }
}

fn push_until_pad(out: &mut Vec<char>, bytes: &[u8]) -> (n: usize)
    ensures
        n as int == first_pad_from(bytes@, 0),
        n <= bytes@.len(),
        final(out)@ == old(out)@ + ascii_name(bytes@.take(n as int)),
{
    let mut k: usize = 0;
    let ghost base = out@;
    while k < bytes.len() && !(bytes[k] == 0x20 || bytes[k] == 0x00)
        invariant
            k <= bytes@.len(),
            first_pad_from(bytes@, 0) == first_pad_from(bytes@, k as int),
            out@ == base + ascii_name(bytes@.take(k as int)),
        decreases bytes.len() - k,
    {
        let c = if bytes[k] < 0x80 {
            bytes[k] as char
        } else {
            '_'
        };
        out.push(c);
        k += 1;
        assert(out@ =~= base + ascii_name(bytes@.take(k as int)));
    }
    k
}

/// Builds the plain ASCII 8.3 name of a directory entry, replacing a leading
/// 0xE5 with '_'.  Bytes below 0x80 map to the ASCII character of the same
/// code; others (code-page characters) to '_'.
pub fn build_83_name(raw: &[u8; 32]) -> (r: String)
    ensures
        r@ == spec_short_name(raw@),
        forall|i: int| 0 <= i < r@.len() ==> (#[trigger] r@[i] as u32) < 0x80,
{
    let mut name_bytes: Vec<u8> = Vec::new();
    let mut k: usize = 0;
    while k < 8
        invariant
            k <= 8,
            name_bytes@ == raw@.subrange(0, k as int),
        decreases 8 - k,
    {
        name_bytes.push(raw[k]);
        k += 1;
        assert(name_bytes@ =~= raw@.subrange(0, k as int));
    }
    if name_bytes[0] == 0xE5 {
        name_bytes.set(0, 0x5F);
    }
    assert(name_bytes@ =~= short_name_base(raw@));
    let mut ext_bytes: Vec<u8> = Vec::new();
    let mut k: usize = 8;
    while k < 11
        invariant
            8 <= k <= 11,
            ext_bytes@ == raw@.subrange(8, k as int),
        decreases 11 - k,
    {
        ext_bytes.push(raw[k]);
        k += 1;
        assert(ext_bytes@ =~= raw@.subrange(8, k as int));
    }
    let mut out: Vec<char> = Vec::new();
    let ghost empty_chars = out@;
    let name_len = push_until_pad(&mut out, name_bytes.as_slice());
    assert(out@ =~= ascii_name(name_bytes@.take(name_len as int)));
    let mut ext_chars: Vec<char> = Vec::new();
    let ext_len = push_until_pad(&mut ext_chars, ext_bytes.as_slice());
    assert(ext_chars@ =~= ascii_name(ext_bytes@.take(ext_len as int)));
    assert(ext_bytes@.take(ext_len as int).len() == ext_len);
    if ext_len > 0 {
        out.push('.');
        let ghost before = out@;
        let mut j: usize = 0;
        while j < ext_chars.len()
            invariant
                j <= ext_chars@.len(),
                out@ == before + ext_chars@.subrange(0, j as int),
            decreases ext_chars.len() - j,
        {
            out.push(ext_chars[j]);
            j += 1;
            assert(out@ =~= before + ext_chars@.subrange(0, j as int));
        }
        assert(ext_chars@.subrange(0, j as int) =~= ext_chars@);
    }
    assert(out@ =~= spec_short_name(raw@));
    proof {
        lemma_short_name_ascii(raw@);
    }
    string_from_chars(&out)
}

/// Every character of an 8.3 name is ASCII.
proof fn lemma_short_name_ascii(raw: Seq<u8>)
    requires
        raw.len() >= 11,
    ensures
        forall|i: int| 0 <= i < spec_short_name(raw).len() ==> (#[trigger] spec_short_name(raw)[i] as u32) < 0x80,
{
    let base = short_name_base(raw);
    let name = base.take(first_pad_from(base, 0));
    let ext0 = raw.subrange(8, 11);
    let ext = ext0.take(first_pad_from(ext0, 0));
    assert forall|i: int| 0 <= i < ascii_name(name).len() implies (#[trigger] ascii_name(name)[i] as u32) < 0x80 by {
        assert(ascii_name(name)[i] == short_name_char(name[i]));
    }
    assert forall|i: int| 0 <= i < ascii_name(ext).len() implies (#[trigger] ascii_name(ext)[i] as u32) < 0x80 by {
        assert(ascii_name(ext)[i] == short_name_char(ext[i]));
    }
    assert forall|i: int| 0 <= i < spec_short_name(raw).len() implies (#[trigger] spec_short_name(raw)[i] as u32) < 0x80 by {
        if ext.len() > 0 {
            let n = ascii_name(name).len();
            if i < n {
                assert(spec_short_name(raw)[i] == ascii_name(name)[i]);
            } else if i > n {
                assert(spec_short_name(raw)[i] == ascii_name(ext)[i - n - 1]);
            }
        }
    }
}

// ── File type from a name ─────────────────────────────────────────────────

/// Index of the last `c` among the first `n` characters of `s`, or -1.
pub open spec fn last_index_of(s: Seq<char>, c: char, n: int) -> int
    decreases n,
{
    if n <= 0 {
        -1
    } else if s[n - 1] == c {
        n - 1
    } else {
        last_index_of(s, c, n - 1)
    }
}

/// The extension of a file name as written: what follows its last '.', or
/// nothing when it has none.
pub open spec fn ext_text(name: Seq<char>) -> Seq<char> {
    let d = last_index_of(name, '.', name.len() as int);
    if d >= 0 {
        name.subrange(d + 1, name.len() as int)
    } else {
        Seq::empty()
    }
}

/// The lower-cased extension of a file name.
pub open spec fn spec_name_ext(name: Seq<char>) -> Seq<char> {
    strs::lowercase(ext_text(name))
}

/// File type of a lower-cased extension; an empty extension is "BIN" and any
/// other unlisted one is its upper-cased self.
pub open spec fn spec_filetype_of_ext(e: Seq<char>) -> FileTypeView {
    if e == "jpg"@ || e == "jpeg"@ {
        FileTypeView::JPEG
    } else if e == "png"@ {
        FileTypeView::PNG
    } else if e == "gif"@ {
        FileTypeView::GIF
    } else if e == "tif"@ || e == "tiff"@ {
        FileTypeView::TIFF
    } else if e == "bmp"@ {
        FileTypeView::BMP
    } else if e == "pdf"@ {
        FileTypeView::PDF
    } else if e == "docx"@ {
        FileTypeView::DOCX
    } else if e == "xlsx"@ {
        FileTypeView::XLSX
    } else if e == "pptx"@ {
        FileTypeView::PPTX
    } else if e == "doc"@ || e == "xls"@ || e == "ppt"@ {
        FileTypeView::DOC
    } else if e == "zip"@ {
        FileTypeView::ZIP
    } else if e == "rar"@ {
        FileTypeView::RAR
    } else if e == "7z"@ {
        FileTypeView::SevenZ
    } else if e == "exe"@ || e == "dll"@ || e == "sys"@ {
        FileTypeView::EXE
    } else if e == "mp4"@ || e == "m4v"@ || e == "mov"@ {
        FileTypeView::MP4
    } else if e == "avi"@ {
        FileTypeView::AVI
    } else if e == "mkv"@ || e == "webm"@ {
        FileTypeView::MKV
    } else if e == "mp3"@ {
        FileTypeView::MP3
    } else if e == "wav"@ {
        FileTypeView::WAV
    } else if e == "flac"@ {
        FileTypeView::FLAC
    } else if e == "sqlite"@ || e == "db"@ || e == "db3"@ {
        FileTypeView::SQLite
    } else if e == "txt"@ || e == "log"@ || e == "csv"@ || e == "xml"@ || e == "json"@ || e
        == "html"@ || e == "htm"@ || e == "md"@ || e == "ini"@ || e == "cfg"@ || e == "bat"@
        || e == "sh"@ {
        FileTypeView::TXT
    } else if e.len() == 0 {
        FileTypeView::Unknown("BIN"@)
    } else {
        FileTypeView::Unknown(strs::uppercase(e))
    }
}

/// ASCII lower-casing of a text.
pub open spec fn lower_ascii(s: Seq<char>) -> Seq<char> {
    s.map_values(|c: char| strs::ascii_lower(c))
}

/// A known file type's display name, lower-cased, is an extension that
/// maps back to the type (so "recovered_<type>_<id>.<type>" names keep
/// their type).
pub proof fn lemma_type_name_round_trip(t: FileTypeView)
    requires
        !(t is Unknown),
    ensures
        spec_filetype_of_ext(lower_ascii(t.name())) == t,
{
    reveal_strlit("jpg");
    reveal_strlit("jpeg");
    reveal_strlit("png");
    reveal_strlit("gif");
    reveal_strlit("tif");
    reveal_strlit("tiff");
    reveal_strlit("bmp");
    reveal_strlit("pdf");
    reveal_strlit("docx");
    reveal_strlit("xlsx");
    reveal_strlit("pptx");
    reveal_strlit("doc");
    reveal_strlit("xls");
    reveal_strlit("ppt");
    reveal_strlit("zip");
    reveal_strlit("rar");
    reveal_strlit("7z");
    reveal_strlit("exe");
    reveal_strlit("dll");
    reveal_strlit("sys");
    reveal_strlit("mp4");
    reveal_strlit("m4v");
    reveal_strlit("mov");
    reveal_strlit("avi");
    reveal_strlit("mkv");
    reveal_strlit("webm");
    reveal_strlit("mp3");
    reveal_strlit("wav");
    reveal_strlit("flac");
    reveal_strlit("sqlite");
    reveal_strlit("db");
    reveal_strlit("db3");
    reveal_strlit("txt");
    reveal_strlit("log");
    reveal_strlit("csv");
    reveal_strlit("xml");
    reveal_strlit("json");
    reveal_strlit("html");
    reveal_strlit("htm");
    reveal_strlit("md");
    reveal_strlit("ini");
    reveal_strlit("cfg");
    reveal_strlit("bat");
    reveal_strlit("sh");
    let l = lower_ascii(t.name());
    match t {
        FileTypeView::JPEG => {
            assert(l =~= "jpeg"@);
        },
        FileTypeView::PNG => {
            assert(l =~= "png"@);
            assert("jpg"@[0] != l[0]);
        },
        FileTypeView::GIF => {
            assert(l =~= "gif"@);
            assert("jpg"@[0] != l[0]);
            assert("png"@[0] != l[0]);
        },
        FileTypeView::TIFF => {
            assert(l =~= "tiff"@);
            assert("jpeg"@[0] != l[0]);
        },
        FileTypeView::BMP => {
            assert(l =~= "bmp"@);
            assert("jpg"@[0] != l[0]);
            assert("png"@[0] != l[0]);
            assert("gif"@[0] != l[0]);
            assert("tif"@[0] != l[0]);
        },
        FileTypeView::PDF => {
            assert(l =~= "pdf"@);
            assert("jpg"@[0] != l[0]);
            assert("png"@[1] != l[1]);
            assert("gif"@[0] != l[0]);
            assert("tif"@[0] != l[0]);
            assert("bmp"@[0] != l[0]);
        },
        FileTypeView::DOCX => {
            assert(l =~= "docx"@);
            assert("jpeg"@[0] != l[0]);
            assert("tiff"@[0] != l[0]);
        },
        FileTypeView::XLSX => {
            assert(l =~= "xlsx"@);
            assert("jpeg"@[0] != l[0]);
            assert("tiff"@[0] != l[0]);
            assert("docx"@[0] != l[0]);
        },
        FileTypeView::PPTX => {
            assert(l =~= "pptx"@);
            assert("jpeg"@[0] != l[0]);
            assert("tiff"@[0] != l[0]);
            assert("docx"@[0] != l[0]);
            assert("xlsx"@[0] != l[0]);
        },
        FileTypeView::DOC => {
            assert(l =~= "doc"@);
            assert("jpg"@[0] != l[0]);
            assert("png"@[0] != l[0]);
            assert("gif"@[0] != l[0]);
            assert("tif"@[0] != l[0]);
            assert("bmp"@[0] != l[0]);
            assert("pdf"@[0] != l[0]);
        },
        FileTypeView::ZIP => {
            assert(l =~= "zip"@);
            assert("jpg"@[0] != l[0]);
            assert("png"@[0] != l[0]);
            assert("gif"@[0] != l[0]);
            assert("tif"@[0] != l[0]);
            assert("bmp"@[0] != l[0]);
            assert("pdf"@[0] != l[0]);
            assert("doc"@[0] != l[0]);
            assert("xls"@[0] != l[0]);
            assert("ppt"@[0] != l[0]);
        },
        FileTypeView::RAR => {
            assert(l =~= "rar"@);
            assert("jpg"@[0] != l[0]);
            assert("png"@[0] != l[0]);
            assert("gif"@[0] != l[0]);
            assert("tif"@[0] != l[0]);
            assert("bmp"@[0] != l[0]);
            assert("pdf"@[0] != l[0]);
            assert("doc"@[0] != l[0]);
            assert("xls"@[0] != l[0]);
            assert("ppt"@[0] != l[0]);
            assert("zip"@[0] != l[0]);
        },
        FileTypeView::SevenZ => {
            assert(l =~= "7z"@);
        },
        FileTypeView::EXE => {
            assert(l =~= "exe"@);
            assert("jpg"@[0] != l[0]);
            assert("png"@[0] != l[0]);
            assert("gif"@[0] != l[0]);
            assert("tif"@[0] != l[0]);
            assert("bmp"@[0] != l[0]);
            assert("pdf"@[0] != l[0]);
            assert("doc"@[0] != l[0]);
            assert("xls"@[0] != l[0]);
            assert("ppt"@[0] != l[0]);
            assert("zip"@[0] != l[0]);
            assert("rar"@[0] != l[0]);
        },
        FileTypeView::MP4 => {
            assert(l =~= "mp4"@);
            assert("jpg"@[0] != l[0]);
            assert("png"@[0] != l[0]);
            assert("gif"@[0] != l[0]);
            assert("tif"@[0] != l[0]);
            assert("bmp"@[0] != l[0]);
            assert("pdf"@[0] != l[0]);
            assert("doc"@[0] != l[0]);
            assert("xls"@[0] != l[0]);
            assert("ppt"@[0] != l[0]);
            assert("zip"@[0] != l[0]);
            assert("rar"@[0] != l[0]);
            assert("exe"@[0] != l[0]);
            assert("dll"@[0] != l[0]);
            assert("sys"@[0] != l[0]);
        },
        FileTypeView::AVI => {
            assert(l =~= "avi"@);
            assert("jpg"@[0] != l[0]);
            assert("png"@[0] != l[0]);
            assert("gif"@[0] != l[0]);
            assert("tif"@[0] != l[0]);
            assert("bmp"@[0] != l[0]);
            assert("pdf"@[0] != l[0]);
            assert("doc"@[0] != l[0]);
            assert("xls"@[0] != l[0]);
            assert("ppt"@[0] != l[0]);
            assert("zip"@[0] != l[0]);
            assert("rar"@[0] != l[0]);
            assert("exe"@[0] != l[0]);
            assert("dll"@[0] != l[0]);
            assert("sys"@[0] != l[0]);
            assert("mp4"@[0] != l[0]);
            assert("m4v"@[0] != l[0]);
            assert("mov"@[0] != l[0]);
        },
        FileTypeView::MKV => {
            assert(l =~= "mkv"@);
            assert("jpg"@[0] != l[0]);
            assert("png"@[0] != l[0]);
            assert("gif"@[0] != l[0]);
            assert("tif"@[0] != l[0]);
            assert("bmp"@[0] != l[0]);
            assert("pdf"@[0] != l[0]);
            assert("doc"@[0] != l[0]);
            assert("xls"@[0] != l[0]);
            assert("ppt"@[0] != l[0]);
            assert("zip"@[0] != l[0]);
            assert("rar"@[0] != l[0]);
            assert("exe"@[0] != l[0]);
            assert("dll"@[0] != l[0]);
            assert("sys"@[0] != l[0]);
            assert("mp4"@[1] != l[1]);
            assert("m4v"@[1] != l[1]);
            assert("mov"@[1] != l[1]);
            assert("avi"@[0] != l[0]);
        },
        FileTypeView::MP3 => {
            assert(l =~= "mp3"@);
            assert("jpg"@[0] != l[0]);
            assert("png"@[0] != l[0]);
            assert("gif"@[0] != l[0]);
            assert("tif"@[0] != l[0]);
            assert("bmp"@[0] != l[0]);
            assert("pdf"@[0] != l[0]);
            assert("doc"@[0] != l[0]);
            assert("xls"@[0] != l[0]);
            assert("ppt"@[0] != l[0]);
            assert("zip"@[0] != l[0]);
            assert("rar"@[0] != l[0]);
            assert("exe"@[0] != l[0]);
            assert("dll"@[0] != l[0]);
            assert("sys"@[0] != l[0]);
            assert("mp4"@[2] != l[2]);
            assert("m4v"@[1] != l[1]);
            assert("mov"@[1] != l[1]);
            assert("avi"@[0] != l[0]);
            assert("mkv"@[1] != l[1]);
        },
        FileTypeView::WAV => {
            assert(l =~= "wav"@);
            assert("jpg"@[0] != l[0]);
            assert("png"@[0] != l[0]);
            assert("gif"@[0] != l[0]);
            assert("tif"@[0] != l[0]);
            assert("bmp"@[0] != l[0]);
            assert("pdf"@[0] != l[0]);
            assert("doc"@[0] != l[0]);
            assert("xls"@[0] != l[0]);
            assert("ppt"@[0] != l[0]);
            assert("zip"@[0] != l[0]);
            assert("rar"@[0] != l[0]);
            assert("exe"@[0] != l[0]);
            assert("dll"@[0] != l[0]);
            assert("sys"@[0] != l[0]);
            assert("mp4"@[0] != l[0]);
            assert("m4v"@[0] != l[0]);
            assert("mov"@[0] != l[0]);
            assert("avi"@[0] != l[0]);
            assert("mkv"@[0] != l[0]);
            assert("mp3"@[0] != l[0]);
        },
        FileTypeView::FLAC => {
            assert(l =~= "flac"@);
            assert("jpeg"@[0] != l[0]);
            assert("tiff"@[0] != l[0]);
            assert("docx"@[0] != l[0]);
            assert("xlsx"@[0] != l[0]);
            assert("pptx"@[0] != l[0]);
            assert("webm"@[0] != l[0]);
        },
        FileTypeView::SQLite => {
            assert(l =~= "sqlite"@);
        },
        FileTypeView::TXT => {
            assert(l =~= "txt"@);
            assert("jpg"@[0] != l[0]);
            assert("png"@[0] != l[0]);
            assert("gif"@[0] != l[0]);
            assert("tif"@[1] != l[1]);
            assert("bmp"@[0] != l[0]);
            assert("pdf"@[0] != l[0]);
            assert("doc"@[0] != l[0]);
            assert("xls"@[0] != l[0]);
            assert("ppt"@[0] != l[0]);
            assert("zip"@[0] != l[0]);
            assert("rar"@[0] != l[0]);
            assert("exe"@[0] != l[0]);
            assert("dll"@[0] != l[0]);
            assert("sys"@[0] != l[0]);
            assert("mp4"@[0] != l[0]);
            assert("m4v"@[0] != l[0]);
            assert("mov"@[0] != l[0]);
            assert("avi"@[0] != l[0]);
            assert("mkv"@[0] != l[0]);
            assert("mp3"@[0] != l[0]);
            assert("wav"@[0] != l[0]);
            assert("db3"@[0] != l[0]);
        },
        FileTypeView::Unknown(_) => {},
    }
}

/// File type of a file name, from its extension.
pub open spec fn spec_ext_to_filetype(name: Seq<char>) -> FileTypeView {
    spec_filetype_of_ext(spec_name_ext(name))
}

/// File type of an already lower-cased extension (without the dot).
pub fn filetype_from_ext(e: &str) -> (r: FileType)
    ensures
        r@ == spec_filetype_of_ext(e@),
        strs::all_ascii(e@) && e@.len() > 0 && r@ is Unknown ==> r@ == FileTypeView::Unknown(upper_ascii(e@)),
{
    if str_eq(e, "jpg") || str_eq(e, "jpeg") {
        FileType::JPEG
    } else if str_eq(e, "png") {
        FileType::PNG
    } else if str_eq(e, "gif") {
        FileType::GIF
    } else if str_eq(e, "tif") || str_eq(e, "tiff") {
        FileType::TIFF
    } else if str_eq(e, "bmp") {
        FileType::BMP
    } else if str_eq(e, "pdf") {
        FileType::PDF
    } else if str_eq(e, "docx") {
        FileType::DOCX
    } else if str_eq(e, "xlsx") {
        FileType::XLSX
    } else if str_eq(e, "pptx") {
        FileType::PPTX
    } else if str_eq(e, "doc") || str_eq(e, "xls") || str_eq(e, "ppt") {
        FileType::DOC
    } else if str_eq(e, "zip") {
        FileType::ZIP
    } else if str_eq(e, "rar") {
        FileType::RAR
    } else if str_eq(e, "7z") {
        FileType::SevenZ
    } else if str_eq(e, "exe") || str_eq(e, "dll") || str_eq(e, "sys") {
        FileType::EXE
    } else if str_eq(e, "mp4") || str_eq(e, "m4v") || str_eq(e, "mov") {
        FileType::MP4
    } else if str_eq(e, "avi") {
        FileType::AVI
    } else if str_eq(e, "mkv") || str_eq(e, "webm") {
        FileType::MKV
    } else if str_eq(e, "mp3") {
        FileType::MP3
    } else if str_eq(e, "wav") {
        FileType::WAV
    } else if str_eq(e, "flac") {
        FileType::FLAC
    } else if str_eq(e, "sqlite") || str_eq(e, "db") || str_eq(e, "db3") {
        FileType::SQLite
    } else if str_eq(e, "txt") || str_eq(e, "log") || str_eq(e, "csv") || str_eq(e, "xml")
        || str_eq(e, "json") || str_eq(e, "html") || str_eq(e, "htm") || str_eq(e, "md")
        || str_eq(e, "ini") || str_eq(e, "cfg") || str_eq(e, "bat") || str_eq(e, "sh") {
        FileType::TXT
    } else if e.unicode_len() == 0 {
        FileType::Unknown(String::from_str("BIN"))
    } else {
        let u = to_upper(e);
        assert(strs::all_ascii(e@) ==> u@ =~= upper_ascii(e@));
        FileType::Unknown(u)
    }
}

/// The extension of a name lower-cased letter by letter (ASCII only).
pub open spec fn ascii_name_ext(name: Seq<char>) -> Seq<char> {
    lower_ascii(ext_text(name))
}

/// ASCII upper-casing of a text.
pub open spec fn upper_ascii(s: Seq<char>) -> Seq<char> {
    s.map_values(|c: char| strs::ascii_upper(c))
}

/// The type an ASCII name gets when its extension is not a listed one:
/// "BIN" for an empty extension, else the extension in capitals.
pub open spec fn ascii_unknown(name: Seq<char>) -> FileTypeView {
    if ascii_name_ext(name).len() == 0 {
        FileTypeView::Unknown("BIN"@)
    } else {
        FileTypeView::Unknown(upper_ascii(ascii_name_ext(name)))
    }
}

proof fn lemma_last_index_of_bounds(s: Seq<char>, c: char, n: int)
    requires
        n <= s.len(),
    ensures
        -1 <= last_index_of(s, c, n) < if n > 0 { n } else { 0 },
        last_index_of(s, c, n) >= 0 ==> s[last_index_of(s, c, n)] == c,
    decreases n,
{
    if n > 0 && s[n - 1] != c {
        lemma_last_index_of_bounds(s, c, n - 1);
    }
}

/// File type of a file name, from its extension (what follows the last '.',
/// compared without regard to case).  A name without a '.' is "BIN".
pub fn ext_to_filetype(filename: &str) -> (r: FileType)
    ensures
        r@ == spec_ext_to_filetype(filename@),
        strs::all_ascii(filename@) ==> r@ == spec_filetype_of_ext(ascii_name_ext(filename@)),
        strs::all_ascii(filename@) && r@ is Unknown ==> r@ == ascii_unknown(filename@),
{
    let chars = chars_of(filename);
    let n = chars.len();
    let mut k: usize = n;
    while k > 0 && chars[k - 1] != '.'
        invariant
            k <= n,
            n == filename@.len(),
            chars@ == filename@,
            last_index_of(filename@, '.', n as int) == last_index_of(filename@, '.', k as int),
        decreases k,
    {
        k -= 1;
    }
    let tail: Vec<char> = if k > 0 {
        let mut tail: Vec<char> = Vec::new();
        let mut j: usize = k;
        while j < n
            invariant
                k <= j <= n,
                n == chars@.len(),
                tail@ == chars@.subrange(k as int, j as int),
            decreases n - j,
        {
            tail.push(chars[j]);
            j += 1;
            assert(tail@ =~= chars@.subrange(k as int, j as int));
        }
        tail
    } else {
        Vec::new()
    };
    let raw = string_from_chars(&tail);
    proof {
        lemma_last_index_of_bounds(filename@, '.', n as int);
        assert(raw@ =~= ext_text(filename@));
        if strs::all_ascii(filename@) {
            assert(strs::all_ascii(raw@)) by {
                assert forall|i: int| 0 <= i < raw@.len() implies (raw@[i] as u32) < 128 by {
                    assert(raw@[i] == filename@[k + i]);
                }
            }
        }
    }
    let ext = to_lower(raw.as_str());
    assert(ext@ == spec_name_ext(filename@));
    assert(strs::all_ascii(filename@) ==> ext@ =~= ascii_name_ext(filename@));
    let r = filetype_from_ext(ext.as_str());
    proof {
        if strs::all_ascii(filename@) {
            assert(strs::all_ascii(ext@)) by {
                assert forall|i: int| 0 <= i < ext@.len() implies (ext@[i] as u32) < 128 by {
                    assert(ext@[i] == strs::ascii_lower(raw@[i]));
                }
            }
        }
    }
    r
}

/// Whether a file type can be previewed inline (images and text).
pub fn is_previewable(ft: &FileType) -> (r: bool)
    ensures
        r == ft@.previewable(),
{
    ft.is_previewable()
}


// ── Directory entries ─────────────────────────────────────────────────────

/// A deleted file found in a directory.
pub struct DirEntryHit {
    pub name: String,
    pub first_cluster: u32,
    pub size: u64,
}

/// What a directory cluster holds that the scan acts on, in directory order.
pub enum DirItem {
    Deleted(DirEntryHit),
    Subdir(u32),
}

/// Model of a `DirItem`: a deleted file's name, first cluster and size, or a
/// live sub-directory's first cluster.
pub enum DirItemView {
    Deleted(Seq<char>, u32, u64),
    Subdir(u32),
}

impl View for DirItem {
    type V = DirItemView;

    open spec fn view(&self) -> DirItemView {
        match self {
            DirItem::Deleted(h) => DirItemView::Deleted(h.name@, h.first_cluster, h.size),
            DirItem::Subdir(c) => DirItemView::Subdir(*c),
        }
    }
}

pub open spec fn view_items(v: Seq<DirItem>) -> Seq<DirItemView> {
    v.map_values(|d: DirItem| d@)
}

/// The 32-byte entry number `i` of a directory cluster.
pub open spec fn dir_entry(d: Seq<u8>, i: int) -> Seq<u8> {
    d.subrange(i * 32, i * 32 + 32)
}

proof fn lemma_entry_in_bounds(len: int, i: int)
    requires
        0 <= i < len / 32,
        0 <= len,
    ensures
        i * 32 + 32 <= len,
{
    assert(i * 32 + 32 <= len) by (nonlinear_arith)
        requires 0 <= i < len / 32, 0 <= len;
}

/// Copies directory entry `i` out of a cluster.
fn entry_at(data: &[u8], i: usize) -> (r: [u8; 32])
    requires
        i < data@.len() / 32,
    ensures
        r@ == dir_entry(data@, i as int),
{
    proof {
        lemma_entry_in_bounds(data.len() as int, i as int);
    }
    let base = i * 32;
    let mut a = [0u8; 32];
    let mut k: usize = 0;
    while k < 32
        invariant
            k <= 32,
            base == i * 32,
            base + 32 <= data@.len(),
            forall|t: int| 0 <= t < k ==> a@[t] == data@[base + t],
        decreases 32 - k,
    {
        a[k] = data[base + k];
        k += 1;
    }
    assert(a@ =~= dir_entry(data@, i as int));
    a
}

/// A name made only of underscores (or empty) carries no information.
pub open spec fn is_blank_name(s: Seq<char>) -> bool {
    forall|i: int| 0 <= i < s.len() ==> s[i] == '_'
}

fn name_is_blank(name: &String) -> (r: bool)
    ensures
        r == is_blank_name(name@),
{
    let chars = chars_of(name.as_str());
    let mut i: usize = 0;
    while i < chars.len()
        invariant
            chars@ == name@,
            i <= chars@.len(),
            forall|j: int| 0 <= j < i ==> chars@[j] == '_',
        decreases chars.len() - i,
    {
        if chars[i] != '_' {
            return false;
        }
        i += 1;
    }
    true
}

// ── FAT32 directory clusters ─────────────────────────────────────────────────

/// First cluster of a FAT32 directory entry: high word at byte 20, low word
/// at byte 26.
pub open spec fn fat32_first_cluster(raw: Seq<u8>) -> int {
    bytes::le16(raw, 20) * 0x1_0000 + bytes::le16(raw, 26)
}

/// State of a FAT32 directory walk: the items found so far, the LFN entries
/// waiting for their short entry, and whether the end-of-directory entry was
/// seen.
pub struct Fat32DirState {
    pub items: Seq<DirItemView>,
    pub lfn: Seq<Seq<u8>>,
    pub ended: bool,
}

/// Effect of one FAT32 directory entry.
/// - first byte 0x00: end of directory;
/// - attributes 0x0F: LFN entry, kept for the next short entry;
/// - volume label (attribute bit 0x08): discarded;
/// - first byte 0xE5 (deleted): sub-directories are skipped; files are named
///   by their pending LFN run, else by their 8.3 name, and reported unless
///   the name is empty or all underscores;
/// - live sub-directory (bit 0x10) other than "." and "..": reported when
///   its first cluster is at least 2.
/// Every entry but an LFN one clears the pending LFN run.
pub open spec fn fat32_entry_step(st: Fat32DirState, raw: Seq<u8>) -> Fat32DirState {
    let first = raw[0];
    let attrs = raw[11];
    let cleared = Fat32DirState { items: st.items, lfn: Seq::empty(), ended: st.ended };
    if first == 0 {
        Fat32DirState { items: st.items, lfn: Seq::empty(), ended: true }
    } else if attrs == 0x0F {
        Fat32DirState { items: st.items, lfn: st.lfn.push(raw), ended: st.ended }
    } else if attrs & 0x08 != 0 {
        cleared
    } else if first == 0xE5 {
        if attrs & 0x10 != 0 {
            cleared
        } else {
            let name = if st.lfn.len() > 0 {
                spec_lfn_name(st.lfn)
            } else {
                spec_short_name(raw)
            };
            if name.len() == 0 || is_blank_name(name) {
                cleared
            } else {
                Fat32DirState {
                    items: st.items.push(
                        DirItemView::Deleted(
                            name,
                            fat32_first_cluster(raw) as u32,
                            bytes::le32(raw, 28) as u64,
                        ),
                    ),
                    lfn: Seq::empty(),
                    ended: st.ended,
                }
            }
        }
    } else if attrs & 0x10 != 0 && first != 0x2E {
        let sub = fat32_first_cluster(raw);
        Fat32DirState {
            items: if sub >= 2 {
                st.items.push(DirItemView::Subdir(sub as u32))
            } else {
                st.items
            },
            lfn: Seq::empty(),
            ended: st.ended,
        }
    } else {
        cleared
    }
}

/// Walk of the entries of a FAT32 directory cluster from entry `i` on,
/// stopping at the end-of-directory entry.
pub open spec fn fat32_scan_from(d: Seq<u8>, i: int, st: Fat32DirState) -> Fat32DirState
    decreases d.len() / 32 - i,
{
    if i < 0 || i >= d.len() / 32 || st.ended {
        st
    } else {
        fat32_scan_from(d, i + 1, fat32_entry_step(st, dir_entry(d, i)))
    }
}

/// Walk of a whole FAT32 directory cluster from a pending LFN run.
pub open spec fn fat32_cluster_scan(d: Seq<u8>, lfn: Seq<Seq<u8>>) -> Fat32DirState {
    fat32_scan_from(d, 0, Fat32DirState { items: Seq::empty(), lfn, ended: false })
}

/// Reads the entries of one FAT32 directory cluster.  `lfn` carries the
/// pending LFN run in and out (a run may span clusters).  Returns the deleted
/// files and live sub-directories in directory order, and whether the
/// end-of-directory entry was reached.
pub fn fat32_dir_items(data: &[u8], lfn: &mut Vec<[u8; 32]>) -> (r: (Vec<DirItem>, bool))
    ensures
        view_items(r.0@) == fat32_cluster_scan(data@, entry_bytes(old(lfn)@)).items,
        entry_bytes(final(lfn)@) == fat32_cluster_scan(data@, entry_bytes(old(lfn)@)).lfn,
        r.1 == fat32_cluster_scan(data@, entry_bytes(old(lfn)@)).ended,
{
    let ghost target = fat32_cluster_scan(data@, entry_bytes(old(lfn)@));
    let count = data.len() / 32;
    let mut items: Vec<DirItem> = Vec::new();
    assert(view_items(items@) =~= Seq::<DirItemView>::empty());
    let mut i: usize = 0;
    while i < count
        invariant
            count == data@.len() / 32,
            i <= count,
            target == fat32_cluster_scan(data@, entry_bytes(old(lfn)@)),
            target == fat32_scan_from(
                data@,
                i as int,
                Fat32DirState { items: view_items(items@), lfn: entry_bytes(lfn@), ended: false },
            ),
        decreases count - i,
    {
        let raw = entry_at(data, i);
        let ghost st = Fat32DirState { items: view_items(items@), lfn: entry_bytes(lfn@), ended: false };
        let ghost next = fat32_entry_step(st, raw@);
        let first = raw[0];
        let attrs = raw[11];
        assert(target == fat32_scan_from(data@, i + 1, next));
        if first == 0x00 {
            lfn.clear();
            assert(entry_bytes(lfn@) =~= Seq::<Seq<u8>>::empty());
            assert(fat32_scan_from(data@, i + 1, next) == next);
            assert(next.items == view_items(items@));
            assert(next.lfn == entry_bytes(lfn@));
            assert(target == fat32_cluster_scan(data@, entry_bytes(old(lfn)@)));
            return (items, true);
        }
        if attrs == 0x0F {
            lfn.push(raw);
            assert(entry_bytes(lfn@) =~= st.lfn.push(raw@));
        } else if attrs & 0x08 != 0 {
            lfn.clear();
            assert(entry_bytes(lfn@) =~= Seq::<Seq<u8>>::empty());
        } else if first == 0xE5 {
            if attrs & 0x10 != 0 {
                lfn.clear();
                assert(entry_bytes(lfn@) =~= Seq::<Seq<u8>>::empty());
            } else {
                let name = if lfn.len() > 0 {
                    reconstruct_lfn(lfn.as_slice())
                } else {
                    build_83_name(&raw)
                };
                lfn.clear();
                assert(entry_bytes(lfn@) =~= Seq::<Seq<u8>>::empty());
                let blank = name.as_str().unicode_len() == 0 || name_is_blank(&name);
                if !blank {
                    let rs = raw.as_slice();
                    let hi = read_u16(rs, 20) as u32;
                    let lo = read_u16(rs, 26) as u32;
                    let first_cluster = hi * 0x1_0000 + lo;
                    let file_size = read_u32(rs, 28) as u64;
                    let ghost old_items = items@;
                    items.push(DirItem::Deleted(DirEntryHit { name, first_cluster, size: file_size }));
                    assert(view_items(items@) =~= view_items(old_items).push(
                        DirItemView::Deleted(spec_lfn_or_short(st.lfn, raw@), first_cluster, file_size),
                    ));
                }
            }
        } else if attrs & 0x10 != 0 && first != 0x2E {
            lfn.clear();
            assert(entry_bytes(lfn@) =~= Seq::<Seq<u8>>::empty());
            let rs = raw.as_slice();
            let hi = read_u16(rs, 20) as u32;
            let lo = read_u16(rs, 26) as u32;
            let sub = hi * 0x1_0000 + lo;
            if sub >= 2 {
                let ghost old_items = items@;
                items.push(DirItem::Subdir(sub));
                assert(view_items(items@) =~= view_items(old_items).push(DirItemView::Subdir(sub)));
            }
        } else {
            lfn.clear();
            assert(entry_bytes(lfn@) =~= Seq::<Seq<u8>>::empty());
        }
        assert(Fat32DirState { items: view_items(items@), lfn: entry_bytes(lfn@), ended: false } == next);
        i += 1;
    }
    (items, false)
}

/// Name of a deleted FAT32 entry: its LFN run when there is one, else its
/// 8.3 name.
pub open spec fn spec_lfn_or_short(lfn: Seq<Seq<u8>>, raw: Seq<u8>) -> Seq<char> {
    if lfn.len() > 0 {
        spec_lfn_name(lfn)
    } else {
        spec_short_name(raw)
    }
}


// ── exFAT parameters ───────────────────────────────────────────────────────

/// Geometry of an exFAT volume, in bytes from the start of the volume.
pub struct ExFatParams {
    pub cluster_size: u64,
    pub fat_start: u64,
    pub data_start: u64,
    pub root_cluster: u32,
}

/// Bytes per sector for a sector-size shift of 9 to 12.
pub open spec fn sector_bytes(shift: u8) -> u64 {
    if shift == 9 {
        512
    } else if shift == 10 {
        1024
    } else if shift == 11 {
        2048
    } else {
        4096
    }
}

/// exFAT geometry from a boot sector: FAT offset (80) and cluster-heap
/// offset (88) in sectors, root cluster (96), and the sector-size (108) and
/// cluster-size (109) shifts.  `None` for sectors shorter than 512 bytes,
/// without the exFAT OEM name, or with a sector-size shift outside 9 to 12.
/// The cluster size `2^shift * bytes per sector` is computed in 64-bit
/// arithmetic that wraps (the shift taken modulo 64), so a corrupt shift
/// yields a meaningless size rather than an error.
pub open spec fn spec_parse_exfat_params(b: Seq<u8>) -> Option<(u64, u64, u64, u32)> {
    if b.len() < 512 || !bytes::occurs_at(b, exfat_oem(), 3) {
        None
    } else {
        let bps_shift = b[108];
        if !(9 <= bps_shift <= 12) {
            None
        } else {
            let bps = sector_bytes(bps_shift);
            Some((
                1u64.wrapping_shl(b[109] as u32).wrapping_mul(bps),
                (bytes::le32(b, 80) * bps) as u64,
                (bytes::le32(b, 88) * bps) as u64,
                bytes::le32(b, 96) as u32,
            ))
        }
    }
}

/// Parses the exFAT geometry of a boot sector.
pub fn parse_exfat_params(boot: &[u8]) -> (r: Option<ExFatParams>)
    ensures
        match r {
            Some(p) => spec_parse_exfat_params(boot@) == Some(
                (p.cluster_size, p.fat_start, p.data_start, p.root_cluster),
            ) && p.fat_start <= 0xFFFF_FFFF * 4096,
            None => spec_parse_exfat_params(boot@) is None,
        },
{
    if boot.len() < 512 {
        return None;
    }
    let oem = exfat_oem_bytes();
    if !matches_at(boot, oem.as_slice(), 3) {
        return None;
    }
    let fat_off = read_u32(boot, 80) as u64;
    let heap_off = read_u32(boot, 88) as u64;
    let root = read_u32(boot, 96);
    let bps_shift = boot[108];
    let spc_shift = boot[109] as u32;
    if !(9 <= bps_shift && bps_shift <= 12) {
        return None;
    }
    let bps: u64 = if bps_shift == 9 {
        512
    } else if bps_shift == 10 {
        1024
    } else if bps_shift == 11 {
        2048
    } else {
        4096
    };
    let cluster_size = 1u64.wrapping_shl(spc_shift).wrapping_mul(bps);
    assert(fat_off * bps <= 0xFFFF_FFFF * 4096) by (nonlinear_arith)
        requires fat_off <= 0xFFFF_FFFF, bps <= 4096;
    assert(heap_off * bps <= 0xFFFF_FFFF * 4096) by (nonlinear_arith)
        requires heap_off <= 0xFFFF_FFFF, bps <= 4096;
    Some(ExFatParams {
        cluster_size,
        fat_start: fat_off * bps,
        data_start: heap_off * bps,
        root_cluster: root,
    })
}

/// Byte offset of an exFAT data cluster, in wrapping 64-bit arithmetic.
pub open spec fn spec_exfat_cluster_offset(p: &ExFatParams, cluster: u32) -> u64 {
    p.data_start.wrapping_add(((cluster - 2) as u64).wrapping_mul(p.cluster_size))
}

/// Byte offset of an exFAT data cluster (clusters are numbered from 2).
pub fn exfat_cluster_offset(cluster: u32, p: &ExFatParams) -> (r: u64)
    requires
        cluster >= 2,
    ensures
        r == spec_exfat_cluster_offset(p, cluster),
{
    p.data_start.wrapping_add((cluster as u64 - 2).wrapping_mul(p.cluster_size))
}

/// Successor of a cluster given its raw exFAT FAT entry: the entry itself
/// when it names a data cluster (2 to 0xFFFF_FFF6).
pub open spec fn exfat_successor(entry: u32) -> Option<u32> {
    if 2 <= entry < 0xFFFF_FFF7 {
        Some(entry)
    } else {
        None
    }
}

/// The successor that an exact read of a 4-byte exFAT FAT entry gives: none
/// when the read failed.
pub open spec fn exfat_next_of(b: Option<Seq<u8>>) -> Option<u32> {
    match b {
        Some(s) => exfat_successor(bytes::le32(s, 0) as u32),
        None => None,
    }
}

/// Reads the FAT entry of `cluster` and returns its successor.
fn exfat_next_cluster<R: BlockReader>(reader: &R, cluster: u32, p: &ExFatParams) -> (r: Option<u32>)
    requires
        p.fat_start <= 0xFFFF_FFFF * 4096,
    ensures
        r is Some ==> 2 <= r->0 < 0xFFFF_FFF7,
        exists|b: Option<Seq<u8>>| #[trigger] can_read_exact(reader, fat_entry_pos(p.fat_start, cluster), 4, b)
            && r == exfat_next_of(b),
{
    let off = p.fat_start + cluster as u64 * 4;
    let res = read_exact_at(reader, off, 4);
    let ghost b = crate::device::opt_bytes(res);
    assert(can_read_exact(reader, fat_entry_pos(p.fat_start, cluster), 4, b));
    match res {
        Some(buf) => {
            let next = read_u32(buf.as_slice(), 0);
            if 2 <= next && next < 0xFFFF_FFF7 {
                Some(next)
            } else {
                None
            }
        },
        None => None,
    }
}

/// `n` is the successor that an exact read of the exFAT FAT entry of `c`
/// can give.
pub open spec fn exfat_link<R: BlockReader>(reader: &R, fat_start: u64, c: u32, n: Option<u32>) -> bool {
    exists|b: Option<Seq<u8>>| #[trigger] can_read_exact(reader, fat_entry_pos(fat_start, c), 4, b) && n == exfat_next_of(b)
}

/// `chain` is a cluster chain that following the exFAT FAT from `start` can
/// give: each cluster after the first is what the entry of the one before
/// names, and a chain shorter than `max` ends where the entry of its last
/// cluster names no data cluster or one already in the chain.
pub open spec fn exfat_chain_from<R: BlockReader>(reader: &R, fat_start: u64, start: u32, max: usize, chain: Seq<u32>) -> bool {
    &&& chain_ok(chain, start, max, 0xFFFF_FFF7)
    &&& forall|i: int| 0 <= i < chain.len() - 1 ==> exfat_link(reader, fat_start, #[trigger] chain[i], Some(chain[i + 1]))
    &&& 0 < chain.len() < max ==> exists|n: Option<u32>| #[trigger] exfat_link(reader, fat_start, chain.last(), n) && (n is None
        || chain.contains(n->0))
}

/// Follows an exFAT cluster chain from `start`, stopping at `max` clusters,
/// at the end of the chain, at an unreadable entry or at the first repeated
/// cluster.
pub fn exfat_cluster_chain<R: BlockReader>(reader: &R, start: u32, p: &ExFatParams, max: usize) -> (r: Vec<u32>)
    requires
        p.fat_start <= 0xFFFF_FFFF * 4096,
    ensures
        chain_ok(r@, start, max, 0xFFFF_FFF7),
        exfat_chain_from(reader, p.fat_start, start, max, r@),
{
    let mut chain: Vec<u32> = Vec::new();
    let mut seen: HashSetWithView<u32> = HashSetWithView::new();
    let mut cur = start;
    while chain.len() < max && 2 <= cur && cur < 0xFFFF_FFF7
        invariant_except_break
            chain.len() > 0 ==> exfat_link(reader, p.fat_start, chain@.last(), Some(cur)),
        invariant
            forall|i: int| 0 <= i < chain.len() - 1 ==> exfat_link(reader, p.fat_start, #[trigger] chain@[i], Some(chain@[i + 1])),
            p.fat_start <= 0xFFFF_FFFF * 4096,
            chain.len() <= max,
            forall|i: int| 0 <= i < chain.len() ==> 2 <= #[trigger] chain[i] < 0xFFFF_FFF7,
            forall|i: int, j: int| 0 <= i < j < chain.len() ==> chain[i] != chain[j],
            chain.len() > 0 ==> chain[0] == start,
            chain.len() == 0 ==> cur == start,
            forall|x: u32| seen@.contains(x) <==> chain@.contains(x),
        ensures
            (max > 0 && 2 <= start < 0xFFFF_FFF7) ==> chain.len() > 0,
            chain.len() <= max,
            forall|i: int| 0 <= i < chain.len() ==> 2 <= #[trigger] chain[i] < 0xFFFF_FFF7,
            forall|i: int, j: int| 0 <= i < j < chain.len() ==> chain[i] != chain[j],
            chain.len() > 0 ==> chain[0] == start,
            0 < chain.len() < max ==> exists|n: Option<u32>| #[trigger] exfat_link(reader, p.fat_start, chain@.last(), n) && (n
                is None || chain@.contains(n->0)),
            forall|i: int| 0 <= i < chain.len() - 1 ==> exfat_link(reader, p.fat_start, #[trigger] chain@[i], Some(chain@[i + 1])),
        decreases max - chain.len(),
    {
        if !seen.insert(cur) {
            assert(chain@.contains(cur));
            break;
        }
        assert(!chain@.contains(cur));
        let ghost old_chain = chain@;
        chain.push(cur);
        assert(forall|i: int| 0 <= i < chain.len() - 1 ==> chain[i] != cur);
        assert forall|x: u32| seen@.contains(x) <==> chain@.contains(x) by {
            if x == cur {
                assert(chain@[chain.len() - 1] == x);
            } else {
                if old_chain.contains(x) {
                    let k = choose|k: int| 0 <= k < old_chain.len() && old_chain[k] == x;
                    assert(chain@[k] == x);
                }
                if chain@.contains(x) {
                    let k = choose|k: int| 0 <= k < chain.len() && chain@[k] == x;
                    assert(old_chain[k] == x);
                }
            }
        }
        assert forall|i: int| 0 <= i < chain.len() - 1 implies exfat_link(reader, p.fat_start, #[trigger] chain@[i], Some(chain@[i + 1])) by {
            if i < chain.len() - 2 {
                assert(chain@[i] == old_chain[i] && chain@[i + 1] == old_chain[i + 1]);
            }
        }
        let next = exfat_next_cluster(reader, cur, p);
        assert(exfat_link(reader, p.fat_start, chain@.last(), next));
        match next {
            Some(n) => cur = n,
            None => break,
        }
    }
    assert(exfat_chain_from(reader, p.fat_start, start, max, chain@));
    chain
}

// ── exFAT directory clusters ────────────────────────────────────────────────

/// The 15 UTF-16 code units of an exFAT File Name entry, at bytes 2 to 31.
pub open spec fn exfat_name_entry_units(e: Seq<u8>) -> Seq<u16> {
    Seq::new(15, |k: int| bytes::le16(e, 2 + 2 * k) as u16)
}

/// Code units of the consecutive File Name entries (type 0x41 once deleted)
/// of the set starting at entry `i`, from secondary `j` to `jmax`.
pub open spec fn exfat_name_units_from(d: Seq<u8>, i: int, j: int, jmax: int) -> Seq<u16>
    decreases jmax + 1 - j,
{
    if j > jmax || i + j >= d.len() / 32 || i + j < 0 || dir_entry(d, i + j)[0] != 0x41 {
        Seq::empty()
    } else {
        exfat_name_entry_units(dir_entry(d, i + j)) + exfat_name_units_from(d, i, j + 1, jmax)
    }
}

/// The units of a deleted file's name: at most `name_len` units from the File
/// Name entries 2 to min(secondary count, 19) of its set.
pub open spec fn exfat_name_units(d: Seq<u8>, i: int, sec: int, name_len: int) -> Seq<u16> {
    let all = exfat_name_units_from(d, i, 2, if sec < 19 { sec } else { 19 });
    if name_len < all.len() {
        all.take(name_len)
    } else {
        all
    }
}

/// Walk of the entries of an exFAT directory cluster from entry `i` on,
/// appending to `acc`.
/// - A deleted File entry (type 0x05) with at least 2 secondaries that fit
///   in the cluster and a deleted Stream Extension (0x40) next is reported
///   with its name, first cluster (stream byte 20) and size (valid data
///   length at stream byte 8, else data length at byte 24), unless the name is
///   empty; the walk then skips the whole set.
/// - A live File entry (0x85) of a directory (attribute bit 0x10) with at
///   least 2 secondaries skips its set, reporting the sub-directory when its
///   live Stream Extension (0xC0) names a cluster of 2 or more.
/// - Anything else moves one entry on.
pub open spec fn exfat_scan_from(d: Seq<u8>, i: int, acc: Seq<DirItemView>) -> Seq<DirItemView>
    decreases (if i < d.len() / 32 { d.len() / 32 - i } else { 0 }),
{
    let count = d.len() / 32;
    if i < 0 || i >= count {
        acc
    } else {
        let e = dir_entry(d, i);
        let sec = e[1] as int;
        if e[0] == 0x05 {
            if sec < 2 || i + sec >= count {
                exfat_scan_from(d, i + 1, acc)
            } else {
                let st = dir_entry(d, i + 1);
                if st[0] != 0x40 {
                    exfat_scan_from(d, i + 1, acc)
                } else {
                    let name = strs::utf16_lossy(exfat_name_units(d, i, sec, st[3] as int));
                    let valid = bytes::le64(st, 8);
                    let size = if valid > 0 { valid } else { bytes::le64(st, 24) };
                    if name.len() == 0 {
                        exfat_scan_from(d, i + sec + 1, acc)
                    } else {
                        exfat_scan_from(
                            d,
                            i + sec + 1,
                            acc.push(DirItemView::Deleted(name, bytes::le32(st, 20) as u32, size as u64)),
                        )
                    }
                }
            }
        } else if e[0] == 0x85 && i + 1 < count && (bytes::le16(e, 4) as u16) & 0x10 != 0 && sec >= 2 {
            let st = dir_entry(d, i + 1);
            let sub = bytes::le32(st, 20);
            exfat_scan_from(
                d,
                i + sec + 1,
                if st[0] == 0xC0 && sub >= 2 {
                    acc.push(DirItemView::Subdir(sub as u32))
                } else {
                    acc
                },
            )
        } else {
            exfat_scan_from(d, i + 1, acc)
        }
    }
}

fn exfat_name_entry_units_of(e: &[u8; 32]) -> (r: Vec<u16>)
    ensures
        r@ == exfat_name_entry_units(e@),
{
    let s = e.as_slice();
    let mut r: Vec<u16> = Vec::new();
    let mut k: usize = 0;
    while k < 15
        invariant
            k <= 15,
            s@ == e@,
            r@ == Seq::new(k as nat, |t: int| bytes::le16(e@, 2 + 2 * t) as u16),
        decreases 15 - k,
    {
        r.push(read_u16(s, 2 + 2 * k));
        k += 1;
        assert(r@ =~= Seq::new(k as nat, |t: int| bytes::le16(e@, 2 + 2 * t) as u16));
    }
    r
}

fn entry_type_at(data: &[u8], k: usize) -> (r: u8)
    requires
        k < data@.len() / 32,
    ensures
        r == dir_entry(data@, k as int)[0],
{
    proof {
        lemma_entry_in_bounds(data.len() as int, k as int);
    }
    data[k * 32]
}

fn exfat_name_of(data: &[u8], i: usize, sec: usize, name_len: usize) -> (r: String)
    requires
        i + sec < data@.len() / 32,
        sec >= 2,
    ensures
        r@ == strs::utf16_lossy(exfat_name_units(data@, i as int, sec as int, name_len as int)),
{
    let count = data.len() / 32;
    let jmax: usize = if sec < 19 { sec } else { 19 };
    let ghost full = exfat_name_units_from(data@, i as int, 2, jmax as int);
    let mut units: Vec<u16> = Vec::new();
    let mut j: usize = 2;
    while j <= jmax && i + j < count && entry_type_at(data, i + j) == 0x41
        invariant
            count == data@.len() / 32,
            i + sec < count,
            jmax <= sec,
            2 <= j <= jmax + 1,
            full == exfat_name_units_from(data@, i as int, 2, jmax as int),
            full == units@ + exfat_name_units_from(data@, i as int, j as int, jmax as int),
        decreases jmax + 1 - j,
    {
        proof {
            lemma_entry_in_bounds(data.len() as int, (i + j) as int);
        }
        let e = entry_at(data, i + j);
        let eu = exfat_name_entry_units_of(&e);
        let ghost before = units@;
        let mut k: usize = 0;
        while k < eu.len()
            invariant
                k <= eu@.len(),
                units@ == before + eu@.subrange(0, k as int),
            decreases eu.len() - k,
        {
            units.push(eu[k]);
            k += 1;
            assert(units@ =~= before + eu@.subrange(0, k as int));
        }
        assert(eu@.subrange(0, eu@.len() as int) =~= eu@);
        assert(exfat_name_units_from(data@, i as int, j as int, jmax as int)
            == eu@ + exfat_name_units_from(data@, i as int, j + 1, jmax as int));
        assert(full =~= units@ + exfat_name_units_from(data@, i as int, j + 1, jmax as int));
        j += 1;
    }
    assert(full =~= units@);
    let take = if name_len < units.len() { name_len } else { units.len() };
    let name_units = vstd::slice::slice_subrange(units.as_slice(), 0, take);
    assert(name_units@ =~= exfat_name_units(data@, i as int, sec as int, name_len as int));
    from_utf16_lossy(name_units)
}

/// Reads the entries of one exFAT directory cluster.  Returns the deleted
/// files and live sub-directories in directory order.
pub fn exfat_dir_items(data: &[u8]) -> (r: Vec<DirItem>)
    ensures
        view_items(r@) == exfat_scan_from(data@, 0, Seq::empty()),
{
    let ghost target = exfat_scan_from(data@, 0, Seq::empty());
    let count = data.len() / 32;
    let mut items: Vec<DirItem> = Vec::new();
    assert(view_items(items@) =~= Seq::<DirItemView>::empty());
    let mut i: usize = 0;
    while i < count
        invariant
            count == data@.len() / 32,
            count == data.len() / 32,
            target == exfat_scan_from(data@, 0, Seq::empty()),
            target == exfat_scan_from(data@, i as int, view_items(items@)),
        decreases (if i < count { count - i } else { 0 }),
    {
        let entry = entry_at(data, i);
        let etype = entry[0];
        let sec = entry[1] as usize;
        if etype == 0x05 {
            if sec < 2 || i + sec >= count {
                i += 1;
                continue;
            }
            let stream = entry_at(data, i + 1);
            if stream[0] != 0x40 {
                i += 1;
                continue;
            }
            let ss = stream.as_slice();
            let name_len = stream[3] as usize;
            let valid_len = read_u64(ss, 8);
            let first_cluster = read_u32(ss, 20);
            let data_len = read_u64(ss, 24);
            let name = exfat_name_of(data, i, sec, name_len);
            if name.as_str().unicode_len() == 0 {
                i += sec + 1;
                continue;
            }
            let file_size = if valid_len > 0 { valid_len } else { data_len };
            let ghost old_items = items@;
            items.push(DirItem::Deleted(DirEntryHit { name, first_cluster, size: file_size }));
            assert(view_items(items@) =~= view_items(old_items).push(
                DirItemView::Deleted(
                    strs::utf16_lossy(exfat_name_units(data@, i as int, sec as int, name_len as int)),
                    first_cluster,
                    file_size,
                ),
            ));
            i += sec + 1;
            continue;
        }
        if etype == 0x85 && i + 1 < count {
            let attrs = read_u16(entry.as_slice(), 4);
            if attrs & 0x10 != 0 && sec >= 2 {
                let stream = entry_at(data, i + 1);
                if stream[0] == 0xC0 {
                    let sub = read_u32(stream.as_slice(), 20);
                    if sub >= 2 {
                        let ghost old_items = items@;
                        items.push(DirItem::Subdir(sub));
                        assert(view_items(items@) =~= view_items(old_items).push(DirItemView::Subdir(sub)));
                    }
                }
                i += sec + 1;
                continue;
            }
        }
        i += 1;
    }
    items
}


// ── Records ────────────────────────────────────────────────────────────────

/// A file size, or 1 for an empty file (every record spans at least a byte).
pub open spec fn at_least_one(size: u64) -> u64 {
    if size > 0 {
        size
    } else {
        1
    }
}

/// A deleted entry is worth recovering when it still names its first
/// cluster and is not empty.
pub open spec fn dir_recoverable(first_cluster: u32, size: u64) -> bool {
    first_cluster >= 2 && size > 0
}

/// `f` is the record of a deleted directory entry with the given name, first
/// cluster and size, found at `offset`, reported under `tag` with number
/// `id`: recoverable entries get 72%, the others 20% and count as
/// overwritten; the type comes from the name's extension.
pub open spec fn is_dir_record(
    f: &RecoveredFile,
    name: Seq<char>,
    first_cluster: u32,
    size: u64,
    offset: u64,
    tag: Seq<char>,
    id: u64,
) -> bool {
    &&& f.id == id
    &&& f.file_type@ == spec_ext_to_filetype(name)
    &&& f.offset_start == offset
    &&& f.offset_end == offset.wrapping_add(at_least_one(size))
    &&& f.size_bytes == size
    &&& f.recovery_percent == (if dir_recoverable(first_cluster, size) { 72u8 } else { 20u8 })
    &&& f.signature_matched@ == tag
    &&& !f.is_fragmented
    &&& f.fragment_count == 1
    &&& f.sector_overwritten == !dir_recoverable(first_cluster, size)
    &&& f.preview_available == spec_ext_to_filetype(name).previewable()
    &&& f.thumbnail_base64.is_none()
    &&& f.original_name.is_some()
    &&& f.original_name.unwrap()@ == name
}

/// Builds the record of a deleted directory entry found at `offset_start`.
pub fn dir_record(hit: DirEntryHit, offset_start: u64, tag: &str, id: u64) -> (r: RecoveredFile)
    ensures
        is_dir_record(&r, hit.name@, hit.first_cluster, hit.size, offset_start, tag@, id),
{
    let recoverable = hit.first_cluster >= 2 && hit.size > 0;
    let file_type = ext_to_filetype(hit.name.as_str());
    let preview = file_type.is_previewable();
    let span: u64 = if hit.size > 0 { hit.size } else { 1 };
    RecoveredFile {
        id,
        file_type,
        offset_start,
        offset_end: offset_start.wrapping_add(span),
        size_bytes: hit.size,
        recovery_percent: if recoverable { 72 } else { 20 },
        signature_matched: String::from_str(tag),
        is_fragmented: false,
        fragment_count: 1,
        sector_overwritten: !recoverable,
        preview_available: preview,
        thumbnail_base64: None,
        original_name: Some(hit.name),
    }
}

/// Where a FAT32 entry's data starts: its first cluster, or 0 when the entry
/// no longer names one.
pub open spec fn fat32_entry_offset(p: &Fat32Params, first_cluster: u32) -> u64 {
    if first_cluster >= 2 {
        p.spec_cluster_offset(first_cluster as int) as u64
    } else {
        0
    }
}

/// Where an exFAT entry's data starts: its first cluster, or 0 when the entry
/// no longer names one.
pub open spec fn exfat_entry_offset(p: &ExFatParams, first_cluster: u32) -> u64 {
    if first_cluster >= 2 {
        spec_exfat_cluster_offset(p, first_cluster)
    } else {
        0
    }
}

/// `f` is record number `id` of a deleted FAT32 entry with a name that is not
/// blank.
pub open spec fn fat32_record_ok(f: &RecoveredFile, p: &Fat32Params, id: u64) -> bool {
    exists|name: Seq<char>, fc: u32, size: u64|
        #![trigger is_dir_record(f, name, fc, size, fat32_entry_offset(p, fc), "FAT32_DIR"@, id)]
        name.len() > 0 && !is_blank_name(name) && is_dir_record(
            f,
            name,
            fc,
            size,
            fat32_entry_offset(p, fc),
            "FAT32_DIR"@,
            id,
        )
}

/// `f` is record number `id` of a deleted exFAT entry with a non-empty name.
pub open spec fn exfat_record_ok(f: &RecoveredFile, p: &ExFatParams, id: u64) -> bool {
    exists|name: Seq<char>, fc: u32, size: u64|
        #![trigger is_dir_record(f, name, fc, size, exfat_entry_offset(p, fc), "EXFAT_DIR"@, id)]
        name.len() > 0 && is_dir_record(f, name, fc, size, exfat_entry_offset(p, fc), "EXFAT_DIR"@, id)
}

/// Items whose deleted names are neither empty nor blank.
pub open spec fn names_not_blank(items: Seq<DirItemView>) -> bool {
    forall|k: int| 0 <= k < items.len() ==> match #[trigger] items[k] {
        DirItemView::Deleted(name, _, _) => name.len() > 0 && !is_blank_name(name),
        DirItemView::Subdir(c) => c >= 2,
    }
}

/// Items whose deleted names are not empty.
pub open spec fn names_not_empty(items: Seq<DirItemView>) -> bool {
    forall|k: int| 0 <= k < items.len() ==> match #[trigger] items[k] {
        DirItemView::Deleted(name, _, _) => name.len() > 0,
        DirItemView::Subdir(c) => c >= 2,
    }
}

proof fn lemma_fat32_scan_not_blank(d: Seq<u8>, i: int, st: Fat32DirState)
    requires
        names_not_blank(st.items),
    ensures
        names_not_blank(fat32_scan_from(d, i, st).items),
    decreases d.len() / 32 - i,
{
    if i < 0 || i >= d.len() / 32 || st.ended {
    } else {
        let next = fat32_entry_step(st, dir_entry(d, i));
        assert(names_not_blank(next.items)) by {
            assert forall|k: int| 0 <= k < next.items.len() implies match #[trigger] next.items[k] {
                DirItemView::Deleted(name, _, _) => name.len() > 0 && !is_blank_name(name),
                DirItemView::Subdir(c) => c >= 2,
            } by {
                if k < st.items.len() {
                    assert(next.items[k] == st.items[k]);
                }
            }
        }
        lemma_fat32_scan_not_blank(d, i + 1, next);
    }
}

proof fn lemma_exfat_scan_not_empty(d: Seq<u8>, i: int, acc: Seq<DirItemView>)
    requires
        names_not_empty(acc),
    ensures
        names_not_empty(exfat_scan_from(d, i, acc)),
    decreases (if i < d.len() / 32 { d.len() / 32 - i } else { 0 }),
{
    let count = d.len() / 32;
    if i < 0 || i >= count {
    } else {
        let e = dir_entry(d, i);
        let sec = e[1] as int;
        if e[0] == 0x05 {
            if sec < 2 || i + sec >= count {
                lemma_exfat_scan_not_empty(d, i + 1, acc);
            } else {
                let st = dir_entry(d, i + 1);
                if st[0] != 0x40 {
                    lemma_exfat_scan_not_empty(d, i + 1, acc);
                } else {
                    let name = strs::utf16_lossy(exfat_name_units(d, i, sec, st[3] as int));
                    let valid = bytes::le64(st, 8);
                    let size = if valid > 0 { valid } else { bytes::le64(st, 24) };
                    if name.len() == 0 {
                        lemma_exfat_scan_not_empty(d, i + sec + 1, acc);
                    } else {
                        let acc2 = acc.push(DirItemView::Deleted(name, bytes::le32(st, 20) as u32, size as u64));
                        assert forall|k: int| 0 <= k < acc2.len() implies match #[trigger] acc2[k] {
                            DirItemView::Deleted(name, _, _) => name.len() > 0,
                            DirItemView::Subdir(c) => c >= 2,
                        } by {
                            if k < acc.len() {
                                assert(acc2[k] == acc[k]);
                            }
                        }
                        lemma_exfat_scan_not_empty(d, i + sec + 1, acc2);
                    }
                }
            }
        } else if e[0] == 0x85 && i + 1 < count && (bytes::le16(e, 4) as u16) & 0x10 != 0 && sec >= 2 {
            let st = dir_entry(d, i + 1);
            let sub = bytes::le32(st, 20);
            let acc2 = if st[0] == 0xC0 && sub >= 2 {
                acc.push(DirItemView::Subdir(sub as u32))
            } else {
                acc
            };
            assert forall|k: int| 0 <= k < acc2.len() implies match #[trigger] acc2[k] {
                DirItemView::Deleted(name, _, _) => name.len() > 0,
                DirItemView::Subdir(c) => c >= 2,
            } by {
                if k < acc.len() {
                    assert(acc2[k] == acc[k]);
                }
            }
            lemma_exfat_scan_not_empty(d, i + sec + 1, acc2);
        } else {
            lemma_exfat_scan_not_empty(d, i + 1, acc);
        }
    }
}

// ── Directory walks ────────────────────────────────────────────────────────

/// Maximum number of clusters followed in one directory's chain.
pub const MAX_DIR_CLUSTERS: usize = 8192;

/// Maximum directory nesting depth visited.
pub const MAX_DIR_DEPTH: u32 = 8;

/// State of a FAT32 directory walk after the cluster reads `reads`: the
/// entries found, the LFN run still pending (dropped at a failed read) and
/// whether the end-of-directory entry was reached.
pub open spec fn fat32_walk_scan(reads: Seq<Option<Seq<u8>>>) -> Fat32DirState
    decreases reads.len(),
{
    if reads.len() == 0 {
        Fat32DirState { items: Seq::empty(), lfn: Seq::empty(), ended: false }
    } else {
        let prev = fat32_walk_scan(reads.drop_last());
        match reads.last() {
            Some(d) => {
                let c = fat32_cluster_scan(d, prev.lfn);
                Fat32DirState { items: prev.items + c.items, lfn: c.lfn, ended: c.ended }
            },
            None => Fat32DirState { items: prev.items, lfn: Seq::empty(), ended: false },
        }
    }
}

/// The entries `items` of a FAT32 directory at `depth` take the walk
/// through `states`: a deleted entry appends its record, a live
/// sub-directory is walked (`subs`) one level deeper.
pub open spec fn fat32_steps_ok<R: BlockReader>(
    reader: &R,
    p: Fat32Params,
    depth: u32,
    items: Seq<DirItemView>,
    states: Seq<(Set<u32>, Seq<RecoveredFile>)>,
    subs: Seq<DirWalk>,
) -> bool
    decreases subs,
{
    &&& states.len() == items.len() + 1
    &&& subs.len() == items.len()
    &&& forall|k: int| 0 <= k < subs.len() ==> match #[trigger] items[k] {
        DirItemView::Deleted(name, fc, size) => dir_record_step(
            name,
            fc,
            size,
            fat32_entry_offset(&p, fc),
            "FAT32_DIR"@,
            states[k],
            states[k + 1],
        ),
        DirItemView::Subdir(c) => fat32_walk_ok(
            reader,
            p,
            c,
            (depth + 1) as u32,
            states[k].0,
            states[k].1,
            subs[k],
            states[k + 1].0,
            states[k + 1].1,
        ),
    }
}

/// A walk `w` of the FAT32 directory at `start`, `depth` levels down, that
/// the reader allows takes the set of directories seen from `v0` to `v1` and
/// the records from `res0` to `res1`.  The clusters are read in chain order
/// until the end-of-directory entry.
pub open spec fn fat32_walk_ok<R: BlockReader>(
    reader: &R,
    p: Fat32Params,
    start: u32,
    depth: u32,
    v0: Set<u32>,
    res0: Seq<RecoveredFile>,
    w: DirWalk,
    v1: Set<u32>,
    res1: Seq<RecoveredFile>,
) -> bool
    decreases w,
{
    match w {
        DirWalk::Skipped => (depth > MAX_DIR_DEPTH || v0.contains(start)) && v1 == v0 && res1 == res0,
        DirWalk::Visited { chain, reads, states, subs } => {
            &&& depth <= MAX_DIR_DEPTH
            &&& !v0.contains(start)
            &&& fat32_chain_from(reader, p.fat_start, start, MAX_DIR_CLUSTERS, chain)
            &&& reads.len() <= chain.len()
            &&& forall|i: int| 0 <= i < reads.len() ==> can_read_exact(
                reader,
                p.spec_cluster_offset(chain[i] as int) as u64,
                p.cluster_size as usize,
                #[trigger] reads[i],
            )
            &&& forall|i: int| 0 < i < reads.len() ==> !fat32_walk_scan(#[trigger] reads.take(i)).ended
            &&& reads.len() < chain.len() ==> fat32_walk_scan(reads).ended
            &&& fat32_steps_ok(reader, p, depth, fat32_walk_scan(reads).items, states, subs)
            &&& states[0] == (v0.insert(start), res0)
            &&& states.last() == (v1, res1)
        },
    }
}

/// A directory walk keeps a result vector numbered by position: when the
/// records before it were numbered by position, so are all of them after
/// it (the walk keeps them and numbers what it appends by position).
pub proof fn lemma_fat32_walk_keeps_numbering(before: Seq<RecoveredFile>, after: Seq<RecoveredFile>, p: Fat32Params)
    requires
        forall|k: int| 0 <= k < before.len() ==> (#[trigger] before[k]).id == k,
        after.len() >= before.len(),
        after.len() <= u64::MAX,
        forall|k: int| 0 <= k < before.len() ==> after[k] == before[k],
        forall|k: int| before.len() <= k < after.len() ==> fat32_record_ok(&#[trigger] after[k], &p, k as u64),
    ensures
        forall|k: int| 0 <= k < after.len() ==> (#[trigger] after[k]).id == k,
{
    assert forall|k: int| 0 <= k < after.len() implies (#[trigger] after[k]).id == k by {
        if k < before.len() {
            assert(after[k] == before[k]);
        } else {
            assert(fat32_record_ok(&after[k], &p, k as u64));
            let (name, fc, size) = choose|name: Seq<char>, fc: u32, size: u64|
                #![trigger is_dir_record(&after[k], name, fc, size, fat32_entry_offset(&p, fc), "FAT32_DIR"@, k as u64)]
                name.len() > 0 && is_dir_record(&after[k], name, fc, size, fat32_entry_offset(&p, fc), "FAT32_DIR"@, k as u64);
        }
    }
}

/// The same for an exFAT walk.
pub proof fn lemma_exfat_walk_keeps_numbering(before: Seq<RecoveredFile>, after: Seq<RecoveredFile>, p: ExFatParams)
    requires
        forall|k: int| 0 <= k < before.len() ==> (#[trigger] before[k]).id == k,
        after.len() >= before.len(),
        after.len() <= u64::MAX,
        forall|k: int| 0 <= k < before.len() ==> after[k] == before[k],
        forall|k: int| before.len() <= k < after.len() ==> exfat_record_ok(&#[trigger] after[k], &p, k as u64),
    ensures
        forall|k: int| 0 <= k < after.len() ==> (#[trigger] after[k]).id == k,
{
    assert forall|k: int| 0 <= k < after.len() implies (#[trigger] after[k]).id == k by {
        if k < before.len() {
            assert(after[k] == before[k]);
        } else {
            assert(exfat_record_ok(&after[k], &p, k as u64));
            let (name, fc, size) = choose|name: Seq<char>, fc: u32, size: u64|
                #![trigger is_dir_record(&after[k], name, fc, size, exfat_entry_offset(&p, fc), "EXFAT_DIR"@, k as u64)]
                name.len() > 0 && is_dir_record(&after[k], name, fc, size, exfat_entry_offset(&p, fc), "EXFAT_DIR"@, k as u64);
        }
    }
}

/// Walks a FAT32 directory and, depth first, its live sub-directories (at
/// most 8 levels below the root, each directory once), appending a record
/// for every deleted file.  Records are numbered by their position in
/// `results`.  A cluster that cannot be read is skipped (dropping a pending
/// LFN run); the end-of-directory entry ends the directory.
#[verifier::spinoff_prover]
#[verifier::rlimit(80)]
pub fn scan_fat32_dir<R: BlockReader>(
    reader: &R,
    start_cluster: u32,
    params: &Fat32Params,
    depth: u32,
    results: &mut Vec<RecoveredFile>,
    visited: &mut HashSetWithView<u32>,
)
    requires
        params.bounded(),
    ensures
        final(results)@.len() >= old(results)@.len(),
        forall|k: int| 0 <= k < old(results)@.len() ==> final(results)@[k] == old(results)@[k],
        forall|k: int| old(results)@.len() <= k < final(results)@.len() ==> fat32_record_ok(&#[trigger] final(results)@[k], params, k as u64),
        old(visited)@.subset_of(final(visited)@),
        depth <= MAX_DIR_DEPTH ==> final(visited)@.contains(start_cluster),
        depth > MAX_DIR_DEPTH || old(visited)@.contains(start_cluster) ==> final(results)@ == old(results)@
            && final(visited)@ == old(visited)@,
        exists|w: DirWalk| #[trigger] fat32_walk_ok(
            reader,
            *params,
            start_cluster,
            depth,
            old(visited)@,
            old(results)@,
            w,
            final(visited)@,
            final(results)@,
        ),
    decreases 9 - depth,
{
    if depth > MAX_DIR_DEPTH {
        assert(fat32_walk_ok(reader, *params, start_cluster, depth, visited@, results@, DirWalk::Skipped, visited@, results@));
        return;
    }
    if !visited.insert(start_cluster) {
        assert(visited@ =~= old(visited)@);
        assert(fat32_walk_ok(reader, *params, start_cluster, depth, visited@, results@, DirWalk::Skipped, visited@, results@));
        return;
    }
    let ghost orig = results@;
    let ghost seen0 = visited@;
    let chain = fat32_cluster_chain(reader, start_cluster, params, MAX_DIR_CLUSTERS);
    let cluster_size = params.cluster_size as usize;
    let mut lfn: Vec<[u8; 32]> = Vec::new();
    let ghost mut reads: Seq<Option<Seq<u8>>> = Seq::empty();
    let ghost mut its: Seq<DirItemView> = Seq::empty();
    let ghost mut states: Seq<(Set<u32>, Seq<RecoveredFile>)> = seq![(seen0, orig)];
    let ghost mut subs: Seq<DirWalk> = Seq::empty();
    assert(entry_bytes(lfn@) =~= Seq::<Seq<u8>>::empty());
    let mut ci: usize = 0;
    while ci < chain.len()
        invariant
            params.bounded(),
            depth <= MAX_DIR_DEPTH,
            chain_ok(chain@, start_cluster, MAX_DIR_CLUSTERS, 0x0FFF_FFF7),
            fat32_chain_from(reader, params.fat_start, start_cluster, MAX_DIR_CLUSTERS, chain@),
            seen0 == old(visited)@.insert(start_cluster),
            seen0.subset_of(visited@),
            !old(visited)@.contains(start_cluster),
            orig == old(results)@,
            cluster_size == params.cluster_size as usize,
            results@.len() >= orig.len(),
            forall|k: int| 0 <= k < orig.len() ==> results@[k] == orig[k],
            forall|k: int| orig.len() <= k < results@.len() ==> fat32_record_ok(&#[trigger] results@[k], params, k as u64),
            ci <= chain@.len(),
            reads.len() == ci,
            forall|i: int| 0 <= i < ci ==> can_read_exact(
                reader,
                params.spec_cluster_offset(chain@[i] as int) as u64,
                params.cluster_size as usize,
                #[trigger] reads[i],
            ),
            forall|i: int| 0 < i <= reads.len() ==> !fat32_walk_scan(#[trigger] reads.take(i)).ended,
            its == fat32_walk_scan(reads).items,
            entry_bytes(lfn@) == fat32_walk_scan(reads).lfn,
            fat32_steps_ok(reader, *params, depth, its, states, subs),
            states[0] == (seen0, orig),
            states.last() == (visited@, results@),
        decreases chain.len() - ci,
    {
        let cluster = chain[ci];
        ci += 1;
        let off = fat32_cluster_offset(cluster, params);
        let res = read_exact_at(reader, off, cluster_size);
        let ghost reads_before = reads;
        proof {
            reads = reads.push(opt_bytes(res));
            assert(reads.drop_last() =~= reads_before);
            assert(reads.take(ci as int) =~= reads);
            assert forall|i: int| 0 <= i < ci implies can_read_exact(
                reader,
                params.spec_cluster_offset(chain@[i] as int) as u64,
                params.cluster_size as usize,
                #[trigger] reads[i],
            ) by {
                if i < ci - 1 {
                    assert(reads[i] == reads_before[i]);
                }
            }
            assert forall|i: int| 0 < i < reads.len() implies !fat32_walk_scan(#[trigger] reads.take(i)).ended by {
                assert(reads.take(i) =~= reads_before.take(i));
            }
        }
        let data = match res {
            Some(d) => d,
            None => {
                lfn.clear();
                proof {
                    assert(entry_bytes(lfn@) =~= Seq::<Seq<u8>>::empty());
                    assert(its =~= fat32_walk_scan(reads).items);
                }
                continue;
            },
        };
        let ghost lfn_before = lfn@;
        let (items, ended) = fat32_dir_items(data.as_slice(), &mut lfn);
        proof {
            let st0 = Fat32DirState { items: Seq::empty(), lfn: entry_bytes(lfn_before), ended: false };
            lemma_fat32_scan_not_blank(data@, 0, st0);
        }
        let ghost its_base = its;
        let mut k: usize = 0;
        while k < items.len()
            invariant
                params.bounded(),
                depth <= MAX_DIR_DEPTH,
                names_not_blank(view_items(items@)),
                seen0 == old(visited)@.insert(start_cluster),
                seen0.subset_of(visited@),
                results@.len() >= orig.len(),
                forall|t: int| 0 <= t < orig.len() ==> results@[t] == orig[t],
                forall|t: int| orig.len() <= t < results@.len() ==> fat32_record_ok(&#[trigger] results@[t], params, t as u64),
                k <= items@.len(),
                its == its_base + view_items(items@).take(k as int),
                fat32_steps_ok(reader, *params, depth, its, states, subs),
                states[0] == (seen0, orig),
                states.last() == (visited@, results@),
            decreases items.len() - k,
        {
            assert(view_items(items@)[k as int] == items@[k as int]@);
            let ghost its0 = its;
            let ghost states0 = states;
            let ghost subs0 = subs;
            let ghost item = items@[k as int]@;
            match &items[k] {
                DirItem::Deleted(h) => {
                    let offset = if h.first_cluster >= 2 {
                        fat32_cluster_offset(h.first_cluster, params)
                    } else {
                        0
                    };
                    let hit = DirEntryHit { name: h.name.clone(), first_cluster: h.first_cluster, size: h.size };
                    let id = results.len() as u64;
                    let rec = dir_record(hit, offset, "FAT32_DIR", id);
                    proof {
                        reveal_strlit("FAT32_DIR");
                        assert(is_dir_record(&rec, h.name@, h.first_cluster, h.size, fat32_entry_offset(params, h.first_cluster), "FAT32_DIR"@, id));
                    }
                    let ghost before = results@;
                    results.push(rec);
                    assert forall|t: int| orig.len() <= t < results@.len() implies fat32_record_ok(&#[trigger] results@[t], params, t as u64) by {
                        if t < before.len() {
                            assert(results@[t] == before[t]);
                        }
                    }
                    proof {
                        assert(results@.drop_last() =~= before);
                        states = states.push((visited@, results@));
                        subs = subs.push(DirWalk::Skipped);
                        assert(dir_record_step(h.name@, h.first_cluster, h.size, fat32_entry_offset(params, h.first_cluster), "FAT32_DIR"@, states0.last(), states.last()));
                    }
                },
                DirItem::Subdir(sub) => {
                    let ghost v_before = visited@;
                    let ghost r_before = results@;
                    scan_fat32_dir(reader, *sub, params, depth + 1, results, visited);
                    proof {
                        let w = choose|w: DirWalk| #[trigger] fat32_walk_ok(reader, *params, *sub, (depth + 1) as u32, v_before, r_before, w, visited@, results@);
                        states = states.push((visited@, results@));
                        subs = subs.push(w);
                        assert(fat32_walk_ok(reader, *params, *sub, (depth + 1) as u32, states0.last().0, states0.last().1, subs.last(), states.last().0, states.last().1));
                    }
                },
            }
            k += 1;
            proof {
                its = its.push(item);
                assert(its =~= its_base + view_items(items@).take(k as int));
                assert forall|j: int| 0 <= j < subs.len() implies match #[trigger] its[j] {
                    DirItemView::Deleted(name, fc, size) => dir_record_step(
                        name,
                        fc,
                        size,
                        fat32_entry_offset(params, fc),
                        "FAT32_DIR"@,
                        states[j],
                        states[j + 1],
                    ),
                    DirItemView::Subdir(c) => fat32_walk_ok(
                        reader,
                        *params,
                        c,
                        (depth + 1) as u32,
                        states[j].0,
                        states[j].1,
                        subs[j],
                        states[j + 1].0,
                        states[j + 1].1,
                    ),
                } by {
                    if j < subs0.len() {
                        assert(its[j] == its0[j]);
                        assert(states[j] == states0[j]);
                        assert(states[j + 1] == states0[j + 1]);
                        assert(subs[j] == subs0[j]);
                    } else {
                        assert(states[j] == states0.last());
                    }
                }
                assert(fat32_steps_ok(reader, *params, depth, its, states, subs));
            }
        }
        proof {
            assert(view_items(items@).take(items@.len() as int) =~= view_items(items@));
            assert(its =~= fat32_walk_scan(reads).items);
        }
        if ended {
            proof {
                let w = DirWalk::Visited { chain: chain@, reads, states, subs };
                assert(fat32_walk_ok(reader, *params, start_cluster, depth, old(visited)@, old(results)@, w, visited@, results@));
            }
            return;
        }
    }
    proof {
        let w = DirWalk::Visited { chain: chain@, reads, states, subs };
        assert(fat32_walk_ok(reader, *params, start_cluster, depth, old(visited)@, old(results)@, w, visited@, results@));
    }
}

/// How a directory walk went: skipped (too deep, or the directory was seen
/// before), or visited along a cluster chain, with the read of each of its
/// clusters, the state of the walk (directories seen, records so far) before
/// and after each entry found, and the walk of each sub-directory entered.
pub enum DirWalk {
    Skipped,
    Visited {
        chain: Seq<u32>,
        reads: Seq<Option<Seq<u8>>>,
        states: Seq<(Set<u32>, Seq<RecoveredFile>)>,
        subs: Seq<DirWalk>,
    },
}

/// The entries found in the exFAT directory clusters read, in order; a
/// failed read adds none.
pub open spec fn exfat_walk_items(reads: Seq<Option<Seq<u8>>>) -> Seq<DirItemView>
    decreases reads.len(),
{
    if reads.len() == 0 {
        Seq::empty()
    } else {
        exfat_walk_items(reads.drop_last()) + match reads.last() {
            Some(d) => exfat_scan_from(d, 0, Seq::empty()),
            None => Seq::empty(),
        }
    }
}

/// A deleted entry found takes the walk from `s0` to `s1`: the record of
/// the entry is appended, numbered by its position.
pub open spec fn dir_record_step(
    name: Seq<char>,
    fc: u32,
    size: u64,
    offset: u64,
    tag: Seq<char>,
    s0: (Set<u32>, Seq<RecoveredFile>),
    s1: (Set<u32>, Seq<RecoveredFile>),
) -> bool {
    &&& s1.0 == s0.0
    &&& s1.1.len() == s0.1.len() + 1
    &&& s1.1.drop_last() == s0.1
    &&& is_dir_record(&s1.1.last(), name, fc, size, offset, tag, s0.1.len() as u64)
}

/// The entries `items` of an exFAT directory at `depth` take the walk
/// through `states`: a deleted entry appends its record, a live
/// sub-directory is walked (`subs`) one level deeper.
pub open spec fn exfat_steps_ok<R: BlockReader>(
    reader: &R,
    p: ExFatParams,
    depth: u32,
    items: Seq<DirItemView>,
    states: Seq<(Set<u32>, Seq<RecoveredFile>)>,
    subs: Seq<DirWalk>,
) -> bool
    decreases subs,
{
    &&& states.len() == items.len() + 1
    &&& subs.len() == items.len()
    &&& forall|k: int| 0 <= k < subs.len() ==> match #[trigger] items[k] {
        DirItemView::Deleted(name, fc, size) => dir_record_step(
            name,
            fc,
            size,
            exfat_entry_offset(&p, fc),
            "EXFAT_DIR"@,
            states[k],
            states[k + 1],
        ),
        DirItemView::Subdir(c) => exfat_walk_ok(
            reader,
            p,
            c,
            (depth + 1) as u32,
            states[k].0,
            states[k].1,
            subs[k],
            states[k + 1].0,
            states[k + 1].1,
        ),
    }
}

/// A walk `w` of the exFAT directory at `start`, `depth` levels down, that
/// the reader allows takes the set of directories seen from `v0` to `v1` and
/// the records from `res0` to `res1`.
pub open spec fn exfat_walk_ok<R: BlockReader>(
    reader: &R,
    p: ExFatParams,
    start: u32,
    depth: u32,
    v0: Set<u32>,
    res0: Seq<RecoveredFile>,
    w: DirWalk,
    v1: Set<u32>,
    res1: Seq<RecoveredFile>,
) -> bool
    decreases w,
{
    match w {
        DirWalk::Skipped => (depth > MAX_DIR_DEPTH || v0.contains(start)) && v1 == v0 && res1 == res0,
        DirWalk::Visited { chain, reads, states, subs } => {
            &&& depth <= MAX_DIR_DEPTH
            &&& !v0.contains(start)
            &&& exfat_chain_from(reader, p.fat_start, start, MAX_DIR_CLUSTERS, chain)
            &&& reads.len() == chain.len()
            &&& forall|i: int| 0 <= i < reads.len() ==> can_read_exact(
                reader,
                spec_exfat_cluster_offset(&p, chain[i]),
                p.cluster_size as usize,
                #[trigger] reads[i],
            )
            &&& exfat_steps_ok(reader, p, depth, exfat_walk_items(reads), states, subs)
            &&& states[0] == (v0.insert(start), res0)
            &&& states.last() == (v1, res1)
        },
    }
}

/// Walks an exFAT directory and, depth first, its live sub-directories (at
/// most 8 levels below the root, each directory once), appending a record
/// for every deleted file.  Records are numbered by their position in
/// `results`.  A cluster that cannot be read is skipped.
#[verifier::spinoff_prover]
#[verifier::rlimit(80)]
pub fn scan_exfat_dir<R: BlockReader>(
    reader: &R,
    start_cluster: u32,
    params: &ExFatParams,
    depth: u32,
    results: &mut Vec<RecoveredFile>,
    visited: &mut HashSetWithView<u32>,
)
    requires
        params.fat_start <= 0xFFFF_FFFF * 4096,
    ensures
        final(results)@.len() >= old(results)@.len(),
        forall|k: int| 0 <= k < old(results)@.len() ==> final(results)@[k] == old(results)@[k],
        forall|k: int| old(results)@.len() <= k < final(results)@.len() ==> exfat_record_ok(&#[trigger] final(results)@[k], params, k as u64),
        old(visited)@.subset_of(final(visited)@),
        depth <= MAX_DIR_DEPTH ==> final(visited)@.contains(start_cluster),
        depth > MAX_DIR_DEPTH || old(visited)@.contains(start_cluster) ==> final(results)@ == old(results)@
            && final(visited)@ == old(visited)@,
        exists|w: DirWalk| #[trigger] exfat_walk_ok(
            reader,
            *params,
            start_cluster,
            depth,
            old(visited)@,
            old(results)@,
            w,
            final(visited)@,
            final(results)@,
        ),
    decreases 9 - depth,
{
    if depth > MAX_DIR_DEPTH {
        assert(exfat_walk_ok(reader, *params, start_cluster, depth, visited@, results@, DirWalk::Skipped, visited@, results@));
        return;
    }
    if !visited.insert(start_cluster) {
        assert(visited@ =~= old(visited)@);
        assert(exfat_walk_ok(reader, *params, start_cluster, depth, visited@, results@, DirWalk::Skipped, visited@, results@));
        return;
    }
    let ghost orig = results@;
    let ghost seen0 = visited@;
    let chain = exfat_cluster_chain(reader, start_cluster, params, MAX_DIR_CLUSTERS);
    let cluster_size = params.cluster_size as usize;
    let ghost mut reads: Seq<Option<Seq<u8>>> = Seq::empty();
    let ghost mut its: Seq<DirItemView> = Seq::empty();
    let ghost mut states: Seq<(Set<u32>, Seq<RecoveredFile>)> = seq![(seen0, orig)];
    let ghost mut subs: Seq<DirWalk> = Seq::empty();
    let mut ci: usize = 0;
    while ci < chain.len()
        invariant
            params.fat_start <= 0xFFFF_FFFF * 4096,
            depth <= MAX_DIR_DEPTH,
            chain_ok(chain@, start_cluster, MAX_DIR_CLUSTERS, 0xFFFF_FFF7),
            seen0 == old(visited)@.insert(start_cluster),
            seen0.subset_of(visited@),
            !old(visited)@.contains(start_cluster),
            orig == old(results)@,
            cluster_size == params.cluster_size as usize,
            results@.len() >= orig.len(),
            forall|k: int| 0 <= k < orig.len() ==> results@[k] == orig[k],
            forall|k: int| orig.len() <= k < results@.len() ==> exfat_record_ok(&#[trigger] results@[k], params, k as u64),
            ci <= chain@.len(),
            reads.len() == ci,
            forall|i: int| 0 <= i < ci ==> can_read_exact(
                reader,
                spec_exfat_cluster_offset(params, chain@[i]),
                params.cluster_size as usize,
                #[trigger] reads[i],
            ),
            its == exfat_walk_items(reads),
            exfat_steps_ok(reader, *params, depth, its, states, subs),
            states[0] == (seen0, orig),
            states.last() == (visited@, results@),
        decreases chain.len() - ci,
    {
        let cluster = chain[ci];
        ci += 1;
        let off = exfat_cluster_offset(cluster, params);
        let res = read_exact_at(reader, off, cluster_size);
        let ghost reads_before = reads;
        proof {
            reads = reads.push(opt_bytes(res));
            assert(reads.drop_last() =~= reads_before);
            assert forall|i: int| 0 <= i < ci implies can_read_exact(
                reader,
                spec_exfat_cluster_offset(params, chain@[i]),
                params.cluster_size as usize,
                #[trigger] reads[i],
            ) by {
                if i < ci - 1 {
                    assert(reads[i] == reads_before[i]);
                }
            }
        }
        let data = match res {
            Some(d) => d,
            None => {
                proof {
                    assert(its =~= exfat_walk_items(reads));
                }
                continue;
            },
        };
        let items = exfat_dir_items(data.as_slice());
        proof {
            lemma_exfat_scan_not_empty(data@, 0, Seq::empty());
        }
        let ghost its_base = its;
        let mut k: usize = 0;
        while k < items.len()
            invariant
                params.fat_start <= 0xFFFF_FFFF * 4096,
                depth <= MAX_DIR_DEPTH,
                names_not_empty(view_items(items@)),
                view_items(items@) == exfat_scan_from(data@, 0, Seq::empty()),
                seen0 == old(visited)@.insert(start_cluster),
                seen0.subset_of(visited@),
                results@.len() >= orig.len(),
                forall|t: int| 0 <= t < orig.len() ==> results@[t] == orig[t],
                forall|t: int| orig.len() <= t < results@.len() ==> exfat_record_ok(&#[trigger] results@[t], params, t as u64),
                k <= items@.len(),
                its == its_base + view_items(items@).take(k as int),
                exfat_steps_ok(reader, *params, depth, its, states, subs),
                states[0] == (seen0, orig),
                states.last() == (visited@, results@),
            decreases items.len() - k,
        {
            assert(view_items(items@)[k as int] == items@[k as int]@);
            let ghost its0 = its;
            let ghost states0 = states;
            let ghost subs0 = subs;
            let ghost item = items@[k as int]@;
            match &items[k] {
                DirItem::Deleted(h) => {
                    let offset = if h.first_cluster >= 2 {
                        exfat_cluster_offset(h.first_cluster, params)
                    } else {
                        0
                    };
                    let hit = DirEntryHit { name: h.name.clone(), first_cluster: h.first_cluster, size: h.size };
                    let id = results.len() as u64;
                    let rec = dir_record(hit, offset, "EXFAT_DIR", id);
                    proof {
                        reveal_strlit("EXFAT_DIR");
                        assert(is_dir_record(&rec, h.name@, h.first_cluster, h.size, exfat_entry_offset(params, h.first_cluster), "EXFAT_DIR"@, id));
                    }
                    let ghost before = results@;
                    results.push(rec);
                    assert forall|t: int| orig.len() <= t < results@.len() implies exfat_record_ok(&#[trigger] results@[t], params, t as u64) by {
                        if t < before.len() {
                            assert(results@[t] == before[t]);
                        }
                    }
                    proof {
                        assert(results@.drop_last() =~= before);
                        states = states.push((visited@, results@));
                        subs = subs.push(DirWalk::Skipped);
                        assert(dir_record_step(h.name@, h.first_cluster, h.size, exfat_entry_offset(params, h.first_cluster), "EXFAT_DIR"@, states0.last(), states.last()));
                    }
                },
                DirItem::Subdir(sub) => {
                    let ghost v_before = visited@;
                    let ghost r_before = results@;
                    scan_exfat_dir(reader, *sub, params, depth + 1, results, visited);
                    proof {
                        let w = choose|w: DirWalk| #[trigger] exfat_walk_ok(reader, *params, *sub, (depth + 1) as u32, v_before, r_before, w, visited@, results@);
                        states = states.push((visited@, results@));
                        subs = subs.push(w);
                        assert(exfat_walk_ok(reader, *params, *sub, (depth + 1) as u32, states0.last().0, states0.last().1, subs.last(), states.last().0, states.last().1));
                    }
                },
            }
            k += 1;
            proof {
                its = its.push(item);
                assert(its =~= its_base + view_items(items@).take(k as int));
                assert forall|j: int| 0 <= j < subs.len() implies match #[trigger] its[j] {
                    DirItemView::Deleted(name, fc, size) => dir_record_step(
                        name,
                        fc,
                        size,
                        exfat_entry_offset(params, fc),
                        "EXFAT_DIR"@,
                        states[j],
                        states[j + 1],
                    ),
                    DirItemView::Subdir(c) => exfat_walk_ok(
                        reader,
                        *params,
                        c,
                        (depth + 1) as u32,
                        states[j].0,
                        states[j].1,
                        subs[j],
                        states[j + 1].0,
                        states[j + 1].1,
                    ),
                } by {
                    if j < subs0.len() {
                        assert(its[j] == its0[j]);
                        assert(states[j] == states0[j]);
                        assert(states[j + 1] == states0[j + 1]);
                        assert(subs[j] == subs0[j]);
                    } else {
                        assert(states[j] == states0.last());
                    }
                }
                assert(exfat_steps_ok(reader, *params, depth, its, states, subs));
            }
        }
        proof {
            assert(view_items(items@).take(items@.len() as int) =~= view_items(items@));
            assert(its =~= exfat_walk_items(reads));
        }
    }
    proof {
        let w = DirWalk::Visited { chain: chain@, reads, states, subs };
        assert(exfat_chain_from(reader, params.fat_start, start_cluster, MAX_DIR_CLUSTERS, chain@));
        assert(reads.len() == chain@.len());
        assert(exfat_steps_ok(reader, *params, depth, exfat_walk_items(reads), states, subs));
        assert(states[0] == (old(visited)@.insert(start_cluster), old(results)@));
        assert(states.last() == (visited@, results@));
        assert(exfat_walk_ok(reader, *params, start_cluster, depth, old(visited)@, old(results)@, w, visited@, results@));
    }
}


// ── Volume scan ───────────────────────────────────────────────────────────

/// FAT32 geometry of a boot sector, when it parses.
pub open spec fn spec_fat32_geometry(boot: Seq<u8>) -> Fat32Params {
    let t = spec_parse_fat32_params(boot)->0;
    Fat32Params { cluster_size: t.0, fat_start: t.1, data_start: t.2, root_cluster: t.3 }
}

/// exFAT geometry of a boot sector, when it parses.
pub open spec fn spec_exfat_geometry(boot: Seq<u8>) -> ExFatParams {
    let t = spec_parse_exfat_params(boot)->0;
    ExFatParams { cluster_size: t.0, fat_start: t.1, data_start: t.2, root_cluster: t.3 }
}

/// Why a directory scan could not start.
#[derive(PartialEq, Eq, Structural, Clone, Copy, Debug)]
pub enum FatScanError {
    /// The 512-byte boot sector could not be read.
    BootSectorUnreadable,
}

/// What a scan of the volume with boot sector `boot` yields: nothing when
/// the sector is neither FAT32 nor exFAT or its geometry does not parse;
/// otherwise records of deleted directory entries, numbered from 0.
pub open spec fn volume_scan_ok(boot: Seq<u8>, r: Seq<RecoveredFile>) -> bool {
    &&& spec_detect_fs_type(boot) == FsType::Unknown ==> r.len() == 0
    &&& spec_detect_fs_type(boot) == FsType::Fat32 && spec_parse_fat32_params(boot) is None ==> r.len() == 0
    &&& spec_detect_fs_type(boot) == FsType::ExFat && spec_parse_exfat_params(boot) is None ==> r.len() == 0
    &&& spec_detect_fs_type(boot) == FsType::Fat32 && spec_parse_fat32_params(boot) is Some
        ==> forall|k: int| 0 <= k < r.len() ==> fat32_record_ok(&#[trigger] r[k], &spec_fat32_geometry(boot), k as u64)
    &&& spec_detect_fs_type(boot) == FsType::ExFat && spec_parse_exfat_params(boot) is Some
        ==> forall|k: int| 0 <= k < r.len() ==> exfat_record_ok(&#[trigger] r[k], &spec_exfat_geometry(boot), k as u64)
}

/// The records `r` are what a walk of the volume's directories from the
/// root, through `reader`, can give, for a FAT32 or exFAT boot sector whose
/// geometry parses.
pub open spec fn volume_walk_ok<R: BlockReader>(reader: &R, boot: Seq<u8>, r: Seq<RecoveredFile>) -> bool {
    &&& spec_detect_fs_type(boot) == FsType::Fat32 && spec_parse_fat32_params(boot) is Some ==> exists|w: DirWalk, v: Set<u32>|
        #[trigger] fat32_walk_ok(
            reader,
            spec_fat32_geometry(boot),
            spec_fat32_geometry(boot).root_cluster,
            0,
            Set::empty(),
            Seq::empty(),
            w,
            v,
            r,
        )
    &&& spec_detect_fs_type(boot) == FsType::ExFat && spec_parse_exfat_params(boot) is Some ==> exists|w: DirWalk, v: Set<u32>|
        #[trigger] exfat_walk_ok(
            reader,
            spec_exfat_geometry(boot),
            spec_exfat_geometry(boot).root_cluster,
            0,
            Set::empty(),
            Seq::empty(),
            w,
            v,
            r,
        )
}

/// FAT32 / exFAT directory carver for one volume.
pub struct FatCarver {
    device_path: String,
}

impl FatCarver {
    /// The volume this carver scans.
    pub closed spec fn path(&self) -> Seq<char> {
        self.device_path@
    }

    pub fn new(device_path: String) -> (r: Self)
        ensures
            r.path() == device_path@,
    {
        Self { device_path }
    }

    /// Deleted files of a volume, given its boot sector: none when the
    /// sector is neither FAT32 nor exFAT or its geometry does not parse;
    /// otherwise every deleted file found from the root directory, numbered
    /// from 0.
    pub fn scan_volume<R: BlockReader>(&self, boot: &[u8], reader: &R) -> (r: Vec<RecoveredFile>)
        ensures
            volume_scan_ok(boot@, r@),
            volume_walk_ok(reader, boot@, r@),
    {
        let mut results: Vec<RecoveredFile> = Vec::new();
        let mut visited: HashSetWithView<u32> = HashSetWithView::new();
        match detect_fs_type(boot) {
            FsType::Fat32 => {
                match parse_fat32_params(boot) {
                    Some(params) => {
                        let root = params.root_cluster;
                        scan_fat32_dir(reader, root, &params, 0, &mut results, &mut visited);
                        assert(params == spec_fat32_geometry(boot@));
                    },
                    None => {},
                }
            },
            FsType::ExFat => {
                match parse_exfat_params(boot) {
                    Some(params) => {
                        let root = params.root_cluster;
                        scan_exfat_dir(reader, root, &params, 0, &mut results, &mut visited);
                        assert(params == spec_exfat_geometry(boot@));
                    },
                    None => {},
                }
            },
            FsType::Unknown => {},
        }
        results
    }

    /// Reads the boot sector (the first 512 bytes) and scans the volume's
    /// directories for deleted files.  Fails only when the boot sector cannot
    /// be read.
    pub fn scan<R: BlockReader>(&self, reader: &R) -> (r: Result<Vec<RecoveredFile>, FatScanError>)
        ensures
            r matches Ok(files) ==> forall|k: int| 0 <= k < files@.len() ==> #[trigger] files@[k].id == k as u64,
            exists|b: Option<Seq<u8>>| #[trigger] can_read_exact(reader, 0, 512, b) && match b {
                None => r matches Err(e) && e == FatScanError::BootSectorUnreadable,
                Some(boot) => r matches Ok(files) && volume_scan_ok(boot, files@) && volume_walk_ok(reader, boot, files@),
            },
    {
        let res = read_exact_at(reader, 0, 512);
        let ghost b = opt_bytes(res);
        assert(can_read_exact(reader, 0, 512, b));
        match res {
            Some(boot) => {
                let files = self.scan_volume(boot.as_slice(), reader);
                proof {
                    assert forall|k: int| 0 <= k < files@.len() implies #[trigger] files@[k].id == k as u64 by {
                        let b = boot@;
                        if spec_detect_fs_type(b) == FsType::Fat32 {
                            assert(fat32_record_ok(&files@[k], &spec_fat32_geometry(b), k as u64));
                        } else if spec_detect_fs_type(b) == FsType::ExFat {
                            assert(exfat_record_ok(&files@[k], &spec_exfat_geometry(b), k as u64));
                        }
                    }
                }
                Ok(files)
            },
            None => Err(FatScanError::BootSectorUnreadable),
        }
    }
}


proof fn lemma_last_index_of_lower(s: Seq<char>, n: int)
    requires
        n <= s.len(),
    ensures
        last_index_of(s.map_values(|c: char| strs::ascii_lower(c)), '.', n) == last_index_of(s, '.', n),
    decreases n,
{
    if n > 0 {
        let l = s.map_values(|c: char| strs::ascii_lower(c));
        assert(l[n - 1] == strs::ascii_lower(s[n - 1]));
        assert((l[n - 1] == '.') == (s[n - 1] == '.'));
        lemma_last_index_of_lower(s, n - 1);
    }
}

/// A file's type depends on its extension alone, taken without regard to
/// letter case: names whose extensions agree once lower-cased get the same
/// type.
pub proof fn lemma_type_by_extension(a: Seq<char>, b: Seq<char>)
    requires
        strs::lowercase(ext_text(a)) == strs::lowercase(ext_text(b)),
    ensures
        spec_ext_to_filetype(a) == spec_ext_to_filetype(b),
{
}

/// A name whose extension is not a listed one is typed by the extension
/// itself: "BIN" when it has none, else the lower-cased extension in
/// capitals.
pub proof fn lemma_unknown_type_from_extension(name: Seq<char>)
    ensures
        spec_ext_to_filetype(name) is Unknown ==> spec_ext_to_filetype(name) == (if spec_name_ext(name).len() == 0 {
            FileTypeView::Unknown("BIN"@)
        } else {
            FileTypeView::Unknown(strs::uppercase(spec_name_ext(name)))
        }),
{
}

/// File types go by extension without regard to letter case: an ASCII name
/// and the same name lower-cased have the same extension, so
/// `ext_to_filetype` gives them the same type.
pub proof fn lemma_ext_case_insensitive(name: Seq<char>)
    requires
        strs::all_ascii(name),
    ensures
        strs::all_ascii(name.map_values(|c: char| strs::ascii_lower(c))),
        ascii_name_ext(name.map_values(|c: char| strs::ascii_lower(c))) == ascii_name_ext(name),
        spec_filetype_of_ext(ascii_name_ext(name.map_values(|c: char| strs::ascii_lower(c)))) == spec_filetype_of_ext(
            ascii_name_ext(name),
        ),
{
    let l = name.map_values(|c: char| strs::ascii_lower(c));
    assert forall|i: int| 0 <= i < l.len() implies (l[i] as u32) < 128 by {
        assert(l[i] == strs::ascii_lower(name[i]));
    }
    lemma_last_index_of_lower(name, name.len() as int);
    lemma_last_index_of_bounds(name, '.', name.len() as int);
    let d = last_index_of(name, '.', name.len() as int);
    if d >= 0 {
        let a = l.subrange(d + 1, l.len() as int).map_values(|c: char| strs::ascii_lower(c));
        let b = name.subrange(d + 1, name.len() as int).map_values(|c: char| strs::ascii_lower(c));
        assert forall|i: int| 0 <= i < a.len() implies a[i] == b[i] by {
            assert(l[d + 1 + i] == strs::ascii_lower(name[d + 1 + i]));
        }
        assert(a =~= b);
    }
}

/// A live sub-directory entry is followed: an entry that is not the end
/// marker (first byte 0), not deleted (0xE5), not "." or ".." (0x2E), not a
/// long-name entry (attributes 0x0F) or volume label (bit 0x08), with the
/// directory bit 0x10 set and a first cluster (high word at bytes 20-21,
/// low word at bytes 26-27) of at least 2, adds that cluster as a
/// sub-directory to visit, after whatever came before.
pub proof fn lemma_fat32_live_subdir_followed(st: Fat32DirState, raw: Seq<u8>)
    requires
        raw.len() == 32,
        raw[0] != 0x00,
        raw[0] != 0xE5,
        raw[0] != 0x2E,
        raw[11] != 0x0F,
        raw[11] & 0x08 == 0,
        raw[11] & 0x10 != 0,
        (raw[20] + raw[21] * 256) * 65536 + raw[26] + raw[27] * 256 >= 2,
    ensures
        fat32_entry_step(st, raw).items == st.items.push(
            DirItemView::Subdir(((raw[20] + raw[21] * 256) * 65536 + raw[26] + raw[27] * 256) as u32),
        ),
        fat32_entry_step(st, raw).lfn.len() == 0,
        fat32_entry_step(st, raw).ended == st.ended,
{
}

/// A deleted file entry (first byte 0xE5, no directory, long-name or label
/// bit) named by its 8.3 name is reported with its first cluster (bytes
/// 20-21 high, 26-27 low) and its size (4 bytes at 28), unless the name is
/// empty or all underscores; a deleted sub-directory is not reported.
pub proof fn lemma_fat32_deleted_file_reported(st: Fat32DirState, raw: Seq<u8>)
    requires
        raw.len() == 32,
        raw[0] == 0xE5,
        raw[11] != 0x0F,
        raw[11] & 0x08 == 0,
        st.lfn.len() == 0,
    ensures
        raw[11] & 0x10 != 0 ==> fat32_entry_step(st, raw).items == st.items,
        raw[11] & 0x10 == 0 && spec_short_name(raw).len() > 0 && !is_blank_name(spec_short_name(raw))
            ==> fat32_entry_step(st, raw).items == st.items.push(
            DirItemView::Deleted(
                spec_short_name(raw),
                ((raw[20] + raw[21] * 256) * 65536 + raw[26] + raw[27] * 256) as u32,
                (raw[28] + raw[29] * 256 + raw[30] * 65536 + raw[31] * 16777216) as u64,
            ),
        ),
{
}

/// The end-of-directory entry (first byte 0) ends the walk and adds nothing.
pub proof fn lemma_fat32_end_marker(st: Fat32DirState, raw: Seq<u8>)
    requires
        raw.len() == 32,
        raw[0] == 0x00,
    ensures
        fat32_entry_step(st, raw).ended,
        fat32_entry_step(st, raw).items == st.items,
{
}

/// FAT32 data clusters are laid out one after another from the data region:
/// cluster 2 starts it, and each next cluster starts one cluster size on.
pub proof fn lemma_fat32_clusters_consecutive(p: Fat32Params, c: int)
    requires
        c >= 2,
    ensures
        p.spec_cluster_offset(2) == p.data_start,
        p.spec_cluster_offset(c + 1) == p.spec_cluster_offset(c) + p.cluster_size,
{
    assert((c + 1 - 2) * p.cluster_size == (c - 2) * p.cluster_size + p.cluster_size) by (nonlinear_arith);
}

/// A live exFAT directory is followed: a File entry (0x85) whose attributes
/// (byte 4) have the directory bit 0x10 and which has at least two
/// secondary entries, followed by a live Stream Extension (0xC0) whose
/// first cluster (4 bytes at its byte 20) is at least 2, adds that cluster
/// as a sub-directory, and the walk goes on after the entry set.
pub proof fn lemma_exfat_live_subdir_followed(d: Seq<u8>, i: int, acc: Seq<DirItemView>)
    requires
        0 <= i,
        i + 1 < d.len() / 32,
        d[i * 32] == 0x85,
        d[i * 32 + 4] & 0x10 != 0,
        d[i * 32 + 1] >= 2,
        d[(i + 1) * 32] == 0xC0,
        bytes::le32(d, (i + 1) * 32 + 20) >= 2,
    ensures
        exfat_scan_from(d, i, acc) == exfat_scan_from(
            d,
            i + d[i * 32 + 1] + 1,
            acc.push(DirItemView::Subdir(bytes::le32(d, (i + 1) * 32 + 20) as u32)),
        ),
{
    lemma_entry_in_bounds(d.len() as int, i + 1);
    let e = dir_entry(d, i);
    let st = dir_entry(d, i + 1);
    assert(e[0] == d[i * 32] && e[1] == d[i * 32 + 1] && e[4] == d[i * 32 + 4] && e[5] == d[i * 32 + 5]);
    assert(st[0] == d[(i + 1) * 32]);
    assert(bytes::le32(st, 20) == bytes::le32(d, (i + 1) * 32 + 20));
    let lo = e[4];
    let hi = e[5];
    assert(lo & 0x10 != 0 ==> ((lo as int + hi as int * 0x100) as u16) & 0x10 != 0) by (bit_vector);
}

/// 8.3 names as the directory entry spells them: a name field of eight and
/// an extension field of three printable, non-space characters make
/// "NAMEFIELD.EXT"; a deleted entry's first character (0xE5) reads as '_'.
pub proof fn lemma_short_name_fields(raw: Seq<u8>)
    requires
        raw.len() == 32,
    ensures
        raw[0] == 0xE5 ==> spec_short_name(raw).len() > 0 && spec_short_name(raw)[0] == '_',
        (forall|k: int| 0 <= k < 11 ==> 0x21 <= #[trigger] raw[k] <= 0x7E) ==> spec_short_name(raw) == raw.subrange(
            0,
            8,
        ).map_values(|b: u8| b as char) + seq!['.'] + raw.subrange(8, 11).map_values(|b: u8| b as char),
{
    reveal_with_fuel(first_pad_from, 10);
    let base = short_name_base(raw);
    let ext0 = raw.subrange(8, 11);
    if raw[0] == 0xE5 {
        assert(base[0] == 0x5F);
        assert(first_pad_from(base, 0) >= 1);
    }
    if forall|k: int| 0 <= k < 11 ==> 0x21 <= #[trigger] raw[k] <= 0x7E {
        assert(base =~= raw.subrange(0, 8));
        assert(forall|k: int| 0 <= k < 8 ==> !is_pad(#[trigger] base[k]));
        assert(forall|k: int| 0 <= k < 3 ==> !is_pad(#[trigger] ext0[k]));
        assert(first_pad_from(base, 0) == 8);
        assert(first_pad_from(ext0, 0) == 3);
        assert(base.take(8) =~= base);
        assert(ext0.take(3) =~= ext0);
        assert(ascii_name(base) =~= raw.subrange(0, 8).map_values(|b: u8| b as char));
        assert(ascii_name(ext0) =~= raw.subrange(8, 11).map_values(|b: u8| b as char));
    }
}

/// FAT32 volume layout from the boot sector bytes: with B bytes per sector
/// (bytes 11-12, at least 512), S sectors per cluster (byte 13, non-zero)
/// and a FAT of F sectors (bytes 36-39, non-zero), a cluster is S * B bytes,
/// the first FAT starts after the R reserved sectors (bytes 14-15), the data
/// region right after the N copies of the FAT (byte 16), and the root
/// directory's cluster is the 4 bytes at 44.
pub proof fn lemma_fat32_layout(b: Seq<u8>)
    requires
        b.len() >= 80,
        b[11] + 256 * b[12] >= 512,
        b[13] != 0,
        b[36] + 256 * b[37] + 65536 * b[38] + 16777216 * b[39] != 0,
    ensures
        spec_parse_fat32_params(b) matches Some((cs, fs, ds, root)) && cs == b[13] * (b[11] + 256 * b[12]) && fs == (b[14]
            + 256 * b[15]) * (b[11] + 256 * b[12]) && ds == fs + b[16] * (b[36] + 256 * b[37] + 65536 * b[38] + 16777216
            * b[39]) * (b[11] + 256 * b[12]) && root == b[44] + 256 * b[45] + 65536 * b[46] + 16777216 * b[47],
{
    let bps = bytes::le16(b, 11);
    let rsc = bytes::le16(b, 14);
    let nf = b[16] as int;
    let fsz = bytes::le32(b, 36);
    lemma_fat32_geometry_bounds(bps, b[13] as int, rsc, nf, fsz);
    assert((rsc + nf * fsz) * bps == rsc * bps + nf * fsz * bps) by (nonlinear_arith);
}

/// Boot sectors are told apart by their signatures: "EXFAT   " at byte 3
/// marks exFAT; otherwise "FAT32   " at byte 82 marks FAT32.
pub proof fn lemma_detect_by_signature(b: Seq<u8>)
    requires
        b.len() >= 90,
    ensures
        b.subrange(3, 11) == seq![0x45u8, 0x58, 0x46, 0x41, 0x54, 0x20, 0x20, 0x20] ==> spec_detect_fs_type(b)
            == FsType::ExFat,
        b.subrange(3, 11) != seq![0x45u8, 0x58, 0x46, 0x41, 0x54, 0x20, 0x20, 0x20] && b.subrange(82, 90) == seq![
            0x46u8,
            0x41,
            0x54,
            0x33,
            0x32,
            0x20,
            0x20,
            0x20,
        ] ==> spec_detect_fs_type(b) == FsType::Fat32,
{
}

/// FAT32 entries are 28-bit: the top four bits are ignored; a data cluster
/// (2 to 0x0FFFFFF6) is the successor, while free (0), reserved (1), bad
/// (0x0FFFFFF7) and end-of-chain (0x0FFFFFF8 to 0x0FFFFFFF) entries end the
/// chain.
pub proof fn lemma_fat32_entry_values(h: int, c: int)
    requires
        0 <= h < 16,
        0 <= c < 0x1000_0000,
    ensures
        2 <= c <= 0x0FFF_FFF6 ==> fat32_successor(h * 0x1000_0000 + c) == Some(c as u32),
        (c < 2 || c >= 0x0FFF_FFF7) ==> fat32_successor(h * 0x1000_0000 + c) is None,
{
    assert((h * 0x1000_0000 + c) % 0x1000_0000 == c) by (nonlinear_arith)
        requires 0 <= h < 16, 0 <= c < 0x1000_0000;
}

/// exFAT entries are 32-bit: a data cluster (2 to 0xFFFFFFF6) is the
/// successor; free, reserved, bad (0xFFFFFFF7) and end-of-chain
/// (0xFFFFFFF8 to 0xFFFFFFFF) entries end the chain.
pub proof fn lemma_exfat_entry_values(c: u32)
    ensures
        2 <= c <= 0xFFFF_FFF6 ==> exfat_successor(c) == Some(c),
        (c < 2 || c >= 0xFFFF_FFF7) ==> exfat_successor(c) is None,
{
}

/// Where a long-name entry keeps its 13 UTF-16 characters: five at bytes
/// 1-10, six at 14-25 and two at 28-31, each little-endian.
pub proof fn lemma_lfn_entry_layout(e: Seq<u8>)
    requires
        e.len() == 32,
    ensures
        lfn_entry_units(e).len() == 13,
        forall|k: int| 0 <= k < 5 ==> #[trigger] lfn_entry_units(e)[k] == e[1 + 2 * k] + 256 * e[2 + 2 * k],
        forall|k: int| 0 <= k < 6 ==> #[trigger] lfn_entry_units(e)[5 + k] == e[14 + 2 * k] + 256 * e[15 + 2 * k],
        forall|k: int| 0 <= k < 2 ==> #[trigger] lfn_entry_units(e)[11 + k] == e[28 + 2 * k] + 256 * e[29 + 2 * k],
{
    let u = lfn_entry_units(e);
    assert forall|k: int| 0 <= k < 5 implies #[trigger] u[k] == e[1 + 2 * k] + 256 * e[2 + 2 * k] by {
        if k == 0 {} else if k == 1 {} else if k == 2 {} else if k == 3 {} else {}
    }
    assert forall|k: int| 0 <= k < 6 implies #[trigger] u[5 + k] == e[14 + 2 * k] + 256 * e[15 + 2 * k] by {
        if k == 0 {} else if k == 1 {} else if k == 2 {} else if k == 3 {} else if k == 4 {} else {}
    }
    assert forall|k: int| 0 <= k < 2 implies #[trigger] u[11 + k] == e[28 + 2 * k] + 256 * e[29 + 2 * k] by {
        if k == 0 {} else {}
    }
}

/// Long names are stored last part first: an entry that comes later in the
/// directory holds an earlier part of the name, so its characters come
/// before those of the entries above it.
pub proof fn lemma_lfn_order(es: Seq<Seq<u8>>, x: Seq<u8>)
    ensures
        lfn_units_from(es.push(x), 0) == lfn_entry_units(x) + lfn_units_from(es, 0),
{
    lemma_lfn_units_push(es, x, 0);
}

proof fn lemma_lfn_units_push(es: Seq<Seq<u8>>, x: Seq<u8>, i: int)
    requires
        0 <= i,
    ensures
        i <= es.len() ==> lfn_units_from(es.push(x), i) == lfn_entry_units(x) + lfn_units_from(es, i),
    decreases es.len() - i,
{
    if i < es.len() {
        lemma_lfn_units_push(es, x, i + 1);
        assert(es.push(x)[i] == es[i]);
        assert(lfn_units_from(es.push(x), i) =~= lfn_entry_units(x) + lfn_units_from(es, i));
    } else if i == es.len() {
        assert(es.push(x)[i] == x);
        assert(lfn_units_from(es.push(x), i + 1) == Seq::<u16>::empty());
        assert(lfn_units_from(es.push(x), i) =~= lfn_entry_units(x) + lfn_units_from(es, i));
    }
}

/// A long name ends at its first 0x0000 or 0xFFFF unit: the name's units
/// are a prefix of the entries' units holding no terminator, followed in
/// them by a terminator or by nothing.
pub proof fn lemma_lfn_name_ends_at_terminator(es: Seq<Seq<u8>>)
    ensures
        ({
            let u = lfn_units_from(es, 0);
            let n = lfn_name_units(es);
            &&& n.len() <= u.len()
            &&& n == u.take(n.len() as int)
            &&& forall|k: int| 0 <= k < n.len() ==> #[trigger] n[k] != 0 && n[k] != 0xFFFF
            &&& n.len() < u.len() ==> (u[n.len() as int] == 0 || u[n.len() as int] == 0xFFFF)
        }),
{
    let u = lfn_units_from(es, 0);
    lemma_first_terminator(u, 0);
}

proof fn lemma_first_terminator(u: Seq<u16>, i: int)
    requires
        0 <= i <= u.len(),
    ensures
        i <= first_terminator_from(u, i) <= u.len(),
        forall|k: int| i <= k < first_terminator_from(u, i) ==> !is_lfn_terminator(#[trigger] u[k]),
        first_terminator_from(u, i) < u.len() ==> is_lfn_terminator(u[first_terminator_from(u, i)]),
    decreases u.len() - i,
{
    if i < u.len() && !is_lfn_terminator(u[i]) {
        lemma_first_terminator(u, i + 1);
    }
}

/// Long-name entries (attributes 0x0F) are held until the short entry they
/// belong to: they add nothing by themselves, and a deleted file entry that
/// follows them is reported under the long name they spell.
pub proof fn lemma_fat32_long_name_used(st: Fat32DirState, raw: Seq<u8>, lfn: Seq<u8>)
    requires
        raw.len() == 32,
        lfn.len() == 32,
        lfn[0] != 0x00,
        lfn[11] == 0x0F,
        raw[0] == 0xE5,
        raw[11] != 0x0F,
        raw[11] & 0x08 == 0,
        raw[11] & 0x10 == 0,
    ensures
        fat32_entry_step(st, lfn).items == st.items,
        fat32_entry_step(st, lfn).lfn == st.lfn.push(lfn),
        spec_lfn_name(st.lfn.push(lfn)).len() > 0 && !is_blank_name(spec_lfn_name(st.lfn.push(lfn)))
            ==> fat32_entry_step(fat32_entry_step(st, lfn), raw).items == st.items.push(
            DirItemView::Deleted(
                spec_lfn_name(st.lfn.push(lfn)),
                ((raw[20] + raw[21] * 256) * 65536 + raw[26] + raw[27] * 256) as u32,
                (raw[28] + raw[29] * 256 + raw[30] * 65536 + raw[31] * 16777216) as u64,
            ),
        ),
{
}

/// A deleted exFAT file is reported from its entry set: a deleted File
/// entry (0x05) with at least two secondaries, followed by a deleted Stream
/// Extension (0x40), gives the file's first cluster (4 bytes at stream byte
/// 20) and size (the valid data length at stream byte 8, or the data length
/// at byte 24 when that is 0), unless its name is empty; the walk goes on
/// after the set.
pub proof fn lemma_exfat_deleted_file_reported(d: Seq<u8>, i: int, acc: Seq<DirItemView>)
    requires
        0 <= i,
        i + d[i * 32 + 1] < d.len() / 32,
        d[i * 32] == 0x05,
        d[i * 32 + 1] >= 2,
        d[(i + 1) * 32] == 0x40,
    ensures
        ({
            let s = (i + 1) * 32;
            let name = strs::utf16_lossy(exfat_name_units(d, i, d[i * 32 + 1] as int, d[s + 3] as int));
            let valid = bytes::le64(d, s + 8);
            let size = if valid > 0 { valid } else { bytes::le64(d, s + 24) };
            name.len() > 0 ==> exfat_scan_from(d, i, acc) == exfat_scan_from(
                d,
                i + d[i * 32 + 1] + 1,
                acc.push(DirItemView::Deleted(name, bytes::le32(d, s + 20) as u32, size as u64)),
            )
        }),
{
    lemma_entry_in_bounds(d.len() as int, i + 1);
    let e = dir_entry(d, i);
    let st = dir_entry(d, i + 1);
    let s = (i + 1) * 32;
    assert(e[0] == d[i * 32] && e[1] == d[i * 32 + 1]);
    assert(st[0] == d[s] && st[3] == d[s + 3]);
    assert(bytes::le32(st, 20) == bytes::le32(d, s + 20));
    assert(bytes::le64(st, 8) == bytes::le64(d, s + 8));
    assert(bytes::le64(st, 24) == bytes::le64(d, s + 24));
}

/// exFAT volume layout from the boot sector: with "EXFAT   " at byte 3 and
/// a bytes-per-sector shift (byte 108) of 9 to 12, sectors are 2^shift
/// bytes, the FAT starts at the sector count at byte 80, the cluster heap at
/// the one at byte 88, and the root directory's cluster is at byte 96; a
/// shift outside 9 to 12 or a missing signature is refused.  FAT32 refuses
/// fewer than 512 bytes per sector.
pub proof fn lemma_exfat_layout(b: Seq<u8>)
    requires
        b.len() >= 512,
    ensures
        bytes::occurs_at(b, seq![0x45u8, 0x58, 0x46, 0x41, 0x54, 0x20, 0x20, 0x20], 3) && 9 <= b[108] <= 12 ==> (
        match spec_parse_exfat_params(b) {
            Some((cs, fs, ds, root)) => fs == bytes::le32(b, 80) * pow2(b[108] as nat) && ds == bytes::le32(b, 88)
                * pow2(b[108] as nat) && root == bytes::le32(b, 96),
            None => false,
        }),
        !(9 <= b[108] <= 12) ==> spec_parse_exfat_params(b) is None,
        !bytes::occurs_at(b, seq![0x45u8, 0x58, 0x46, 0x41, 0x54, 0x20, 0x20, 0x20], 3) ==> spec_parse_exfat_params(b) is None,
        b[11] + 256 * b[12] < 512 ==> spec_parse_fat32_params(b) is None,
{
    assert(exfat_oem() =~= seq![0x45u8, 0x58, 0x46, 0x41, 0x54, 0x20, 0x20, 0x20]);
    lemma2_to64();
    if 9 <= b[108] <= 12 {
        let bps = sector_bytes(b[108]);
        assert(bps == pow2(b[108] as nat));
        assert(bytes::le32(b, 80) * bps <= 0xFFFF_FFFF * 4096) by (nonlinear_arith)
            requires 0 <= bytes::le32(b, 80) <= 0xFFFF_FFFF, bps <= 4096;
        assert(bytes::le32(b, 88) * bps <= 0xFFFF_FFFF * 4096) by (nonlinear_arith)
            requires 0 <= bytes::le32(b, 88) <= 0xFFFF_FFFF, bps <= 4096;
    }
}

} // verus!
