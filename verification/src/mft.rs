//! NTFS Master File Table parsing: finds deleted file records (in-use flag
//! cleared) and zeroed records that still hold residual data.
use vstd::prelude::*;

use crate::bytes::{read_u16, read_u32, read_u64, matches_at};
use crate::bytes;
use crate::device::{BlockReader, read_exact_at, can_read_exact, opt_bytes};
use crate::fat;
use crate::strs::{to_upper, from_utf16, chars_of, string_from_chars};
use crate::strs;

verus! {

/// Size of one MFT record in bytes.
pub const MFT_RECORD_SIZE: u64 = 1024;

/// Records scanned at most (record numbers 0 to this value).
pub const MAX_MFT_RECORDS: u64 = 10_000_000;

/// NTFS boot sector (BIOS Parameter Block).
pub struct NtfsBpb {
    pub bytes_per_sector: u16,
    pub sectors_per_cluster: u8,
    pub mft_cluster_number: u64,
    pub mft_mirror_cluster: u64,
    pub clusters_per_mft_record: i8,
    pub volume_serial_number: u64,
    pub total_sectors: u64,
}

/// MFT record header (simplified).
pub struct MftRecordHeader {
    /// "FILE", or zeros for a wiped record.
    pub signature: [u8; 4],
    pub sequence_number: u16,
    pub hard_link_count: u16,
    /// 0x0001 = in use, 0x0002 = directory.
    pub flags: u16,
    pub bytes_allocated: u32,
    pub base_file_record: u64,
    pub next_attr_id: u16,
    pub record_number: u32,
}

/// A deleted (or wiped) MFT record.
pub struct DeletedMftEntry {
    pub record_number: u64,
    pub file_name: Option<String>,
    pub file_size: u64,
    pub created_time: u64,
    pub modified_time: u64,
    /// The cluster (LCN) where the data lived: where the first run of the
    /// $DATA attribute's run list starts; 0 when unknown.
    pub data_run_offset: u64,
    pub is_recoverable: bool,
    pub file_type_hint: String,
}

/// Why an MFT scan could not start.
#[derive(PartialEq, Eq, Structural, Clone, Copy, Debug)]
pub enum MftError {
    /// The boot sector could not be read.
    BootSectorUnreadable,
    /// The boot sector's OEM ID is not "NTFS    ".
    NotNtfs,
}

/// OEM ID of an NTFS boot sector: "NTFS    ".
pub open spec fn ntfs_oem() -> Seq<u8> {
    seq![0x4Eu8, 0x54, 0x46, 0x53, 0x20, 0x20, 0x20, 0x20]
}

/// Record signature "FILE".
pub open spec fn file_signature() -> Seq<u8> {
    seq![0x46u8, 0x49, 0x4C, 0x45]
}

/// `bpb` holds the fields of an NTFS boot sector: bytes per sector (11),
/// sectors per cluster (13), total sectors (40), MFT cluster (48), MFT mirror
/// cluster (56), clusters per MFT record (64, signed) and serial number (72).
pub open spec fn is_bpb_of(bpb: &NtfsBpb, s: Seq<u8>) -> bool {
    &&& bpb.bytes_per_sector as int == bytes::le16(s, 11)
    &&& bpb.sectors_per_cluster == s[13]
    &&& bpb.total_sectors as int == bytes::le64(s, 40)
    &&& bpb.mft_cluster_number as int == bytes::le64(s, 48)
    &&& bpb.mft_mirror_cluster as int == bytes::le64(s, 56)
    &&& bpb.clusters_per_mft_record == s[64] as i8
    &&& bpb.volume_serial_number as int == bytes::le64(s, 72)
}

/// Parses an NTFS boot sector; `NotNtfs` unless its OEM ID (offset 3) is
/// "NTFS    ".
pub fn parse_ntfs_bpb(sector: &[u8]) -> (r: Result<NtfsBpb, MftError>)
    requires
        sector@.len() >= 512,
    ensures
        match r {
            Ok(bpb) => bytes::occurs_at(sector@, ntfs_oem(), 3) && is_bpb_of(&bpb, sector@),
            Err(e) => e == MftError::NotNtfs && !bytes::occurs_at(sector@, ntfs_oem(), 3),
        },
{
    let oem: Vec<u8> = vec![0x4Eu8, 0x54, 0x46, 0x53, 0x20, 0x20, 0x20, 0x20];
    assert(oem@ =~= ntfs_oem());
    if !matches_at(sector, oem.as_slice(), 3) {
        return Err(MftError::NotNtfs);
    }
    Ok(NtfsBpb {
        bytes_per_sector: read_u16(sector, 11),
        sectors_per_cluster: sector[13],
        mft_cluster_number: read_u64(sector, 48),
        mft_mirror_cluster: read_u64(sector, 56),
        clusters_per_mft_record: sector[64] as i8,
        volume_serial_number: read_u64(sector, 72),
        total_sectors: read_u64(sector, 40),
    })
}

impl NtfsBpb {
    /// Byte offset of the MFT: its cluster number times the cluster size,
    /// in wrapping 64-bit arithmetic.
    pub open spec fn spec_mft_offset(&self) -> u64 {
        self.mft_cluster_number.wrapping_mul(
            (self.bytes_per_sector as u64 * self.sectors_per_cluster as u64) as u64,
        )
    }

    /// Byte offset of the MFT on the volume.
    pub fn mft_offset(&self) -> (r: u64)
        ensures
            r == self.spec_mft_offset(),
    {
        let bps = self.bytes_per_sector as u64;
        let spc = self.sectors_per_cluster as u64;
        assert(bps * spc <= 0xFFFF * 0xFF) by (nonlinear_arith)
            requires bps <= 0xFFFF, spc <= 0xFF;
        let bytes_per_cluster = bps * spc;
        self.mft_cluster_number.wrapping_mul(bytes_per_cluster)
    }
}

// ── $FILE_NAME ─────────────────────────────────────────────────────────────

/// UTF-16 code units stored little-endian in `s[start..start + 2n]`.
pub open spec fn utf16_units(s: Seq<u8>, start: int, n: int) -> Seq<u16> {
    Seq::new(n as nat, |k: int| bytes::le16(s, start + 2 * k) as u16)
}

/// Name held by a resident $FILE_NAME attribute: the value starts at the
/// offset in byte 20; its name length (in units) is at value byte 64 and the
/// name at value byte 66.  `None` for attributes of 21 bytes or fewer, names
/// that do not fit, and invalid UTF-16.
pub open spec fn spec_filename_attr(a: Seq<u8>) -> Option<Seq<char>> {
    match filename_attr_units(a) {
        Some(u) => strs::utf16_strict(u),
        None => None,
    }
}

/// The UTF-16 code units of the name in a $FILE_NAME attribute, when the
/// attribute is long enough and the name fits in it.
pub open spec fn filename_attr_units(a: Seq<u8>) -> Option<Seq<u16>> {
    if a.len() < 8 || a.len() <= 21 {
        None
    } else {
        let val_off = a[20] as int;
        let fn_base = val_off + 66;
        if fn_base >= a.len() {
            None
        } else {
            let name_len = a[val_off + 64] as int;
            if fn_base + name_len * 2 > a.len() {
                None
            } else {
                Some(utf16_units(a, fn_base, name_len))
            }
        }
    }
}

impl MftParser {
    /// Decodes the file name of a $FILE_NAME attribute.
    pub fn parse_filename_attr(&self, attr: &[u8]) -> (r: Option<String>)
        ensures
            match r {
                Some(n) => spec_filename_attr(attr@) == Some(n@),
                None => spec_filename_attr(attr@) is None,
            },
            match filename_attr_units(attr@) {
                Some(u) => strs::no_surrogates(u) ==> r is Some && r->0@ == strs::bmp_chars(u),
                None => r is None,
            },
    {
        if attr.len() < 8 {
            return None;
        }
        if !(attr.len() > 21) {
            return None;
        }
        let val_off = attr[20] as usize;
        let fn_base = val_off + 66;
        if fn_base >= attr.len() {
            return None;
        }
        let name_len = attr[val_off + 64] as usize;
        let name_bytes_len = name_len * 2;
        if fn_base + name_bytes_len > attr.len() {
            return None;
        }
        let mut units: Vec<u16> = Vec::new();
        let mut k: usize = 0;
        while k < name_len
            invariant
                k <= name_len,
                fn_base + name_len * 2 <= attr.len(),
                units@ == utf16_units(attr@, fn_base as int, k as int),
            decreases name_len - k,
        {
            units.push(read_u16(attr, fn_base + 2 * k));
            k += 1;
            assert(units@ =~= utf16_units(attr@, fn_base as int, k as int));
        }
        proof {
            if strs::no_surrogates(units@) {
                strs::lemma_utf16_without_surrogates(units@);
            }
        }
        match from_utf16(units.as_slice()) {
            Some(s) => Some(s),
            None => None,
        }
    }
}

// ── Record attributes ──────────────────────────────────────────────────────

/// Fields gathered while walking the attributes of a record.
pub struct MftFields {
    pub file_name: Option<Seq<char>>,
    pub file_size: u64,
    pub data_run_offset: u64,
    pub created_time: u64,
    pub modified_time: u64,
}

/// Effect of a $STANDARD_INFORMATION attribute at `off`: creation and
/// modification times from its value (offset in byte 20), when it fits.
pub open spec fn std_info_step(r: Seq<u8>, off: int, f: MftFields) -> MftFields {
    if off + 24 + 16 <= r.len() {
        let base = off + r[off + 20] as int;
        if base + 16 <= r.len() {
            MftFields { created_time: bytes::le64(r, base) as u64, modified_time: bytes::le64(r, base + 8) as u64, ..f }
        } else {
            f
        }
    } else {
        f
    }
}

/// Effect of a $FILE_NAME attribute spanning `r[off..off + len]`: its name,
/// when it decodes.
pub open spec fn file_name_step(r: Seq<u8>, off: int, len: int, f: MftFields) -> MftFields {
    match spec_filename_attr(r.subrange(off, off + len)) {
        Some(n) => MftFields { file_name: Some(n), ..f },
        None => f,
    }
}

/// Unsigned little-endian value of the `n` bytes `s[i..i + n]`.
pub open spec fn le_bytes(s: Seq<u8>, i: int, n: int) -> int
    decreases n,
{
    if n <= 0 {
        0
    } else {
        s[i] as int + 256 * le_bytes(s, i + 1, n - 1)
    }
}

/// 256 to the power `n`.
pub open spec fn pow256(n: int) -> int
    decreases n,
{
    if n <= 0 {
        1
    } else {
        256 * pow256(n - 1)
    }
}

proof fn lemma_le_bytes_bound(s: Seq<u8>, i: int, n: int)
    requires
        n >= 0,
    ensures
        0 <= le_bytes(s, i, n) < pow256(n),
    decreases n,
{
    if n > 0 {
        lemma_le_bytes_bound(s, i + 1, n - 1);
    }
}

/// The cluster (LCN) where the first data run of a run list at `p` starts:
/// the run's header byte gives the sizes of its length field (low nibble)
/// and of its signed LCN field (high nibble), which follows the length
/// field.  0 when there is no such field (a sparse run), it is longer than
/// 8 bytes or does not fit, or the LCN is negative.
pub open spec fn first_run_lcn(r: Seq<u8>, p: int) -> u64 {
    let h = r[p];
    let ll = h % 16;
    let ol = h / 16;
    if ol == 0 || ol > 8 || p + 1 + ll + ol > r.len() || r[p + ll + ol] >= 0x80 {
        0
    } else {
        le_bytes(r, p + 1 + ll, ol as int) as u64
    }
}

/// Reads the LCN of the first data run of the run list at `p`.
pub fn read_first_run_lcn(r: &[u8], p: usize) -> (v: u64)
    requires
        p < r@.len(),
    ensures
        v == first_run_lcn(r@, p as int),
{
    let h = r[p];
    let ll = (h % 16) as usize;
    let ol = (h / 16) as usize;
    if ol == 0 || ol > 8 || r.len() - p < 1 + ll + ol || r[p + ll + ol] >= 0x80 {
        return 0;
    }
    let start = p + 1 + ll;
    let mut v: u128 = 0;
    let mut j: usize = ol;
    proof {
        assert(pow256(0) == 1);
        lemma_pow256_mono(0, 8);
    }
    while j > 0
        invariant
            j <= ol,
            ol <= 8,
            start + ol <= r@.len(),
            r@.len() == r.len(),
            v == le_bytes(r@, (start + j) as int, (ol - j) as int),
            v < pow256((ol - j) as int),
            pow256((ol - j) as int) <= pow256(8),
        decreases j,
    {
        proof {
            assert(pow256((ol - j + 1) as int) == 256 * pow256((ol - j) as int));
            lemma_pow256_8();
            lemma_pow256_mono((ol - j + 1) as int, 8);
        }
        let b = r[start + (j - 1)];
        v = v * 256 + b as u128;
        j -= 1;
    }
    proof {
        lemma_pow256_8();
    }
    v as u64
}

proof fn lemma_pow256_8()
    ensures
        pow256(8) == 0x1_0000_0000_0000_0000,
{
    assert(pow256(0) == 1);
    assert(pow256(1) == 0x100);
    assert(pow256(2) == 0x1_0000);
    assert(pow256(3) == 0x100_0000);
    assert(pow256(4) == 0x1_0000_0000);
    assert(pow256(5) == 0x100_0000_0000);
    assert(pow256(6) == 0x1_0000_0000_0000);
    assert(pow256(7) == 0x100_0000_0000_0000);
}

proof fn lemma_pow256_mono(a: int, b: int)
    requires
        0 <= a <= b,
    ensures
        pow256(a) <= pow256(b),
        pow256(a) >= 1,
    decreases b - a,
{
    if a < b {
        lemma_pow256_mono(a, b - 1);
        assert(pow256(b) == 256 * pow256(b - 1));
    } else {
        lemma_pow256_pos(a);
    }
}

proof fn lemma_pow256_pos(a: int)
    requires
        a >= 0,
    ensures
        pow256(a) >= 1,
    decreases a,
{
    if a > 0 {
        lemma_pow256_pos(a - 1);
    }
}

/// Effect of a $DATA attribute at `off`: for a non-resident one the real
/// size (byte 48) and, when its run list (offset in the 16-bit field at
/// byte 32) starts inside the record, the LCN of its first run; for a
/// resident one the content length (byte 16).
pub open spec fn data_step(r: Seq<u8>, off: int, f: MftFields) -> MftFields {
    if off + 8 < r.len() {
        if r[off + 8] == 1 {
            if off + 32 + 8 <= r.len() {
                let f1 = if off + 48 + 8 <= r.len() {
                    MftFields { file_size: bytes::le64(r, off + 48) as u64, ..f }
                } else {
                    f
                };
                let run_off = off + bytes::le16(r, off + 32);
                if run_off < r.len() {
                    MftFields { data_run_offset: first_run_lcn(r, run_off), ..f1 }
                } else {
                    f1
                }
            } else {
                f
            }
        } else if off + 16 + 4 <= r.len() {
            MftFields { file_size: bytes::le32(r, off + 16) as u64, ..f }
        } else {
            f
        }
    } else {
        f
    }
}

/// Walk of a record's attributes from `off`: each attribute gives its type
/// (4 bytes) and length (4 bytes); the walk ends at type 0xFFFFFFFF, at a
/// zero length, or at an attribute that does not fit.
pub open spec fn attr_walk(r: Seq<u8>, off: int, f: MftFields) -> MftFields
    decreases r.len() - off,
{
    if off < 0 || off + 4 >= r.len() {
        f
    } else {
        let attr_type = bytes::le32(r, off);
        if attr_type == 0xFFFF_FFFF || !(off + 8 <= r.len()) {
            f
        } else {
            let attr_len = bytes::le32(r, off + 4);
            if attr_len == 0 || off + attr_len > r.len() {
                f
            } else {
                let f2 = if attr_type == 0x10 {
                    std_info_step(r, off, f)
                } else if attr_type == 0x30 {
                    file_name_step(r, off, attr_len, f)
                } else if attr_type == 0x80 {
                    data_step(r, off, f)
                } else {
                    f
                };
                attr_walk(r, off + attr_len, f2)
            }
        }
    }
}

/// What follows the last '.' of a name, or the whole name without one.
pub open spec fn after_last_dot(n: Seq<char>) -> Seq<char> {
    let d = fat::last_index_of(n, '.', n.len() as int);
    if d >= 0 {
        n.subrange(d + 1, n.len() as int)
    } else {
        n
    }
}

/// Type hint of a record: the upper-cased extension of its name, or of
/// "unknown" when it has none.
pub open spec fn spec_type_hint(name: Option<Seq<char>>) -> Seq<char> {
    match name {
        Some(n) => strs::uppercase(after_last_dot(n)),
        None => strs::uppercase("unknown"@),
    }
}

/// `e` is the entry of deleted record `num` whose attributes gave `f`.
pub open spec fn is_deleted_entry(e: &DeletedMftEntry, num: u64, f: MftFields) -> bool {
    &&& e.record_number == num
    &&& f.file_name == opt_chars(&e.file_name)
    &&& e.file_size == f.file_size
    &&& e.created_time == f.created_time
    &&& e.modified_time == f.modified_time
    &&& e.data_run_offset == f.data_run_offset
    &&& e.is_recoverable == (f.data_run_offset > 0)
    &&& e.file_type_hint@ == spec_type_hint(f.file_name)
}

/// The characters of an optional string.
pub open spec fn opt_chars(o: &Option<String>) -> Option<Seq<char>> {
    match o {
        Some(n) => Some(n@),
        None => None,
    }
}

/// Attributes of a record, walked from the offset in byte 20.
pub open spec fn spec_record_fields(r: Seq<u8>) -> MftFields {
    attr_walk(
        r,
        bytes::le16(r, 20),
        MftFields { file_name: None, file_size: 0, data_run_offset: 0, created_time: 0, modified_time: 0 },
    )
}

/// A record can be parsed when it has at least 48 bytes and its first
/// attribute offset lies inside it.
pub open spec fn record_parsable(r: Seq<u8>) -> bool {
    r.len() >= 48 && bytes::le16(r, 20) < r.len()
}

fn extension_hint(name: &Option<String>) -> (r: String)
    ensures
        r@ == spec_type_hint(opt_chars(name)),
{
    match name {
        Some(n) => {
            let chars = chars_of(n.as_str());
            let len = chars.len();
            let mut k: usize = len;
            while k > 0 && chars[k - 1] != '.'
                invariant
                    k <= len,
                    len == n@.len(),
                    chars@ == n@,
                    fat::last_index_of(n@, '.', len as int) == fat::last_index_of(n@, '.', k as int),
                decreases k,
            {
                k -= 1;
            }
            let start = if k > 0 { k } else { 0 };
            let mut tail: Vec<char> = Vec::new();
            let mut j: usize = start;
            while j < len
                invariant
                    start <= j <= len,
                    len == chars@.len(),
                    tail@ == chars@.subrange(start as int, j as int),
                decreases len - j,
            {
                tail.push(chars[j]);
                j += 1;
                assert(tail@ =~= chars@.subrange(start as int, j as int));
            }
            assert(tail@ =~= after_last_dot(n@));
            let ext = string_from_chars(&tail);
            to_upper(ext.as_str())
        },
        None => to_upper("unknown"),
    }
}

impl MftParser {
    /// Parses a deleted MFT record: walks its attributes for the file name
    /// ($FILE_NAME), times ($STANDARD_INFORMATION), size and run-list offset
    /// ($DATA).  `None` when the record is shorter than 48 bytes or its first
    /// attribute offset lies outside it.
    pub fn parse_deleted_record(&self, record: &[u8], record_num: u64) -> (r: Option<DeletedMftEntry>)
        ensures
            match r {
                Some(e) => record_parsable(record@) && is_deleted_entry(&e, record_num, spec_record_fields(record@)),
                None => !record_parsable(record@),
            },
    {
        if record.len() < 48 {
            return None;
        }
        let first_attr_off = read_u16(record, 20) as usize;
        if first_attr_off >= record.len() {
            return None;
        }
        let len = record.len();
        let mut file_name: Option<String> = None;
        let mut file_size: u64 = 0;
        let mut data_run_offset: u64 = 0;
        let mut created_time: u64 = 0;
        let mut modified_time: u64 = 0;
        let ghost target = spec_record_fields(record@);
        let mut attr_off = first_attr_off;
        while len > 4 && attr_off < len - 4
            invariant_except_break
                attr_off < len,
            invariant
                len == record@.len(),
                len >= 48,
                target == attr_walk(
                    record@,
                    attr_off as int,
                    MftFields {
                        file_name: opt_chars(&file_name),
                        file_size,
                        data_run_offset,
                        created_time,
                        modified_time,
                    },
                ),
            ensures
                target == (MftFields {
                    file_name: opt_chars(&file_name),
                    file_size,
                    data_run_offset,
                    created_time,
                    modified_time,
                }),
            decreases (if attr_off < len { len - attr_off } else { 0 }),
        {
            let ghost f = MftFields {
                file_name: opt_chars(&file_name),
                file_size,
                data_run_offset,
                created_time,
                modified_time,
            };
            let attr_type = read_u32(record, attr_off);
            if attr_type == 0xFFFF_FFFF {
                break;
            }
            if !(attr_off <= len - 8) {
                break;
            }
            let attr_len = read_u32(record, attr_off + 4) as usize;
            if attr_len == 0 || attr_len > len - attr_off {
                break;
            }
            if attr_type == 0x10 {
                if len - attr_off >= 40 {
                    let val_off = record[attr_off + 20] as usize;
                    if val_off <= len - attr_off && len - attr_off - val_off >= 16 {
                        let base = attr_off + val_off;
                        created_time = read_u64(record, base);
                        modified_time = read_u64(record, base + 8);
                    }
                }
            } else if attr_type == 0x30 {
                let attr = vstd::slice::slice_subrange(record, attr_off, attr_off + attr_len);
                match self.parse_filename_attr(attr) {
                    Some(name) => {
                        file_name = Some(name);
                    },
                    None => {},
                }
            } else if attr_type == 0x80 {
                if len - attr_off > 8 {
                    let non_resident = record[attr_off + 8];
                    if non_resident == 1 {
                        if len - attr_off >= 40 {
                            if len - attr_off >= 56 {
                                file_size = read_u64(record, attr_off + 48);
                            }
                            let run_rel = read_u16(record, attr_off + 32) as usize;
                            if run_rel < len - attr_off {
                                let run_off = attr_off + run_rel;
                                data_run_offset = read_first_run_lcn(record, run_off);
                            }
                        }
                    } else {
                        if len - attr_off >= 20 {
                            file_size = read_u32(record, attr_off + 16) as u64;
                        }
                    }
                }
            }
            let ghost f2 = MftFields {
                file_name: opt_chars(&file_name),
                file_size,
                data_run_offset,
                created_time,
                modified_time,
            };
            assert(attr_walk(record@, attr_off as int, f) == attr_walk(record@, (attr_off + attr_len) as int, f2));
            attr_off = attr_off + attr_len;
            if attr_off >= len {
                break;
            }
        }
        let hint = extension_hint(&file_name);
        Some(DeletedMftEntry {
            record_number: record_num,
            file_name,
            file_size,
            created_time,
            modified_time,
            data_run_offset,
            is_recoverable: data_run_offset > 0,
            file_type_hint: hint,
        })
    }
}


/// Whether some byte of `r` is not zero.
pub open spec fn has_residue(r: Seq<u8>) -> bool {
    exists|i: int| 0 <= i < r.len() && r[i] != 0
}

/// `e` is the placeholder entry of a wiped record `num`: no name, no size,
/// no times, not recoverable, hint "PARTIAL".
pub open spec fn is_partial_entry(e: &DeletedMftEntry, num: u64) -> bool {
    &&& e.record_number == num
    &&& e.file_name is None
    &&& e.file_size == 0
    &&& e.created_time == 0
    &&& e.modified_time == 0
    &&& e.data_run_offset == 0
    &&& !e.is_recoverable
    &&& e.file_type_hint@ == "PARTIAL"@
}

impl MftParser {
    /// A zeroed record (TRIM or secure delete) may still hold residual bytes;
    /// when any byte is non-zero the record is reported as a partial entry.
    pub fn attempt_partial_recovery(&self, record: &[u8], record_num: u64) -> (r: Option<DeletedMftEntry>)
        ensures
            match r {
                Some(e) => has_residue(record@) && is_partial_entry(&e, record_num),
                None => !has_residue(record@),
            },
    {
        let mut i: usize = 0;
        while i < record.len()
            invariant
                i <= record@.len(),
                forall|j: int| 0 <= j < i ==> record@[j] == 0,
            decreases record.len() - i,
        {
            if record[i] != 0 {
                proof {
                    reveal_strlit("PARTIAL");
                }
                return Some(DeletedMftEntry {
                    record_number: record_num,
                    file_name: None,
                    file_size: 0,
                    created_time: 0,
                    modified_time: 0,
                    data_run_offset: 0,
                    is_recoverable: false,
                    file_type_hint: String::from_str("PARTIAL"),
                });
            }
            i += 1;
        }
        None
    }
}

/// What a raw MFT record yields: a "FILE" record whose in-use flag (bit 0 of
/// the flags at byte 22) is clear is a deleted record; an all-zero signature
/// marks a wiped record, reported when residual bytes remain; anything else
/// yields nothing.
pub open spec fn record_kind_deleted(r: Seq<u8>) -> bool {
    bytes::occurs_at(r, file_signature(), 0) && (bytes::le16(r, 22) as u16) & 1 == 0
}

pub open spec fn record_kind_wiped(r: Seq<u8>) -> bool {
    r[0] == 0 && r[1] == 0 && r[2] == 0 && r[3] == 0
}

/// What classifying record number `k` with bytes `rec` gives: the entry of a
/// deleted record when it parses, the partial entry of a wiped record with
/// residue, and nothing for any other record.
pub open spec fn record_entry_ok(rec: Seq<u8>, k: u64, r: Option<DeletedMftEntry>) -> bool {
    &&& record_kind_deleted(rec) ==> match r {
        Some(e) => record_parsable(rec) && is_deleted_entry(&e, k, spec_record_fields(rec)),
        None => !record_parsable(rec),
    }
    &&& record_kind_wiped(rec) ==> match r {
        Some(e) => has_residue(rec) && is_partial_entry(&e, k),
        None => !has_residue(rec),
    }
    &&& !record_kind_deleted(rec) && !record_kind_wiped(rec) ==> r is None
}

/// Byte position of MFT record `k` for an MFT at `m` (1024 bytes per
/// record, wrapping at 2^64).
pub open spec fn mft_pos(m: u64, k: nat) -> u64
    decreases k,
{
    if k == 0 {
        m
    } else {
        mft_pos(m, (k - 1) as nat).wrapping_add(MFT_RECORD_SIZE)
    }
}

/// The entries of some classification outcomes, in order.
pub open spec fn somes(o: Seq<Option<DeletedMftEntry>>) -> Seq<DeletedMftEntry>
    decreases o.len(),
{
    if o.len() == 0 {
        Seq::empty()
    } else {
        match o.last() {
            Some(e) => somes(o.drop_last()).push(e),
            None => somes(o.drop_last()),
        }
    }
}

/// A walk of the MFT at `m`: the record reads (exact, 1024 bytes at
/// `mft_pos(m, k)`, each one the reader can give) go on while they succeed,
/// up to record number 10,000,000; `outcomes` classifies each record read.
pub open spec fn mft_walk_ok<R: BlockReader>(
    reader: &R,
    m: u64,
    reads: Seq<Option<Seq<u8>>>,
    outcomes: Seq<Option<DeletedMftEntry>>,
) -> bool {
    &&& 1 <= reads.len() <= MAX_MFT_RECORDS + 1
    &&& forall|k: int| 0 <= k < reads.len() ==> can_read_exact(reader, mft_pos(m, k as nat), MFT_RECORD_SIZE as usize, #[trigger] reads[k])
    &&& forall|k: int| 0 <= k < reads.len() - 1 ==> (#[trigger] reads[k]) is Some
    &&& reads.len() <= MAX_MFT_RECORDS ==> reads.last() is None
    &&& outcomes.len() == (if reads.last() is None { reads.len() - 1 } else { reads.len() as int })
    &&& forall|k: int| 0 <= k < outcomes.len() ==> record_entry_ok(reads[k]->0, k as u64, #[trigger] outcomes[k])
}

impl MftParser {
    /// Classifies one raw MFT record and extracts its entry when it is deleted
    /// or wiped.
    pub fn classify_record(&self, record: &[u8], record_num: u64) -> (r: Option<DeletedMftEntry>)
        requires
            record@.len() >= 24,
        ensures
            record_kind_deleted(record@) ==> match r {
                Some(e) => record_parsable(record@) && is_deleted_entry(&e, record_num, spec_record_fields(record@)),
                None => !record_parsable(record@),
            },
            record_kind_wiped(record@) ==> match r {
                Some(e) => has_residue(record@) && is_partial_entry(&e, record_num),
                None => !has_residue(record@),
            },
            !record_kind_deleted(record@) && !record_kind_wiped(record@) ==> r is None,
    {
        let sig: Vec<u8> = vec![0x46u8, 0x49, 0x4C, 0x45];
        assert(sig@ =~= file_signature());
        if matches_at(record, sig.as_slice(), 0) {
            let flags = read_u16(record, 22);
            if flags & 0x0001 == 0 {
                return self.parse_deleted_record(record, record_num);
            }
            assert(!record_kind_wiped(record@)) by {
                assert(record@.subrange(0, 4)[0] == 0x46);
            }
            return None;
        }
        if record[0] == 0 && record[1] == 0 && record[2] == 0 && record[3] == 0 {
            return self.attempt_partial_recovery(record, record_num);
        }
        None
    }
}

/// Parser of the MFT of one NTFS volume.
pub struct MftParser {
    device_path: String,
}

impl MftParser {
    /// The volume this parser reads.
    pub closed spec fn path(&self) -> Seq<char> {
        self.device_path@
    }

    pub fn new(device_path: String) -> (r: Self)
        ensures
            r.path() == device_path@,
    {
        Self { device_path }
    }

    /// Reads the boot sector and walks the MFT record by record (1024 bytes
    /// each) from its start, collecting deleted and wiped records, until a
    /// record cannot be read or record number 10,000,000 has been scanned.
    /// Fails when the boot sector cannot be read or is not NTFS.
    #[verifier::spinoff_prover]
    #[verifier::rlimit(80)]
    pub fn parse_deleted_entries<R: BlockReader>(&self, reader: &R) -> (r: Result<Vec<DeletedMftEntry>, MftError>)
        ensures
            exists|b: Option<Seq<u8>>| #[trigger] can_read_exact(reader, 0, 512, b) && match b {
                None => r matches Err(e) && e == MftError::BootSectorUnreadable,
                Some(sector) => if bytes::occurs_at(sector, ntfs_oem(), 3) {
                    r matches Ok(v) && exists|bpb: NtfsBpb, reads: Seq<Option<Seq<u8>>>, outcomes: Seq<Option<DeletedMftEntry>>|
                        #![trigger mft_walk_ok(reader, bpb.spec_mft_offset(), reads, outcomes)]
                        is_bpb_of(&bpb, sector) && mft_walk_ok(reader, bpb.spec_mft_offset(), reads, outcomes) && v@
                            == somes(outcomes)
                } else {
                    r matches Err(e) && e == MftError::NotNtfs
                },
            },
            r matches Ok(v) ==> {
                &&& v@.len() <= MAX_MFT_RECORDS + 1
                &&& forall|i: int, j: int| 0 <= i < j < v@.len() ==> v@[i].record_number < v@[j].record_number
                &&& forall|i: int| 0 <= i < v@.len() ==> #[trigger] v@[i].record_number <= MAX_MFT_RECORDS
            },
    {
        let boot = read_exact_at(reader, 0, 512);
        let ghost b = opt_bytes(boot);
        assert(can_read_exact(reader, 0, 512, b));
        let sector = match boot {
            Some(s) => s,
            None => return Err(MftError::BootSectorUnreadable),
        };
        let bpb = match parse_ntfs_bpb(sector.as_slice()) {
            Ok(b) => b,
            Err(e) => return Err(e),
        };
        let mft_offset = bpb.mft_offset();
        let mut entries: Vec<DeletedMftEntry> = Vec::new();
        let mut record_offset = mft_offset;
        let mut record_num: u64 = 0;
        let ghost mut reads: Seq<Option<Seq<u8>>> = Seq::empty();
        let ghost mut outcomes: Seq<Option<DeletedMftEntry>> = Seq::empty();
        loop
            invariant_except_break
                entries@.len() <= record_num,
                forall|i: int| 0 <= i < entries@.len() ==> #[trigger] entries@[i].record_number < record_num,
                reads.len() == record_num,
                outcomes.len() == record_num,
                forall|k: int| 0 <= k < reads.len() ==> (#[trigger] reads[k]) is Some,
                record_offset == mft_pos(mft_offset, record_num as nat),
            invariant
                record_num <= MAX_MFT_RECORDS,
                forall|i: int, j: int| 0 <= i < j < entries@.len() ==> entries@[i].record_number < entries@[j].record_number,
                forall|k: int| 0 <= k < reads.len() ==> can_read_exact(reader, mft_pos(mft_offset, k as nat), MFT_RECORD_SIZE as usize, #[trigger] reads[k]),
                forall|k: int| 0 <= k < outcomes.len() ==> record_entry_ok(reads[k]->0, k as u64, #[trigger] outcomes[k]),
                entries@ == somes(outcomes),
            ensures
                entries@.len() <= MAX_MFT_RECORDS + 1,
                forall|i: int, j: int| 0 <= i < j < entries@.len() ==> entries@[i].record_number < entries@[j].record_number,
                forall|i: int| 0 <= i < entries@.len() ==> #[trigger] entries@[i].record_number <= MAX_MFT_RECORDS,
                mft_walk_ok(reader, mft_offset, reads, outcomes),
                entries@ == somes(outcomes),
            decreases MAX_MFT_RECORDS - record_num,
        {
            let res = read_exact_at(reader, record_offset, MFT_RECORD_SIZE as usize);
            let ghost reads0 = reads;
            proof {
                reads = reads.push(opt_bytes(res));
                assert forall|k: int| 0 <= k < reads.len() implies can_read_exact(reader, mft_pos(mft_offset, k as nat), MFT_RECORD_SIZE as usize, #[trigger] reads[k]) by {
                    if k < reads0.len() {
                        assert(reads[k] == reads0[k]);
                    }
                }
                assert forall|k: int| 0 <= k < outcomes.len() implies record_entry_ok(reads[k]->0, k as u64, #[trigger] outcomes[k]) by {
                    assert(reads[k] == reads0[k]);
                }
                assert forall|k: int| 0 <= k < reads.len() - 1 implies (#[trigger] reads[k]) is Some by {
                    assert(reads[k] == reads0[k]);
                }
            }
            let record = match res {
                Some(b) => b,
                None => {
                    proof {
                        assert(mft_walk_ok(reader, mft_offset, reads, outcomes));
                    }
                    break;
                },
            };
            let outcome = self.classify_record(record.as_slice(), record_num);
            let ghost entries0 = entries@;
            let ghost outcomes0 = outcomes;
            proof {
                outcomes = outcomes.push(outcome);
                assert(outcomes.drop_last() =~= outcomes0);
                assert forall|k: int| 0 <= k < outcomes.len() implies record_entry_ok(reads[k]->0, k as u64, #[trigger] outcomes[k]) by {
                    if k < outcomes0.len() {
                        assert(outcomes[k] == outcomes0[k]);
                    }
                }
            }
            match outcome {
                Some(entry) => {
                    proof {
                        if record_kind_deleted(record@) {
                        } else if record_kind_wiped(record@) {
                        }
                        assert(entry.record_number == record_num);
                    }
                    entries.push(entry);
                },
                None => {},
            }
            record_offset = record_offset.wrapping_add(MFT_RECORD_SIZE);
            if record_num >= MAX_MFT_RECORDS {
                proof {
                    assert forall|k: int| 0 <= k < reads.len() implies (#[trigger] reads[k]) is Some by {
                        if k < reads0.len() {
                            assert(reads[k] == reads0[k]);
                        }
                    }
                    assert(mft_walk_ok(reader, mft_offset, reads, outcomes));
                }
                break;
            }
            record_num += 1;
            proof {
                assert forall|k: int| 0 <= k < reads.len() implies (#[trigger] reads[k]) is Some by {
                    if k < reads0.len() {
                        assert(reads[k] == reads0[k]);
                    }
                }
            }
        }
        proof {
            assert(bpb.spec_mft_offset() == mft_offset);
            assert(mft_walk_ok(reader, bpb.spec_mft_offset(), reads, outcomes));
        }
        Ok(entries)
    }
}

/// Scanner of SSD over-provisioning space.  Reading it needs vendor-specific
/// commands; the probe itself is device I/O.
pub struct OverProvisioningScanner;

/// The attribute walk reads past attributes it does not use: an attribute
/// whose type (4 bytes at its start) is none of $STANDARD_INFORMATION
/// (0x10), $FILE_NAME (0x30), $DATA (0x80) and the end marker, and whose
/// length (4 bytes after the type) is non-zero and fits in the record,
/// changes nothing, and the walk goes on right after it.
pub proof fn lemma_attr_walk_skips_other_attributes(r: Seq<u8>, off: int, f: MftFields)
    requires
        0 <= off,
        off + 8 <= r.len(),
        bytes::le32(r, off) != 0x10,
        bytes::le32(r, off) != 0x30,
        bytes::le32(r, off) != 0x80,
        bytes::le32(r, off) != 0xFFFF_FFFF,
        bytes::le32(r, off + 4) > 0,
        off + bytes::le32(r, off + 4) <= r.len(),
    ensures
        attr_walk(r, off, f) == attr_walk(r, off + bytes::le32(r, off + 4), f),
{
}

/// The walk stops at the end marker 0xFFFFFFFF: nothing after it counts.
pub proof fn lemma_attr_walk_ends_at_marker(r: Seq<u8>, off: int, f: MftFields)
    requires
        0 <= off,
        off + 4 < r.len(),
        bytes::le32(r, off) == 0xFFFF_FFFF,
    ensures
        attr_walk(r, off, f) == f,
{
}

/// How a record is classified by its first bytes: a record starting "FILE"
/// is deleted when bit 0 (in use) of the flags byte 22 is clear, and is
/// neither deleted nor wiped when that bit is set; an in-use record yields
/// no entry.
pub proof fn lemma_record_classes(rec: Seq<u8>, k: u64, out: Option<DeletedMftEntry>)
    requires
        rec.len() >= 24,
        rec[0] == 0x46,
        rec[1] == 0x49,
        rec[2] == 0x4C,
        rec[3] == 0x45,
    ensures
        rec[22] & 1 == 0 ==> record_kind_deleted(rec) && !record_kind_wiped(rec),
        rec[22] & 1 == 1 ==> !record_kind_deleted(rec) && !record_kind_wiped(rec),
        rec[22] & 1 == 1 && record_entry_ok(rec, k, out) ==> out is None,
{
    let lo = rec[22];
    let hi = rec[23];
    assert(((lo as int + hi as int * 0x100) as u16) & 1 == lo & 1) by (bit_vector);
    assert(rec.subrange(0, 4) =~= file_signature());
}

/// The first data run's cluster for the usual run headers: with a length
/// field of `ll` bytes (low nibble) and an LCN field of two or three bytes
/// (high nibble 2 or 3) that fits and is not negative, the LCN is the
/// little-endian value of the bytes right after the length field.
pub proof fn lemma_first_run_lcn_fields(r: Seq<u8>, p: int)
    requires
        0 <= p < r.len(),
    ensures
        r[p] / 16 == 2 && p + 1 + r[p] % 16 + 2 <= r.len() && r[p + 2 + r[p] % 16] < 0x80 ==> first_run_lcn(r, p)
            == r[p + 1 + r[p] % 16] + 256 * r[p + 2 + r[p] % 16],
        r[p] / 16 == 3 && p + 1 + r[p] % 16 + 3 <= r.len() && r[p + 3 + r[p] % 16] < 0x80 ==> first_run_lcn(r, p)
            == r[p + 1 + r[p] % 16] + 256 * r[p + 2 + r[p] % 16] + 65536 * r[p + 3 + r[p] % 16],
        r[p] / 16 == 0 ==> first_run_lcn(r, p) == 0,
{
    reveal_with_fuel(le_bytes, 4);
}

/// NTFS boot sectors and MFT records by their signatures: "NTFS    " at
/// byte 3 of the boot sector and "FILE" at the start of a record; the MFT
/// starts at its cluster number (8 bytes at 48) times the bytes per cluster
/// (bytes per sector at 11-12 times sectors per cluster at 13) when that
/// product fits in 64 bits.
pub proof fn lemma_ntfs_layout(bpb: NtfsBpb, s: Seq<u8>)
    requires
        s.len() >= 80,
        is_bpb_of(&bpb, s),
    ensures
        ntfs_oem() == seq![0x4Eu8, 0x54, 0x46, 0x53, 0x20, 0x20, 0x20, 0x20],
        file_signature() == seq![0x46u8, 0x49, 0x4C, 0x45],
        bpb.bytes_per_sector == s[11] + 256 * s[12],
        bpb.sectors_per_cluster == s[13],
        bpb.mft_cluster_number == bytes::le32(s, 48) + 0x1_0000_0000 * bytes::le32(s, 52),
        bpb.mft_cluster_number * (bpb.bytes_per_sector * bpb.sectors_per_cluster) <= u64::MAX ==> bpb.spec_mft_offset()
            == bpb.mft_cluster_number * (bpb.bytes_per_sector * bpb.sectors_per_cluster),
{
    assert(bpb.bytes_per_sector * bpb.sectors_per_cluster <= 0xFFFF * 0xFF) by (nonlinear_arith)
        requires bpb.bytes_per_sector <= 0xFFFF, bpb.sectors_per_cluster <= 0xFF;
}

/// Where a $FILE_NAME attribute keeps the name: its value starts at the
/// offset in byte 20; the name length in characters is value byte 64 and
/// the UTF-16 name itself starts at value byte 66.
pub proof fn lemma_filename_attr_layout(a: Seq<u8>)
    requires
        a.len() > 21,
        a[20] + 66 < a.len(),
        a[20] + 66 + 2 * a[a[20] + 64] <= a.len(),
    ensures
        filename_attr_units(a) == Some(
            Seq::new(
                a[a[20] + 64] as nat,
                |k: int| (a[a[20] + 66 + 2 * k] + 256 * a[a[20] + 67 + 2 * k]) as u16,
            ),
        ),
{
    let v = a[20] as int;
    let n = a[v + 64] as int;
    assert(utf16_units(a, v + 66, n) =~= Seq::new(
        n as nat,
        |k: int| (a[v + 66 + 2 * k] + 256 * a[v + 67 + 2 * k]) as u16,
    ));
}

/// What a $DATA attribute gives: a resident one (byte 8 is 0) its 4-byte
/// value length at byte 16 as the file size; a non-resident one (byte 8 is
/// 1) its 8-byte real size at byte 48 and, through the run list whose
/// offset is at byte 32, the first run's cluster.
pub proof fn lemma_data_attr_layout(r: Seq<u8>, off: int, f: MftFields)
    requires
        0 <= off,
        off + 56 <= r.len(),
    ensures
        r[off + 8] == 0 ==> data_step(r, off, f).file_size == bytes::le32(r, off + 16),
        r[off + 8] == 1 ==> data_step(r, off, f).file_size == bytes::le64(r, off + 48),
        r[off + 8] == 1 && off + r[off + 32] + 256 * r[off + 33] < r.len() ==> data_step(r, off, f).data_run_offset
            == first_run_lcn(r, off + r[off + 32] + 256 * r[off + 33]),
{
}

/// What a $STANDARD_INFORMATION attribute gives: the creation time is the
/// first 8 bytes of its value (whose offset is at byte 20) and the
/// modification time the next 8; the name, size and data run are kept.
pub proof fn lemma_std_info_layout(r: Seq<u8>, off: int, f: MftFields)
    requires
        0 <= off,
        off + 40 <= r.len(),
        off + r[off + 20] + 16 <= r.len(),
    ensures
        std_info_step(r, off, f).created_time == bytes::le64(r, off + r[off + 20]) as u64,
        std_info_step(r, off, f).modified_time == bytes::le64(r, off + r[off + 20] + 8) as u64,
        std_info_step(r, off, f).file_name == f.file_name,
        std_info_step(r, off, f).file_size == f.file_size,
        std_info_step(r, off, f).data_run_offset == f.data_run_offset,
{
}

} // verus!
