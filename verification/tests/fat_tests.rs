use aeon_recovery::device::BlockReader;
use aeon_recovery::fat::{
    build_83_name, detect_fs_type, exfat_cluster_offset, ext_to_filetype, fat32_cluster_offset,
    filetype_from_ext, is_previewable, parse_exfat_params, parse_fat32_params, reconstruct_lfn,
    FatCarver, FatScanError, FsType,
};
use aeon_recovery::types::FileType;

struct MemDevice {
    bytes: Vec<u8>,
}

impl BlockReader for MemDevice {
    fn read_at(&self, offset: u64, len: usize) -> Option<Vec<u8>> {
        let start = offset as usize;
        if start >= self.bytes.len() {
            return Some(Vec::new());
        }
        let end = std::cmp::min(self.bytes.len(), start + len);
        Some(self.bytes[start..end].to_vec())
    }
}

fn put16(b: &mut [u8], at: usize, v: u16) {
    b[at..at + 2].copy_from_slice(&v.to_le_bytes());
}

fn put32(b: &mut [u8], at: usize, v: u32) {
    b[at..at + 4].copy_from_slice(&v.to_le_bytes());
}

fn put64(b: &mut [u8], at: usize, v: u64) {
    b[at..at + 8].copy_from_slice(&v.to_le_bytes());
}

/// A FAT32 boot sector: 512-byte sectors, one sector per cluster, 32
/// reserved sectors, two FATs of one sector each, root at cluster 2.
fn fat32_boot() -> Vec<u8> {
    let mut b = vec![0u8; 512];
    put16(&mut b, 11, 512);
    b[13] = 1;
    put16(&mut b, 14, 32);
    b[16] = 2;
    put32(&mut b, 36, 1);
    put32(&mut b, 44, 2);
    b[82..90].copy_from_slice(b"FAT32   ");
    b
}

/// An LFN entry holding up to 13 characters of `name` from `from`.
fn lfn_entry(seq: u8, name: &str, from: usize) -> [u8; 32] {
    let units: Vec<u16> = name.encode_utf16().collect();
    let mut e = [0u8; 32];
    e[0] = seq;
    e[11] = 0x0F;
    let slots: Vec<usize> = (0..5).map(|i| 1 + 2 * i).chain((0..6).map(|i| 14 + 2 * i)).chain((0..2).map(|i| 28 + 2 * i)).collect();
    for (k, p) in slots.iter().enumerate() {
        let idx = from + k;
        let u: u16 = if idx < units.len() {
            units[idx]
        } else if idx == units.len() {
            0
        } else {
            0xFFFF
        };
        e[*p..*p + 2].copy_from_slice(&u.to_le_bytes());
    }
    e
}

fn short_entry(name83: &[u8; 11], attrs: u8, cluster: u32, size: u32) -> [u8; 32] {
    let mut e = [0u8; 32];
    e[0..11].copy_from_slice(name83);
    e[11] = attrs;
    put16(&mut e, 20, (cluster >> 16) as u16);
    put16(&mut e, 26, (cluster & 0xFFFF) as u16);
    put32(&mut e, 28, size);
    e
}

fn fat32_image() -> Vec<u8> {
    let mut img = vec![0u8; 32 * 1024];
    img[..512].copy_from_slice(&fat32_boot());
    // FAT[2]: end of chain.
    put32(&mut img, 32 * 512 + 8, 0x0FFF_FFFF);
    let root = (32 + 2) * 512;
    let entries = [
        lfn_entry(0xE5, "photo.jpg", 0),
        short_entry(b"\xE5HOTO   JPG", 0x20, 5, 1234),
        short_entry(b"\xE5EPORT  TXT", 0x20, 6, 0),
        short_entry(b"\xE5_______   ", 0x20, 7, 10),
        short_entry(b"LIVE    DOC", 0x20, 8, 10),
    ];
    for (k, e) in entries.iter().enumerate() {
        img[root + 32 * k..root + 32 * (k + 1)].copy_from_slice(e);
    }
    img
}

#[test]
fn fs_detection() {
    assert!(matches!(detect_fs_type(&fat32_boot()), FsType::Fat32));
    let mut ex = vec![0u8; 512];
    ex[3..11].copy_from_slice(b"EXFAT   ");
    assert!(matches!(detect_fs_type(&ex), FsType::ExFat));
    assert!(matches!(detect_fs_type(&[0u8; 89]), FsType::Unknown));
    assert!(matches!(detect_fs_type(&[0u8; 512]), FsType::Unknown));
    // FAT32 by its BPB alone: no FAT16 size, a FAT32 size, no root entries.
    let mut bpb = vec![0u8; 512];
    put32(&mut bpb, 36, 100);
    assert!(matches!(detect_fs_type(&bpb), FsType::Fat32));
}

#[test]
fn fat32_geometry() {
    let p = parse_fat32_params(&fat32_boot()).unwrap();
    assert_eq!((p.cluster_size, p.fat_start, p.data_start, p.root_cluster), (512, 16384, 17408, 2));
    assert_eq!(fat32_cluster_offset(2, &p), 17408);
    assert_eq!(fat32_cluster_offset(5, &p), 17408 + 3 * 512);
    let mut small = fat32_boot();
    put16(&mut small, 11, 256);
    assert!(parse_fat32_params(&small).is_none());
    assert!(parse_fat32_params(&[0u8; 79]).is_none());
}

#[test]
fn exfat_geometry() {
    let mut b = vec![0u8; 512];
    b[3..11].copy_from_slice(b"EXFAT   ");
    put32(&mut b, 80, 24);
    put32(&mut b, 88, 32);
    put32(&mut b, 96, 4);
    b[108] = 9;
    b[109] = 3;
    let p = parse_exfat_params(&b).unwrap();
    assert_eq!((p.cluster_size, p.fat_start, p.data_start, p.root_cluster), (4096, 12288, 16384, 4));
    assert_eq!(exfat_cluster_offset(3, &p), 16384 + 4096);
    b[108] = 13;
    assert!(parse_exfat_params(&b).is_none());
}

#[test]
fn long_and_short_names() {
    let e1 = lfn_entry(0x42, "a_rather_long_name.txt", 13);
    let e2 = lfn_entry(0x01, "a_rather_long_name.txt", 0);
    assert_eq!(reconstruct_lfn(&[e1, e2]), "a_rather_long_name.txt");
    assert_eq!(reconstruct_lfn(&[]), "");
    assert_eq!(build_83_name(&short_entry(b"\xE5HOTO   JPG", 0x20, 0, 0)), "_HOTO.JPG");
    assert_eq!(build_83_name(&short_entry(b"README     ", 0x20, 0, 0)), "README");
    assert_eq!(build_83_name(&short_entry(b"A       B  ", 0x20, 0, 0)), "A.B");
}

#[test]
fn types_from_extensions() {
    assert_eq!(ext_to_filetype("holiday.JPG").code(), FileType::JPEG.code());
    assert_eq!(ext_to_filetype("x.tar.GZ").display_name(), "GZ");
    assert_eq!(ext_to_filetype("noext").display_name(), "BIN");
    assert_eq!(ext_to_filetype("notes.Md").code(), FileType::TXT.code());
    assert_eq!(ext_to_filetype("db.db3").code(), FileType::SQLite.code());
    assert_eq!(filetype_from_ext("xyz").display_name(), "XYZ");
    assert_eq!(filetype_from_ext("").display_name(), "BIN");
    assert!(is_previewable(&FileType::GIF));
    assert!(!is_previewable(&FileType::PDF));
}

#[test]
fn ext_lookup_ignores_case() {
    for name in ["A.JPEG", "a.jpeg", "A.JpEg"] {
        assert_eq!(ext_to_filetype(name).code(), FileType::JPEG.code());
    }
    assert_eq!(ext_to_filetype("X.FOO").display_name(), ext_to_filetype("x.foo").display_name());
}

#[test]
fn fat32_volume_scan() {
    let dev = MemDevice { bytes: fat32_image() };
    let carver = FatCarver::new("vol".to_string());
    let found = carver.scan(&dev).unwrap();
    assert_eq!(found.len(), 2);
    let a = &found[0];
    assert_eq!(a.id, 0);
    assert_eq!(a.original_name.as_deref(), Some("photo.jpg"));
    assert_eq!(a.file_type.code(), FileType::JPEG.code());
    assert_eq!((a.offset_start, a.offset_end, a.size_bytes), (18944, 18944 + 1234, 1234));
    assert_eq!(a.recovery_percent, 72);
    assert_eq!(a.signature_matched, "FAT32_DIR");
    assert!(a.preview_available && !a.sector_overwritten);
    let b = &found[1];
    assert_eq!(b.id, 1);
    assert_eq!(b.original_name.as_deref(), Some("_EPORT.TXT"));
    assert_eq!(b.file_type.code(), FileType::TXT.code());
    assert_eq!((b.offset_start, b.offset_end, b.size_bytes), (19456, 19457, 0));
    assert_eq!(b.recovery_percent, 20);
    assert!(b.sector_overwritten);
}

#[test]
fn exfat_volume_scan() {
    let mut img = vec![0u8; 32 * 1024];
    img[3..11].copy_from_slice(b"EXFAT   ");
    put32(&mut img, 80, 24);
    put32(&mut img, 88, 32);
    put32(&mut img, 96, 4);
    img[108] = 9;
    img[109] = 0;
    put32(&mut img, 24 * 512 + 16, 0xFFFF_FFFF);
    let root = 32 * 512 + 2 * 512;
    img[root] = 0x05;
    img[root + 1] = 2;
    let s = root + 32;
    img[s] = 0x40;
    img[s + 3] = 7;
    put64(&mut img, s + 8, 300);
    put32(&mut img, s + 20, 10);
    put64(&mut img, s + 24, 512);
    let n = root + 64;
    img[n] = 0x41;
    for (k, u) in "pic.png".encode_utf16().enumerate() {
        put16(&mut img, n + 2 + 2 * k, u);
    }
    let dev = MemDevice { bytes: img };
    let found = FatCarver::new("vol".to_string()).scan(&dev).unwrap();
    assert_eq!(found.len(), 1);
    let f = &found[0];
    assert_eq!(f.original_name.as_deref(), Some("pic.png"));
    assert_eq!(f.file_type.code(), FileType::PNG.code());
    assert_eq!((f.offset_start, f.offset_end, f.size_bytes), (20480, 20780, 300));
    assert_eq!(f.signature_matched, "EXFAT_DIR");
}

#[test]
fn unknown_volumes_yield_nothing() {
    let dev = MemDevice { bytes: vec![0u8; 4096] };
    assert!(FatCarver::new("vol".to_string()).scan(&dev).unwrap().is_empty());
    let short = MemDevice { bytes: vec![0u8; 100] };
    assert!(matches!(FatCarver::new("vol".to_string()).scan(&short), Err(FatScanError::BootSectorUnreadable)));
}

#[test]
fn ext_trailing_dot_and_case() {
    assert_eq!(ext_to_filetype("archive.").display_name(), "BIN");
    assert_eq!(ext_to_filetype("backup.Gz").display_name(), "GZ");
    assert_eq!(ext_to_filetype("a.b.PNG").code(), FileType::PNG.code());
}

#[test]
fn lfn_decodes_pairs_and_replaces_lone_surrogates() {
    let mut e = lfn_entry(0x41, "", 0);
    // "a", U+1F600 as a surrogate pair, a lone trailing surrogate, "b".
    let units: [u16; 5] = [0x61, 0xD83D, 0xDE00, 0xDC00, 0x62];
    let slots = [1usize, 3, 5, 7, 9];
    for (u, p) in units.iter().zip(slots.iter()) {
        e[*p..*p + 2].copy_from_slice(&u.to_le_bytes());
    }
    e[14..16].copy_from_slice(&0u16.to_le_bytes());
    assert_eq!(reconstruct_lfn(&[e]), "a\u{1F600}\u{FFFD}b");
}
