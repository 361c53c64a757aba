use aeon_recovery::device::BlockReader;
use aeon_recovery::mft::{parse_ntfs_bpb, MftError, MftParser, MFT_RECORD_SIZE};

struct MemDevice {
    bytes: Vec<u8>,
}

impl BlockReader for MemDevice {
    fn read_at(&self, offset: u64, len: usize) -> Option<Vec<u8>> {
        let start = offset as usize;
        if start >= self.bytes.len() {
            return Some(Vec::new());
        }
        let end = std::cmp::min(self.bytes.len(), start + len);
        Some(self.bytes[start..end].to_vec())
    }
}

fn put16(b: &mut [u8], at: usize, v: u16) {
    b[at..at + 2].copy_from_slice(&v.to_le_bytes());
}

fn put32(b: &mut [u8], at: usize, v: u32) {
    b[at..at + 4].copy_from_slice(&v.to_le_bytes());
}

fn put64(b: &mut [u8], at: usize, v: u64) {
    b[at..at + 8].copy_from_slice(&v.to_le_bytes());
}

fn ntfs_boot() -> Vec<u8> {
    let mut b = vec![0u8; 512];
    b[3..11].copy_from_slice(b"NTFS    ");
    put16(&mut b, 11, 512);
    b[13] = 8;
    put64(&mut b, 40, 123456);
    put64(&mut b, 48, 4);
    put64(&mut b, 56, 99);
    b[64] = 0xF6;
    put64(&mut b, 72, 0xABCD);
    b
}

/// A deleted record with $STANDARD_INFORMATION, $FILE_NAME "report.pdf"
/// and a non-resident $DATA attribute.
fn deleted_record() -> Vec<u8> {
    let mut r = vec![0u8; 1024];
    r[0..4].copy_from_slice(b"FILE");
    put16(&mut r, 20, 56);
    put16(&mut r, 22, 0);
    // $STANDARD_INFORMATION at 56, 96 bytes, value at +24.
    put32(&mut r, 56, 0x10);
    put32(&mut r, 60, 96);
    r[56 + 20] = 24;
    put64(&mut r, 80, 1111);
    put64(&mut r, 88, 2222);
    // $FILE_NAME at 152, 112 bytes, value at +24.
    let a = 152;
    put32(&mut r, a, 0x30);
    put32(&mut r, a + 4, 112);
    r[a + 20] = 24;
    r[a + 24 + 64] = 10;
    for (k, u) in "report.pdf".encode_utf16().enumerate() {
        put16(&mut r, a + 24 + 66 + 2 * k, u);
    }
    // $DATA at 264, non-resident, run list at +64, real size 5000.
    let d = 264;
    put32(&mut r, d, 0x80);
    put32(&mut r, d + 4, 72);
    r[d + 8] = 1;
    r[d + 32] = 64;
    put64(&mut r, d + 48, 5000);
    // First run: 16 clusters at LCN 0x1234.
    r[d + 64] = 0x21;
    r[d + 65] = 0x10;
    r[d + 66] = 0x34;
    r[d + 67] = 0x12;
    put32(&mut r, 336, 0xFFFF_FFFF);
    r
}

#[test]
fn boot_sector_fields() {
    let bpb = parse_ntfs_bpb(&ntfs_boot()).unwrap();
    assert_eq!(bpb.bytes_per_sector, 512);
    assert_eq!(bpb.sectors_per_cluster, 8);
    assert_eq!(bpb.total_sectors, 123456);
    assert_eq!(bpb.mft_cluster_number, 4);
    assert_eq!(bpb.mft_mirror_cluster, 99);
    assert_eq!(bpb.clusters_per_mft_record, -10);
    assert_eq!(bpb.volume_serial_number, 0xABCD);
    assert_eq!(bpb.mft_offset(), 4 * 4096);
    assert_eq!(parse_ntfs_bpb(&[0u8; 512]).err(), Some(MftError::NotNtfs));
}

#[test]
fn deleted_record_fields() {
    let parser = MftParser::new("vol".to_string());
    let e = parser.parse_deleted_record(&deleted_record(), 42).unwrap();
    assert_eq!(e.record_number, 42);
    assert_eq!(e.file_name.as_deref(), Some("report.pdf"));
    assert_eq!(e.file_size, 5000);
    assert_eq!((e.created_time, e.modified_time), (1111, 2222));
    assert_eq!(e.data_run_offset, 0x1234);
    assert!(e.is_recoverable);
    assert_eq!(e.file_type_hint, "PDF");
    assert!(parser.parse_deleted_record(&[0u8; 40], 1).is_none());
}

#[test]
fn record_without_name_or_with_resident_data() {
    let parser = MftParser::new("vol".to_string());
    let mut r = vec![0u8; 1024];
    r[0..4].copy_from_slice(b"FILE");
    put16(&mut r, 20, 56);
    put32(&mut r, 56, 0x80);
    put32(&mut r, 60, 40);
    r[64] = 0;
    put32(&mut r, 72, 777);
    put32(&mut r, 96, 0xFFFF_FFFF);
    let e = parser.parse_deleted_record(&r, 3).unwrap();
    assert_eq!(e.file_name, None);
    assert_eq!(e.file_size, 777);
    assert!(!e.is_recoverable);
    assert_eq!(e.file_type_hint, "UNKNOWN");
}

#[test]
fn file_name_attribute() {
    let parser = MftParser::new("vol".to_string());
    let r = deleted_record();
    assert_eq!(parser.parse_filename_attr(&r[152..264]).as_deref(), Some("report.pdf"));
    assert_eq!(parser.parse_filename_attr(&r[152..158]), None);
    // An unpaired surrogate is not a name.
    let mut bad = r[152..264].to_vec();
    put16(&mut bad, 24 + 66, 0xD800);
    assert_eq!(parser.parse_filename_attr(&bad), None);
}

#[test]
fn partial_records() {
    let parser = MftParser::new("vol".to_string());
    assert!(parser.attempt_partial_recovery(&[0u8; 1024], 5).is_none());
    let mut r = vec![0u8; 1024];
    r[700] = 3;
    let e = parser.attempt_partial_recovery(&r, 5).unwrap();
    assert_eq!(e.record_number, 5);
    assert_eq!(e.file_type_hint, "PARTIAL");
    assert!(!e.is_recoverable);
}

#[test]
fn mft_walk_collects_deleted_and_wiped_records() {
    let mft = 4 * 4096;
    let mut img = vec![0u8; mft + 4 * MFT_RECORD_SIZE as usize];
    img[..512].copy_from_slice(&ntfs_boot());
    img[mft..mft + 1024].copy_from_slice(&deleted_record());
    // Record 1 is in use.
    let mut live = deleted_record();
    put16(&mut live, 22, 1);
    img[mft + 1024..mft + 2048].copy_from_slice(&live);
    // Record 2 is wiped but holds residue; record 3 is blank.
    img[mft + 2048 + 600] = 9;
    let dev = MemDevice { bytes: img };
    let found = MftParser::new("vol".to_string()).parse_deleted_entries(&dev).unwrap();
    assert_eq!(found.len(), 2);
    assert_eq!(found[0].record_number, 0);
    assert_eq!(found[0].file_name.as_deref(), Some("report.pdf"));
    assert_eq!(found[1].record_number, 2);
    assert_eq!(found[1].file_type_hint, "PARTIAL");
}

#[test]
fn mft_walk_errors() {
    let parser = MftParser::new("vol".to_string());
    let short = MemDevice { bytes: vec![0u8; 100] };
    assert_eq!(parser.parse_deleted_entries(&short).err(), Some(MftError::BootSectorUnreadable));
    let blank = MemDevice { bytes: vec![0u8; 4096] };
    assert_eq!(parser.parse_deleted_entries(&blank).err(), Some(MftError::NotNtfs));
}

#[test]
fn sparse_or_negative_first_run_is_not_recoverable() {
    let parser = MftParser::new("vol".to_string());
    let mut r = deleted_record();
    r[264 + 64] = 0x01; // no LCN field: a sparse run
    let e = parser.parse_deleted_record(&r, 7).unwrap();
    assert_eq!(e.data_run_offset, 0);
    assert!(!e.is_recoverable);
    let mut r = deleted_record();
    r[264 + 67] = 0xF2; // sign bit set: a negative LCN
    let e = parser.parse_deleted_record(&r, 7).unwrap();
    assert_eq!(e.data_run_offset, 0);
    assert!(!e.is_recoverable);
}
