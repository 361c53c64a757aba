use std::cell::RefCell;

use aeon_recovery::carver::{
    calculate_recovery_probability, contains_zero_run, dedup_records, detect_zip_subtype,
    find_file_end, find_signature_offsets, footer_step, FooterSearch, FooterStep, find_text_end, header_label, is_text_block,
    refine_zip_types, signature_hits, text_cut, verify_ok, zip_subtype, FileCarver, FragmentReassembler,
    ScanMonitor, BLOCK_SIZE,
};
use aeon_recovery::device::BlockReader;
use aeon_recovery::types::{FileSignature, FileType, RecoveredFile};

struct MemDevice {
    bytes: Vec<u8>,
}

impl BlockReader for MemDevice {
    fn read_at(&self, offset: u64, len: usize) -> Option<Vec<u8>> {
        let start = offset as usize;
        if start >= self.bytes.len() {
            return Some(Vec::new());
        }
        let end = std::cmp::min(self.bytes.len(), start + len);
        Some(self.bytes[start..end].to_vec())
    }
}

struct FailingDevice;

impl BlockReader for FailingDevice {
    fn read_at(&self, _offset: u64, _len: usize) -> Option<Vec<u8>> {
        None
    }
}

struct Recorder {
    progress: RefCell<Vec<(u64, u64, u64)>>,
    cancel: bool,
}

impl ScanMonitor for Recorder {
    fn cancelled(&self) -> bool {
        self.cancel
    }

    fn progress(&self, bytes_scanned: u64, total_bytes: u64, files_found: u64) {
        self.progress.borrow_mut().push((bytes_scanned, total_bytes, files_found));
    }
}

fn recorder() -> Recorder {
    Recorder { progress: RefCell::new(Vec::new()), cancel: false }
}

fn record(file_type: FileType, offset: u64) -> RecoveredFile {
    RecoveredFile {
        id: 99,
        file_type,
        offset_start: offset,
        offset_end: offset + 10,
        size_bytes: 10,
        recovery_percent: 95,
        signature_matched: "X".to_string(),
        is_fragmented: false,
        fragment_count: 1,
        sector_overwritten: false,
        preview_available: true,
        thumbnail_base64: None,
        original_name: None,
    }
}

#[test]
fn signature_offsets_all_in_order() {
    let hay = [1u8, 2, 1, 2, 1, 2, 3];
    assert_eq!(find_signature_offsets(&hay, &[1, 2]), vec![0, 2, 4]);
    assert_eq!(find_signature_offsets(&hay, &[2, 3]), vec![5]);
    assert_eq!(find_signature_offsets(&hay, &[]), Vec::<usize>::new());
    assert_eq!(find_signature_offsets(&[1, 2], &[1, 2, 3]), Vec::<usize>::new());
    assert_eq!(find_signature_offsets(&[7, 7, 7], &[7, 7]), vec![0, 1]);
}

#[test]
fn text_block_threshold_is_85_percent() {
    let mut block = vec![b'a'; 128];
    assert!(is_text_block(&block));
    for b in block.iter_mut().take(19) {
        *b = 0;
    }
    // 109 of 128 printable: 85.16%
    assert!(is_text_block(&block));
    block[19] = 0;
    // 108 of 128: 84.4%
    assert!(!is_text_block(&block));
    assert!(!is_text_block(&[]));
    // Only the first 128 bytes count.
    let mut long = vec![b'x'; 128];
    long.extend(vec![0u8; 400]);
    assert!(is_text_block(&long));
    assert!(is_text_block(b"\t\r\n hello"));
}

#[test]
fn text_cut_ends_after_last_printable() {
    let mut chunk = vec![b'a'; 10];
    chunk.extend(vec![0u8; 20]);
    assert_eq!(text_cut(&chunk), Some(10));
    assert_eq!(text_cut(&[b'a'; 30]), None);
    assert_eq!(text_cut(&[0u8; 8]), Some(0));
    // Exactly 60% printable goes on.
    let mut sixty = vec![b'a'; 6];
    sixty.extend(vec![0u8; 4]);
    assert_eq!(text_cut(&sixty), None);
}

#[test]
fn text_end_is_measured_in_chunks() {
    let mut bytes = vec![0u8; 20000];
    for b in bytes.iter_mut().skip(100).take(5000) {
        *b = b'q';
    }
    let dev = MemDevice { bytes };
    // First chunk [100, 4196) is all text; second [4196, 8292) holds 904 text bytes.
    assert_eq!(find_text_end(&dev, 100, 20000), 5100);
    // The end of the device stops the measure.
    assert_eq!(find_text_end(&dev, 100, 3000), 3000);
    // A failing read stops it where it is.
    assert_eq!(find_text_end(&FailingDevice, 100, 20000), 100);
}

#[test]
fn text_end_is_just_past_the_last_printable_byte() {
    let mut bytes = vec![0u8; 2500];
    for b in bytes.iter_mut().skip(100).take(1900) {
        *b = b'q';
    }
    let dev = MemDevice { bytes };
    // The chunk [100, 2500) is mostly text, so measuring reaches the limit;
    // the run still ends just past its last printable byte.
    assert_eq!(find_text_end(&dev, 100, 2500), 2000);
}

#[test]
fn zero_runs_of_a_sector() {
    assert!(contains_zero_run(&vec![0u8; 512]));
    assert!(!contains_zero_run(&vec![0u8; 511]));
    let mut v = vec![1u8; 1000];
    for b in v.iter_mut().skip(300).take(512) {
        *b = 0;
    }
    assert!(contains_zero_run(&v));
    v[500] = 9;
    assert!(!contains_zero_run(&v));
}

#[test]
fn file_end_by_footer_or_limit() {
    let mut bytes = vec![7u8; 4096];
    bytes[1000] = 0xFF;
    bytes[1001] = 0xD9;
    let dev = MemDevice { bytes };
    let footer = Some(vec![0xFFu8, 0xD9]);
    assert_eq!(find_file_end(&dev, 10, &footer, 100_000, 4096), (1002, false));
    // Without a footer: the size limit, or the end of the device.
    assert_eq!(find_file_end(&dev, 10, &None, 500, 4096), (510, false));
    assert_eq!(find_file_end(&dev, 10, &None, 100_000, 4096), (4096, false));
    // Footer missing: end of what was read, fragmented.
    let missing = Some(vec![0xAAu8, 0xBB]);
    assert_eq!(find_file_end(&dev, 10, &missing, 100_000, 4096), (4096, true));
}

#[test]
fn file_end_fragmentation_after_three_gaps() {
    // Blocks of 512 KiB: the first block (at the start) does not count;
    // blocks two to four each hold an erased sector.
    let total = 5 * BLOCK_SIZE;
    let mut bytes = vec![5u8; total];
    for blk in 1..4 {
        for b in bytes.iter_mut().skip(blk * BLOCK_SIZE + 4096).take(512) {
            *b = 0;
        }
    }
    bytes[4 * BLOCK_SIZE + 100] = 0xFF;
    bytes[4 * BLOCK_SIZE + 101] = 0xD9;
    let dev = MemDevice { bytes };
    let footer = Some(vec![0xFFu8, 0xD9]);
    let (end, frag) = find_file_end(&dev, 0, &footer, 100 * 1024 * 1024, total as u64);
    assert_eq!(end, (4 * BLOCK_SIZE + 102) as u64);
    assert!(frag);
    // With only two gaps it is not fragmented.
    let mut bytes2 = dev.bytes.clone();
    for b in bytes2.iter_mut().skip(3 * BLOCK_SIZE + 4096).take(512) {
        *b = 5;
    }
    let dev2 = MemDevice { bytes: bytes2 };
    let (end2, frag2) = find_file_end(&dev2, 0, &footer, 100 * 1024 * 1024, total as u64);
    assert_eq!(end2, (4 * BLOCK_SIZE + 102) as u64);
    assert!(!frag2);
}

#[test]
fn recovery_probability_values() {
    // 100 - 15 (first GiB) + 10 (small)
    assert_eq!(calculate_recovery_probability(0, 100, false), 95);
    // Clamped at 100.
    assert_eq!(calculate_recovery_probability(2 << 30, 100, false), 100);
    assert_eq!(calculate_recovery_probability(2 << 30, 10 << 20, false), 100);
    // 100 - 35 - 20 - 15
    assert_eq!(calculate_recovery_probability(0, 60 << 20, true), 30);
    assert_eq!(calculate_recovery_probability(2 << 30, 100 << 20, true), 45);
    assert_eq!(calculate_recovery_probability(0, 5000, true), 50);
}

#[test]
fn header_labels_as_hex_lists() {
    assert_eq!(header_label(&[0xFF, 0xD8, 0xFF]), "[FF, D8, FF]");
    assert_eq!(header_label(&[0x89, 0x50, 0x4E, 0x47, 0x0D]), "[89, 50, 4E, 47]");
    assert_eq!(header_label(&[0x0A]), "[0A]");
    assert_eq!(header_label(&[]), "[]");
}

#[test]
fn secondary_pattern_check() {
    let win = [0x52u8, 0x49, 0x46, 0x46, 0, 0, 0, 0, 0x41, 0x56, 0x49, 0x20];
    let avi = Some((8usize, vec![0x41u8, 0x56, 0x49, 0x20]));
    let wav = Some((8usize, vec![0x57u8, 0x41, 0x56, 0x45]));
    assert!(verify_ok(&win, 0, &avi));
    assert!(!verify_ok(&win, 0, &wav));
    assert!(verify_ok(&win, 0, &None));
    // Past the end of the window fails.
    assert!(!verify_ok(&win, 4, &avi));
}

#[test]
fn zip_subtypes_from_folder_names() {
    assert_eq!(zip_subtype(b"PK\x03\x04....word/document.xml").code(), FileType::DOCX.code());
    assert_eq!(zip_subtype(b"PK\x03\x04....xl/workbook.xml").code(), FileType::XLSX.code());
    assert_eq!(zip_subtype(b"PK\x03\x04....ppt/slides").code(), FileType::PPTX.code());
    assert_eq!(zip_subtype(b"PK\x03\x04....readme.txt").code(), FileType::ZIP.code());
    let mut bytes = vec![0u8; 4096];
    bytes[100..104].copy_from_slice(b"PK\x03\x04");
    bytes[140..143].copy_from_slice(b"xl/");
    let dev = MemDevice { bytes };
    assert_eq!(detect_zip_subtype(&dev, 100).code(), FileType::XLSX.code());
    // Only 2 KiB from the start are looked at.
    assert_eq!(detect_zip_subtype(&dev, 141).code(), FileType::ZIP.code());
    assert_eq!(detect_zip_subtype(&FailingDevice, 0).code(), FileType::ZIP.code());
}

#[test]
fn dedup_keeps_first_of_each_type_and_offset() {
    let recs = vec![
        record(FileType::JPEG, 0),
        record(FileType::PNG, 0),
        record(FileType::JPEG, 0),
        record(FileType::JPEG, 512),
        record(FileType::PNG, 0),
    ];
    let out = dedup_records(recs);
    assert_eq!(out.len(), 3);
    assert_eq!(out.iter().map(|f| f.id).collect::<Vec<_>>(), vec![0, 1, 2]);
    assert_eq!(out[0].file_type.code(), FileType::JPEG.code());
    assert_eq!(out[1].file_type.code(), FileType::PNG.code());
    assert_eq!(out[2].offset_start, 512);
}

#[test]
fn refinement_touches_only_docx() {
    let mut bytes = vec![0u8; 8192];
    bytes[1000..1004].copy_from_slice(b"PK\x03\x04");
    bytes[1040..1044].copy_from_slice(b"ppt/");
    let dev = MemDevice { bytes };
    let mut recs = vec![record(FileType::DOCX, 1000), record(FileType::PNG, 1000), record(FileType::DOCX, 5000)];
    refine_zip_types(&dev, &mut recs);
    assert_eq!(recs[0].file_type.code(), FileType::PPTX.code());
    assert_eq!(recs[1].file_type.code(), FileType::PNG.code());
    assert_eq!(recs[2].file_type.code(), FileType::ZIP.code());
    assert_eq!(recs[0].offset_start, 1000);
}

#[test]
fn active_signatures_follow_the_filter() {
    let all = FileCarver::new("dev".to_string(), None);
    assert_eq!(all.active_signatures().len(), FileSignature::all_signatures().len());
    let images = FileCarver::new("dev".to_string(), Some(vec![FileType::JPEG, FileType::TIFF]));
    let sigs = images.active_signatures();
    // One JPEG and two TIFF (both byte orders) signatures.
    assert_eq!(sigs.len(), 3);
    assert!(images.admits(&FileType::TIFF));
    assert!(!images.admits(&FileType::TXT));
}

fn sample_device() -> Vec<u8> {
    let mut bytes = vec![0u8; 64 * 1024];
    // A JPEG at 8 KiB, 102 bytes long.
    bytes[0x2000..0x2004].copy_from_slice(&[0xFF, 0xD8, 0xFF, 0xE0]);
    bytes[0x2064] = 0xFF;
    bytes[0x2065] = 0xD9;
    // 600 bytes of text at 16 KiB.
    for b in bytes.iter_mut().skip(0x4000).take(600) {
        *b = b'a';
    }
    // A PNG at 24 KiB.
    bytes[0x6000..0x6008].copy_from_slice(&[0x89, 0x50, 0x4E, 0x47, 0x0D, 0x0A, 0x1A, 0x0A]);
    bytes[0x6100..0x6108].copy_from_slice(&[0x49, 0x45, 0x4E, 0x44, 0xAE, 0x42, 0x60, 0x82]);
    bytes
}

#[test]
fn scan_finds_signatures_and_text() {
    let dev = MemDevice { bytes: sample_device() };
    let carver = FileCarver::new("dev".to_string(), None);
    let mon = recorder();
    let found = carver.scan(&dev, &mon, 64 * 1024);
    assert_eq!(found.len(), 3);
    let jpeg = &found[0];
    assert_eq!(jpeg.id, 0);
    assert_eq!(jpeg.file_type.code(), FileType::JPEG.code());
    assert_eq!((jpeg.offset_start, jpeg.offset_end, jpeg.size_bytes), (0x2000, 0x2066, 0x66));
    assert_eq!(jpeg.signature_matched, "[FF, D8, FF]");
    assert_eq!(jpeg.recovery_percent, 95);
    assert!(jpeg.preview_available && !jpeg.is_fragmented && !jpeg.sector_overwritten);
    let png = &found[1];
    assert_eq!(png.file_type.code(), FileType::PNG.code());
    assert_eq!((png.offset_start, png.offset_end), (0x6000, 0x6108));
    assert_eq!(png.signature_matched, "[89, 50, 4E, 47]");
    let txt = &found[2];
    assert_eq!(txt.id, 2);
    assert_eq!(txt.file_type.code(), FileType::TXT.code());
    assert_eq!((txt.offset_start, txt.offset_end, txt.size_bytes), (0x4000, 0x4000 + 600, 600));
    assert_eq!(txt.signature_matched, "TEXT");
    assert_eq!(mon.progress.borrow().as_slice(), &[(65536, 65536, 3)]);
}

#[test]
fn scan_under_a_filter() {
    let dev = MemDevice { bytes: sample_device() };
    let carver = FileCarver::new("dev".to_string(), Some(vec![FileType::PNG]));
    let found = carver.scan(&dev, &recorder(), 64 * 1024);
    assert_eq!(found.len(), 1);
    assert_eq!(found[0].file_type.code(), FileType::PNG.code());
    assert_eq!(found[0].id, 0);
}

#[test]
fn scan_reports_a_match_in_the_overlap_once() {
    // A JPEG header just before the end of the first block is seen in both
    // windows; the scan keeps one record.
    let total = BLOCK_SIZE + 4096;
    let mut bytes = vec![0u8; total];
    let at = BLOCK_SIZE - 10;
    bytes[at..at + 3].copy_from_slice(&[0xFF, 0xD8, 0xFF]);
    bytes[at + 200] = 0xFF;
    bytes[at + 201] = 0xD9;
    let dev = MemDevice { bytes };
    let carver = FileCarver::new("dev".to_string(), Some(vec![FileType::JPEG]));
    let found = carver.scan(&dev, &recorder(), total as u64);
    assert_eq!(found.len(), 1);
    assert_eq!(found[0].offset_start, at as u64);
    assert_eq!(found[0].offset_end, (at + 202) as u64);
}

#[test]
fn cancelled_scan_finds_nothing() {
    let dev = MemDevice { bytes: sample_device() };
    let carver = FileCarver::new("dev".to_string(), None);
    let mon = Recorder { progress: RefCell::new(Vec::new()), cancel: true };
    assert!(carver.scan(&dev, &mon, 64 * 1024).is_empty());
    assert!(mon.progress.borrow().is_empty());
}

#[test]
fn zip_match_is_refined_after_scan() {
    let mut bytes = vec![0u8; 16 * 1024];
    bytes[0x1000..0x1004].copy_from_slice(b"PK\x03\x04");
    bytes[0x1020..0x1025].copy_from_slice(b"word/");
    bytes[0x1800..0x1804].copy_from_slice(b"PK\x05\x06");
    let dev = MemDevice { bytes };
    let carver = FileCarver::new("dev".to_string(), Some(vec![FileType::DOCX]));
    let found = carver.scan(&dev, &recorder(), 16 * 1024);
    assert_eq!(found.len(), 1);
    assert_eq!(found[0].file_type.code(), FileType::DOCX.code());
    assert_eq!(found[0].offset_end, 0x1804);
}

#[test]
fn fragments_joined_in_order() {
    let bytes: Vec<u8> = (0..100u8).collect();
    let dev = MemDevice { bytes };
    let out = FragmentReassembler::reassemble(&dev, &[(10, 3), (50, 2), (0, 1)]).unwrap();
    assert_eq!(out, vec![10, 11, 12, 50, 51, 0]);
    assert!(FragmentReassembler::reassemble(&dev, &[(98, 5)]).is_none());
    assert!(FragmentReassembler::reassemble(&FailingDevice, &[(0, 1)]).is_none());
    assert_eq!(FragmentReassembler::reassemble(&dev, &[]).unwrap(), Vec::<u8>::new());
}

#[test]
fn footer_step_outcomes() {
    let st = FooterSearch { pos: 1000, gaps: 2, fragmented: false };
    match footer_step(0, st, &[1, 2, 0xFF, 0xD9, 0xFF, 0xD9], &[0xFF, 0xD9]) {
        FooterStep::Found { end, fragmented } => assert_eq!((end, fragmented), (1004, false)),
        FooterStep::Continue(_) => panic!("footer not found"),
    }
    // A third gap makes the file fragmented.
    let mut block = vec![0u8; 600];
    block.extend_from_slice(&[0xFF, 0xD9]);
    let st = FooterSearch { pos: 4096, gaps: 2, fragmented: false };
    match footer_step(0, st, &block, &[0xFF, 0xD9]) {
        FooterStep::Found { end, fragmented } => assert_eq!((end, fragmented), (4096 + 602, true)),
        FooterStep::Continue(_) => panic!("footer not found"),
    }
    // Within the first sector an erased block is no gap.
    let st = FooterSearch { pos: 100, gaps: 2, fragmented: false };
    match footer_step(0, st, &vec![0u8; 600], &[0xFF, 0xD9]) {
        FooterStep::Continue(next) => {
            assert_eq!((next.pos, next.gaps, next.fragmented), (700, 2, false));
        },
        FooterStep::Found { .. } => panic!("no footer here"),
    }
}

#[test]
fn window_hits_signature_by_signature() {
    let sigs = FileSignature::all_signatures();
    let mut w = vec![0u8; 200];
    w[10..13].copy_from_slice(&[0xFF, 0xD8, 0xFF]);
    w[50..53].copy_from_slice(&[0xFF, 0xD8, 0xFF]);
    // RIFF....AVI  at 100, RIFF....WAVE at 150, RIFF with neither at 180.
    w[100..104].copy_from_slice(b"RIFF");
    w[108..112].copy_from_slice(b"AVI ");
    w[150..154].copy_from_slice(b"RIFF");
    w[158..162].copy_from_slice(b"WAVE");
    w[180..184].copy_from_slice(b"RIFF");
    let hits = signature_hits(&w, &sigs);
    let named: Vec<(u8, usize)> = hits.iter().map(|(k, p)| (sigs[*k].file_type.code(), *p)).collect();
    assert_eq!(named, vec![
        (FileType::JPEG.code(), 10),
        (FileType::JPEG.code(), 50),
        (FileType::AVI.code(), 100),
        (FileType::WAV.code(), 150),
    ]);
}

#[test]
fn scan_finds_a_header_cut_by_a_block_boundary() {
    // The PNG header starts 3 bytes before the end of the first block and
    // ends in the second: only the second window holds it whole.
    let total = BLOCK_SIZE + 4096;
    let mut bytes = vec![0u8; total];
    let at = BLOCK_SIZE - 3;
    bytes[at..at + 8].copy_from_slice(&[0x89, 0x50, 0x4E, 0x47, 0x0D, 0x0A, 0x1A, 0x0A]);
    let dev = MemDevice { bytes };
    let carver = FileCarver::new("dev".to_string(), Some(vec![FileType::PNG]));
    let found = carver.scan(&dev, &recorder(), total as u64);
    assert_eq!(found.len(), 1);
    assert_eq!(found[0].offset_start, at as u64);
    assert_eq!(found[0].file_type.code(), FileType::PNG.code());
}
