use aeon_recovery::recovery::{
    batch_dest_path, batch_file_name, capped_read_size, find_by_id, merge_scan_results,
    preview_from_encoded, preview_mime, preview_payload, resolve_allowed_types, type_named,
    unique_entry_name, validate_bytes, zip_entry_name, zip_file_name, PREVIEW_READ_CAP,
    RECOVER_READ_CAP,
};
use aeon_recovery::types::{FileType, RecoveredFile};

fn codes(v: &Option<Vec<FileType>>) -> Option<Vec<u8>> {
    v.as_ref().map(|l| l.iter().map(|t| t.code()).collect())
}

fn rec(id: u64, file_type: FileType, offset: u64, name: Option<&str>) -> RecoveredFile {
    RecoveredFile {
        id,
        file_type,
        offset_start: offset,
        offset_end: offset + 100,
        size_bytes: 100,
        recovery_percent: 72,
        signature_matched: "FAT32_DIR".to_string(),
        is_fragmented: false,
        fragment_count: 1,
        sector_overwritten: false,
        preview_available: false,
        thumbnail_base64: None,
        original_name: name.map(|s| s.to_string()),
    }
}

#[test]
fn profiles_resolve_to_filters() {
    assert!(resolve_allowed_types("full", &[]).is_none());
    assert!(resolve_allowed_types("anything", &["JPEG".to_string()]).is_none());
    let fast = resolve_allowed_types("fast", &[]);
    assert_eq!(codes(&fast), Some(vec![0, 1, 2, 3, 4, 5, 6, 7, 8, 9, 21]));
    // "custom" without types scans everything.
    assert!(resolve_allowed_types("custom", &[]).is_none());
    let custom = resolve_allowed_types(
        "custom",
        &["PNG".to_string(), "bogus".to_string(), "SevenZ".to_string(), "7Z".to_string()],
    );
    assert_eq!(codes(&custom), Some(vec![1, 12]));
    // Nothing recognised still restricts the scan (to nothing).
    assert_eq!(codes(&resolve_allowed_types("custom", &["nope".to_string()])), Some(vec![]));
}

#[test]
fn custom_type_names() {
    assert_eq!(type_named("SQLite").map(|t| t.code()), Some(20));
    assert_eq!(type_named("MP3").map(|t| t.code()), Some(17));
    assert!(type_named("jpeg").is_none());
}

#[test]
fn validation_of_empty_and_zeroed_data() {
    let v = validate_bytes(&[], "JPEG");
    assert!(!v.is_valid);
    assert_eq!((v.confidence_percent, v.details.as_str()), (0, "Empty data"));
    let z = validate_bytes(&[0, 0, 0], "PNG");
    assert!(!z.is_valid);
    assert_eq!((z.confidence_percent, z.details.as_str()), (0, "Overwritten (all zeros)"));
}

#[test]
fn validation_of_jpeg() {
    let full = validate_bytes(&[0xFF, 0xD8, 0xFF, 0xE0, 1, 2, 0xFF, 0xD9], "JPEG");
    assert!(full.is_valid);
    assert_eq!((full.confidence_percent, full.details.as_str()), (95, "Valid JPEG (SOI + EOI)"));
    let part = validate_bytes(&[0xFF, 0xD8, 0xFF, 0xE0, 1, 2], "JPEG");
    assert!(part.is_valid);
    assert_eq!((part.confidence_percent, part.details.as_str()), (60, "Partial JPEG \u{2013} truncated (no EOI)"));
    let bad = validate_bytes(&[1, 2, 0xFF, 0xD9], "JPEG");
    assert!(!bad.is_valid);
    assert_eq!((bad.confidence_percent, bad.details.as_str()), (10, "Invalid JPEG header"));
}

#[test]
fn validation_of_png_pdf_zip() {
    let mut png = vec![0x89, 0x50, 0x4E, 0x47, 0x0D, 0x0A, 0x1A, 0x0A, 0, 0];
    let p = validate_bytes(&png, "PNG");
    assert_eq!((p.is_valid, p.confidence_percent, p.details.as_str()), (true, 65, "Partial PNG \u{2013} truncated"));
    png.extend_from_slice(b"IEND");
    let p2 = validate_bytes(&png, "PNG");
    assert_eq!((p2.is_valid, p2.confidence_percent, p2.details.as_str()), (true, 97, "Valid PNG (signature + IEND)"));
    let p3 = validate_bytes(b"IEND", "PNG");
    assert_eq!((p3.is_valid, p3.confidence_percent, p3.details.as_str()), (false, 10, "Invalid PNG"));

    let pdf = validate_bytes(b"%PDF-1.4 ... %%EOF", "PDF");
    assert_eq!((pdf.is_valid, pdf.confidence_percent, pdf.details.as_str()), (true, 92, "Valid PDF"));
    let pdf2 = validate_bytes(b"%PDF-1.4 ...", "PDF");
    assert_eq!((pdf2.is_valid, pdf2.confidence_percent), (true, 55));
    let pdf3 = validate_bytes(b"PDF", "PDF");
    assert_eq!((pdf3.is_valid, pdf3.details.as_str()), (false, "Invalid PDF"));

    for t in ["DOCX", "XLSX", "PPTX", "ZIP"] {
        let z = validate_bytes(b"PK\x03\x04....PK\x05\x06", t);
        assert_eq!((z.is_valid, z.confidence_percent, z.details.as_str()), (true, 93, "Valid ZIP/Office archive"));
    }
    let z2 = validate_bytes(b"PK\x03\x04....", "ZIP");
    assert_eq!((z2.confidence_percent, z2.details.as_str()), (60, "Partial ZIP \u{2013} truncated"));
    let z3 = validate_bytes(b"xx", "ZIP");
    assert_eq!((z3.is_valid, z3.confidence_percent, z3.details.as_str()), (false, 10, "Invalid ZIP header"));
}

#[test]
fn validation_of_text() {
    let all = validate_bytes(b"hello world\n", "TXT");
    assert_eq!((all.is_valid, all.confidence_percent, all.details.as_str()), (true, 100, "100% printable ASCII"));
    // 90 of 100 printable.
    let mut d = vec![b'a'; 90];
    d.extend(vec![1u8; 10]);
    let v = validate_bytes(&d, "TXT");
    assert_eq!((v.is_valid, v.confidence_percent, v.details.as_str()), (true, 90, "90% printable ASCII"));
    // 85 of 100 is the threshold.
    let mut e = vec![b'a'; 85];
    e.extend(vec![1u8; 15]);
    assert!(validate_bytes(&e, "TXT").is_valid);
    // 53 of 100 reads as 52% (single precision).
    let mut f = vec![b'a'; 53];
    f.extend(vec![1u8; 47]);
    let w = validate_bytes(&f, "TXT");
    assert_eq!((w.is_valid, w.confidence_percent, w.details.as_str()), (false, 20, "Only 52% printable ASCII"));
    // Only the first 1024 bytes count.
    let mut g = vec![b'a'; 1024];
    g.extend(vec![1u8; 4000]);
    assert_eq!(validate_bytes(&g, "TXT").confidence_percent, 100);
}

#[test]
fn validation_of_other_types() {
    let v = validate_bytes(&[1, 2, 3], "MP3");
    assert_eq!((v.is_valid, v.confidence_percent, v.details.as_str()), (true, 50, "Signature match only"));
}

#[test]
fn preview_payload_is_mime_and_base64() {
    assert_eq!(preview_payload("TXT", b"hello"), "text/plain:aGVsbG8=");
    assert_eq!(preview_payload("PNG", &[0x89, 0x50, 0x4E, 0x47]), "image/png:iVBORw==");
    assert_eq!(preview_payload("MP4", &[]), "application/octet-stream:");
    assert_eq!(preview_from_encoded("JPEG", "AAAA"), "image/jpeg:AAAA");
    assert_eq!(preview_mime("TIFF"), "image/tiff");
    assert_eq!(preview_mime("GIF"), "image/gif");
    assert_eq!(preview_mime("BMP"), "image/bmp");
}

#[test]
fn read_caps() {
    assert_eq!(capped_read_size(100, PREVIEW_READ_CAP), 100);
    assert_eq!(capped_read_size(u64::MAX, PREVIEW_READ_CAP), 5 * 1024 * 1024);
    assert_eq!(capped_read_size(600 << 20, RECOVER_READ_CAP), 500 * 1024 * 1024);
}

#[test]
fn file_names_of_recovered_files() {
    assert_eq!(batch_file_name(&rec(7, FileType::JPEG, 0, None)), "recovered_JPEG_7.jpeg");
    assert_eq!(batch_file_name(&rec(3, FileType::SevenZ, 0, None)), "recovered_7Z_3.7z");
    assert_eq!(batch_file_name(&rec(12, FileType::SQLite, 0, None)), "recovered_SQLite_12.sqlite");
    assert_eq!(batch_file_name(&rec(1, FileType::JPEG, 0, Some("cat.jpg"))), "cat.jpg");
    assert_eq!(zip_file_name(&rec(7, FileType::JPEG, 0, None)), "recovered_JPEG_7.jpeg");
    assert_eq!(zip_file_name(&rec(3, FileType::SevenZ, 0, None)), "recovered_7Z_3.7z");
    assert_eq!(zip_file_name(&rec(5, FileType::MP4, 0, Some("a.mp4"))), "a.mp4");
}

#[test]
fn zip_entry_names_are_numbered() {
    assert_eq!(zip_entry_name("photo.jpg", 0), "photo.jpg");
    assert_eq!(zip_entry_name("photo.jpg", 3), "photo_3.jpg");
    assert_eq!(zip_entry_name("archive.tar.gz", 12), "archive.tar_12.gz");
    assert_eq!(zip_entry_name("README", 1), "README_1");
}

#[test]
fn destination_paths() {
    assert_eq!(batch_dest_path("/tmp/out//", "a.jpg"), "/tmp/out/a.jpg");
    assert_eq!(batch_dest_path("C:\\out\\", "a.jpg"), "C:\\out/a.jpg");
    assert_eq!(batch_dest_path("out", "b"), "out/b");
    assert_eq!(batch_dest_path("///", "b"), "/b");
}

#[test]
fn lookup_by_id() {
    let v = vec![rec(4, FileType::PNG, 0, None), rec(9, FileType::PNG, 0, None), rec(4, FileType::GIF, 0, None)];
    assert_eq!(find_by_id(&v, 4), Some(0));
    assert_eq!(find_by_id(&v, 9), Some(1));
    assert_eq!(find_by_id(&v, 5), None);
}

#[test]
fn merge_prefers_directory_entries() {
    let fat = vec![
        rec(0, FileType::JPEG, 4096, Some("a.jpg")),
        rec(1, FileType::Unknown("XYZ".to_string()), 8192, Some("b.xyz")),
        rec(2, FileType::PDF, 16384, Some("c.pdf")),
    ];
    let sig = vec![
        rec(0, FileType::JPEG, 4096 + 100, None),
        rec(1, FileType::PNG, 4096, None),
        rec(2, FileType::PDF, 16384, None),
        rec(3, FileType::JPEG, 9000, None),
    ];
    let allowed = Some(vec![FileType::JPEG, FileType::PNG]);
    let merged = merge_scan_results(fat, &allowed, sig);
    // The PDF and unknown directory entries fall to the filter; the JPEG in
    // the same sector as the kept directory JPEG is dropped.
    assert_eq!(merged.len(), 4);
    assert_eq!(merged.iter().map(|f| f.id).collect::<Vec<_>>(), vec![0, 1, 2, 3]);
    assert_eq!(merged[0].original_name.as_deref(), Some("a.jpg"));
    assert_eq!(merged[1].file_type.code(), FileType::PNG.code());
    assert_eq!(merged[2].file_type.code(), FileType::PDF.code());
    assert_eq!(merged[2].offset_start, 16384);
    assert_eq!(merged[3].offset_start, 9000);
}

#[test]
fn merge_without_filter_keeps_all_directory_entries() {
    let fat = vec![rec(0, FileType::Unknown("XYZ".to_string()), 0, Some("b.xyz")), rec(1, FileType::PDF, 512, Some("c.pdf"))];
    let sig = vec![rec(0, FileType::PDF, 1000, None), rec(1, FileType::PDF, 1024, None)];
    let merged = merge_scan_results(fat, &None, sig);
    assert_eq!(merged.len(), 3);
    assert_eq!(merged[2].offset_start, 1024);
}

#[test]
fn zip_entry_names_are_unique() {
    let mut used: Vec<String> = Vec::new();
    let a = unique_entry_name("x_1.jpg", &used);
    assert_eq!(a, "x_1.jpg");
    used.push(a);
    let b = unique_entry_name("x.jpg", &used);
    assert_eq!(b, "x.jpg");
    used.push(b);
    let c = unique_entry_name("x.jpg", &used);
    assert_eq!(c, "x_2.jpg");
    used.push(c);
    let d = unique_entry_name("x.jpg", &used);
    assert_eq!(d, "x_3.jpg");
    assert!(!used.contains(&d));
}

#[test]
fn base64_groups_and_padding() {
    assert_eq!(preview_payload("TXT", b"Man"), "text/plain:TWFu");
    assert_eq!(preview_payload("TXT", b"Ma"), "text/plain:TWE=");
    assert_eq!(preview_payload("TXT", b"M"), "text/plain:TQ==");
    assert_eq!(preview_payload("TXT", b""), "text/plain:");
    assert_eq!(preview_payload("TXT", &[0xFB, 0xFF, 0xBF]), "text/plain:+/+/");
}

#[test]
fn merging_keeps_unknown_signature_results() {
    let fat = vec![rec(0, FileType::Unknown("DAT".to_string()), 1024, Some("a.dat"))];
    let sig = vec![
        rec(0, FileType::Unknown("DAT".to_string()), 1030, None),
        rec(1, FileType::Unknown("BIN".to_string()), 1030, None),
    ];
    let m = merge_scan_results(fat, &None, sig);
    assert_eq!(m.len(), 2);
    assert!(matches!(&m[1].file_type, FileType::Unknown(s) if s == "BIN"));
    assert_eq!((m[0].id, m[1].id), (0, 1));
}
