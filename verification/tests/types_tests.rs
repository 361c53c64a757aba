use aeon_recovery::carver::OVERLAP_SIZE;
use aeon_recovery::strs::{decimal_string, str_eq, str_starts_with, concat_str};
use aeon_recovery::types::{FileSignature, FileType};

#[test]
fn signature_table() {
    let sigs = FileSignature::all_signatures();
    assert_eq!(sigs.len(), 24);
    assert_eq!(sigs[0].header, vec![0xFF, 0xD8, 0xFF]);
    assert_eq!(sigs[0].footer, Some(vec![0xFF, 0xD9]));
    assert_eq!(sigs[0].file_type.code(), FileType::JPEG.code());
    for s in &sigs {
        let span = s.header.len() + s.verify.as_ref().map(|(o, b)| o + b.len()).unwrap_or(0);
        assert!(span <= OVERLAP_SIZE);
        assert!(!s.header.is_empty());
    }
    let avi = sigs.iter().find(|s| s.file_type.code() == FileType::AVI.code()).unwrap();
    assert_eq!(avi.verify, Some((8, b"AVI ".to_vec())));
}

#[test]
fn display_names_and_codes() {
    assert_eq!(FileType::SevenZ.display_name(), "7Z");
    assert_eq!(FileType::SQLite.display_name(), "SQLite");
    assert_eq!(FileType::Unknown("XYZ".to_string()).display_name(), "XYZ");
    assert_eq!(FileType::TXT.code(), 21);
    assert_eq!(FileType::Unknown("A".to_string()).code(), 255);
    assert!(FileType::Unknown("A".to_string()).same_as(&FileType::Unknown("A".to_string())));
    assert!(!FileType::Unknown("A".to_string()).same_as(&FileType::Unknown("B".to_string())));
    assert!(FileType::TXT.is_in(&vec![FileType::PNG, FileType::TXT]));
    assert!(!FileType::GIF.is_in(&vec![]));
    assert!(FileType::BMP.is_previewable());
    assert!(!FileType::ZIP.is_previewable());
    assert_eq!(FileType::Unknown("Q".to_string()).clone().display_name(), "Q");
}

#[test]
fn string_helpers() {
    assert_eq!(decimal_string(0), "0");
    assert_eq!(decimal_string(1234567890), "1234567890");
    assert_eq!(decimal_string(u64::MAX), "18446744073709551615");
    assert!(str_eq("abc", "abc"));
    assert!(!str_eq("abc", "abd"));
    assert!(str_starts_with("/dev/sda", "/dev/"));
    assert!(!str_starts_with("/de", "/dev/"));
    assert_eq!(concat_str("ab", "ć"), "abć");
}
