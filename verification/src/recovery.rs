//! Scan profiles, merging of scan results, validation of recovered bytes,
//! and the names and payloads under which recovered files are handed out.
use base64::Engine;
use vstd::hash_set::HashSetWithView;
use vstd::prelude::*;

use crate::strs::{str_eq, string_from_chars};
use crate::strs;
use crate::types::{FileType, FileTypeView, RecoveredFile, ValidationStatus};
use crate::carver;
use crate::types;
use crate::fat;
use crate::bytes;

verus! {

broadcast use vstd::std_specs::hash::group_hash_axioms;

// ── Scan profiles ──────────────────────────────────────────────────────────

/// The types of the "fast" profile: images, documents and text.
pub open spec fn fast_profile_types() -> Seq<FileTypeView> {
    seq![
        FileTypeView::JPEG,
        FileTypeView::PNG,
        FileTypeView::GIF,
        FileTypeView::TIFF,
        FileTypeView::BMP,
        FileTypeView::PDF,
        FileTypeView::DOCX,
        FileTypeView::XLSX,
        FileTypeView::PPTX,
        FileTypeView::DOC,
        FileTypeView::TXT,
    ]
}

/// The type a custom-profile entry names: the variant's name ("SevenZ" for
/// 7-Zip); `None` for any other string.
pub open spec fn spec_type_named(s: Seq<char>) -> Option<FileTypeView> {
    if s == "JPEG"@ {
        Some(FileTypeView::JPEG)
    } else if s == "PNG"@ {
        Some(FileTypeView::PNG)
    } else if s == "GIF"@ {
        Some(FileTypeView::GIF)
    } else if s == "TIFF"@ {
        Some(FileTypeView::TIFF)
    } else if s == "BMP"@ {
        Some(FileTypeView::BMP)
    } else if s == "PDF"@ {
        Some(FileTypeView::PDF)
    } else if s == "DOCX"@ {
        Some(FileTypeView::DOCX)
    } else if s == "XLSX"@ {
        Some(FileTypeView::XLSX)
    } else if s == "PPTX"@ {
        Some(FileTypeView::PPTX)
    } else if s == "DOC"@ {
        Some(FileTypeView::DOC)
    } else if s == "TXT"@ {
        Some(FileTypeView::TXT)
    } else if s == "ZIP"@ {
        Some(FileTypeView::ZIP)
    } else if s == "RAR"@ {
        Some(FileTypeView::RAR)
    } else if s == "SevenZ"@ {
        Some(FileTypeView::SevenZ)
    } else if s == "EXE"@ {
        Some(FileTypeView::EXE)
    } else if s == "MP4"@ {
        Some(FileTypeView::MP4)
    } else if s == "AVI"@ {
        Some(FileTypeView::AVI)
    } else if s == "MKV"@ {
        Some(FileTypeView::MKV)
    } else if s == "MP3"@ {
        Some(FileTypeView::MP3)
    } else if s == "WAV"@ {
        Some(FileTypeView::WAV)
    } else if s == "FLAC"@ {
        Some(FileTypeView::FLAC)
    } else if s == "SQLite"@ {
        Some(FileTypeView::SQLite)
    } else {
        None
    }
}

/// The types the entries of a custom profile name, in order, skipping
/// entries that name none.
pub open spec fn types_named(names: Seq<Seq<char>>) -> Seq<FileTypeView>
    decreases names.len(),
{
    if names.len() == 0 {
        Seq::empty()
    } else {
        let rest = types_named(names.drop_last());
        match spec_type_named(names.last()) {
            Some(t) => rest.push(t),
            None => rest,
        }
    }
}

/// The type filter of a scan profile: "fast" keeps the fast-profile types,
/// "custom" with a non-empty list keeps the types it names, and anything
/// else ("full" among them) scans for every type.
pub open spec fn spec_resolve_allowed(profile: Seq<char>, custom: Seq<Seq<char>>) -> Option<Seq<FileTypeView>> {
    if profile == "fast"@ {
        Some(fast_profile_types())
    } else if profile == "custom"@ && custom.len() > 0 {
        Some(types_named(custom))
    } else {
        None
    }
}

/// The type a custom-profile entry names, if any.
pub fn type_named(s: &str) -> (r: Option<FileType>)
    ensures
        match r {
            Some(t) => spec_type_named(s@) == Some(t@),
            None => spec_type_named(s@).is_none(),
        },
{
    if str_eq(s, "JPEG") {
        Some(FileType::JPEG)
    } else if str_eq(s, "PNG") {
        Some(FileType::PNG)
    } else if str_eq(s, "GIF") {
        Some(FileType::GIF)
    } else if str_eq(s, "TIFF") {
        Some(FileType::TIFF)
    } else if str_eq(s, "BMP") {
        Some(FileType::BMP)
    } else if str_eq(s, "PDF") {
        Some(FileType::PDF)
    } else if str_eq(s, "DOCX") {
        Some(FileType::DOCX)
    } else if str_eq(s, "XLSX") {
        Some(FileType::XLSX)
    } else if str_eq(s, "PPTX") {
        Some(FileType::PPTX)
    } else if str_eq(s, "DOC") {
        Some(FileType::DOC)
    } else if str_eq(s, "TXT") {
        Some(FileType::TXT)
    } else if str_eq(s, "ZIP") {
        Some(FileType::ZIP)
    } else if str_eq(s, "RAR") {
        Some(FileType::RAR)
    } else if str_eq(s, "SevenZ") {
        Some(FileType::SevenZ)
    } else if str_eq(s, "EXE") {
        Some(FileType::EXE)
    } else if str_eq(s, "MP4") {
        Some(FileType::MP4)
    } else if str_eq(s, "AVI") {
        Some(FileType::AVI)
    } else if str_eq(s, "MKV") {
        Some(FileType::MKV)
    } else if str_eq(s, "MP3") {
        Some(FileType::MP3)
    } else if str_eq(s, "WAV") {
        Some(FileType::WAV)
    } else if str_eq(s, "FLAC") {
        Some(FileType::FLAC)
    } else if str_eq(s, "SQLite") {
        Some(FileType::SQLite)
    } else {
        None
    }
}

/// Maps a scan profile and its custom type list to the type filter of the
/// scan: `None` scans for everything.
pub fn resolve_allowed_types(profile: &str, custom_types: &[String]) -> (r: Option<Vec<FileType>>)
    ensures
        carver::types_view(&r) == spec_resolve_allowed(profile@, custom_types@.map_values(|s: String| s@)),
{
    let ghost names = custom_types@.map_values(|s: String| s@);
    if str_eq(profile, "fast") {
        let v: Vec<FileType> = vec![
            FileType::JPEG,
            FileType::PNG,
            FileType::GIF,
            FileType::TIFF,
            FileType::BMP,
            FileType::PDF,
            FileType::DOCX,
            FileType::XLSX,
            FileType::PPTX,
            FileType::DOC,
            FileType::TXT,
        ];
        assert(v@.map_values(|t: FileType| t@) =~= fast_profile_types());
        Some(v)
    } else if str_eq(profile, "custom") && custom_types.len() > 0 {
        let mut out: Vec<FileType> = Vec::new();
        let mut i: usize = 0;
        while i < custom_types.len()
            invariant
                i <= custom_types@.len(),
                names == custom_types@.map_values(|s: String| s@),
                out@.map_values(|t: FileType| t@) == types_named(names.take(i as int)),
            decreases custom_types.len() - i,
        {
            let t = type_named(custom_types[i].as_str());
            let ghost before = out@;
            proof {
                assert(names.take(i + 1).drop_last() =~= names.take(i as int));
                assert(names.take(i + 1).last() == custom_types@[i as int]@);
            }
            match t {
                Some(ft) => {
                    out.push(ft);
                    assert(out@.map_values(|t: FileType| t@) =~= before.map_values(|t: FileType| t@).push(
                        out@[before.len() as int]@,
                    )) by {
                        assert(out@.len() == before.len() + 1);
                    }
                },
                None => {},
            }
            i += 1;
        }
        assert(names.take(custom_types@.len() as int) =~= names);
        Some(out)
    } else {
        None
    }
}

// ── Validation of recovered bytes ──────────────────────────────────────────

/// Every byte of `d` is zero.
pub open spec fn all_zero(d: Seq<u8>) -> bool {
    forall|i: int| 0 <= i < d.len() ==> d[i] == 0
}

/// Printable share of a text sample of `n` bytes holding `p` printable ones,
/// in whole percent as single-precision arithmetic yields it: the exact
/// floor of 100p/n, except that the exact quotients 53 and 59 come out one
/// lower (0.53 and 0.59 lie just below their decimal value in single
/// precision).
pub open spec fn text_percent(p: int, n: int) -> int {
    let q = 100 * p / n;
    if (100 * p) % n == 0 && (q == 53 || q == 59) {
        q - 1
    } else {
        q
    }
}

/// A check with a header test and a trailer test: both pass gives the first
/// outcome, only the header the second, otherwise the third.
pub open spec fn graded(
    head: bool,
    tail: bool,
    full: (bool, u8, Seq<char>),
    partial: (bool, u8, Seq<char>),
    bad: (bool, u8, Seq<char>),
) -> (bool, u8, Seq<char>) {
    if head && tail {
        full
    } else if head {
        partial
    } else {
        bad
    }
}

/// Validation of recovered bytes against the name of their type: validity,
/// confidence in percent and an explanation.  Empty and all-zero data are
/// invalid; JPEG, PNG, PDF and the ZIP family are checked by their header and
/// trailer marks; TXT by the printable share of its first 1024 bytes (valid
/// from 85%); any other type counts as a bare signature match.
pub open spec fn spec_validate(d: Seq<u8>, t: Seq<char>) -> (bool, u8, Seq<char>) {
    if d.len() == 0 {
        (false, 0, "Empty data"@)
    } else if all_zero(d) {
        (false, 0, "Overwritten (all zeros)"@)
    } else if t == "JPEG"@ {
        graded(
            bytes::occurs_at(d, seq![0xFFu8, 0xD8, 0xFF], 0),
            d.len() >= 2 && d[d.len() - 2] == 0xFF && d[d.len() - 1] == 0xD9,
            (true, 95, "Valid JPEG (SOI + EOI)"@),
            (true, 60, "Partial JPEG \u{2013} truncated (no EOI)"@),
            (false, 10, "Invalid JPEG header"@),
        )
    } else if t == "PNG"@ {
        graded(
            bytes::occurs_at(d, seq![0x89u8, 0x50, 0x4E, 0x47, 0x0D, 0x0A, 0x1A, 0x0A], 0),
            bytes::occurs_in(d, seq![0x49u8, 0x45, 0x4E, 0x44]),
            (true, 97, "Valid PNG (signature + IEND)"@),
            (true, 65, "Partial PNG \u{2013} truncated"@),
            (false, 10, "Invalid PNG"@),
        )
    } else if t == "PDF"@ {
        graded(
            bytes::occurs_at(d, seq![0x25u8, 0x50, 0x44, 0x46, 0x2D], 0),
            bytes::occurs_in(d, seq![0x25u8, 0x25, 0x45, 0x4F, 0x46]),
            (true, 92, "Valid PDF"@),
            (true, 55, "Partial PDF \u{2013} truncated"@),
            (false, 10, "Invalid PDF"@),
        )
    } else if t == "DOCX"@ || t == "XLSX"@ || t == "PPTX"@ || t == "ZIP"@ {
        graded(
            bytes::occurs_at(d, seq![0x50u8, 0x4B, 0x03, 0x04], 0),
            bytes::occurs_in(d, seq![0x50u8, 0x4B, 0x05, 0x06]),
            (true, 93, "Valid ZIP/Office archive"@),
            (true, 60, "Partial ZIP \u{2013} truncated"@),
            (false, 10, "Invalid ZIP header"@),
        )
    } else if t == "TXT"@ {
        let n = if d.len() < 1024 { d.len() as int } else { 1024 };
        let pct = text_percent(carver::printable_count(d.take(n)), n);
        if pct >= 85 {
            (true, pct as u8, strs::decimal(pct as nat) + "% printable ASCII"@)
        } else {
            (false, 20, "Only "@ + strs::decimal(pct as nat) + "% printable ASCII"@)
        }
    } else {
        (true, 50, "Signature match only"@)
    }
}

/// Validation never vouches for wiped data: non-empty data that is all zero
/// is invalid with no confidence, whatever its type.
pub proof fn lemma_zeroed_data_invalid(d: Seq<u8>, t: Seq<char>)
    requires
        d.len() > 0,
        all_zero(d),
    ensures
        !spec_validate(d, t).0,
        spec_validate(d, t).1 == 0,
{
}

/// Confidence is a percentage: at most 100 for any data and type.
pub proof fn lemma_validation_confidence_bounded(d: Seq<u8>, t: Seq<char>)
    ensures
        spec_validate(d, t).1 <= 100,
{
    if d.len() > 0 && !all_zero(d) && t == "TXT"@ {
        let n = if d.len() < 1024 { d.len() as int } else { 1024 };
        lemma_printable_count_le(d.take(n));
        let p = carver::printable_count(d.take(n));
        assert(100 * p / n <= 100) by (nonlinear_arith)
            requires
                0 <= p <= n,
                n > 0,
        ;
    }
}

proof fn lemma_printable_count_le(s: Seq<u8>)
    ensures
        0 <= carver::printable_count(s) <= s.len(),
    decreases s.len(),
{
    if s.len() > 0 {
        lemma_printable_count_le(s.drop_last());
    }
}

/// A string holding the characters of `s`.
fn owned(s: &str) -> (r: String)
    ensures
        r@ == s@,
{
    String::from_str(s)
}

fn status(is_valid: bool, confidence_percent: u8, details: String) -> (r: ValidationStatus)
    ensures
        r.is_valid == is_valid,
        r.confidence_percent == confidence_percent,
        r.details@ == details@,
{
    ValidationStatus { is_valid, confidence_percent, details }
}

fn graded_status(
    head: bool,
    tail: bool,
    full: (u8, &str),
    partial: (u8, &str),
    bad: (u8, &str),
) -> (r: ValidationStatus)
    ensures
        (r.is_valid, r.confidence_percent, r.details@) == graded(
            head,
            tail,
            (true, full.0, full.1@),
            (true, partial.0, partial.1@),
            (false, bad.0, bad.1@),
        ),
{
    if head && tail {
        status(true, full.0, owned(full.1))
    } else if head {
        status(true, partial.0, owned(partial.1))
    } else {
        status(false, bad.0, owned(bad.1))
    }
}

/// Whether every byte of `d` is zero.
fn is_all_zero(d: &[u8]) -> (r: bool)
    ensures
        r == all_zero(d@),
{
    let mut i: usize = 0;
    while i < d.len()
        invariant
            i <= d@.len(),
            forall|j: int| 0 <= j < i ==> d@[j] == 0,
        decreases d.len() - i,
    {
        if d[i] != 0 {
            return false;
        }
        i += 1;
    }
    true
}

/// Checks recovered bytes against the name of their type (see
/// `spec_validate`).
pub fn validate_bytes(data: &[u8], file_type: &str) -> (r: ValidationStatus)
    ensures
        (r.is_valid, r.confidence_percent, r.details@) == spec_validate(data@, file_type@),
{
    if data.len() == 0 {
        return status(false, 0, owned("Empty data"));
    }
    if is_all_zero(data) {
        return status(false, 0, owned("Overwritten (all zeros)"));
    }
    if str_eq(file_type, "JPEG") {
        let soi_pat: [u8; 3] = [0xFF, 0xD8, 0xFF];
        assert(soi_pat@ =~= seq![0xFFu8, 0xD8, 0xFF]);
        let soi = bytes::matches_at(data, &soi_pat, 0);
        let n = data.len();
        let eoi = n >= 2 && data[n - 2] == 0xFF && data[n - 1] == 0xD9;
        graded_status(
            soi,
            eoi,
            (95, "Valid JPEG (SOI + EOI)"),
            (60, "Partial JPEG \u{2013} truncated (no EOI)"),
            (10, "Invalid JPEG header"),
        )
    } else if str_eq(file_type, "PNG") {
        let sig_pat: [u8; 8] = [0x89, 0x50, 0x4E, 0x47, 0x0D, 0x0A, 0x1A, 0x0A];
        let iend_pat: [u8; 4] = [0x49, 0x45, 0x4E, 0x44];
        assert(sig_pat@ =~= seq![0x89u8, 0x50, 0x4E, 0x47, 0x0D, 0x0A, 0x1A, 0x0A]);
        assert(iend_pat@ =~= seq![0x49u8, 0x45, 0x4E, 0x44]);
        graded_status(
            bytes::matches_at(data, &sig_pat, 0),
            bytes::contains_pattern(data, &iend_pat),
            (97, "Valid PNG (signature + IEND)"),
            (65, "Partial PNG \u{2013} truncated"),
            (10, "Invalid PNG"),
        )
    } else if str_eq(file_type, "PDF") {
        let hdr_pat: [u8; 5] = [0x25, 0x50, 0x44, 0x46, 0x2D];
        let eof_pat: [u8; 5] = [0x25, 0x25, 0x45, 0x4F, 0x46];
        assert(hdr_pat@ =~= seq![0x25u8, 0x50, 0x44, 0x46, 0x2D]);
        assert(eof_pat@ =~= seq![0x25u8, 0x25, 0x45, 0x4F, 0x46]);
        graded_status(
            bytes::matches_at(data, &hdr_pat, 0),
            bytes::contains_pattern(data, &eof_pat),
            (92, "Valid PDF"),
            (55, "Partial PDF \u{2013} truncated"),
            (10, "Invalid PDF"),
        )
    } else if str_eq(file_type, "DOCX") || str_eq(file_type, "XLSX") || str_eq(file_type, "PPTX")
        || str_eq(file_type, "ZIP") {
        let pk_pat: [u8; 4] = [0x50, 0x4B, 0x03, 0x04];
        let eocd_pat: [u8; 4] = [0x50, 0x4B, 0x05, 0x06];
        assert(pk_pat@ =~= seq![0x50u8, 0x4B, 0x03, 0x04]);
        assert(eocd_pat@ =~= seq![0x50u8, 0x4B, 0x05, 0x06]);
        graded_status(
            bytes::matches_at(data, &pk_pat, 0),
            bytes::contains_pattern(data, &eocd_pat),
            (93, "Valid ZIP/Office archive"),
            (60, "Partial ZIP \u{2013} truncated"),
            (10, "Invalid ZIP header"),
        )
    } else if str_eq(file_type, "TXT") {
        let n: usize = if data.len() < 1024 { data.len() } else { 1024 };
        let p = carver::count_printable(data, n);
        let q: usize = 100 * p / n;
        let pct: usize = if (100 * p) % n == 0 && (q == 53 || q == 59) { q - 1 } else { q };
        assert(pct == text_percent(p as int, n as int));
        let digits = strs::decimal_string(pct as u64);
        if pct >= 85 {
            let mut details = digits;
            details.append("% printable ASCII");
            status(true, pct as u8, details)
        } else {
            let mut details = owned("Only ");
            details.append(digits.as_str());
            details.append("% printable ASCII");
            status(false, 20, details)
        }
    } else {
        status(true, 50, owned("Signature match only"))
    }
}

// ── Previews ────────────────────────────────────────────────────────────────

/// The media type under which a preview of a type (by its display name) is
/// handed out.
pub open spec fn spec_preview_mime(t: Seq<char>) -> Seq<char> {
    if t == "JPEG"@ {
        "image/jpeg"@
    } else if t == "PNG"@ {
        "image/png"@
    } else if t == "GIF"@ {
        "image/gif"@
    } else if t == "BMP"@ {
        "image/bmp"@
    } else if t == "TIFF"@ {
        "image/tiff"@
    } else if t == "TXT"@ {
        "text/plain"@
    } else {
        "application/octet-stream"@
    }
}

/// Media type of a preview of a type, by the type's display name.
pub fn preview_mime(kind: &str) -> (r: String)
    ensures
        r@ == spec_preview_mime(kind@),
{
    if str_eq(kind, "JPEG") {
        owned("image/jpeg")
    } else if str_eq(kind, "PNG") {
        owned("image/png")
    } else if str_eq(kind, "GIF") {
        owned("image/gif")
    } else if str_eq(kind, "BMP") {
        owned("image/bmp")
    } else if str_eq(kind, "TIFF") {
        owned("image/tiff")
    } else if str_eq(kind, "TXT") {
        owned("text/plain")
    } else {
        owned("application/octet-stream")
    }
}

/// The character of the standard base64 alphabet (A-Z a-z 0-9 + /) for a
/// 6-bit value.
pub open spec fn b64_digit(v: int) -> char {
    if v < 26 {
        (65 + v) as char
    } else if v < 52 {
        (97 + v - 26) as char
    } else if v < 62 {
        (48 + v - 52) as char
    } else if v == 62 {
        '+'
    } else {
        '/'
    }
}

/// Standard base64 of a byte sequence: each group of three bytes becomes
/// four characters of six bits each, most significant first; a final group
/// of one or two bytes is padded with zero bits and `=`.
pub open spec fn base64_standard(data: Seq<u8>) -> Seq<char>
    decreases data.len(),
{
    if data.len() == 0 {
        Seq::empty()
    } else if data.len() == 1 {
        let a = data[0] as int;
        seq![b64_digit(a / 4), b64_digit((a % 4) * 16), '=', '=']
    } else if data.len() == 2 {
        let a = data[0] as int;
        let b = data[1] as int;
        seq![b64_digit(a / 4), b64_digit((a % 4) * 16 + b / 16), b64_digit((b % 16) * 4), '=']
    } else {
        let a = data[0] as int;
        let b = data[1] as int;
        let c = data[2] as int;
        seq![b64_digit(a / 4), b64_digit((a % 4) * 16 + b / 16), b64_digit((b % 16) * 4 + c / 64), b64_digit(c % 64)]
            + base64_standard(data.skip(3))
    }
}

/// A character of the standard base64 alphabet or its padding.
pub open spec fn base64_char(c: char) -> bool {
    ('A' <= c && c <= 'Z') || ('a' <= c && c <= 'z') || ('0' <= c && c <= '9') || c == '+' || c
        == '/' || c == '='
}

/// Standard base64 has four characters for every started group of three
/// bytes, each of the alphabet or `=`.
pub proof fn lemma_base64_shape(data: Seq<u8>)
    ensures
        base64_standard(data).len() == 4 * ((data.len() + 2) / 3),
        forall|i: int| 0 <= i < base64_standard(data).len() ==> base64_char(#[trigger] base64_standard(data)[i]),
    decreases data.len(),
{
    assert forall|v: int| 0 <= v < 64 implies base64_char(#[trigger] b64_digit(v)) by {}
    if data.len() >= 3 {
        lemma_base64_shape(data.skip(3));
        let a = data[0] as int;
        let b = data[1] as int;
        let c = data[2] as int;
        assert(0 <= a / 4 < 64 && 0 <= (a % 4) * 16 + b / 16 < 64 && 0 <= (b % 16) * 4 + c / 64 < 64 && 0 <= c % 64 < 64);
        let head = seq![b64_digit(a / 4), b64_digit((a % 4) * 16 + b / 16), b64_digit((b % 16) * 4 + c / 64), b64_digit(c % 64)];
        assert forall|i: int| 0 <= i < base64_standard(data).len() implies base64_char(#[trigger] base64_standard(data)[i]) by {
            if i >= 4 {
                assert(base64_standard(data)[i] == base64_standard(data.skip(3))[i - 4]);
            } else {
                assert(base64_standard(data)[i] == head[i]);
            }
        }
    } else if data.len() == 2 {
        let a = data[0] as int;
        let b = data[1] as int;
        assert(0 <= a / 4 < 64 && 0 <= (a % 4) * 16 + b / 16 < 64 && 0 <= (b % 16) * 4 < 64);
    } else if data.len() == 1 {
        let a = data[0] as int;
        assert(0 <= a / 4 < 64 && 0 <= (a % 4) * 16 < 64);
    }
}

/// `base64::engine::general_purpose::STANDARD.encode`.  Claimed: the result
/// is the standard base64 of the input with padding (`base64_standard`).
/// The engine panics when the output length overflows `usize`, which
/// `requires` rules out.
#[verifier::external_body]
fn encode_base64(data: &[u8]) -> (r: String)
    requires
        data@.len() <= usize::MAX / 2,
    ensures
        r@ == base64_standard(data@),
{
    base64::engine::general_purpose::STANDARD.encode(data)
}

/// The preview payload "mime:encoded" of a type (by display name) for data
/// already encoded in base64.
pub fn preview_from_encoded(kind: &str, encoded: &str) -> (r: String)
    ensures
        r@ == spec_preview_mime(kind@) + seq![':'] + encoded@,
{
    let mut out = preview_mime(kind);
    out.append(":");
    out.append(encoded);
    proof {
        reveal_strlit(":");
    }
    out
}

/// The preview payload of recovered bytes: their media type, a colon, and
/// the bytes in standard base64.
pub fn preview_payload(kind: &str, data: &[u8]) -> (r: String)
    requires
        data@.len() <= usize::MAX / 2,
    ensures
        r@ == spec_preview_mime(kind@) + seq![':'] + base64_standard(data@),
{
    let encoded = encode_base64(data);
    preview_from_encoded(kind, encoded.as_str())
}

/// Most bytes read to recover one file (500 MiB).
pub const RECOVER_READ_CAP: u64 = 500 * 1024 * 1024;

/// Most bytes read for a preview (5 MiB).
pub const PREVIEW_READ_CAP: u64 = 5 * 1024 * 1024;

/// Bytes to read for a file of `size` bytes under a cap.
pub fn capped_read_size(size: u64, cap: u64) -> (r: usize)
    requires
        cap <= PREVIEW_READ_CAP || cap <= RECOVER_READ_CAP,
    ensures
        r == (if size < cap { size } else { cap }),
{
    if size < cap {
        size as usize
    } else {
        cap as usize
    }
}

// ── Names of recovered files ──────────────────────────────────────────────

/// "recovered_<type>_<id>.<ext>", the name of a recovered file without an
/// original name.
pub open spec fn recovered_name(kind: Seq<char>, id: u64, ext: Seq<char>) -> Seq<char> {
    "recovered_"@ + kind + seq!['_'] + strs::decimal(id as nat) + seq!['.'] + ext
}

fn recovered_name_of(kind: &str, id: u64, ext: &str) -> (r: String)
    ensures
        r@ == recovered_name(kind@, id, ext@),
{
    let mut out = owned("recovered_");
    out.append(kind);
    out.append("_");
    let digits = strs::decimal_string(id);
    out.append(digits.as_str());
    out.append(".");
    out.append(ext);
    proof {
        reveal_strlit("_");
        reveal_strlit(".");
    }
    out
}

/// Name under which batch recovery writes a file: its original name, or
/// "recovered_<type>_<id>.<ext>" with the extension that the type's display
/// name maps back to, lower-cased.
pub open spec fn spec_batch_file_name(f: RecoveredFile) -> Seq<char> {
    match f.original_name {
        Some(n) => n@,
        None => recovered_name(
            f.file_type@.name(),
            f.id,
            strs::lowercase(fat::spec_ext_to_filetype(seq!['.'] + f.file_type@.name()).name()),
        ),
    }
}

/// Name under which batch recovery writes a file.
pub fn batch_file_name(f: &RecoveredFile) -> (r: String)
    ensures
        r@ == spec_batch_file_name(*f),
{
    match &f.original_name {
        Some(n) => n.clone(),
        None => {
            let name = f.file_type.display_name();
            let dotted = strs::concat_str(".", name.as_str());
            proof {
                reveal_strlit(".");
            }
            assert(dotted@ =~= seq!['.'] + f.file_type@.name());
            let mapped = fat::ext_to_filetype(dotted.as_str());
            let mapped_name = mapped.display_name();
            let ext = strs::to_lower(mapped_name.as_str());
            recovered_name_of(name.as_str(), f.id, ext.as_str())
        },
    }
}

/// Name under which a file goes into a ZIP export: its original name, or
/// "recovered_<type>_<id>.<type>" with the display name lower-cased.
pub open spec fn spec_zip_file_name(f: RecoveredFile) -> Seq<char> {
    match f.original_name {
        Some(n) => n@,
        None => recovered_name(f.file_type@.name(), f.id, strs::lowercase(f.file_type@.name())),
    }
}

/// Name under which a file goes into a ZIP export.
pub fn zip_file_name(f: &RecoveredFile) -> (r: String)
    ensures
        r@ == spec_zip_file_name(*f),
{
    match &f.original_name {
        Some(n) => n.clone(),
        None => {
            let name = f.file_type.display_name();
            let ext = strs::to_lower(name.as_str());
            recovered_name_of(name.as_str(), f.id, ext.as_str())
        },
    }
}

/// The `count`-th entry name of a ZIP export for a file name: the name
/// itself for the first entry, and otherwise the name with "_<count>"
/// inserted before its last '.' (or appended when it has none).
pub open spec fn spec_zip_entry_name(name: Seq<char>, count: u64) -> Seq<char> {
    if count == 0 {
        name
    } else {
        let d = fat::last_index_of(name, '.', name.len() as int);
        let dot = if d >= 0 { d } else { name.len() as int };
        name.subrange(0, dot) + seq!['_'] + strs::decimal(count as nat) + name.subrange(dot, name.len() as int)
    }
}

/// Entry name of the `count`-th file of a ZIP export.
pub fn zip_entry_name(name: &str, count: u64) -> (r: String)
    ensures
        r@ == spec_zip_entry_name(name@, count),
{
    if count == 0 {
        return owned(name);
    }
    let chars = strs::chars_of(name);
    let n = chars.len();
    let mut k: usize = n;
    while k > 0 && chars[k - 1] != '.'
        invariant
            k <= n,
            n == name@.len(),
            chars@ == name@,
            fat::last_index_of(name@, '.', n as int) == fat::last_index_of(name@, '.', k as int),
        decreases k,
    {
        k -= 1;
    }
    let dot: usize = if k > 0 { k - 1 } else { n };
    let mut out: Vec<char> = Vec::new();
    let mut i: usize = 0;
    while i < dot
        invariant
            i <= dot <= n,
            n == chars@.len(),
            out@ == chars@.subrange(0, i as int),
        decreases dot - i,
    {
        out.push(chars[i]);
        i += 1;
        assert(out@ =~= chars@.subrange(0, i as int));
    }
    out.push('_');
    strs::push_decimal(&mut out, count);
    let ghost mid = out@;
    let mut j: usize = dot;
    while j < n
        invariant
            dot <= j <= n,
            n == chars@.len(),
            out@ == mid + chars@.subrange(dot as int, j as int),
        decreases n - j,
    {
        out.push(chars[j]);
        j += 1;
        assert(out@ =~= mid + chars@.subrange(dot as int, j as int));
    }
    assert(out@ =~= spec_zip_entry_name(name@, count));
    string_from_chars(&out)
}

/// The texts of the names already written into an archive.
pub open spec fn used_names(used: Seq<String>) -> Seq<Seq<char>> {
    used.map_values(|u: String| u@)
}

/// The first longest of some names (empty when there are none).
pub open spec fn longest_name(used: Seq<Seq<char>>) -> Seq<char>
    decreases used.len(),
{
    if used.len() == 0 {
        Seq::empty()
    } else {
        let l = longest_name(used.drop_last());
        if used.last().len() > l.len() {
            used.last()
        } else {
            l
        }
    }
}

/// The first of the names `name`, `name_1`, `name_2`, ... (see
/// `spec_zip_entry_name`) from number `k` to `last` that is not in `used`;
/// past `last`, a run of '_' longer than all the used names together.
pub open spec fn unique_from(name: Seq<char>, used: Seq<Seq<char>>, k: nat, last: nat) -> Seq<char>
    decreases last + 1 - k,
{
    if k > last {
        longest_name(used) + seq!['_']
    } else if !used.contains(spec_zip_entry_name(name, k as u64)) {
        spec_zip_entry_name(name, k as u64)
    } else {
        unique_from(name, used, k + 1, last)
    }
}

/// The name under which a file called `name` goes into an archive that
/// already holds `used`: the first free one of `name`, `name_1`,
/// `name_2`, ...
pub open spec fn spec_unique_entry_name(name: Seq<char>, used: Seq<Seq<char>>) -> Seq<char> {
    unique_from(name, used, 0, used.len())
}

proof fn lemma_longest_name(used: Seq<Seq<char>>, i: int)
    requires
        0 <= i < used.len(),
    ensures
        used[i].len() <= longest_name(used).len(),
    decreases used.len(),
{
    if i < used.len() - 1 {
        lemma_longest_name(used.drop_last(), i);
        assert(used.drop_last()[i] == used[i]);
    }
}

/// A name chosen by `unique_from` is not among the used ones.
proof fn lemma_unique_from_fresh(name: Seq<char>, used: Seq<Seq<char>>, k: nat, last: nat)
    ensures
        !used.contains(unique_from(name, used, k, last)),
    decreases last + 1 - k,
{
    if k > last {
        let pad = longest_name(used) + seq!['_'];
        if used.contains(pad) {
            let i = choose|i: int| 0 <= i < used.len() && used[i] == pad;
            lemma_longest_name(used, i);
        }
    } else if used.contains(spec_zip_entry_name(name, k as u64)) {
        lemma_unique_from_fresh(name, used, k + 1, last);
    }
}

/// Whether `c` is one of the used names.
fn name_used(used: &Vec<String>, c: &str) -> (r: bool)
    ensures
        r == used_names(used@).contains(c@),
{
    let mut i: usize = 0;
    while i < used.len()
        invariant
            i <= used@.len(),
            forall|j: int| 0 <= j < i ==> used@[j]@ != c@,
        decreases used.len() - i,
    {
        if str_eq(used[i].as_str(), c) {
            assert(used_names(used@)[i as int] == c@);
            return true;
        }
        i += 1;
    }
    proof {
        if used_names(used@).contains(c@) {
            let j = choose|j: int| 0 <= j < used_names(used@).len() && used_names(used@)[j] == c@;
            assert(used_names(used@)[j] == used@[j]@);
        }
    }
    false
}

/// The name under which a file called `name` goes into an archive that
/// already holds the entries `used`: `name` itself when free, otherwise
/// the first free one of `name_1`, `name_2`, ... (the number goes before
/// the extension).  It is never one of the used names.
#[verifier::spinoff_prover]
pub fn unique_entry_name(name: &str, used: &Vec<String>) -> (r: String)
    ensures
        r@ == spec_unique_entry_name(name@, used_names(used@)),
        !used_names(used@).contains(r@),
{
    let ghost u = used_names(used@);
    proof {
        lemma_unique_from_fresh(name@, u, 0, u.len());
    }
    let last = used.len() as u64;
    let mut k: u64 = 0;
    loop
        invariant
            last == u.len(),
            u == used_names(used@),
            k <= last,
            unique_from(name@, u, 0, u.len()) == unique_from(name@, u, k as nat, u.len()),
        ensures
            unique_from(name@, u, 0, u.len()) == unique_from(name@, u, (last + 1) as nat, u.len()),
        decreases last - k,
    {
        let cand = zip_entry_name(name, k);
        if !name_used(used, cand.as_str()) {
            return cand;
        }
        if k == last {
            break;
        }
        k += 1;
    }
    let mut best: usize = 0;
    let mut best_len: usize = 0;
    let mut i: usize = 0;
    proof {
        assert(u.take(0) =~= Seq::<Seq<char>>::empty());
    }
    while i < used.len()
        invariant
            i <= used@.len(),
            u == used_names(used@),
            u.len() == used@.len(),
            best_len == longest_name(u.take(i as int)).len(),
            i > 0 ==> best < i && longest_name(u.take(i as int)) == u[best as int],
            i == 0 ==> best_len == 0,
        decreases used.len() - i,
    {
        proof {
            assert(u.take(i + 1).drop_last() =~= u.take(i as int));
            assert(u.take(i + 1).last() == u[i as int]);
            assert(u[i as int] == used@[i as int]@);
        }
        let len = used[i].unicode_len();
        if i == 0 || len > best_len {
            best = i;
            best_len = len;
        }
        i += 1;
    }
    assert(u.take(u.len() as int) =~= u);
    let mut pad = if used.len() > 0 {
        assert(u[best as int] == used@[best as int]@);
        used[best].clone()
    } else {
        String::new()
    };
    pad.append("_");
    proof {
        reveal_strlit("_");
        assert(pad@ =~= longest_name(u) + seq!['_']);
    }
    pad
}


/// A folder path without its trailing '/' and '\' characters.
pub open spec fn trim_separators(s: Seq<char>) -> Seq<char>
    decreases s.len(),
{
    if s.len() > 0 && (s.last() == '/' || s.last() == '\\') {
        trim_separators(s.drop_last())
    } else {
        s
    }
}

/// Destination path of a batch-recovered file: the folder without trailing
/// separators, a '/', and the file name.
pub fn batch_dest_path(folder: &str, file_name: &str) -> (r: String)
    ensures
        r@ == trim_separators(folder@) + seq!['/'] + file_name@,
{
    let chars = strs::chars_of(folder);
    let mut k: usize = chars.len();
    assert(chars@.subrange(0, k as int) =~= folder@);
    while k > 0 && (chars[k - 1] == '/' || chars[k - 1] == '\\')
        invariant
            k <= chars@.len(),
            chars@ == folder@,
            trim_separators(folder@) == trim_separators(chars@.subrange(0, k as int)),
        decreases k,
    {
        assert(chars@.subrange(0, k as int).drop_last() =~= chars@.subrange(0, k - 1));
        k -= 1;
    }
    assert(k == 0 ==> chars@.subrange(0, 0) =~= Seq::<char>::empty());
    let mut out: Vec<char> = Vec::new();
    let mut i: usize = 0;
    while i < k
        invariant
            i <= k <= chars@.len(),
            out@ == chars@.subrange(0, i as int),
        decreases k - i,
    {
        out.push(chars[i]);
        i += 1;
        assert(out@ =~= chars@.subrange(0, i as int));
    }
    out.push('/');
    let tail = strs::chars_of(file_name);
    let ghost mid = out@;
    let mut j: usize = 0;
    while j < tail.len()
        invariant
            j <= tail@.len(),
            out@ == mid + tail@.subrange(0, j as int),
        decreases tail.len() - j,
    {
        out.push(tail[j]);
        j += 1;
        assert(out@ =~= mid + tail@.subrange(0, j as int));
    }
    assert(tail@.subrange(0, tail@.len() as int) =~= tail@);
    assert(out@ =~= trim_separators(folder@) + seq!['/'] + file_name@);
    string_from_chars(&out)
}

/// Position of the first record with id `id`, if any.
pub fn find_by_id(records: &Vec<RecoveredFile>, id: u64) -> (r: Option<usize>)
    ensures
        match r {
            Some(k) => k < records@.len() && records@[k as int].id == id && forall|j: int|
                0 <= j < k ==> records@[j].id != id,
            None => forall|j: int| 0 <= j < records@.len() ==> records@[j].id != id,
        },
{
    let mut k: usize = 0;
    while k < records.len()
        invariant
            k <= records@.len(),
            forall|j: int| 0 <= j < k ==> records@[j].id != id,
        decreases records.len() - k,
    {
        if records[k].id == id {
            return Some(k);
        }
        k += 1;
    }
    None
}

// ── Merging directory and signature results ────────────────────────────────

/// The records of `s` whose type the filter admits, in order.
pub open spec fn admitted_records(s: Seq<RecoveredFile>, allowed: Option<Seq<FileTypeView>>) -> Seq<RecoveredFile>
    decreases s.len(),
{
    if s.len() == 0 {
        Seq::empty()
    } else {
        let r = admitted_records(s.drop_last(), allowed);
        if carver::type_admitted(s.last().file_type@, allowed) {
            r.push(s.last())
        } else {
            r
        }
    }
}

/// Start of the 512-byte sector holding offset `o`.
pub open spec fn sector_of(o: u64) -> u64 {
    (o / 512 * 512) as u64
}

/// A record of `fat` has the type of `f` and starts in the same sector.
pub open spec fn listed_in(f: RecoveredFile, fat: Seq<RecoveredFile>) -> bool {
    exists|k: int|
        0 <= k < fat.len() && (#[trigger] fat[k]).file_type@ == f.file_type@ && sector_of(fat[k].offset_start)
            == sector_of(f.offset_start)
}

/// The records of `sig` that `fat` does not list, in order.
pub open spec fn unlisted(sig: Seq<RecoveredFile>, fat: Seq<RecoveredFile>) -> Seq<RecoveredFile>
    decreases sig.len(),
{
    if sig.len() == 0 {
        Seq::empty()
    } else {
        let r = unlisted(sig.drop_last(), fat);
        if listed_in(sig.last(), fat) {
            r
        } else {
            r.push(sig.last())
        }
    }
}

/// Merged results of a scan: the directory records the filter admits, then
/// the signature records none of them lists (directory entries take
/// priority).
pub open spec fn merged(fat: Seq<RecoveredFile>, allowed: Option<Seq<FileTypeView>>, sig: Seq<RecoveredFile>) -> Seq<RecoveredFile> {
    let a = admitted_records(fat, allowed);
    a + unlisted(sig, a)
}

/// Whether two file types are the same (an `Unknown` type by its text).
fn same_file_type(a: &FileType, b: &FileType) -> (r: bool)
    ensures
        r == (a@ == b@),
{
    match (a, b) {
        (FileType::Unknown(x), FileType::Unknown(y)) => str_eq(x.as_str(), y.as_str()),
        (FileType::Unknown(_), _) => false,
        (_, FileType::Unknown(_)) => false,
        _ => {
            let r = a.code() == b.code();
            proof {
                if r {
                    carver::lemma_type_offset_key(a@, 0, b@, 0);
                }
            }
            r
        },
    }
}

/// Whether the first `n` records of `out` (those of `kept`, renumbered)
/// list `f`: one of them has its type and starts in its sector.
fn listed_scan(out: &Vec<RecoveredFile>, n: usize, f: &RecoveredFile, Ghost(kept): Ghost<Seq<RecoveredFile>>) -> (r: bool)
    requires
        n == kept.len(),
        n <= out@.len(),
        forall|k: int| 0 <= k < n ==> (#[trigger] out@[k]).file_type@ == kept[k].file_type@ && out@[k].offset_start
            == kept[k].offset_start,
    ensures
        r == listed_in(*f, kept),
{
    let sector = f.offset_start / 512 * 512;
    let mut k: usize = 0;
    while k < n
        invariant
            k <= n,
            n == kept.len(),
            n <= out@.len(),
            sector == sector_of(f.offset_start),
            forall|t: int| 0 <= t < n ==> (#[trigger] out@[t]).file_type@ == kept[t].file_type@ && out@[t].offset_start
                == kept[t].offset_start,
            forall|t: int| 0 <= t < k ==> !((#[trigger] kept[t]).file_type@ == f.file_type@ && sector_of(kept[t].offset_start)
                == sector_of(f.offset_start)),
        decreases n - k,
    {
        let g = &out[k];
        if same_file_type(&g.file_type, &f.file_type) && g.offset_start / 512 * 512 == sector {
            assert(out@[k as int].file_type@ == kept[k as int].file_type@);
            assert(kept[k as int].file_type@ == f.file_type@);
            return true;
        }
        assert(out@[k as int].file_type@ == kept[k as int].file_type@);
        k += 1;
    }
    false
}

/// Whether `t` is in the optional type filter (no filter admits all).
fn admitted_by(t: &FileType, allowed: &Option<Vec<FileType>>) -> (r: bool)
    ensures
        r == carver::type_admitted(t@, carver::types_view(allowed)),
{
    match allowed {
        None => true,
        Some(list) => {
            let r = t.is_in(list);
            proof {
                let lv = list@.map_values(|x: FileType| x@);
                if r {
                    let i = choose|i: int| 0 <= i < list@.len() && list@[i]@ == t@;
                    assert(lv[i] == t@);
                } else {
                    assert forall|i: int| 0 <= i < lv.len() implies lv[i] != t@ by {
                        assert(lv[i] == list@[i]@);
                    }
                }
            }
            r
        },
    }
}

/// Merges the records of the directory scan (kept when the filter admits
/// their type) with those of the signature scan (dropped when a kept
/// directory record has the same type and starts in the same sector), and
/// numbers the result from 0.
#[verifier::spinoff_prover]
#[verifier::rlimit(80)]
pub fn merge_scan_results(
    fat_files: Vec<RecoveredFile>,
    allowed: &Option<Vec<FileType>>,
    sig_files: Vec<RecoveredFile>,
) -> (r: Vec<RecoveredFile>)
    ensures
        r@.len() == merged(fat_files@, carver::types_view(allowed), sig_files@).len(),
        forall|k: int| 0 <= k < r@.len() ==> #[trigger] r@[k] == carver::with_id(
            merged(fat_files@, carver::types_view(allowed), sig_files@)[k],
            k as u64,
        ),
{
    let ghost av = carver::types_view(allowed);
    let ghost fat = fat_files@;
    let ghost sig = sig_files@;
    let flen = fat_files.len();
    let mut rev = carver::reversed(fat_files);
    let mut keys: HashSetWithView<u128> = HashSetWithView::new();
    let mut out: Vec<RecoveredFile> = Vec::new();
    let mut i: usize = 0;
    proof {
        assert(fat.take(0) =~= Seq::<RecoveredFile>::empty());
    }
    while rev.len() > 0
        invariant
            flen == fat.len(),
            av == carver::types_view(allowed),
            i + rev@.len() == flen,
            forall|j: int| 0 <= j < rev@.len() ==> #[trigger] rev@[j] == fat[flen - 1 - j],
            out@.len() == admitted_records(fat.take(i as int), av).len(),
            forall|k: int| 0 <= k < out@.len() ==> #[trigger] out@[k] == carver::with_id(
                admitted_records(fat.take(i as int), av)[k],
                k as u64,
            ),
            forall|x: u128| keys@.contains(x) <==> exists|k: int|
                0 <= k < admitted_records(fat.take(i as int), av).len() && !(admitted_records(fat.take(i as int), av)[k].file_type@ is Unknown)
                    && #[trigger] carver::type_offset_key(
                    admitted_records(fat.take(i as int), av)[k].file_type@,
                    sector_of(admitted_records(fat.take(i as int), av)[k].offset_start),
                ) == x,
        decreases rev.len(),
    {
        let mut f = rev.pop().unwrap();
        assert(f == fat[i as int]);
        let ghost prev = admitted_records(fat.take(i as int), av);
        proof {
            assert(fat.take(i + 1).drop_last() =~= fat.take(i as int));
            assert(fat.take(i + 1).last() == f);
        }
        if admitted_by(&f.file_type, allowed) {
            let ghost next = prev.push(f);
            assert(admitted_records(fat.take(i + 1), av) == next);
            let known = match f.file_type {
                FileType::Unknown(_) => false,
                _ => true,
            };
            let ghost fk = carver::type_offset_key(f.file_type@, sector_of(f.offset_start));
            let ghost keys_before = keys@;
            if known {
                let key = carver::type_offset_key_of(&f.file_type, f.offset_start / 512 * 512);
                assert(key == fk);
                keys.insert(key);
            }
            assert(known == !(next[prev.len() as int].file_type@ is Unknown));
            assert(known ==> keys@ == keys_before.insert(fk));
            assert(!known ==> keys@ == keys_before);
            assert(fk == carver::type_offset_key(
                next[prev.len() as int].file_type@,
                sector_of(next[prev.len() as int].offset_start),
            ));
            let ghost before = out@;
            f.id = out.len() as u64;
            out.push(f);
            assert forall|k: int| 0 <= k < out@.len() implies #[trigger] out@[k] == carver::with_id(next[k], k as u64) by {
                if k < before.len() {
                    assert(out@[k] == before[k]);
                }
            }
            assert forall|x: u128| keys@.contains(x) <==> exists|k: int|
                0 <= k < next.len() && !(next[k].file_type@ is Unknown) && #[trigger] carver::type_offset_key(
                    next[k].file_type@,
                    sector_of(next[k].offset_start),
                ) == x by {
                if keys@.contains(x) {
                    if exists|k: int|
                        0 <= k < prev.len() && !(prev[k].file_type@ is Unknown) && #[trigger] carver::type_offset_key(
                            prev[k].file_type@,
                            sector_of(prev[k].offset_start),
                        ) == x {
                        let k = choose|k: int|
                            0 <= k < prev.len() && !(prev[k].file_type@ is Unknown) && #[trigger] carver::type_offset_key(
                                prev[k].file_type@,
                                sector_of(prev[k].offset_start),
                            ) == x;
                        assert(next[k] == prev[k]);
                    } else {
                        assert(next[prev.len() as int] == fat[i as int]);
                    }
                }
                if exists|k: int|
                    0 <= k < next.len() && !(next[k].file_type@ is Unknown) && #[trigger] carver::type_offset_key(
                        next[k].file_type@,
                        sector_of(next[k].offset_start),
                    ) == x {
                    let k = choose|k: int|
                        0 <= k < next.len() && !(next[k].file_type@ is Unknown) && #[trigger] carver::type_offset_key(
                            next[k].file_type@,
                            sector_of(next[k].offset_start),
                        ) == x;
                    if k < prev.len() {
                        assert(next[k] == prev[k]);
                    }
                }
            }
        } else {
            assert(admitted_records(fat.take(i + 1), av) == prev);
        }
        i += 1;
    }
    assert(fat.take(flen as int) =~= fat);
    let ghost kept = admitted_records(fat, av);
    let kept_len = out.len();
    let slen = sig_files.len();
    let mut srev = carver::reversed(sig_files);
    let mut j: usize = 0;
    proof {
        assert(sig.take(0) =~= Seq::<RecoveredFile>::empty());
        assert(kept + unlisted(sig.take(0), kept) =~= kept);
    }
    while srev.len() > 0
        invariant
            slen == sig.len(),
            kept == admitted_records(fat, av),
            kept_len == kept.len(),
            j + srev@.len() == slen,
            forall|t: int| 0 <= t < srev@.len() ==> #[trigger] srev@[t] == sig[slen - 1 - t],
            out@.len() == (kept + unlisted(sig.take(j as int), kept)).len(),
            forall|k: int| 0 <= k < out@.len() ==> #[trigger] out@[k] == carver::with_id(
                (kept + unlisted(sig.take(j as int), kept))[k],
                k as u64,
            ),
            forall|x: u128| keys@.contains(x) <==> exists|k: int|
                0 <= k < kept.len() && !(kept[k].file_type@ is Unknown) && #[trigger] carver::type_offset_key(
                    kept[k].file_type@,
                    sector_of(kept[k].offset_start),
                ) == x,
        decreases srev.len(),
    {
        let mut f = srev.pop().unwrap();
        assert(f == sig[j as int]);
        let ghost prev = unlisted(sig.take(j as int), kept);
        proof {
            assert(sig.take(j + 1).drop_last() =~= sig.take(j as int));
            assert(sig.take(j + 1).last() == f);
        }
        let known = match f.file_type {
            FileType::Unknown(_) => false,
            _ => true,
        };
        let listed = if known {
            let key = carver::type_offset_key_of(&f.file_type, f.offset_start / 512 * 512);
            proof {
                if keys@.contains(key) {
                    let k = choose|k: int|
                        0 <= k < kept.len() && !(kept[k].file_type@ is Unknown) && #[trigger] carver::type_offset_key(
                            kept[k].file_type@,
                            sector_of(kept[k].offset_start),
                        ) == key;
                    carver::lemma_type_offset_key(kept[k].file_type@, sector_of(kept[k].offset_start), f.file_type@, sector_of(f.offset_start));
                    assert(listed_in(f, kept));
                }
                if listed_in(f, kept) {
                    let k = choose|k: int|
                        0 <= k < kept.len() && (#[trigger] kept[k]).file_type@ == f.file_type@ && sector_of(kept[k].offset_start)
                            == sector_of(f.offset_start);
                    assert(carver::type_offset_key(kept[k].file_type@, sector_of(kept[k].offset_start)) == key);
                }
            }
            keys.contains(&key)
        } else {
            proof {
                assert forall|k: int| 0 <= k < kept_len implies (#[trigger] out@[k]).file_type@ == kept[k].file_type@
                    && out@[k].offset_start == kept[k].offset_start by {
                    assert((kept + unlisted(sig.take(j as int), kept))[k] == kept[k]);
                }
            }
            listed_scan(&out, kept_len, &f, Ghost(kept))
        };
        if listed {
            assert(unlisted(sig.take(j + 1), kept) == prev);
        } else {
            let ghost next = prev.push(f);
            assert(unlisted(sig.take(j + 1), kept) == next);
            let ghost before = out@;
            f.id = out.len() as u64;
            out.push(f);
            assert((kept + next) =~= (kept + prev).push(sig[j as int]));
            assert forall|k: int| 0 <= k < out@.len() implies #[trigger] out@[k] == carver::with_id((kept + next)[k], k as u64) by {
                if k < before.len() {
                    assert(out@[k] == before[k]);
                }
            }
        }
        j += 1;
    }
    assert(sig.take(slen as int) =~= sig);
    out
}

/// A custom profile names a type by the type's own variant name, and that
/// name selects exactly that type: every known type's name maps back to it,
/// and a name that selects a type is that type's name.
pub proof fn lemma_type_named_round_trip(t: FileTypeView, s: Seq<char>)
    ensures
        !(t is Unknown) ==> spec_type_named(t.variant_name()) == Some(t),
        spec_type_named(s) == Some(t) ==> s == t.variant_name(),
{
    reveal_strlit("JPEG");
    reveal_strlit("PNG");
    reveal_strlit("GIF");
    reveal_strlit("TIFF");
    reveal_strlit("BMP");
    reveal_strlit("PDF");
    reveal_strlit("DOCX");
    reveal_strlit("XLSX");
    reveal_strlit("PPTX");
    reveal_strlit("DOC");
    reveal_strlit("TXT");
    reveal_strlit("ZIP");
    reveal_strlit("RAR");
    reveal_strlit("SevenZ");
    reveal_strlit("EXE");
    reveal_strlit("MP4");
    reveal_strlit("AVI");
    reveal_strlit("MKV");
    reveal_strlit("MP3");
    reveal_strlit("WAV");
    reveal_strlit("FLAC");
    reveal_strlit("SQLite");
    let v = t.variant_name();
    match t {
        FileTypeView::JPEG => {
            assert(v =~= "JPEG"@);
            assert(v[0] == 'J' && v[1] == 'P' && v[2] == 'E');
        },
        FileTypeView::PNG => {
            assert(v =~= "PNG"@);
            assert(v[0] == 'P' && v[1] == 'N' && v[2] == 'G');
        },
        FileTypeView::GIF => {
            assert(v =~= "GIF"@);
            assert(v[0] == 'G' && v[1] == 'I' && v[2] == 'F');
        },
        FileTypeView::TIFF => {
            assert(v =~= "TIFF"@);
            assert(v[0] == 'T' && v[1] == 'I' && v[2] == 'F');
        },
        FileTypeView::BMP => {
            assert(v =~= "BMP"@);
            assert(v[0] == 'B' && v[1] == 'M' && v[2] == 'P');
        },
        FileTypeView::PDF => {
            assert(v =~= "PDF"@);
            assert(v[0] == 'P' && v[1] == 'D' && v[2] == 'F');
        },
        FileTypeView::DOCX => {
            assert(v =~= "DOCX"@);
            assert(v[0] == 'D' && v[1] == 'O' && v[2] == 'C');
        },
        FileTypeView::XLSX => {
            assert(v =~= "XLSX"@);
            assert(v[0] == 'X' && v[1] == 'L' && v[2] == 'S');
        },
        FileTypeView::PPTX => {
            assert(v =~= "PPTX"@);
            assert(v[0] == 'P' && v[1] == 'P' && v[2] == 'T');
        },
        FileTypeView::DOC => {
            assert(v =~= "DOC"@);
            assert(v[0] == 'D' && v[1] == 'O' && v[2] == 'C');
        },
        FileTypeView::TXT => {
            assert(v =~= "TXT"@);
            assert(v[0] == 'T' && v[1] == 'X' && v[2] == 'T');
        },
        FileTypeView::ZIP => {
            assert(v =~= "ZIP"@);
            assert(v[0] == 'Z' && v[1] == 'I' && v[2] == 'P');
        },
        FileTypeView::RAR => {
            assert(v =~= "RAR"@);
            assert(v[0] == 'R' && v[1] == 'A' && v[2] == 'R');
        },
        FileTypeView::SevenZ => {
            assert(v =~= "SevenZ"@);
            assert(v[0] == 'S' && v[1] == 'e' && v[2] == 'v');
        },
        FileTypeView::EXE => {
            assert(v =~= "EXE"@);
            assert(v[0] == 'E' && v[1] == 'X' && v[2] == 'E');
        },
        FileTypeView::MP4 => {
            assert(v =~= "MP4"@);
            assert(v[0] == 'M' && v[1] == 'P' && v[2] == '4');
        },
        FileTypeView::AVI => {
            assert(v =~= "AVI"@);
            assert(v[0] == 'A' && v[1] == 'V' && v[2] == 'I');
        },
        FileTypeView::MKV => {
            assert(v =~= "MKV"@);
            assert(v[0] == 'M' && v[1] == 'K' && v[2] == 'V');
        },
        FileTypeView::MP3 => {
            assert(v =~= "MP3"@);
            assert(v[0] == 'M' && v[1] == 'P' && v[2] == '3');
        },
        FileTypeView::WAV => {
            assert(v =~= "WAV"@);
            assert(v[0] == 'W' && v[1] == 'A' && v[2] == 'V');
        },
        FileTypeView::FLAC => {
            assert(v =~= "FLAC"@);
            assert(v[0] == 'F' && v[1] == 'L' && v[2] == 'A');
        },
        FileTypeView::SQLite => {
            assert(v =~= "SQLite"@);
            assert(v[0] == 'S' && v[1] == 'Q' && v[2] == 'L');
        },
        FileTypeView::Unknown(_) => {},
    }
}

proof fn lemma_types_named_of_names(ts: Seq<FileTypeView>)
    requires
        forall|k: int| 0 <= k < ts.len() ==> !(#[trigger] ts[k] is Unknown),
    ensures
        types_named(ts.map_values(|t: FileTypeView| t.variant_name())) == ts,
    decreases ts.len(),
{
    let names = ts.map_values(|t: FileTypeView| t.variant_name());
    if ts.len() > 0 {
        let p = ts.drop_last();
        assert(names.drop_last() =~= p.map_values(|t: FileTypeView| t.variant_name()));
        lemma_types_named_of_names(p);
        lemma_type_named_round_trip(ts.last(), names.last());
        assert(!(ts[ts.len() - 1] is Unknown));
        assert(types_named(names) =~= ts);
    } else {
        assert(names.len() == 0);
        assert(types_named(names) =~= ts);
    }
}

/// A custom profile that ticks some known types, each by its name, scans
/// for exactly those types, in the order given.
pub proof fn lemma_custom_profile_round_trip(ts: Seq<FileTypeView>)
    requires
        ts.len() > 0,
        forall|k: int| 0 <= k < ts.len() ==> !(#[trigger] ts[k] is Unknown),
    ensures
        spec_resolve_allowed("custom"@, ts.map_values(|t: FileTypeView| t.variant_name())) == Some(ts),
{
    reveal_strlit("custom");
    reveal_strlit("fast");
    assert("custom"@[0] != "fast"@[0]);
    lemma_types_named_of_names(ts);
}

/// The "fast" profile keeps the image and document types, in the order of
/// their codes (JPEG through DOC, codes 0 to 9), and text.
pub proof fn lemma_fast_profile_types()
    ensures
        fast_profile_types().len() == 11,
        forall|k: int| 0 <= k < 10 ==> (#[trigger] fast_profile_types()[k]).code() == k,
        fast_profile_types()[10] == FileTypeView::TXT,
{
    let f = fast_profile_types();
    assert forall|k: int| 0 <= k < 10 implies (#[trigger] f[k]).code() == k by {
        if k == 0 {} else if k == 1 {} else if k == 2 {} else if k == 3 {} else if k == 4 {}
        else if k == 5 {} else if k == 6 {} else if k == 7 {} else if k == 8 {} else {}
    }
}

/// Validation checks a recovered file by the same marks the carver looks
/// for: data that starts with the JPEG, PNG, PDF or ZIP signature's header
/// and has its end mark (the footer at the very end for JPEG, anywhere for
/// the others; the IEND chunk type for PNG) is valid with high confidence,
/// and data of those types that does not start with the header is invalid.
pub proof fn lemma_validation_follows_signatures(d: Seq<u8>, t: Seq<char>)
    requires
        !all_zero(d),
    ensures
        t == "JPEG"@ && bytes::occurs_at(d, types::signature_table()[0].header, 0) && bytes::occurs_at(
            d,
            types::signature_table()[0].footer->0,
            d.len() - 2,
        ) ==> spec_validate(d, t).0 && spec_validate(d, t).1 == 95,
        t == "PNG"@ && bytes::occurs_at(d, types::signature_table()[1].header, 0) && bytes::occurs_in(
            d,
            types::signature_table()[1].footer->0.take(4),
        ) ==> spec_validate(d, t).0 && spec_validate(d, t).1 == 97,
        t == "PDF"@ && bytes::occurs_at(d, types::signature_table()[6].header, 0) && bytes::occurs_in(
            d,
            types::signature_table()[6].footer->0,
        ) ==> spec_validate(d, t).0 && spec_validate(d, t).1 == 92,
        (t == "DOCX"@ || t == "ZIP"@) && bytes::occurs_at(d, types::signature_table()[7].header, 0)
            && bytes::occurs_in(d, types::signature_table()[7].footer->0) ==> spec_validate(d, t).0
            && spec_validate(d, t).1 == 93,
        t == "JPEG"@ && !bytes::occurs_at(d, types::signature_table()[0].header, 0) ==> !spec_validate(d, t).0,
        t == "PNG"@ && !bytes::occurs_at(d, types::signature_table()[1].header, 0) ==> !spec_validate(d, t).0,
        t == "PDF"@ && !bytes::occurs_at(d, types::signature_table()[6].header, 0) ==> !spec_validate(d, t).0,
        (t == "DOCX"@ || t == "ZIP"@) && !bytes::occurs_at(d, types::signature_table()[7].header, 0)
            ==> !spec_validate(d, t).0,
{
    types::lemma_signature_magic();
    reveal_strlit("JPEG");
    reveal_strlit("PNG");
    reveal_strlit("PDF");
    reveal_strlit("DOCX");
    reveal_strlit("XLSX");
    reveal_strlit("PPTX");
    reveal_strlit("ZIP");
    assert(d.len() > 0);
    assert("PDF"@[1] != "PNG"@[1]);
    assert("ZIP"@[0] != "PNG"@[0] && "ZIP"@[0] != "PDF"@[0]);
    assert("DOCX"@[0] != "JPEG"@[0]);
    let png_footer = types::signature_table()[1].footer->0;
    assert(png_footer.take(4) =~= seq![0x49u8, 0x45, 0x4E, 0x44]);
    if t == "JPEG"@ && d.len() >= 2 && bytes::occurs_at(d, types::signature_table()[0].footer->0, d.len() - 2) {
        assert(d.subrange(d.len() - 2, d.len() as int)[0] == d[d.len() - 2]);
        assert(d.subrange(d.len() - 2, d.len() as int)[1] == d[d.len() - 1]);
    }
}

/// Base64 digits are those of the standard alphabet
/// "ABCDEFGHIJKLMNOPQRSTUVWXYZabcdefghijklmnopqrstuvwxyz0123456789+/".
pub proof fn lemma_b64_alphabet(v: int)
    requires
        0 <= v < 64,
    ensures
        b64_digit(v) == "ABCDEFGHIJKLMNOPQRSTUVWXYZabcdefghijklmnopqrstuvwxyz0123456789+/"@[v],
{
    reveal_strlit("ABCDEFGHIJKLMNOPQRSTUVWXYZabcdefghijklmnopqrstuvwxyz0123456789+/");
    let a = "ABCDEFGHIJKLMNOPQRSTUVWXYZabcdefghijklmnopqrstuvwxyz0123456789+/"@;
    assert(a =~= Seq::new(64, |k: int| if k < 26 { (65 + k) as char } else if k < 52 { (97 + k - 26) as char } else if k < 62 { (48 + k - 52) as char } else if k == 62 { '+' } else { '/' }));
}

proof fn lemma_admitted_records_members(s: Seq<RecoveredFile>, allowed: Option<Seq<FileTypeView>>)
    ensures
        forall|f: RecoveredFile| #[trigger] admitted_records(s, allowed).contains(f) <==> (s.contains(f)
            && carver::type_admitted(f.file_type@, allowed)),
    decreases s.len(),
{
    if s.len() > 0 {
        let p = s.drop_last();
        lemma_admitted_records_members(p, allowed);
        let r = admitted_records(p, allowed);
        assert forall|f: RecoveredFile| #[trigger] admitted_records(s, allowed).contains(f) <==> (s.contains(f)
            && carver::type_admitted(f.file_type@, allowed)) by {
            if s.contains(f) {
                let k = choose|k: int| 0 <= k < s.len() && s[k] == f;
                if k < p.len() {
                    assert(p[k] == f);
                }
            }
            if p.contains(f) {
                let k = choose|k: int| 0 <= k < p.len() && p[k] == f;
                assert(s[k] == f);
            }
            if carver::type_admitted(s.last().file_type@, allowed) {
                let q = r.push(s.last());
                if q.contains(f) {
                    let k = choose|k: int| 0 <= k < q.len() && q[k] == f;
                    if k < r.len() {
                        assert(r[k] == f);
                    }
                }
                if r.contains(f) {
                    let k = choose|k: int| 0 <= k < r.len() && r[k] == f;
                    assert(q[k] == f);
                }
                assert(q[r.len() as int] == s.last());
            }
            assert(s[s.len() - 1] == s.last());
        }
    }
}

proof fn lemma_unlisted_members(sig: Seq<RecoveredFile>, fat: Seq<RecoveredFile>)
    ensures
        forall|f: RecoveredFile| #[trigger] unlisted(sig, fat).contains(f) <==> (sig.contains(f) && !listed_in(f, fat)),
    decreases sig.len(),
{
    if sig.len() > 0 {
        let p = sig.drop_last();
        lemma_unlisted_members(p, fat);
        let r = unlisted(p, fat);
        assert forall|f: RecoveredFile| #[trigger] unlisted(sig, fat).contains(f) <==> (sig.contains(f) && !listed_in(
            f,
            fat,
        )) by {
            if sig.contains(f) {
                let k = choose|k: int| 0 <= k < sig.len() && sig[k] == f;
                if k < p.len() {
                    assert(p[k] == f);
                }
            }
            if p.contains(f) {
                let k = choose|k: int| 0 <= k < p.len() && p[k] == f;
                assert(sig[k] == f);
            }
            if !listed_in(sig.last(), fat) {
                let q = r.push(sig.last());
                if q.contains(f) {
                    let k = choose|k: int| 0 <= k < q.len() && q[k] == f;
                    if k < r.len() {
                        assert(r[k] == f);
                    }
                }
                if r.contains(f) {
                    let k = choose|k: int| 0 <= k < r.len() && r[k] == f;
                    assert(q[k] == f);
                }
                assert(q[r.len() as int] == sig.last());
            }
            assert(sig[sig.len() - 1] == sig.last());
        }
    }
}

/// Merging keeps every directory record of an admitted type and every
/// signature record that no kept directory record lists (same type, same
/// sector), and nothing else; the directory records come first, in order.
pub proof fn lemma_merge_members(fat: Seq<RecoveredFile>, allowed: Option<Seq<FileTypeView>>, sig: Seq<RecoveredFile>)
    ensures
        forall|f: RecoveredFile| #[trigger] merged(fat, allowed, sig).contains(f) <==> ((fat.contains(f)
            && carver::type_admitted(f.file_type@, allowed)) || (sig.contains(f) && !listed_in(
            f,
            admitted_records(fat, allowed),
        ))),
        merged(fat, allowed, sig).take(admitted_records(fat, allowed).len() as int) == admitted_records(fat, allowed),
{
    let a = admitted_records(fat, allowed);
    let u = unlisted(sig, a);
    let m = merged(fat, allowed, sig);
    lemma_admitted_records_members(fat, allowed);
    lemma_unlisted_members(sig, a);
    assert forall|f: RecoveredFile| #[trigger] m.contains(f) <==> (a.contains(f) || u.contains(f)) by {
        if m.contains(f) {
            let k = choose|k: int| 0 <= k < m.len() && m[k] == f;
            if k < a.len() {
                assert(a[k] == f);
            } else {
                assert(u[k - a.len()] == f);
            }
        }
        if a.contains(f) {
            let k = choose|k: int| 0 <= k < a.len() && a[k] == f;
            assert(m[k] == f);
        }
        if u.contains(f) {
            let k = choose|k: int| 0 <= k < u.len() && u[k] == f;
            assert(m[a.len() + k] == f);
        }
    }
    assert(m.take(a.len() as int) =~= a);
}

} // verus!
