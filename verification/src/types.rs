//! Data types shared by the carvers, the directory scanners, the MFT parser and
//! the shredder.
use vstd::prelude::*;

verus! {

/// Kind of a recovered file.
#[derive(Debug)]
pub enum FileType {
    JPEG,
    PNG,
    GIF,
    TIFF,
    BMP,
    PDF,
    DOCX,
    XLSX,
    PPTX,
    DOC,
    ZIP,
    RAR,
    SevenZ,
    EXE,
    MP4,
    AVI,
    MKV,
    MP3,
    WAV,
    FLAC,
    SQLite,
    TXT,
    Unknown(String),
}

/// Mathematical model of a `FileType`: the same variants, with the label of
/// `Unknown` taken as its characters.
pub enum FileTypeView {
    JPEG,
    PNG,
    GIF,
    TIFF,
    BMP,
    PDF,
    DOCX,
    XLSX,
    PPTX,
    DOC,
    ZIP,
    RAR,
    SevenZ,
    EXE,
    MP4,
    AVI,
    MKV,
    MP3,
    WAV,
    FLAC,
    SQLite,
    TXT,
    Unknown(Seq<char>),
}

impl View for FileType {
    type V = FileTypeView;

    open spec fn view(&self) -> FileTypeView {
        match self {
            FileType::JPEG => FileTypeView::JPEG,
            FileType::PNG => FileTypeView::PNG,
            FileType::GIF => FileTypeView::GIF,
            FileType::TIFF => FileTypeView::TIFF,
            FileType::BMP => FileTypeView::BMP,
            FileType::PDF => FileTypeView::PDF,
            FileType::DOCX => FileTypeView::DOCX,
            FileType::XLSX => FileTypeView::XLSX,
            FileType::PPTX => FileTypeView::PPTX,
            FileType::DOC => FileTypeView::DOC,
            FileType::ZIP => FileTypeView::ZIP,
            FileType::RAR => FileTypeView::RAR,
            FileType::SevenZ => FileTypeView::SevenZ,
            FileType::EXE => FileTypeView::EXE,
            FileType::MP4 => FileTypeView::MP4,
            FileType::AVI => FileTypeView::AVI,
            FileType::MKV => FileTypeView::MKV,
            FileType::MP3 => FileTypeView::MP3,
            FileType::WAV => FileTypeView::WAV,
            FileType::FLAC => FileTypeView::FLAC,
            FileType::SQLite => FileTypeView::SQLite,
            FileType::TXT => FileTypeView::TXT,
            FileType::Unknown(s) => FileTypeView::Unknown(s@),
        }
    }
}

impl FileTypeView {
    /// The display name of a file type: the variant's name, "7Z" for 7-Zip, and
    /// the label itself for an unknown type.
    pub open spec fn name(self) -> Seq<char> {
        match self {
            FileTypeView::JPEG => seq!['J', 'P', 'E', 'G'],
            FileTypeView::PNG => seq!['P', 'N', 'G'],
            FileTypeView::GIF => seq!['G', 'I', 'F'],
            FileTypeView::TIFF => seq!['T', 'I', 'F', 'F'],
            FileTypeView::BMP => seq!['B', 'M', 'P'],
            FileTypeView::PDF => seq!['P', 'D', 'F'],
            FileTypeView::DOCX => seq!['D', 'O', 'C', 'X'],
            FileTypeView::XLSX => seq!['X', 'L', 'S', 'X'],
            FileTypeView::PPTX => seq!['P', 'P', 'T', 'X'],
            FileTypeView::DOC => seq!['D', 'O', 'C'],
            FileTypeView::ZIP => seq!['Z', 'I', 'P'],
            FileTypeView::RAR => seq!['R', 'A', 'R'],
            FileTypeView::SevenZ => seq!['7', 'Z'],
            FileTypeView::EXE => seq!['E', 'X', 'E'],
            FileTypeView::MP4 => seq!['M', 'P', '4'],
            FileTypeView::AVI => seq!['A', 'V', 'I'],
            FileTypeView::MKV => seq!['M', 'K', 'V'],
            FileTypeView::MP3 => seq!['M', 'P', '3'],
            FileTypeView::WAV => seq!['W', 'A', 'V'],
            FileTypeView::FLAC => seq!['F', 'L', 'A', 'C'],
            FileTypeView::SQLite => seq!['S', 'Q', 'L', 'i', 't', 'e'],
            FileTypeView::TXT => seq!['T', 'X', 'T'],
            FileTypeView::Unknown(s) => s,
        }
    }

    /// The variant's Rust name, as a derived `Debug` prints it for the
    /// label-free variants ("SevenZ" rather than "7Z").
    pub open spec fn variant_name(self) -> Seq<char> {
        match self {
            FileTypeView::SevenZ => seq!['S', 'e', 'v', 'e', 'n', 'Z'],
            _ => self.name(),
        }
    }

    /// Numeric code of a known variant (0 to 21); 255 for `Unknown`.
    pub open spec fn code(self) -> u8 {
        match self {
            FileTypeView::JPEG => 0,
            FileTypeView::PNG => 1,
            FileTypeView::GIF => 2,
            FileTypeView::TIFF => 3,
            FileTypeView::BMP => 4,
            FileTypeView::PDF => 5,
            FileTypeView::DOCX => 6,
            FileTypeView::XLSX => 7,
            FileTypeView::PPTX => 8,
            FileTypeView::DOC => 9,
            FileTypeView::ZIP => 10,
            FileTypeView::RAR => 11,
            FileTypeView::SevenZ => 12,
            FileTypeView::EXE => 13,
            FileTypeView::MP4 => 14,
            FileTypeView::AVI => 15,
            FileTypeView::MKV => 16,
            FileTypeView::MP3 => 17,
            FileTypeView::WAV => 18,
            FileTypeView::FLAC => 19,
            FileTypeView::SQLite => 20,
            FileTypeView::TXT => 21,
            FileTypeView::Unknown(_) => 255,
        }
    }

    /// Image and text types can be previewed inline.
    pub open spec fn previewable(self) -> bool {
        match self {
            FileTypeView::JPEG | FileTypeView::PNG | FileTypeView::GIF | FileTypeView::BMP
            | FileTypeView::TIFF | FileTypeView::TXT => true,
            _ => false,
        }
    }
}

impl Clone for FileType {
    fn clone(&self) -> (r: Self)
        ensures
            r@ == self@,
    {
        match self {
            FileType::JPEG => FileType::JPEG,
            FileType::PNG => FileType::PNG,
            FileType::GIF => FileType::GIF,
            FileType::TIFF => FileType::TIFF,
            FileType::BMP => FileType::BMP,
            FileType::PDF => FileType::PDF,
            FileType::DOCX => FileType::DOCX,
            FileType::XLSX => FileType::XLSX,
            FileType::PPTX => FileType::PPTX,
            FileType::DOC => FileType::DOC,
            FileType::ZIP => FileType::ZIP,
            FileType::RAR => FileType::RAR,
            FileType::SevenZ => FileType::SevenZ,
            FileType::EXE => FileType::EXE,
            FileType::MP4 => FileType::MP4,
            FileType::AVI => FileType::AVI,
            FileType::MKV => FileType::MKV,
            FileType::MP3 => FileType::MP3,
            FileType::WAV => FileType::WAV,
            FileType::FLAC => FileType::FLAC,
            FileType::SQLite => FileType::SQLite,
            FileType::TXT => FileType::TXT,
            FileType::Unknown(s) => FileType::Unknown(s.clone()),
        }
    }
}

impl FileType {
    /// Numeric code of the variant; 255 for `Unknown`.
    pub fn code(&self) -> (r: u8)
        ensures
            r == self@.code(),
    {
        match self {
            FileType::JPEG => 0,
            FileType::PNG => 1,
            FileType::GIF => 2,
            FileType::TIFF => 3,
            FileType::BMP => 4,
            FileType::PDF => 5,
            FileType::DOCX => 6,
            FileType::XLSX => 7,
            FileType::PPTX => 8,
            FileType::DOC => 9,
            FileType::ZIP => 10,
            FileType::RAR => 11,
            FileType::SevenZ => 12,
            FileType::EXE => 13,
            FileType::MP4 => 14,
            FileType::AVI => 15,
            FileType::MKV => 16,
            FileType::MP3 => 17,
            FileType::WAV => 18,
            FileType::FLAC => 19,
            FileType::SQLite => 20,
            FileType::TXT => 21,
            FileType::Unknown(_) => 255,
        }
    }

    /// Whether two file types are the same (same variant, same label).
    pub fn same_as(&self, other: &FileType) -> (r: bool)
        ensures
            r == (self@ == other@),
    {
        match (self, other) {
            (FileType::Unknown(a), FileType::Unknown(b)) => *a == *b,
            (FileType::Unknown(_), _) => false,
            (_, FileType::Unknown(_)) => false,
            _ => self.code() == other.code(),
        }
    }

    /// Whether `self` occurs in `list`.
    pub fn is_in(&self, list: &Vec<FileType>) -> (r: bool)
        ensures
            r == (exists|i: int| 0 <= i < list.len() && list[i]@ == self@),
    {
        let mut i: usize = 0;
        while i < list.len()
            invariant
                i <= list.len(),
                forall|j: int| 0 <= j < i ==> list[j]@ != self@,
            decreases list.len() - i,
        {
            if list[i].same_as(self) {
                return true;
            }
            i += 1;
        }
        false
    }

    /// The display name: the variant's name ("7Z" for 7-Zip), or the label of
    /// an unknown type.
    pub fn display_name(&self) -> (r: String)
        ensures
            r@ == self@.name(),
    {
        let lit: &str = match self {
            FileType::JPEG => "JPEG",
            FileType::PNG => "PNG",
            FileType::GIF => "GIF",
            FileType::TIFF => "TIFF",
            FileType::BMP => "BMP",
            FileType::PDF => "PDF",
            FileType::DOCX => "DOCX",
            FileType::XLSX => "XLSX",
            FileType::PPTX => "PPTX",
            FileType::DOC => "DOC",
            FileType::ZIP => "ZIP",
            FileType::RAR => "RAR",
            FileType::SevenZ => "7Z",
            FileType::EXE => "EXE",
            FileType::MP4 => "MP4",
            FileType::AVI => "AVI",
            FileType::MKV => "MKV",
            FileType::MP3 => "MP3",
            FileType::WAV => "WAV",
            FileType::FLAC => "FLAC",
            FileType::SQLite => "SQLite",
            FileType::TXT => "TXT",
            FileType::Unknown(s) => {
                return s.clone();
            },
        };
        proof {
            reveal_strlit("JPEG");
            reveal_strlit("PNG");
            reveal_strlit("GIF");
            reveal_strlit("TIFF");
            reveal_strlit("BMP");
            reveal_strlit("PDF");
            reveal_strlit("DOCX");
            reveal_strlit("XLSX");
            reveal_strlit("PPTX");
            reveal_strlit("DOC");
            reveal_strlit("ZIP");
            reveal_strlit("RAR");
            reveal_strlit("7Z");
            reveal_strlit("EXE");
            reveal_strlit("MP4");
            reveal_strlit("AVI");
            reveal_strlit("MKV");
            reveal_strlit("MP3");
            reveal_strlit("WAV");
            reveal_strlit("FLAC");
            reveal_strlit("SQLite");
            reveal_strlit("TXT");
        }
        String::from_str(lit)
    }

    /// Whether the type can be previewed inline (images and text).
    pub fn is_previewable(&self) -> (r: bool)
        ensures
            r == self@.previewable(),
    {
        matches!(
            self,
            FileType::JPEG | FileType::PNG | FileType::GIF | FileType::BMP | FileType::TIFF
                | FileType::TXT
        )
    }
}

/// Magic-byte signature used to carve files out of raw data.
#[derive(Debug)]
pub struct FileSignature {
    pub header: Vec<u8>,
    pub footer: Option<Vec<u8>>,
    pub file_type: FileType,
    pub max_size: u64,
    /// Secondary check `(offset_from_match_start, expected_bytes)`: after the
    /// header matches, the bytes at that offset must equal `expected_bytes`.
    pub verify: Option<(usize, Vec<u8>)>,
}

/// Model of a `FileSignature`.
pub struct SignatureView {
    pub header: Seq<u8>,
    pub footer: Option<Seq<u8>>,
    pub file_type: FileTypeView,
    pub max_size: u64,
    pub verify: Option<(usize, Seq<u8>)>,
}

impl View for FileSignature {
    type V = SignatureView;

    open spec fn view(&self) -> SignatureView {
        SignatureView {
            header: self.header@,
            footer: match self.footer {
                Some(f) => Some(f@),
                None => None,
            },
            file_type: self.file_type@,
            max_size: self.max_size,
            verify: match self.verify {
                Some((o, b)) => Some((o, b@)),
                None => None,
            },
        }
    }
}

/// A file found on a device, by signature carving or from a directory entry.
#[derive(Debug)]
pub struct RecoveredFile {
    pub id: u64,
    pub file_type: FileType,
    pub offset_start: u64,
    pub offset_end: u64,
    pub size_bytes: u64,
    /// Estimated chance of recovering the file intact, in percent (0 to 100).
    pub recovery_percent: u8,
    pub signature_matched: String,
    pub is_fragmented: bool,
    pub fragment_count: u32,
    pub sector_overwritten: bool,
    pub preview_available: bool,
    pub thumbnail_base64: Option<String>,
    /// Original filename from a FAT32/exFAT directory entry, if available.
    pub original_name: Option<String>,
}

/// Result of validating a recovered file's byte content.
#[derive(Debug)]
pub struct ValidationStatus {
    pub is_valid: bool,
    /// Confidence in percent (0 to 100).
    pub confidence_percent: u8,
    pub details: String,
}

/// State of a signature scan.
#[derive(Debug)]
pub enum ScanStatus {
    Idle,
    Scanning,
    Paused,
    Completed,
    Error(String),
}

/// Overall health of a disk.
#[derive(PartialEq, Eq, Structural, Clone, Copy, Debug)]
pub enum HealthStatus {
    Healthy,
    Warning,
    Critical,
    Unknown,
}

/// S.M.A.R.T. summary of a disk.
#[derive(Debug)]
pub struct SmartHealth {
    pub overall_health: HealthStatus,
    pub temperature_celsius: Option<u32>,
    pub reallocated_sectors: u32,
    pub pending_sectors: u32,
    pub uncorrectable_sectors: u32,
    pub power_on_hours: u64,
    pub health_score: u8,
}

/// A disk as listed to the user.
#[derive(Debug)]
pub struct DiskInfo {
    pub device_path: String,
    pub display_name: String,
    pub total_bytes: u64,
    pub used_bytes: u64,
    pub file_system: String,
    pub is_ssd: bool,
    pub smart_health: SmartHealth,
    pub model: String,
    pub serial: String,
}

/// Overwrite algorithm of the shredder.
#[derive(PartialEq, Eq, Structural, Clone, Copy, Debug)]
pub enum ShredAlgorithm {
    /// DoD 5220.22-M: 3 passes (0x00, 0xFF, random)
    DoD5220,
    /// Gutmann: 35 passes with specific patterns
    Gutmann35,
    /// Single pass random (fast)
    RandomSingle,
    /// NVMe Secure Erase via the Sanitize command
    NvmeSanitize,
    /// NVMe Format NVM command
    NvmeFormat,
    /// Schneier 7-pass: 0x00, 0xFF, then 5 random passes
    Schneier7,
}

/// What to shred and how.
#[derive(Debug)]
pub struct ShredOptions {
    pub algorithm: ShredAlgorithm,
    pub verify_passes: bool,
    pub target_path: String,
}

/// State of a shred operation.
#[derive(Debug)]
pub enum ShredStatus {
    Idle,
    Shredding,
    Verifying,
    Completed,
    Error(String),
}

/// Progress report of a shred operation.
#[derive(Debug)]
pub struct ShredProgress {
    pub current_pass: u32,
    pub total_passes: u32,
    pub bytes_written: u64,
    pub total_bytes: u64,
    pub algorithm: String,
    pub verification_passed: Option<bool>,
    pub status: ShredStatus,
}


/// The carving signatures, in the order they are tried.  Headers and
/// footers are magic bytes; `max_size` bounds the carved length; `verify`
/// is a second pattern at an offset from the header.
pub open spec fn signature_table() -> Seq<SignatureView> {
    seq![
        SignatureView {
            header: seq![0xFFu8, 0xD8, 0xFF],
            footer: Some(seq![0xFFu8, 0xD9]),
            file_type: FileTypeView::JPEG,
            max_size: (50 * 1024 * 1024) as u64,
            verify: None,
        },
        SignatureView {
            header: seq![0x89u8, 0x50, 0x4E, 0x47, 0x0D, 0x0A, 0x1A, 0x0A],
            footer: Some(seq![0x49u8, 0x45, 0x4E, 0x44, 0xAE, 0x42, 0x60, 0x82]),
            file_type: FileTypeView::PNG,
            max_size: (100 * 1024 * 1024) as u64,
            verify: None,
        },
        SignatureView {
            header: seq![0x47u8, 0x49, 0x46, 0x38],
            footer: Some(seq![0x00u8, 0x3B]),
            file_type: FileTypeView::GIF,
            max_size: (20 * 1024 * 1024) as u64,
            verify: None,
        },
        // TIFF little-endian (II)
        SignatureView {
            header: seq![0x49u8, 0x49, 0x2A, 0x00],
            footer: None,
            file_type: FileTypeView::TIFF,
            max_size: (200 * 1024 * 1024) as u64,
            verify: None,
        },
        // TIFF big-endian (MM)
        SignatureView {
            header: seq![0x4Du8, 0x4D, 0x00, 0x2A],
            footer: None,
            file_type: FileTypeView::TIFF,
            max_size: (200 * 1024 * 1024) as u64,
            verify: None,
        },
        // BMP: "BM" magic, reserved bytes 6-9 must be zero
        SignatureView {
            header: seq![0x42u8, 0x4D],
            footer: None,
            file_type: FileTypeView::BMP,
            max_size: (50 * 1024 * 1024) as u64,
            verify: Some((6usize, seq![0x00u8, 0x00, 0x00, 0x00])),
        },
        // %PDF- ... %%EOF
        SignatureView {
            header: seq![0x25u8, 0x50, 0x44, 0x46, 0x2D],
            footer: Some(seq![0x25u8, 0x25, 0x45, 0x4F, 0x46]),
            file_type: FileTypeView::PDF,
            max_size: (200 * 1024 * 1024) as u64,
            verify: None,
        },
        // ZIP-based Office (DOCX/XLSX/PPTX) and plain ZIP; refined after the scan
        SignatureView {
            header: seq![0x50u8, 0x4B, 0x03, 0x04],
            footer: Some(seq![0x50u8, 0x4B, 0x05, 0x06]),
            file_type: FileTypeView::DOCX,
            max_size: (100 * 1024 * 1024) as u64,
            verify: None,
        },
        // OLE2 compound document (Word/Excel/PowerPoint 97-2003)
        SignatureView {
            header: seq![0xD0u8, 0xCF, 0x11, 0xE0, 0xA1, 0xB1, 0x1A, 0xE1],
            footer: None,
            file_type: FileTypeView::DOC,
            max_size: (100 * 1024 * 1024) as u64,
            verify: None,
        },
        // RAR 1.5-4.x
        SignatureView {
            header: seq![0x52u8, 0x61, 0x72, 0x21, 0x1A, 0x07, 0x00],
            footer: None,
            file_type: FileTypeView::RAR,
            max_size: (2 * 1024 * 1024 * 1024) as u64,
            verify: None,
        },
        // RAR 5.0+
        SignatureView {
            header: seq![0x52u8, 0x61, 0x72, 0x21, 0x1A, 0x07, 0x01, 0x00],
            footer: None,
            file_type: FileTypeView::RAR,
            max_size: (2 * 1024 * 1024 * 1024) as u64,
            verify: None,
        },
        // 7-Zip
        SignatureView {
            header: seq![0x37u8, 0x7A, 0xBC, 0xAF, 0x27, 0x1C],
            footer: None,
            file_type: FileTypeView::SevenZ,
            max_size: (2 * 1024 * 1024 * 1024) as u64,
            verify: None,
        },
        // MZ with the standard DOS stub
        SignatureView {
            header: seq![0x4Du8, 0x5A, 0x90, 0x00],
            footer: None,
            file_type: FileTypeView::EXE,
            max_size: (50 * 1024 * 1024) as u64,
            verify: None,
        },
        // MP4/MOV/M4V ftyp box, four common box sizes
        SignatureView {
            header: seq![0x00u8, 0x00, 0x00, 0x14, 0x66, 0x74, 0x79, 0x70],
            footer: None,
            file_type: FileTypeView::MP4,
            max_size: (4 * 1024 * 1024 * 1024) as u64,
            verify: None,
        },
        SignatureView {
            header: seq![0x00u8, 0x00, 0x00, 0x18, 0x66, 0x74, 0x79, 0x70],
            footer: None,
            file_type: FileTypeView::MP4,
            max_size: (4 * 1024 * 1024 * 1024) as u64,
            verify: None,
        },
        SignatureView {
            header: seq![0x00u8, 0x00, 0x00, 0x1C, 0x66, 0x74, 0x79, 0x70],
            footer: None,
            file_type: FileTypeView::MP4,
            max_size: (4 * 1024 * 1024 * 1024) as u64,
            verify: None,
        },
        SignatureView {
            header: seq![0x00u8, 0x00, 0x00, 0x20, 0x66, 0x74, 0x79, 0x70],
            footer: None,
            file_type: FileTypeView::MP4,
            max_size: (4 * 1024 * 1024 * 1024) as u64,
            verify: None,
        },
        // AVI: RIFF container with "AVI " at offset 8
        SignatureView {
            header: seq![0x52u8, 0x49, 0x46, 0x46],
            footer: None,
            file_type: FileTypeView::AVI,
            max_size: (4 * 1024 * 1024 * 1024) as u64,
            verify: Some((8usize, seq![0x41u8, 0x56, 0x49, 0x20])),
        },
        // MKV / WebM: EBML header
        SignatureView {
            header: seq![0x1Au8, 0x45, 0xDF, 0xA3],
            footer: None,
            file_type: FileTypeView::MKV,
            max_size: (4 * 1024 * 1024 * 1024) as u64,
            verify: None,
        },
        // MP3 with ID3v2.3 tag
        SignatureView {
            header: seq![0x49u8, 0x44, 0x33, 0x03],
            footer: None,
            file_type: FileTypeView::MP3,
            max_size: (50 * 1024 * 1024) as u64,
            verify: None,
        },
        // MP3 with ID3v2.4 tag
        SignatureView {
            header: seq![0x49u8, 0x44, 0x33, 0x04],
            footer: None,
            file_type: FileTypeView::MP3,
            max_size: (50 * 1024 * 1024) as u64,
            verify: None,
        },
        // WAV: RIFF container with "WAVE" at offset 8
        SignatureView {
            header: seq![0x52u8, 0x49, 0x46, 0x46],
            footer: None,
            file_type: FileTypeView::WAV,
            max_size: (500 * 1024 * 1024) as u64,
            verify: Some((8usize, seq![0x57u8, 0x41, 0x56, 0x45])),
        },
        // FLAC: "fLaC" stream marker
        SignatureView {
            header: seq![0x66u8, 0x4C, 0x61, 0x43],
            footer: None,
            file_type: FileTypeView::FLAC,
            max_size: (500 * 1024 * 1024) as u64,
            verify: None,
        },
        // SQLite 3: 16-byte header string
        SignatureView {
            header: seq![0x53u8, 0x51, 0x4C, 0x69, 0x74, 0x65, 0x20, 0x66, 0x6F, 0x72, 0x6D, 0x61, 0x74, 0x20, 0x33, 0x00],
            footer: None,
            file_type: FileTypeView::SQLite,
            max_size: (512 * 1024 * 1024) as u64,
            verify: None,
        },
    ]
}

impl FileSignature {
    /// All known carving signatures, in the order of `signature_table`.
    #[verifier::rlimit(60)]
    pub fn all_signatures() -> (r: Vec<FileSignature>)
        ensures
            r@.len() == signature_table().len(),
            forall|i: int| 0 <= i < r@.len() ==> #[trigger] r@[i]@ == signature_table()[i],
    {
        let mut sigs: Vec<FileSignature> = Vec::new();
        sigs.push(FileSignature {
            header: vec![0xFFu8, 0xD8, 0xFF],
            footer: Some(vec![0xFFu8, 0xD9]),
            file_type: FileType::JPEG,
            max_size: 50 * 1024 * 1024,
            verify: None,
        });
        assert(sigs@[0]@ =~= signature_table()[0]);
        sigs.push(FileSignature {
            header: vec![0x89u8, 0x50, 0x4E, 0x47, 0x0D, 0x0A, 0x1A, 0x0A],
            footer: Some(vec![0x49u8, 0x45, 0x4E, 0x44, 0xAE, 0x42, 0x60, 0x82]),
            file_type: FileType::PNG,
            max_size: 100 * 1024 * 1024,
            verify: None,
        });
        assert(sigs@[1]@ =~= signature_table()[1]);
        sigs.push(FileSignature {
            header: vec![0x47u8, 0x49, 0x46, 0x38],
            footer: Some(vec![0x00u8, 0x3B]),
            file_type: FileType::GIF,
            max_size: 20 * 1024 * 1024,
            verify: None,
        });
        assert(sigs@[2]@ =~= signature_table()[2]);
        // TIFF little-endian (II)
        sigs.push(FileSignature {
            header: vec![0x49u8, 0x49, 0x2A, 0x00],
            footer: None,
            file_type: FileType::TIFF,
            max_size: 200 * 1024 * 1024,
            verify: None,
        });
        assert(sigs@[3]@ =~= signature_table()[3]);
        // TIFF big-endian (MM)
        sigs.push(FileSignature {
            header: vec![0x4Du8, 0x4D, 0x00, 0x2A],
            footer: None,
            file_type: FileType::TIFF,
            max_size: 200 * 1024 * 1024,
            verify: None,
        });
        assert(sigs@[4]@ =~= signature_table()[4]);
        // BMP: "BM" magic, reserved bytes 6-9 must be zero
        sigs.push(FileSignature {
            header: vec![0x42u8, 0x4D],
            footer: None,
            file_type: FileType::BMP,
            max_size: 50 * 1024 * 1024,
            verify: Some((6, vec![0x00u8, 0x00, 0x00, 0x00])),
        });
        assert(sigs@[5]@ =~= signature_table()[5]);
        // %PDF- ... %%EOF
        sigs.push(FileSignature {
            header: vec![0x25u8, 0x50, 0x44, 0x46, 0x2D],
            footer: Some(vec![0x25u8, 0x25, 0x45, 0x4F, 0x46]),
            file_type: FileType::PDF,
            max_size: 200 * 1024 * 1024,
            verify: None,
        });
        assert(sigs@[6]@ =~= signature_table()[6]);
        // ZIP-based Office (DOCX/XLSX/PPTX) and plain ZIP; refined after the scan
        sigs.push(FileSignature {
            header: vec![0x50u8, 0x4B, 0x03, 0x04],
            footer: Some(vec![0x50u8, 0x4B, 0x05, 0x06]),
            file_type: FileType::DOCX,
            max_size: 100 * 1024 * 1024,
            verify: None,
        });
        assert(sigs@[7]@ =~= signature_table()[7]);
        // OLE2 compound document (Word/Excel/PowerPoint 97-2003)
        sigs.push(FileSignature {
            header: vec![0xD0u8, 0xCF, 0x11, 0xE0, 0xA1, 0xB1, 0x1A, 0xE1],
            footer: None,
            file_type: FileType::DOC,
            max_size: 100 * 1024 * 1024,
            verify: None,
        });
        assert(sigs@[8]@ =~= signature_table()[8]);
        // RAR 1.5-4.x
        sigs.push(FileSignature {
            header: vec![0x52u8, 0x61, 0x72, 0x21, 0x1A, 0x07, 0x00],
            footer: None,
            file_type: FileType::RAR,
            max_size: 2 * 1024 * 1024 * 1024,
            verify: None,
        });
        assert(sigs@[9]@ =~= signature_table()[9]);
        // RAR 5.0+
        sigs.push(FileSignature {
            header: vec![0x52u8, 0x61, 0x72, 0x21, 0x1A, 0x07, 0x01, 0x00],
            footer: None,
            file_type: FileType::RAR,
            max_size: 2 * 1024 * 1024 * 1024,
            verify: None,
        });
        assert(sigs@[10]@ =~= signature_table()[10]);
        // 7-Zip
        sigs.push(FileSignature {
            header: vec![0x37u8, 0x7A, 0xBC, 0xAF, 0x27, 0x1C],
            footer: None,
            file_type: FileType::SevenZ,
            max_size: 2 * 1024 * 1024 * 1024,
            verify: None,
        });
        assert(sigs@[11]@ =~= signature_table()[11]);
        // MZ with the standard DOS stub
        sigs.push(FileSignature {
            header: vec![0x4Du8, 0x5A, 0x90, 0x00],
            footer: None,
            file_type: FileType::EXE,
            max_size: 50 * 1024 * 1024,
            verify: None,
        });
        assert(sigs@[12]@ =~= signature_table()[12]);
        // MP4/MOV/M4V ftyp box, four common box sizes
        sigs.push(FileSignature {
            header: vec![0x00u8, 0x00, 0x00, 0x14, 0x66, 0x74, 0x79, 0x70],
            footer: None,
            file_type: FileType::MP4,
            max_size: 4 * 1024 * 1024 * 1024,
            verify: None,
        });
        assert(sigs@[13]@ =~= signature_table()[13]);
        sigs.push(FileSignature {
            header: vec![0x00u8, 0x00, 0x00, 0x18, 0x66, 0x74, 0x79, 0x70],
            footer: None,
            file_type: FileType::MP4,
            max_size: 4 * 1024 * 1024 * 1024,
            verify: None,
        });
        assert(sigs@[14]@ =~= signature_table()[14]);
        sigs.push(FileSignature {
            header: vec![0x00u8, 0x00, 0x00, 0x1C, 0x66, 0x74, 0x79, 0x70],
            footer: None,
            file_type: FileType::MP4,
            max_size: 4 * 1024 * 1024 * 1024,
            verify: None,
        });
        assert(sigs@[15]@ =~= signature_table()[15]);
        sigs.push(FileSignature {
            header: vec![0x00u8, 0x00, 0x00, 0x20, 0x66, 0x74, 0x79, 0x70],
            footer: None,
            file_type: FileType::MP4,
            max_size: 4 * 1024 * 1024 * 1024,
            verify: None,
        });
        assert(sigs@[16]@ =~= signature_table()[16]);
        // AVI: RIFF container with "AVI " at offset 8
        sigs.push(FileSignature {
            header: vec![0x52u8, 0x49, 0x46, 0x46],
            footer: None,
            file_type: FileType::AVI,
            max_size: 4 * 1024 * 1024 * 1024,
            verify: Some((8, vec![0x41u8, 0x56, 0x49, 0x20])),
        });
        assert(sigs@[17]@ =~= signature_table()[17]);
        // MKV / WebM: EBML header
        sigs.push(FileSignature {
            header: vec![0x1Au8, 0x45, 0xDF, 0xA3],
            footer: None,
            file_type: FileType::MKV,
            max_size: 4 * 1024 * 1024 * 1024,
            verify: None,
        });
        assert(sigs@[18]@ =~= signature_table()[18]);
        // MP3 with ID3v2.3 tag
        sigs.push(FileSignature {
            header: vec![0x49u8, 0x44, 0x33, 0x03],
            footer: None,
            file_type: FileType::MP3,
            max_size: 50 * 1024 * 1024,
            verify: None,
        });
        assert(sigs@[19]@ =~= signature_table()[19]);
        // MP3 with ID3v2.4 tag
        sigs.push(FileSignature {
            header: vec![0x49u8, 0x44, 0x33, 0x04],
            footer: None,
            file_type: FileType::MP3,
            max_size: 50 * 1024 * 1024,
            verify: None,
        });
        assert(sigs@[20]@ =~= signature_table()[20]);
        // WAV: RIFF container with "WAVE" at offset 8
        sigs.push(FileSignature {
            header: vec![0x52u8, 0x49, 0x46, 0x46],
            footer: None,
            file_type: FileType::WAV,
            max_size: 500 * 1024 * 1024,
            verify: Some((8, vec![0x57u8, 0x41, 0x56, 0x45])),
        });
        assert(sigs@[21]@ =~= signature_table()[21]);
        // FLAC: "fLaC" stream marker
        sigs.push(FileSignature {
            header: vec![0x66u8, 0x4C, 0x61, 0x43],
            footer: None,
            file_type: FileType::FLAC,
            max_size: 500 * 1024 * 1024,
            verify: None,
        });
        assert(sigs@[22]@ =~= signature_table()[22]);
        // SQLite 3: 16-byte header string
        sigs.push(FileSignature {
            header: vec![0x53u8, 0x51, 0x4C, 0x69, 0x74, 0x65, 0x20, 0x66, 0x6F, 0x72, 0x6D, 0x61, 0x74, 0x20, 0x33, 0x00],
            footer: None,
            file_type: FileType::SQLite,
            max_size: 512 * 1024 * 1024,
            verify: None,
        });
        assert(sigs@[23]@ =~= signature_table()[23]);
        assert(sigs@.len() == signature_table().len());
        sigs
    }
}

/// The magic numbers the carver looks for, entry by entry, as the formats
/// define them: JPEG from FF D8 FF to the end-of-image marker FF D9; PNG
/// from its 8-byte signature to the IEND chunk and its CRC; GIF from "GIF8"
/// to the trailer 00 3B; TIFF "II*\0" and "MM\0*"; BMP "BM" with zero
/// reserved bytes 6 to 9; PDF from "%PDF-" to "%%EOF"; ZIP local header
/// "PK\3\4" to the end-of-directory record "PK\5\6"; the OLE2 compound
/// document signature; RAR 1.5 and RAR 5 marks; 7-Zip; "MZ" with the DOS
/// stub; the ISO "ftyp" box at four box sizes; RIFF with "AVI " or "WAVE"
/// at offset 8; the EBML header; ID3v2.3 and v2.4 tags; "fLaC"; and
/// "SQLite format 3\0"; each with its size limit.
pub proof fn lemma_signature_magic()
    ensures
        signature_table().len() == 24,
        signature_table()[0] == (SignatureView { header: seq![0xFFu8, 0xD8, 0xFF], footer: Some(seq![0xFFu8, 0xD9]), file_type: FileTypeView::JPEG, max_size: ((50 * 1024 * 1024)) as u64, verify: None }),
        signature_table()[1] == (SignatureView { header: seq![0x89u8, 0x50, 0x4E, 0x47, 0x0D, 0x0A, 0x1A, 0x0A], footer: Some(seq![0x49u8, 0x45, 0x4E, 0x44, 0xAE, 0x42, 0x60, 0x82]), file_type: FileTypeView::PNG, max_size: ((100 * 1024 * 1024)) as u64, verify: None }),
        signature_table()[2] == (SignatureView { header: seq![0x47u8, 0x49, 0x46, 0x38], footer: Some(seq![0x00u8, 0x3B]), file_type: FileTypeView::GIF, max_size: ((20 * 1024 * 1024)) as u64, verify: None }),
        signature_table()[3] == (SignatureView { header: seq![0x49u8, 0x49, 0x2A, 0x00], footer: None, file_type: FileTypeView::TIFF, max_size: ((200 * 1024 * 1024)) as u64, verify: None }),
        signature_table()[4] == (SignatureView { header: seq![0x4Du8, 0x4D, 0x00, 0x2A], footer: None, file_type: FileTypeView::TIFF, max_size: ((200 * 1024 * 1024)) as u64, verify: None }),
        signature_table()[5] == (SignatureView { header: seq![0x42u8, 0x4D], footer: None, file_type: FileTypeView::BMP, max_size: ((50 * 1024 * 1024)) as u64, verify: Some((6usize, seq![0x00u8, 0x00, 0x00, 0x00])) }),
        signature_table()[6] == (SignatureView { header: seq![0x25u8, 0x50, 0x44, 0x46, 0x2D], footer: Some(seq![0x25u8, 0x25, 0x45, 0x4F, 0x46]), file_type: FileTypeView::PDF, max_size: ((200 * 1024 * 1024)) as u64, verify: None }),
        signature_table()[7] == (SignatureView { header: seq![0x50u8, 0x4B, 0x03, 0x04], footer: Some(seq![0x50u8, 0x4B, 0x05, 0x06]), file_type: FileTypeView::DOCX, max_size: ((100 * 1024 * 1024)) as u64, verify: None }),
        signature_table()[8] == (SignatureView { header: seq![0xD0u8, 0xCF, 0x11, 0xE0, 0xA1, 0xB1, 0x1A, 0xE1], footer: None, file_type: FileTypeView::DOC, max_size: ((100 * 1024 * 1024)) as u64, verify: None }),
        signature_table()[9] == (SignatureView { header: seq![0x52u8, 0x61, 0x72, 0x21, 0x1A, 0x07, 0x00], footer: None, file_type: FileTypeView::RAR, max_size: ((2 * 1024 * 1024 * 1024)) as u64, verify: None }),
        signature_table()[10] == (SignatureView { header: seq![0x52u8, 0x61, 0x72, 0x21, 0x1A, 0x07, 0x01, 0x00], footer: None, file_type: FileTypeView::RAR, max_size: ((2 * 1024 * 1024 * 1024)) as u64, verify: None }),
        signature_table()[11] == (SignatureView { header: seq![0x37u8, 0x7A, 0xBC, 0xAF, 0x27, 0x1C], footer: None, file_type: FileTypeView::SevenZ, max_size: ((2 * 1024 * 1024 * 1024)) as u64, verify: None }),
        signature_table()[12] == (SignatureView { header: seq![0x4Du8, 0x5A, 0x90, 0x00], footer: None, file_type: FileTypeView::EXE, max_size: ((50 * 1024 * 1024)) as u64, verify: None }),
        signature_table()[13] == (SignatureView { header: seq![0x00u8, 0x00, 0x00, 0x14, 0x66, 0x74, 0x79, 0x70], footer: None, file_type: FileTypeView::MP4, max_size: ((4 * 1024 * 1024 * 1024)) as u64, verify: None }),
        signature_table()[14] == (SignatureView { header: seq![0x00u8, 0x00, 0x00, 0x18, 0x66, 0x74, 0x79, 0x70], footer: None, file_type: FileTypeView::MP4, max_size: ((4 * 1024 * 1024 * 1024)) as u64, verify: None }),
        signature_table()[15] == (SignatureView { header: seq![0x00u8, 0x00, 0x00, 0x1C, 0x66, 0x74, 0x79, 0x70], footer: None, file_type: FileTypeView::MP4, max_size: ((4 * 1024 * 1024 * 1024)) as u64, verify: None }),
        signature_table()[16] == (SignatureView { header: seq![0x00u8, 0x00, 0x00, 0x20, 0x66, 0x74, 0x79, 0x70], footer: None, file_type: FileTypeView::MP4, max_size: ((4 * 1024 * 1024 * 1024)) as u64, verify: None }),
        signature_table()[17] == (SignatureView { header: seq![0x52u8, 0x49, 0x46, 0x46], footer: None, file_type: FileTypeView::AVI, max_size: ((4 * 1024 * 1024 * 1024)) as u64, verify: Some((8usize, seq![0x41u8, 0x56, 0x49, 0x20])) }),
        signature_table()[18] == (SignatureView { header: seq![0x1Au8, 0x45, 0xDF, 0xA3], footer: None, file_type: FileTypeView::MKV, max_size: ((4 * 1024 * 1024 * 1024)) as u64, verify: None }),
        signature_table()[19] == (SignatureView { header: seq![0x49u8, 0x44, 0x33, 0x03], footer: None, file_type: FileTypeView::MP3, max_size: ((50 * 1024 * 1024)) as u64, verify: None }),
        signature_table()[20] == (SignatureView { header: seq![0x49u8, 0x44, 0x33, 0x04], footer: None, file_type: FileTypeView::MP3, max_size: ((50 * 1024 * 1024)) as u64, verify: None }),
        signature_table()[21] == (SignatureView { header: seq![0x52u8, 0x49, 0x46, 0x46], footer: None, file_type: FileTypeView::WAV, max_size: ((500 * 1024 * 1024)) as u64, verify: Some((8usize, seq![0x57u8, 0x41, 0x56, 0x45])) }),
        signature_table()[22] == (SignatureView { header: seq![0x66u8, 0x4C, 0x61, 0x43], footer: None, file_type: FileTypeView::FLAC, max_size: ((500 * 1024 * 1024)) as u64, verify: None }),
        signature_table()[23] == (SignatureView { header: seq![0x53u8, 0x51, 0x4C, 0x69, 0x74, 0x65, 0x20, 0x66, 0x6F, 0x72, 0x6D, 0x61, 0x74, 0x20, 0x33, 0x00], footer: None, file_type: FileTypeView::SQLite, max_size: ((512 * 1024 * 1024)) as u64, verify: None }),
{

}

} // verus!
