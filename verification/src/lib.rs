//! Forensic data recovery and secure erasure: signature carving, FAT32/exFAT
//! directory recovery, NTFS MFT parsing, and overwrite planning for shredding.
use vstd::prelude::*;

pub mod bytes;
pub mod carver;
pub mod device;
pub mod fat;
pub mod mft;
pub mod nvme;
pub mod recovery;
pub mod shredder;
pub mod smart;
pub mod strs;
pub mod types;

verus! {

} // verus!
