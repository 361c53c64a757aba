# aeon_recovery

Forensic data recovery and secure erasure, with the decision logic verified
in Verus.

## Layout

- `src/` — the verified library.
  - `carver.rs`: signature carving of raw devices in overlapping 512 KiB
    windows, text detection, file-end search, deduplication of matches and
    refinement of ZIP-based Office formats.
  - `fat.rs`: FAT32 and exFAT boot sectors, cluster chains, long and short
    names, and the directory walk that finds deleted entries.
  - `mft.rs`: NTFS boot sector and MFT record parsing for deleted and wiped
    records.
  - `recovery.rs`: scan profiles, merging of directory and signature results,
    validation of recovered bytes, preview payloads and file names.
  - `shredder.rs`: overwrite passes of the erasure algorithms, the pass loop
    as a state machine, sample verification, NVMe admin command buffers.
  - `nvme.rs`: splitting a device range among parallel read queues.
  - `smart.rs`: disk records and health estimates.
  - `types.rs`, `bytes.rs`, `strs.rs`, `device.rs`: shared types, byte and
    string helpers, and the `BlockReader` trait through which every scanner
    reads a device.
- `tests/` — tests of the library on in-memory device images.
- `app/` — the desktop backend: device and file I/O, threads, progress
  events, and the commands the user interface calls.

Device access goes through traits (`BlockReader`, `ScanMonitor`,
`ChunkSink`, `DriveProbe`) that the application implements; loops that
alternate I/O and decisions, such as the overwrite passes, are state
machines the application drives.
