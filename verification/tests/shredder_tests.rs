use aeon_recovery::device::BlockReader;
use aeon_recovery::shredder::{
    ads_stream_path, fill_block, format_command, gutmann_passes, is_device_path, is_disk_full,
    new_wipe_file_name, next_block_len, parse_shred_algorithm, pass_plan, protocol_command_buffer,
    random_file_name, sample_len, sample_offsets, sample_ok, sanitize_command, sanitize_completion,
    scrub_buffer, verify_last_pass, wipe_block_written, wipe_completion, wipe_file_name, PassAction,
    PassEvent, PassPhase, PassRun, PassType, ShredPlan, Shredder, WipeAction, WipeEvent, WipeRun,
    WRITE_BLOCK_SIZE,
};
use aeon_recovery::types::{ShredAlgorithm, ShredOptions, ShredStatus};
use rand::SeedableRng;
use rand_chacha::ChaCha20Rng;

struct MemDevice {
    bytes: Vec<u8>,
}

impl BlockReader for MemDevice {
    fn read_at(&self, offset: u64, len: usize) -> Option<Vec<u8>> {
        let start = offset as usize;
        if start >= self.bytes.len() {
            return Some(Vec::new());
        }
        let end = std::cmp::min(self.bytes.len(), start + len);
        Some(self.bytes[start..end].to_vec())
    }
}

fn passes_of(alg: ShredAlgorithm) -> Option<(Vec<PassType>, String)> {
    pass_plan(&alg)
}

#[test]
fn dod_and_schneier_passes() {
    let (dod, name) = passes_of(ShredAlgorithm::DoD5220).unwrap();
    assert_eq!(dod, vec![PassType::Fixed(0x00), PassType::Fixed(0xFF), PassType::Random]);
    assert_eq!(name, "DoD 5220.22-M");
    let (sch, sname) = passes_of(ShredAlgorithm::Schneier7).unwrap();
    assert_eq!(sch.len(), 7);
    assert_eq!(&sch[..2], &[PassType::Fixed(0x00), PassType::Fixed(0xFF)]);
    assert!(sch[2..].iter().all(|p| *p == PassType::Random));
    assert_eq!(sname, "Schneier 7-Pass");
    let (one, oname) = passes_of(ShredAlgorithm::RandomSingle).unwrap();
    assert_eq!((one, oname.as_str()), (vec![PassType::Random], "Random Single"));
    assert!(passes_of(ShredAlgorithm::NvmeSanitize).is_none());
    assert!(passes_of(ShredAlgorithm::NvmeFormat).is_none());
}

#[test]
fn gutmann_has_35_passes() {
    let g = gutmann_passes();
    assert_eq!(g.len(), 35);
    assert!(g[..4].iter().all(|p| *p == PassType::Random));
    assert!(g[31..].iter().all(|p| *p == PassType::Random));
    assert_eq!(g[4], PassType::Fixed(0x55));
    assert_eq!(g[9], PassType::Fixed(0x00));
    assert_eq!(g[24], PassType::Fixed(0xFF));
    assert_eq!(g[30], PassType::Fixed(0xDB));
    let (p, name) = passes_of(ShredAlgorithm::Gutmann35).unwrap();
    assert_eq!(p, g);
    assert_eq!(name, "Gutmann 35-Pass");
}

#[test]
fn algorithm_names() {
    assert_eq!(parse_shred_algorithm("DoD5220"), Ok(ShredAlgorithm::DoD5220));
    assert_eq!(parse_shred_algorithm("Gutmann35"), Ok(ShredAlgorithm::Gutmann35));
    assert_eq!(parse_shred_algorithm("RandomSingle"), Ok(ShredAlgorithm::RandomSingle));
    assert_eq!(parse_shred_algorithm("NvmeSanitize"), Ok(ShredAlgorithm::NvmeSanitize));
    assert_eq!(parse_shred_algorithm("NvmeFormat"), Ok(ShredAlgorithm::NvmeFormat));
    assert_eq!(parse_shred_algorithm("Schneier7"), Ok(ShredAlgorithm::Schneier7));
    assert_eq!(parse_shred_algorithm("Schneier"), Err("Unknown algorithm: Schneier".to_string()));
    assert_eq!(parse_shred_algorithm(""), Err("Unknown algorithm: ".to_string()));
}

#[test]
fn device_paths() {
    assert!(is_device_path("\\\\.\\PhysicalDrive0"));
    assert!(is_device_path("/dev/sdb1"));
    assert!(!is_device_path("/home/u/secret.txt"));
    assert!(!is_device_path("C:\\secret.txt"));
    assert!(!is_device_path("/dev"));
}

#[test]
fn block_lengths() {
    assert_eq!(next_block_len(0, 10), 10);
    assert_eq!(next_block_len(0, 3 << 20), WRITE_BLOCK_SIZE);
    assert_eq!(next_block_len((3 << 20) - 5, 3 << 20), 5);
}

fn write_len(a: &PassAction) -> usize {
    match a {
        PassAction::Write { len, .. } => *len,
        _ => panic!("expected a write"),
    }
}

#[test]
fn pass_run_writes_each_pass_whole() {
    let (passes, name) = passes_of(ShredAlgorithm::DoD5220).unwrap();
    let mut run = PassRun::new(passes, name);
    let size: u64 = (2 << 20) + 100;
    let mut a = run.step(PassEvent::Begin, false);
    for pass in 1..=3u32 {
        match a {
            PassAction::Open { pass: p } => assert_eq!(p, pass),
            _ => panic!("expected open"),
        }
        a = run.step(PassEvent::Opened(size), false);
        let mut written: u64 = 0;
        let mut blocks = 0;
        while let PassAction::Write { len, fill, progress } = &a {
            written += *len as u64;
            blocks += 1;
            assert_eq!(progress.current_pass, pass);
            assert_eq!(progress.total_passes, 3);
            assert_eq!(progress.bytes_written, written);
            assert_eq!(progress.total_bytes, size);
            assert_eq!(progress.algorithm, "DoD 5220.22-M");
            assert!(matches!(progress.status, ShredStatus::Shredding));
            match pass {
                1 => assert_eq!(*fill, PassType::Fixed(0x00)),
                2 => assert_eq!(*fill, PassType::Fixed(0xFF)),
                _ => assert_eq!(*fill, PassType::Random),
            }
            a = run.step(PassEvent::Wrote, false);
        }
        assert_eq!(written, size);
        assert_eq!(blocks, 3);
        assert!(matches!(a, PassAction::Sync));
        a = run.step(PassEvent::Synced, false);
    }
    match a {
        PassAction::Complete(p) => {
            assert_eq!((p.current_pass, p.total_passes, p.bytes_written, p.total_bytes), (3, 3, 0, 0));
            assert_eq!(p.verification_passed, None);
            assert!(matches!(p.status, ShredStatus::Completed));
        },
        _ => panic!("expected completion"),
    }
    assert_eq!(run.current_phase(), PassPhase::Finished);
}

#[test]
fn pass_run_cancellation() {
    let mut run = PassRun::new(vec![PassType::Random, PassType::Random], "Test".to_string());
    assert!(matches!(run.step(PassEvent::Begin, false), PassAction::Open { pass: 1 }));
    let a = run.step(PassEvent::Opened(3 << 20), false);
    assert_eq!(write_len(&a), WRITE_BLOCK_SIZE);
    // Cancelled before the next block: the pass ends and is synced.
    assert!(matches!(run.step(PassEvent::Wrote, true), PassAction::Sync));
    // Cancelled before the next pass: the run stops without completion.
    assert!(matches!(run.step(PassEvent::Synced, true), PassAction::Stop));
    assert_eq!(run.current_phase(), PassPhase::Finished);
}

#[test]
fn pass_run_cancelled_in_last_pass_still_completes() {
    let mut run = PassRun::new(vec![PassType::Fixed(1)], "One".to_string());
    assert!(matches!(run.step(PassEvent::Begin, false), PassAction::Open { pass: 1 }));
    assert!(matches!(run.step(PassEvent::Opened(10), true), PassAction::Sync));
    assert!(matches!(run.step(PassEvent::Synced, true), PassAction::Complete(_)));
}

#[test]
fn pass_run_empty_target_and_stray_events() {
    let mut run = PassRun::new(vec![PassType::Random], "R".to_string());
    assert!(matches!(run.step(PassEvent::Wrote, false), PassAction::Stop));
    let mut run2 = PassRun::new(vec![PassType::Random], "R".to_string());
    assert!(matches!(run2.step(PassEvent::Begin, false), PassAction::Open { pass: 1 }));
    assert!(matches!(run2.step(PassEvent::Opened(0), false), PassAction::Sync));
    assert!(matches!(run2.step(PassEvent::Synced, false), PassAction::Complete(_)));
}

#[test]
fn filling_blocks() {
    let mut rng = ChaCha20Rng::seed_from_u64(7);
    let mut buf = vec![9u8; 16];
    fill_block(PassType::Fixed(0xAB), &mut buf, 10, &mut rng);
    assert_eq!(&buf[..10], &[0xAB; 10]);
    assert_eq!(&buf[10..], &[9u8; 6]);
    let mut zeros = vec![0u8; 72];
    fill_block(PassType::Random, &mut zeros, 64, &mut rng);
    assert!(zeros[..64].iter().any(|b| *b != 0));
    assert_eq!(&zeros[64..], &[0u8; 8]);
    scrub_buffer(&mut zeros);
    assert!(zeros.is_empty());
}

#[test]
fn random_names() {
    let a = random_file_name().unwrap();
    assert_eq!(a.len(), 16);
    assert!(a.chars().all(|c| c.is_ascii_alphanumeric()));
    assert_ne!(a, random_file_name().unwrap());
    assert_eq!(wipe_file_name("abc"), "abc.wipe");
    let w = new_wipe_file_name().unwrap();
    assert_eq!(w.len(), 21);
    assert!(w.ends_with(".wipe"));
}

#[test]
fn sample_positions_and_lengths() {
    assert_eq!(sample_offsets(100_000), vec![0, 25_000, 50_000, 75_000, 100_000 - 4096]);
    assert_eq!(sample_offsets(100), vec![0, 25, 50, 75, 0]);
    assert_eq!(sample_len(0, 100), Some(100));
    assert_eq!(sample_len(75, 100), Some(25));
    assert_eq!(sample_len(0, 100_000), Some(4096));
    assert_eq!(sample_len(100, 100), None);
    assert!(sample_ok(PassType::Fixed(7), &[7, 7, 7]));
    assert!(!sample_ok(PassType::Fixed(7), &[7, 8, 7]));
    assert!(!sample_ok(PassType::Random, &[0, 0, 0]));
    assert!(sample_ok(PassType::Random, &[0, 9, 0]));
    assert!(sample_ok(PassType::Random, &[5]));
}

#[test]
fn verification_of_the_last_pass() {
    let dev = MemDevice { bytes: vec![0xFF; 50_000] };
    assert_eq!(verify_last_pass(&dev, 50_000, PassType::Fixed(0xFF)), Some(true));
    assert_eq!(verify_last_pass(&dev, 50_000, PassType::Fixed(0x00)), Some(false));
    // Uniform samples mean the random data was not written.
    assert_eq!(verify_last_pass(&dev, 50_000, PassType::Random), Some(false));
    let noisy = MemDevice { bytes: (0..50_000u32).map(|i| (i * 7 % 251) as u8).collect() };
    assert_eq!(verify_last_pass(&noisy, 50_000, PassType::Random), Some(true));
    // A sample that cannot be read in full is an error.
    assert_eq!(verify_last_pass(&noisy, 60_000, PassType::Random), None);
    let mut bytes = vec![0xFF; 50_000];
    bytes[37_600] = 1;
    let dev2 = MemDevice { bytes };
    assert_eq!(verify_last_pass(&dev2, 50_000, PassType::Fixed(0xFF)), Some(false));
}

#[test]
fn nvme_admin_commands() {
    let s = sanitize_command();
    assert_eq!((s.opcode, s.cdw10, s.cdw11, s.cdw12), (0x84, 2, 0, 0));
    let f = format_command();
    assert_eq!((f.opcode, f.cdw10), (0x80, 0x200));
    let buf = protocol_command_buffer(&f);
    assert_eq!(buf.len(), 512);
    assert_eq!(&buf[0..16], &[1, 0, 0, 0, 0, 2, 0, 0, 4, 0, 0, 0, 0, 0, 0, 0x80]);
    assert_eq!(buf[32], 0x80);
    assert_eq!(&buf[44..48], &[0x00, 0x02, 0x00, 0x00]);
    assert_eq!(buf.iter().filter(|b| **b != 0).count(), 6);
    let done = sanitize_completion();
    assert_eq!((done.current_pass, done.total_passes, done.verification_passed), (1, 1, Some(true)));
    assert_eq!(done.algorithm, "NVMe Sanitize");
}

fn units(s: &str) -> Vec<u16> {
    let mut v: Vec<u16> = s.encode_utf16().collect();
    v.resize(296, 0);
    v
}

#[test]
fn alternate_stream_paths() {
    assert_eq!(ads_stream_path("C:\\f.txt", &units(":Zone.Identifier:$DATA")), Some("C:\\f.txt:Zone.Identifier".to_string()));
    assert_eq!(ads_stream_path("C:\\f.txt", &units("::$DATA")), None);
    assert_eq!(ads_stream_path("C:\\f.txt", &units("")), None);
    assert_eq!(ads_stream_path("x", &units(":a:$DATA:$DATA")), Some("x:a".to_string()));
    assert_eq!(ads_stream_path("x", &units(":plain")), Some("x:plain".to_string()));
}

#[test]
fn free_space_wipe_reports() {
    assert!(is_disk_full(Some(28), false));
    assert!(!is_disk_full(Some(112), false));
    assert!(is_disk_full(Some(112), true));
    assert!(!is_disk_full(None, true));
    let (w, p) = wipe_block_written(0);
    assert_eq!(w, 1 << 20);
    assert_eq!((p.current_pass, p.total_passes, p.bytes_written, p.total_bytes), (1, 1, 1 << 20, 0));
    assert_eq!(p.algorithm, "Free Space Wipe");
    let c = wipe_completion(5 << 20);
    assert_eq!((c.bytes_written, c.total_bytes), (5 << 20, 5 << 20));
    assert!(matches!(c.status, ShredStatus::Completed));
}

#[test]
fn shredder_plans() {
    let dod = Shredder::new(ShredOptions {
        algorithm: ShredAlgorithm::DoD5220,
        verify_passes: true,
        target_path: "/home/u/a.txt".to_string(),
    });
    match dod.plan() {
        ShredPlan::Overwrite { run, verify } => {
            assert_eq!(verify, Some(PassType::Random));
            assert_eq!(run.current_phase(), PassPhase::Ready);
        },
        _ => panic!("expected overwrite"),
    }
    assert!(dod.removes_file());
    let nv = Shredder::new(ShredOptions {
        algorithm: ShredAlgorithm::NvmeFormat,
        verify_passes: true,
        target_path: "\\\\.\\PhysicalDrive1".to_string(),
    });
    match nv.plan() {
        ShredPlan::Nvme(c) => assert_eq!(c.opcode, 0x80),
        _ => panic!("expected nvme"),
    }
    assert!(!nv.removes_file());
    let g = Shredder::new(ShredOptions {
        algorithm: ShredAlgorithm::Gutmann35,
        verify_passes: true,
        target_path: "/dev/sdz".to_string(),
    });
    match g.plan() {
        ShredPlan::Overwrite { verify, .. } => assert_eq!(verify, None),
        _ => panic!("expected overwrite"),
    }
    let r = Shredder::verification_report(false);
    assert_eq!((r.current_pass, r.total_passes, r.verification_passed), (3, 3, Some(false)));
}

#[test]
fn free_space_wipe_steps() {
    let mut run = WipeRun::new();
    match run.step(WipeEvent::Started, false) {
        WipeAction::Write { report } => assert!(report.is_none()),
        _ => panic!("a wipe starts by writing"),
    }
    match run.step(WipeEvent::Wrote, false) {
        WipeAction::Write { report } => {
            let p = report.unwrap();
            assert_eq!((p.bytes_written, p.total_bytes), (WRITE_BLOCK_SIZE as u64, 0));
            assert!(matches!(p.status, ShredStatus::Shredding));
        },
        _ => panic!("a written block is followed by the next"),
    }
    match run.step(WipeEvent::Wrote, true) {
        WipeAction::Finish { report, done } => {
            assert_eq!(report.unwrap().bytes_written, 2 * WRITE_BLOCK_SIZE as u64);
            assert_eq!((done.bytes_written, done.total_bytes), (2 * WRITE_BLOCK_SIZE as u64, 2 * WRITE_BLOCK_SIZE as u64));
            assert!(matches!(done.status, ShredStatus::Completed));
        },
        _ => panic!("a cancelled wipe finishes"),
    }
    let mut run = WipeRun::new();
    run.step(WipeEvent::Started, false);
    match run.step(WipeEvent::WriteFailed { disk_full: true }, false) {
        WipeAction::Finish { report, done } => {
            assert!(report.is_none());
            assert_eq!(done.bytes_written, 0);
        },
        _ => panic!("a full disk ends the wipe"),
    }
    let mut run = WipeRun::new();
    run.step(WipeEvent::Started, false);
    assert!(matches!(run.step(WipeEvent::WriteFailed { disk_full: false }, false), WipeAction::Fail));
    assert_eq!(run.written_bytes(), 0);
}
