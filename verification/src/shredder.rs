//! Overwrite planning for secure erasure: pass patterns of the algorithms,
//! the pass loop as a state machine, sample verification, NVMe admin
//! command buffers, and the names the shredder gives to files.
use rand::distributions::Alphanumeric;
use rand::rngs::OsRng;
use rand::{Rng, RngCore, SeedableRng};
use rand_chacha::ChaCha20Rng;
use vstd::prelude::*;
use zeroize::Zeroize;

use crate::device::{BlockReader, read_exact_at, can_read_exact, opt_bytes};
use crate::strs::{str_eq, string_from_chars};
use crate::strs;
use crate::types::{ShredAlgorithm, ShredOptions, ShredProgress, ShredStatus};

verus! {

/// Bytes written per block (1 MiB).
pub const WRITE_BLOCK_SIZE: usize = 1024 * 1024;

/// Bytes read per verification sample.
pub const VERIFICATION_SAMPLE_SIZE: usize = 4096;

/// What one overwrite pass writes.
#[derive(Clone, Copy, Debug, PartialEq, Eq, Structural)]
pub enum PassType {
    /// The same byte everywhere.
    Fixed(u8),
    /// Fresh random bytes.
    Random,
}

// ── Algorithms ─────────────────────────────────────────────────────────────

/// The 35 passes of Gutmann's method: four random passes, 27 fixed
/// patterns, four random passes (`None` is random).
pub open spec fn gutmann_table() -> Seq<Option<u8>> {
    seq![
        None, None, None, None,
        Some(0x55u8), Some(0xAA), Some(0x92), Some(0x49), Some(0x24), Some(0x00), Some(0x11),
        Some(0x22), Some(0x33), Some(0x44), Some(0x55), Some(0x66), Some(0x77), Some(0x88),
        Some(0x99), Some(0xAA), Some(0xBB), Some(0xCC), Some(0xDD), Some(0xEE), Some(0xFF),
        Some(0x92), Some(0x49), Some(0x24), Some(0x6D), Some(0xB6), Some(0xDB),
        None, None, None, None,
    ]
}

/// The pass of a Gutmann table entry.
pub open spec fn pass_of(p: Option<u8>) -> PassType {
    match p {
        Some(b) => PassType::Fixed(b),
        None => PassType::Random,
    }
}

/// The Gutmann passes, in order.
pub fn gutmann_passes() -> (r: Vec<PassType>)
    ensures
        r@ == gutmann_table().map_values(|p: Option<u8>| pass_of(p)),
{
    let table: [Option<u8>; 35] = [
        None, None, None, None,
        Some(0x55), Some(0xAA), Some(0x92), Some(0x49), Some(0x24), Some(0x00), Some(0x11),
        Some(0x22), Some(0x33), Some(0x44), Some(0x55), Some(0x66), Some(0x77), Some(0x88),
        Some(0x99), Some(0xAA), Some(0xBB), Some(0xCC), Some(0xDD), Some(0xEE), Some(0xFF),
        Some(0x92), Some(0x49), Some(0x24), Some(0x6D), Some(0xB6), Some(0xDB),
        None, None, None, None,
    ];
    assert(table@ =~= gutmann_table());
    let mut out: Vec<PassType> = Vec::new();
    let mut i: usize = 0;
    while i < 35
        invariant
            i <= 35,
            table@ == gutmann_table(),
            out@ == gutmann_table().take(i as int).map_values(|p: Option<u8>| pass_of(p)),
        decreases 35 - i,
    {
        let p = match table[i] {
            Some(b) => PassType::Fixed(b),
            None => PassType::Random,
        };
        out.push(p);
        i += 1;
        assert(out@ =~= gutmann_table().take(i as int).map_values(|p: Option<u8>| pass_of(p)));
    }
    assert(gutmann_table().take(35) =~= gutmann_table());
    out
}

/// The passes and the progress label of an overwrite algorithm; `None` for
/// the NVMe commands, which write nothing themselves.
pub open spec fn spec_pass_plan(alg: ShredAlgorithm) -> Option<(Seq<PassType>, Seq<char>)> {
    match alg {
        ShredAlgorithm::DoD5220 => Some(
            (seq![PassType::Fixed(0x00), PassType::Fixed(0xFF), PassType::Random], "DoD 5220.22-M"@),
        ),
        ShredAlgorithm::Gutmann35 => Some(
            (gutmann_table().map_values(|p: Option<u8>| pass_of(p)), "Gutmann 35-Pass"@),
        ),
        ShredAlgorithm::RandomSingle => Some((seq![PassType::Random], "Random Single"@)),
        ShredAlgorithm::Schneier7 => Some(
            (
                seq![
                    PassType::Fixed(0x00),
                    PassType::Fixed(0xFF),
                    PassType::Random,
                    PassType::Random,
                    PassType::Random,
                    PassType::Random,
                    PassType::Random,
                ],
                "Schneier 7-Pass"@,
            ),
        ),
        ShredAlgorithm::NvmeSanitize => None,
        ShredAlgorithm::NvmeFormat => None,
    }
}

/// The passes and progress label of an overwrite algorithm.
pub fn pass_plan(alg: &ShredAlgorithm) -> (r: Option<(Vec<PassType>, String)>)
    ensures
        match r {
            Some((p, n)) => spec_pass_plan(*alg) == Some((p@, n@)),
            None => spec_pass_plan(*alg).is_none(),
        },
{
    match alg {
        ShredAlgorithm::DoD5220 => {
            let p = vec![PassType::Fixed(0x00), PassType::Fixed(0xFF), PassType::Random];
            assert(p@ =~= seq![PassType::Fixed(0x00), PassType::Fixed(0xFF), PassType::Random]);
            Some((p, String::from_str("DoD 5220.22-M")))
        },
        ShredAlgorithm::Gutmann35 => Some((gutmann_passes(), String::from_str("Gutmann 35-Pass"))),
        ShredAlgorithm::RandomSingle => {
            let p = vec![PassType::Random];
            assert(p@ =~= seq![PassType::Random]);
            Some((p, String::from_str("Random Single")))
        },
        ShredAlgorithm::Schneier7 => {
            let p = vec![
                PassType::Fixed(0x00),
                PassType::Fixed(0xFF),
                PassType::Random,
                PassType::Random,
                PassType::Random,
                PassType::Random,
                PassType::Random,
            ];
            assert(p@ =~= seq![
                PassType::Fixed(0x00),
                PassType::Fixed(0xFF),
                PassType::Random,
                PassType::Random,
                PassType::Random,
                PassType::Random,
                PassType::Random,
            ]);
            Some((p, String::from_str("Schneier 7-Pass")))
        },
        ShredAlgorithm::NvmeSanitize => None,
        ShredAlgorithm::NvmeFormat => None,
    }
}

/// The algorithm a request names: "DoD5220", "Gutmann35", "RandomSingle",
/// "Schneier7", "NvmeSanitize" or "NvmeFormat"; anything else is refused with
/// "Unknown algorithm: <name>".
pub open spec fn spec_parse_algorithm(name: Seq<char>) -> Result<ShredAlgorithm, Seq<char>> {
    if name == "DoD5220"@ {
        Ok(ShredAlgorithm::DoD5220)
    } else if name == "Gutmann35"@ {
        Ok(ShredAlgorithm::Gutmann35)
    } else if name == "RandomSingle"@ {
        Ok(ShredAlgorithm::RandomSingle)
    } else if name == "Schneier7"@ {
        Ok(ShredAlgorithm::Schneier7)
    } else if name == "NvmeSanitize"@ {
        Ok(ShredAlgorithm::NvmeSanitize)
    } else if name == "NvmeFormat"@ {
        Ok(ShredAlgorithm::NvmeFormat)
    } else {
        Err("Unknown algorithm: "@ + name)
    }
}

/// Parses the algorithm of a shred request.
pub fn parse_shred_algorithm(name: &str) -> (r: Result<ShredAlgorithm, String>)
    ensures
        match r {
            Ok(a) => spec_parse_algorithm(name@) == Ok::<ShredAlgorithm, Seq<char>>(a),
            Err(e) => spec_parse_algorithm(name@) == Err::<ShredAlgorithm, Seq<char>>(e@),
        },
{
    if str_eq(name, "DoD5220") {
        Ok(ShredAlgorithm::DoD5220)
    } else if str_eq(name, "Gutmann35") {
        Ok(ShredAlgorithm::Gutmann35)
    } else if str_eq(name, "RandomSingle") {
        Ok(ShredAlgorithm::RandomSingle)
    } else if str_eq(name, "Schneier7") {
        Ok(ShredAlgorithm::Schneier7)
    } else if str_eq(name, "NvmeSanitize") {
        Ok(ShredAlgorithm::NvmeSanitize)
    } else if str_eq(name, "NvmeFormat") {
        Ok(ShredAlgorithm::NvmeFormat)
    } else {
        Err(strs::concat_str("Unknown algorithm: ", name))
    }
}

/// A raw device path: one that starts with `\\.\` or `/dev/`.
pub open spec fn spec_is_device_path(p: Seq<char>) -> bool {
    (p.len() >= 4 && p.subrange(0, 4) == "\\\\.\\"@) || (p.len() >= 5 && p.subrange(0, 5) == "/dev/"@)
}

/// Whether a target is a raw device (which is overwritten but never
/// truncated, renamed or deleted).
pub fn is_device_path(path: &str) -> (r: bool)
    ensures
        r == spec_is_device_path(path@),
{
    proof {
        reveal_strlit("\\\\.\\");
        reveal_strlit("/dev/");
    }
    strs::str_starts_with(path, "\\\\.\\") || strs::str_starts_with(path, "/dev/")
}


// ── The pass loop ───────────────────────────────────────────────────────────

/// A progress report with the given fields.
pub open spec fn progress_is(
    p: ShredProgress,
    current: u32,
    total: u32,
    written: u64,
    total_bytes: u64,
    algorithm: Seq<char>,
    verification: Option<bool>,
) -> bool {
    &&& p.current_pass == current
    &&& p.total_passes == total
    &&& p.bytes_written == written
    &&& p.total_bytes == total_bytes
    &&& p.algorithm@ == algorithm
    &&& p.verification_passed == verification
}

fn progress(
    current: u32,
    total: u32,
    written: u64,
    total_bytes: u64,
    algorithm: &String,
    verification: Option<bool>,
    status: ShredStatus,
) -> (r: ShredProgress)
    ensures
        progress_is(r, current, total, written, total_bytes, algorithm@, verification),
        r.status == status,
{
    ShredProgress {
        current_pass: current,
        total_passes: total,
        bytes_written: written,
        total_bytes,
        algorithm: algorithm.clone(),
        verification_passed: verification,
        status,
    }
}

/// Bytes of the next block of a pass: at most 1 MiB, at most what is left.
pub open spec fn block_len(written: u64, size: u64) -> usize {
    if size - written < WRITE_BLOCK_SIZE {
        (size - written) as usize
    } else {
        WRITE_BLOCK_SIZE
    }
}

/// Length of the next block to write when `written` of `size` bytes are
/// done.
pub fn next_block_len(written: u64, size: u64) -> (r: usize)
    requires
        written < size,
    ensures
        r == block_len(written, size),
        0 < r <= WRITE_BLOCK_SIZE,
        written + r <= size,
{
    if size - written < WRITE_BLOCK_SIZE as u64 {
        (size - written) as usize
    } else {
        WRITE_BLOCK_SIZE
    }
}

/// The lengths of the blocks a pass requests, uncancelled, once `written`
/// of `size` bytes are done (see `PassRun::step`).
pub open spec fn pass_blocks(written: u64, size: u64) -> Seq<usize>
    decreases size - written,
{
    if written >= size {
        Seq::empty()
    } else {
        let l = block_len(written, size);
        if l == 0 {
            Seq::empty()
        } else {
            seq![l] + pass_blocks((written + l) as u64, size)
        }
    }
}

/// Sum of block lengths.
pub open spec fn total_len(s: Seq<usize>) -> int
    decreases s.len(),
{
    if s.len() == 0 {
        0
    } else {
        s[0] + total_len(s.drop_first())
    }
}

/// An uncancelled pass overwrites the whole target once: the blocks it
/// requests from `written` on are non-empty, at most 1 MiB each, and add up
/// to the `size - written` bytes left.
pub proof fn lemma_pass_blocks_cover(written: u64, size: u64)
    requires
        written <= size,
    ensures
        total_len(pass_blocks(written, size)) == size - written,
        forall|i: int| 0 <= i < pass_blocks(written, size).len() ==> 0 < #[trigger] pass_blocks(written, size)[i] <= WRITE_BLOCK_SIZE,
    decreases size - written,
{
    if written < size {
        let l = block_len(written, size);
        assert(0 < l);
        let rest = pass_blocks((written + l) as u64, size);
        lemma_pass_blocks_cover((written + l) as u64, size);
        let all = pass_blocks(written, size);
        assert(all == seq![l] + rest);
        assert(all.drop_first() =~= rest);
        assert forall|i: int| 0 <= i < all.len() implies 0 < #[trigger] all[i] <= WRITE_BLOCK_SIZE by {
            if i > 0 {
                assert(all[i] == rest[i - 1]);
            }
        }
    }
}

/// Stage of an overwrite run.
#[derive(Clone, Copy, Debug, PartialEq, Eq, Structural)]
pub enum PassPhase {
    /// Not started.
    Ready,
    /// Waiting for the target to be opened and measured.
    Opening,
    /// Waiting for a block to be written.
    Writing,
    /// Waiting for the target to be synced to the medium.
    Syncing,
    /// Stopped or complete.
    Finished,
}

/// What happened since the last step of an overwrite run.
pub enum PassEvent {
    /// The run starts.
    Begin,
    /// The target was opened for the current pass and holds this many bytes.
    Opened(u64),
    /// The requested block was written.
    Wrote,
    /// The target was synced after a pass.
    Synced,
}

/// What the driver of an overwrite run does next.
pub enum PassAction {
    /// Open the target for reading and writing, measure it, and report
    /// `Opened` (pass numbers count from 1).
    Open { pass: u32 },
    /// Fill the first `len` bytes of the write buffer as `fill` says, write
    /// them at the current position, send `progress`, and report `Wrote`.
    Write { len: usize, fill: PassType, progress: ShredProgress },
    /// Sync the target to the medium, clear the write buffer, and report
    /// `Synced`.
    Sync,
    /// The run was cancelled before a pass: stop without a completion report.
    Stop,
    /// All passes are done: send this completion report.
    Complete(ShredProgress),
}

/// What an action asks for, without its progress report.
pub enum PassActionKind {
    Open(u32),
    Write(usize, PassType),
    Sync,
    Stop,
    Complete,
}

/// The kind of an action.
pub open spec fn kind_of(a: PassAction) -> PassActionKind {
    match a {
        PassAction::Open { pass } => PassActionKind::Open(pass),
        PassAction::Write { len, fill, .. } => PassActionKind::Write(len, fill),
        PassAction::Sync => PassActionKind::Sync,
        PassAction::Stop => PassActionKind::Stop,
        PassAction::Complete(_) => PassActionKind::Complete,
    }
}

/// Model of an overwrite run: its passes, the current pass, the bytes of it
/// written, the target size, the length of the block requested, and the
/// stage.
pub struct PassRunModel {
    pub passes: Seq<PassType>,
    pub algorithm: Seq<char>,
    pub pass: int,
    pub written: u64,
    pub size: u64,
    pub pending: usize,
    pub phase: PassPhase,
}

/// Starting pass `k`: complete when none is left, stop when cancelled,
/// otherwise open the target.
pub open spec fn start_model(m: PassRunModel, k: int, cancelled: bool) -> (PassRunModel, PassActionKind) {
    if k == m.passes.len() {
        (PassRunModel { pass: k, phase: PassPhase::Finished, ..m }, PassActionKind::Complete)
    } else if cancelled {
        (PassRunModel { pass: k, phase: PassPhase::Finished, ..m }, PassActionKind::Stop)
    } else {
        (PassRunModel { pass: k, phase: PassPhase::Opening, ..m }, PassActionKind::Open((k + 1) as u32))
    }
}

/// Within a pass: the next block while bytes are left and no cancellation
/// came, otherwise the sync.
pub open spec fn decide_model(m: PassRunModel, cancelled: bool) -> (PassRunModel, PassActionKind) {
    if m.written < m.size && !cancelled {
        let len = block_len(m.written, m.size);
        (PassRunModel { pending: len, phase: PassPhase::Writing, ..m }, PassActionKind::Write(len, m.passes[m.pass]))
    } else {
        (PassRunModel { phase: PassPhase::Syncing, ..m }, PassActionKind::Sync)
    }
}

/// One step of the run model.
pub open spec fn spec_step(m: PassRunModel, e: PassEvent, cancelled: bool) -> (PassRunModel, PassActionKind) {
    let stop = (PassRunModel { phase: PassPhase::Finished, ..m }, PassActionKind::Stop);
    match e {
        PassEvent::Begin => if m.phase == PassPhase::Ready { start_model(m, m.pass, cancelled) } else { stop },
        PassEvent::Synced => if m.phase == PassPhase::Syncing { start_model(m, m.pass + 1, cancelled) } else { stop },
        PassEvent::Opened(size) => if m.phase == PassPhase::Opening {
            decide_model(PassRunModel { size, written: 0, ..m }, cancelled)
        } else {
            stop
        },
        PassEvent::Wrote => if m.phase == PassPhase::Writing {
            decide_model(PassRunModel { written: (m.written + m.pending) as u64, ..m }, cancelled)
        } else {
            stop
        },
    }
}

/// An overwrite run of a list of passes over one target, as a state machine:
/// the driver performs each action and reports what happened, together with
/// whether cancellation was requested in the meantime.
///
/// Each pass opens the target, writes it from the start in blocks of 1 MiB
/// until its size is reached, and syncs it.  Cancellation is looked at before
/// each pass that remains (the run stops, without a completion report) and
/// before each block (the pass ends early and is synced).
pub struct PassRun {
    passes: Vec<PassType>,
    algorithm: String,
    pass: usize,
    written: u64,
    size: u64,
    pending: usize,
    phase: PassPhase,
}

impl PassRun {
    /// The passes of the run.
    pub closed spec fn passes(&self) -> Seq<PassType> {
        self.passes@
    }

    /// The progress label of the run.
    pub closed spec fn algorithm(&self) -> Seq<char> {
        self.algorithm@
    }

    /// Index of the current (or next) pass.
    pub closed spec fn pass(&self) -> int {
        self.pass as int
    }

    /// Bytes of the current pass written so far.
    pub closed spec fn written(&self) -> u64 {
        self.written
    }

    /// Size of the target in the current pass.
    pub closed spec fn size(&self) -> u64 {
        self.size
    }

    /// Length of the block last requested.
    pub closed spec fn pending(&self) -> usize {
        self.pending
    }

    /// Stage of the run.
    pub closed spec fn phase(&self) -> PassPhase {
        self.phase
    }

    /// The consistency of a run: the current pass exists while a pass is
    /// under way, and a requested block fits in the target.
    pub closed spec fn wf(&self) -> bool {
        &&& self.passes@.len() <= u32::MAX
        &&& self.pass <= self.passes@.len()
        &&& (self.phase == PassPhase::Opening || self.phase == PassPhase::Writing || self.phase
            == PassPhase::Syncing) ==> self.pass < self.passes@.len()
        &&& self.phase == PassPhase::Writing ==> self.written + self.pending <= self.size && self.pending > 0
    }

    /// Model of the run.
    pub closed spec fn model(&self) -> PassRunModel {
        PassRunModel {
            passes: self.passes@,
            algorithm: self.algorithm@,
            pass: self.pass as int,
            written: self.written,
            size: self.size,
            pending: self.pending,
            phase: self.phase,
        }
    }

    /// A run of `passes` under the progress label `algorithm`, not started.
    pub fn new(passes: Vec<PassType>, algorithm: String) -> (r: Self)
        requires
            passes@.len() <= u32::MAX,
        ensures
            r.wf(),
            r.passes() == passes@,
            r.algorithm() == algorithm@,
            r.pass() == 0,
            r.phase() == PassPhase::Ready,
            r.model() == (PassRunModel {
                passes: passes@,
                algorithm: algorithm@,
                pass: 0,
                written: 0,
                size: 0,
                pending: 0,
                phase: PassPhase::Ready,
            }),
    {
        PassRun { passes, algorithm, pass: 0, written: 0, size: 0, pending: 0, phase: PassPhase::Ready }
    }

    /// Stage of the run.
    pub fn current_phase(&self) -> (r: PassPhase)
        ensures
            r == self.phase(),
    {
        self.phase
    }

    /// Whether `e` is what the run waits for.
    pub open spec fn expects(&self, e: PassEvent) -> bool {
        match e {
            PassEvent::Begin => self.phase() == PassPhase::Ready,
            PassEvent::Opened(_) => self.phase() == PassPhase::Opening,
            PassEvent::Wrote => self.phase() == PassPhase::Writing,
            PassEvent::Synced => self.phase() == PassPhase::Syncing,
        }
    }

    /// Starts pass `k` (or completes the run when none is left).
    fn start_pass(&mut self, k: usize, cancelled: bool) -> (a: PassAction)
        requires
            old(self).passes@.len() <= u32::MAX,
            k <= old(self).passes@.len(),
        ensures
            final(self).wf(),
            final(self).passes == old(self).passes,
            final(self).algorithm == old(self).algorithm,
            final(self).pass == k,
            final(self).written == old(self).written,
            final(self).size == old(self).size,
            final(self).pending == old(self).pending,
            k == old(self).passes@.len() ==> final(self).phase == PassPhase::Finished && match a {
                PassAction::Complete(p) => progress_is(
                    p,
                    k as u32,
                    k as u32,
                    0,
                    0,
                    old(self).algorithm@,
                    None,
                ) && p.status == ShredStatus::Completed,
                _ => false,
            },
            k < old(self).passes@.len() && cancelled ==> final(self).phase == PassPhase::Finished
                && a == PassAction::Stop,
            k < old(self).passes@.len() && !cancelled ==> final(self).phase == PassPhase::Opening
                && a == (PassAction::Open { pass: (k + 1) as u32 }),
    {
        self.pass = k;
        if k == self.passes.len() {
            self.phase = PassPhase::Finished;
            let total = k as u32;
            PassAction::Complete(progress(total, total, 0, 0, &self.algorithm, None, ShredStatus::Completed))
        } else if cancelled {
            self.phase = PassPhase::Finished;
            PassAction::Stop
        } else {
            self.phase = PassPhase::Opening;
            PassAction::Open { pass: (k + 1) as u32 }
        }
    }

    /// Requests the next block of the current pass, or its sync when the
    /// pass is written or cancelled.
    fn next_block(&mut self, cancelled: bool) -> (a: PassAction)
        requires
            old(self).passes@.len() <= u32::MAX,
            old(self).pass < old(self).passes@.len(),
            old(self).written <= old(self).size,
        ensures
            final(self).wf(),
            final(self).passes == old(self).passes,
            final(self).algorithm == old(self).algorithm,
            final(self).pass == old(self).pass,
            final(self).written == old(self).written,
            final(self).size == old(self).size,
            old(self).written < old(self).size && !cancelled ==> {
                let len = block_len(old(self).written, old(self).size);
                &&& final(self).phase == PassPhase::Writing
                &&& final(self).pending == len
                &&& match a {
                    PassAction::Write { len: l, fill, progress: p } => l == len && fill
                        == old(self).passes@[old(self).pass as int] && progress_is(
                        p,
                        (old(self).pass + 1) as u32,
                        old(self).passes@.len() as u32,
                        (old(self).written + len) as u64,
                        old(self).size,
                        old(self).algorithm@,
                        None,
                    ) && p.status == ShredStatus::Shredding,
                    _ => false,
                }
            },
            !(old(self).written < old(self).size && !cancelled) ==> final(self).phase == PassPhase::Syncing
                && a == PassAction::Sync && final(self).pending == old(self).pending,
    {
        if self.written < self.size && !cancelled {
            let len = next_block_len(self.written, self.size);
            self.pending = len;
            self.phase = PassPhase::Writing;
            let p = progress(
                (self.pass + 1) as u32,
                self.passes.len() as u32,
                self.written + len as u64,
                self.size,
                &self.algorithm,
                None,
                ShredStatus::Shredding,
            );
            PassAction::Write { len, fill: self.passes[self.pass], progress: p }
        } else {
            self.phase = PassPhase::Syncing;
            PassAction::Sync
        }
    }

    /// Advances the run by one reported event.  An event the run does not
    /// wait for finishes it with `Stop`.
    pub fn step(&mut self, event: PassEvent, cancelled: bool) -> (a: PassAction)
        requires
            old(self).wf(),
        ensures
            final(self).wf(),
            final(self).passes() == old(self).passes(),
            final(self).algorithm() == old(self).algorithm(),
            (final(self).model(), kind_of(a)) == spec_step(old(self).model(), event, cancelled),
            !old(self).expects(event) ==> final(self).phase() == PassPhase::Finished && a == PassAction::Stop,
            // Before a pass: complete when none is left, stop when cancelled, otherwise open.
            old(self).expects(event) && (event is Begin || event is Synced) ==> {
                let k = if event is Synced { old(self).pass() + 1 } else { old(self).pass() };
                let n = old(self).passes().len();
                &&& final(self).pass() == k
                &&& k == n ==> final(self).phase() == PassPhase::Finished && match a {
                    PassAction::Complete(p) => progress_is(p, n as u32, n as u32, 0, 0, old(self).algorithm(), None)
                        && p.status == ShredStatus::Completed,
                    _ => false,
                }
                &&& k < n && cancelled ==> final(self).phase() == PassPhase::Finished && a == PassAction::Stop
                &&& k < n && !cancelled ==> final(self).phase() == PassPhase::Opening && a == (PassAction::Open {
                    pass: (k + 1) as u32,
                })
            },
            // Within a pass: the next block from the written count, or the sync.
            old(self).expects(event) && (event is Opened || event is Wrote) ==> {
                let size = match event {
                    PassEvent::Opened(s) => s,
                    _ => old(self).size(),
                };
                let w = if event is Wrote { (old(self).written() + old(self).pending()) as u64 } else { 0u64 };
                &&& final(self).pass() == old(self).pass()
                &&& final(self).size() == size
                &&& final(self).written() == w
                &&& w < size && !cancelled ==> {
                    let len = block_len(w, size);
                    &&& final(self).phase() == PassPhase::Writing
                    &&& final(self).pending() == len
                    &&& match a {
                        PassAction::Write { len: l, fill, progress: p } => l == len && fill == old(self).passes()[old(self).pass()]
                            && progress_is(
                            p,
                            (old(self).pass() + 1) as u32,
                            old(self).passes().len() as u32,
                            (w + len) as u64,
                            size,
                            old(self).algorithm(),
                            None,
                        ) && p.status == ShredStatus::Shredding,
                        _ => false,
                    }
                }
                &&& !(w < size && !cancelled) ==> final(self).phase() == PassPhase::Syncing && a == PassAction::Sync
            },
    {
        match event {
            PassEvent::Begin => {
                if self.phase != PassPhase::Ready {
                    self.phase = PassPhase::Finished;
                    return PassAction::Stop;
                }
                let k = self.pass;
                self.start_pass(k, cancelled)
            },
            PassEvent::Synced => {
                if self.phase != PassPhase::Syncing {
                    self.phase = PassPhase::Finished;
                    return PassAction::Stop;
                }
                let k = self.pass + 1;
                self.start_pass(k, cancelled)
            },
            PassEvent::Opened(size) => {
                if self.phase != PassPhase::Opening {
                    self.phase = PassPhase::Finished;
                    return PassAction::Stop;
                }
                self.size = size;
                self.written = 0;
                self.next_block(cancelled)
            },
            PassEvent::Wrote => {
                if self.phase != PassPhase::Writing {
                    self.phase = PassPhase::Finished;
                    return PassAction::Stop;
                }
                self.written = self.written + self.pending as u64;
                self.next_block(cancelled)
            },
        }
    }
}


// ── Filling and clearing the write buffer ──────────────────────────────────

/// `ChaCha20Rng` of `rand_chacha`, the generator random passes draw from.
#[verifier::external_type_specification]
#[verifier::external_body]
pub struct ExChaCha20Rng(ChaCha20Rng);

/// `RngCore::fill_bytes` of `ChaCha20Rng` on the first `len` bytes of
/// `buf`.  Claimed: the buffer keeps its length and its bytes from `len` on.
/// Which bytes the generator writes is left unsaid.
#[verifier::external_body]
fn fill_random(rng: &mut ChaCha20Rng, buf: &mut Vec<u8>, len: usize)
    requires
        len <= old(buf)@.len(),
    ensures
        final(buf)@.len() == old(buf)@.len(),
        forall|i: int| len <= i < final(buf)@.len() ==> final(buf)@[i] == old(buf)@[i],
{
    rng.fill_bytes(&mut buf[..len]);
}

/// `Zeroize::zeroize` of a `Vec<u8>`: overwrites the whole allocation with
/// zeros and clears the vector.  Claimed: the vector is empty afterwards.
#[verifier::external_body]
fn zeroize_vec(buf: &mut Vec<u8>)
    ensures
        final(buf)@.len() == 0,
{
    buf.zeroize();
}

/// Fills the first `len` bytes of the write buffer for a pass: the pattern
/// byte for a fixed pass, fresh random bytes from `rng` for a random one.
/// The rest of the buffer is left as it was.
pub fn fill_block(fill: PassType, buf: &mut Vec<u8>, len: usize, rng: &mut ChaCha20Rng)
    requires
        len <= old(buf)@.len(),
    ensures
        final(buf)@.len() == old(buf)@.len(),
        forall|i: int| len <= i < final(buf)@.len() ==> final(buf)@[i] == old(buf)@[i],
        forall|b: u8| fill == PassType::Fixed(b) ==> forall|i: int| 0 <= i < len ==> final(buf)@[i] == b,
{
    match fill {
        PassType::Fixed(b) => {
            let mut i: usize = 0;
            while i < len
                invariant
                    i <= len,
                    len <= buf@.len(),
                    buf@.len() == old(buf)@.len(),
                    forall|j: int| len <= j < buf@.len() ==> buf@[j] == old(buf)@[j],
                    forall|j: int| 0 <= j < i ==> buf@[j] == b,
                decreases len - i,
            {
                buf[i] = b;
                i += 1;
            }
        },
        PassType::Random => {
            fill_random(rng, buf, len);
        },
    }
}

/// Scrubs the write buffer after a pass: zeros it and leaves it empty.
pub fn scrub_buffer(buf: &mut Vec<u8>)
    ensures
        final(buf)@.len() == 0,
{
    zeroize_vec(buf);
}

// ── Names ───────────────────────────────────────────────────────────────────

/// An ASCII letter or digit.
pub open spec fn ascii_alnum(c: char) -> bool {
    ('A' <= c && c <= 'Z') || ('a' <= c && c <= 'z') || ('0' <= c && c <= '9')
}

/// `SeedableRng::from_rng(OsRng)` for `ChaCha20Rng`: a generator seeded from
/// the operating system's random source; `None` when that source fails.
/// Nothing is claimed of the seed.
#[verifier::external_body]
fn os_seeded_rng() -> (r: Option<ChaCha20Rng>) {
    ChaCha20Rng::from_rng(OsRng).ok()
}

/// `Rng::sample(Alphanumeric)` on a `ChaCha20Rng`: one byte of the table
/// `A-Z a-z 0-9` that the distribution draws from.  Which one is left to
/// chance.
#[verifier::external_body]
fn alphanumeric_byte(rng: &mut ChaCha20Rng) -> (r: u8)
    ensures
        ascii_alnum(r as char),
{
    rng.sample(Alphanumeric)
}

/// Length of the random names shredded files are renamed to.
pub const RANDOM_NAME_LEN: usize = 16;

/// A fresh random file name: sixteen ASCII letters and digits, under which
/// a shredded file is renamed before it is deleted; `None` when the
/// operating system's random source fails.
pub fn random_file_name() -> (r: Option<String>)
    ensures
        r matches Some(n) ==> n@.len() == RANDOM_NAME_LEN && forall|i: int| 0 <= i < RANDOM_NAME_LEN ==> ascii_alnum(
            #[trigger] n@[i],
        ),
{
    let mut rng = match os_seeded_rng() {
        Some(g) => g,
        None => return None,
    };
    let mut chars: Vec<char> = Vec::new();
    while chars.len() < RANDOM_NAME_LEN
        invariant
            chars@.len() <= RANDOM_NAME_LEN,
            forall|i: int| 0 <= i < chars@.len() ==> ascii_alnum(#[trigger] chars@[i]),
        decreases RANDOM_NAME_LEN - chars@.len(),
    {
        let b = alphanumeric_byte(&mut rng);
        chars.push(b as char);
    }
    let name = string_from_chars(&chars);
    Some(name)
}

/// The temporary file a free-space wipe fills: `<random>.wipe`.
pub fn wipe_file_name(random: &str) -> (r: String)
    ensures
        r@ == random@ + ".wipe"@,
{
    let mut s = String::from_str(random);
    s.append(".wipe");
    s
}

/// A fresh temporary file name for a free-space wipe; `None` when the
/// operating system's random source fails.
pub fn new_wipe_file_name() -> (r: Option<String>)
    ensures
        r matches Some(n) ==> {
            &&& n@.len() == RANDOM_NAME_LEN + 5
            &&& n@.subrange(16, 21) == ".wipe"@
            &&& forall|i: int| 0 <= i < RANDOM_NAME_LEN ==> ascii_alnum(#[trigger] n@[i])
        },
{
    let random = match random_file_name() {
        Some(n) => n,
        None => return None,
    };
    let r = wipe_file_name(random.as_str());
    proof {
        reveal_strlit(".wipe");
        assert(r@.subrange(16, 21) =~= ".wipe"@);
        assert forall|i: int| 0 <= i < 16 implies ascii_alnum(#[trigger] r@[i]) by {
            assert(r@[i] == random@[i]);
        }
    }
    Some(r)
}

// ── Verification of the last pass ──────────────────────────────────────────

/// The five sample positions of a target of `size` bytes: its start, a
/// quarter, half and three quarters in, and 4 KiB before its end (or its
/// start when smaller).
pub open spec fn spec_sample_offsets(size: u64) -> Seq<u64> {
    seq![
        0,
        size / 4,
        size / 2,
        (3 * size / 4) as u64,
        if size >= VERIFICATION_SAMPLE_SIZE { (size - VERIFICATION_SAMPLE_SIZE) as u64 } else { 0 },
    ]
}

/// The sample positions of a target of `size` bytes.
pub fn sample_offsets(size: u64) -> (r: Vec<u64>)
    requires
        size <= u64::MAX / 3,
    ensures
        r@ == spec_sample_offsets(size),
{
    let last = if size >= VERIFICATION_SAMPLE_SIZE as u64 { size - VERIFICATION_SAMPLE_SIZE as u64 } else { 0 };
    let v = vec![0, size / 4, size / 2, 3 * size / 4, last];
    assert(v@ =~= spec_sample_offsets(size));
    v
}

/// Length of the sample at `offset`: what is left of the target, at most
/// 4 KiB; none at or past its end.
pub open spec fn spec_sample_len(offset: u64, size: u64) -> Option<usize> {
    if offset >= size {
        None
    } else if size - offset < VERIFICATION_SAMPLE_SIZE {
        Some((size - offset) as usize)
    } else {
        Some(VERIFICATION_SAMPLE_SIZE)
    }
}

/// Length of the sample at `offset`.
pub fn sample_len(offset: u64, size: u64) -> (r: Option<usize>)
    ensures
        r == spec_sample_len(offset, size),
{
    if offset >= size {
        None
    } else if size - offset < VERIFICATION_SAMPLE_SIZE as u64 {
        Some((size - offset) as usize)
    } else {
        Some(VERIFICATION_SAMPLE_SIZE)
    }
}

/// A sample shows the expected pass: every byte is the pattern byte of a
/// fixed pass; for a random pass the sample is not uniform (a sample of
/// fewer than two bytes passes), since a uniform sample means the random
/// data was not written.
pub open spec fn spec_sample_ok(expected: PassType, sample: Seq<u8>) -> bool {
    match expected {
        PassType::Fixed(b) => forall|i: int| 0 <= i < sample.len() ==> sample[i] == b,
        PassType::Random => sample.len() < 2 || exists|i: int| 0 <= i < sample.len() && #[trigger] sample[i] != sample[0],
    }
}

/// Whether a sample shows the expected pass.
pub fn sample_ok(expected: PassType, sample: &[u8]) -> (r: bool)
    ensures
        r == spec_sample_ok(expected, sample@),
{
    match expected {
        PassType::Fixed(b) => {
            let mut i: usize = 0;
            while i < sample.len()
                invariant
                    i <= sample@.len(),
                    expected == PassType::Fixed(b),
                    forall|j: int| 0 <= j < i ==> sample@[j] == b,
                decreases sample.len() - i,
            {
                if sample[i] != b {
                    assert(!(sample@[i as int] == b));
                    return false;
                }
                i += 1;
            }
            true
        },
        PassType::Random => {
            if sample.len() < 2 {
                return true;
            }
            let first = sample[0];
            let mut i: usize = 1;
            while i < sample.len()
                invariant
                    1 <= i <= sample@.len(),
                    expected == PassType::Random,
                    first == sample@[0],
                    forall|j: int| 0 <= j < i ==> sample@[j] == first,
                decreases sample.len() - i,
            {
                if sample[i] != first {
                    assert(sample@[i as int] != sample@[0]);
                    return true;
                }
                i += 1;
            }
            false
        },
    }
}

/// What checking the sample at `offset` of a target of `size` bytes can
/// observe: an exact read of the sample, or, where no sample lies, an empty
/// one.
pub open spec fn sample_read_ok<R: BlockReader>(reader: &R, size: u64, offset: u64, b: Option<Seq<u8>>) -> bool {
    match spec_sample_len(offset, size) {
        None => b == Some(Seq::<u8>::empty()),
        Some(n) => can_read_exact(reader, offset, n, b),
    }
}

/// The samples observed in checking a target of `size` bytes: one per
/// sample offset, in order, each one the reader can give, all but the last
/// read in full and showing the expected pass, stopping early only at a
/// sample that was not read or does not show it.
pub open spec fn verify_reads<R: BlockReader>(reader: &R, size: u64, expected: PassType, reads: Seq<Option<Seq<u8>>>) -> bool {
    let offsets = spec_sample_offsets(size);
    &&& reads.len() <= offsets.len()
    &&& forall|j: int| 0 <= j < reads.len() ==> sample_read_ok(reader, size, offsets[j], #[trigger] reads[j])
    &&& forall|j: int| 0 <= j < reads.len() - 1 ==> (#[trigger] reads[j]) is Some && spec_sample_ok(expected, reads[j]->0)
    &&& reads.len() < offsets.len() ==> reads.len() > 0 && (reads.last() is None || !spec_sample_ok(
        expected,
        reads.last()->0,
    ))
}

/// The verdict on the observed samples: `None` when the last could not be
/// read, `Some(false)` when it does not show the expected pass, otherwise
/// `Some(true)`.
pub open spec fn verify_verdict(expected: PassType, reads: Seq<Option<Seq<u8>>>) -> Option<bool> {
    if reads.len() > 0 && reads.last() is None {
        None
    } else if reads.len() > 0 && !spec_sample_ok(expected, reads.last()->0) {
        Some(false)
    } else {
        Some(true)
    }
}

/// Reads the samples of a target of `size` bytes and checks each against the
/// expected last pass, stopping at the first that fails.  `None` when a
/// sample cannot be read in full.
#[verifier::spinoff_prover]
#[verifier::rlimit(80)]
pub fn verify_last_pass<R: BlockReader>(reader: &R, size: u64, expected: PassType) -> (r: Option<bool>)
    requires
        size <= u64::MAX / 3,
    ensures
        exists|reads: Seq<Option<Seq<u8>>>| #[trigger] verify_reads(reader, size, expected, reads)
            && r == verify_verdict(expected, reads),
{
    let offsets = sample_offsets(size);
    let mut i: usize = 0;
    let ghost mut reads: Seq<Option<Seq<u8>>> = Seq::empty();
    while i < offsets.len()
        invariant
            i <= offsets@.len(),
            offsets@ == spec_sample_offsets(size),
            reads.len() == i,
            forall|j: int| 0 <= j < i ==> sample_read_ok(reader, size, offsets@[j], #[trigger] reads[j]),
            forall|j: int| 0 <= j < i ==> (#[trigger] reads[j]) is Some && spec_sample_ok(expected, reads[j]->0),
        decreases offsets.len() - i,
    {
        let offset = offsets[i];
        let ghost before = reads;
        match sample_len(offset, size) {
            None => {
                proof {
                    reads = reads.push(Some(Seq::<u8>::empty()));
                }
            },
            Some(n) => {
                let res = read_exact_at(reader, offset, n);
                proof {
                    reads = reads.push(opt_bytes(res));
                    assert(sample_read_ok(reader, size, offsets@[i as int], reads[i as int]));
                    assert forall|j: int| 0 <= j < i + 1 implies sample_read_ok(reader, size, offsets@[j], #[trigger] reads[j]) by {
                        if j < i {
                            assert(reads[j] == before[j]);
                        }
                    }
                    assert forall|j: int| 0 <= j < reads.len() - 1 implies (#[trigger] reads[j]) is Some
                        && spec_sample_ok(expected, reads[j]->0) by {
                        assert(reads[j] == before[j]);
                    }
                }
                match res {
                    None => {
                        proof {
                            assert(verify_reads(reader, size, expected, reads));
                        }
                        return None;
                    },
                    Some(sample) => {
                        if !sample_ok(expected, sample.as_slice()) {
                            proof {
                                assert(verify_reads(reader, size, expected, reads));
                            }
                            return Some(false);
                        }
                    },
                }
            },
        }
        proof {
            assert forall|j: int| 0 <= j < i + 1 implies sample_read_ok(reader, size, offsets@[j], #[trigger] reads[j]) by {
                if j < i {
                    assert(reads[j] == before[j]);
                }
            }
            assert forall|j: int| 0 <= j < i + 1 implies (#[trigger] reads[j]) is Some && spec_sample_ok(expected, reads[j]->0) by {
                if j < i {
                    assert(reads[j] == before[j]);
                } else {
                    assert(spec_sample_ok(expected, reads[j]->0));
                }
            }
        }
        i += 1;
    }
    proof {
        assert(verify_reads(reader, size, expected, reads));
    }
    Some(true)
}


// ── NVMe admin commands ────────────────────────────────────────────────────

/// An NVMe admin command: opcode and command dwords 10 to 12.
pub struct NvmeSanitizeCommand {
    pub opcode: u8,
    pub cdw10: u32,
    pub cdw11: u32,
    pub cdw12: u32,
}

/// The Sanitize command (opcode 0x84) with SANACT = 010b, Block Erase.
pub fn sanitize_command() -> (r: NvmeSanitizeCommand)
    ensures
        r.opcode == 0x84 && r.cdw10 == 2 && r.cdw11 == 0 && r.cdw12 == 0,
{
    NvmeSanitizeCommand { opcode: 0x84, cdw10: 0x0000_0002, cdw11: 0, cdw12: 0 }
}

/// The Format NVM command (opcode 0x80) with SES = 010b (user data erase)
/// and LBA format 0.
pub fn format_command() -> (r: NvmeSanitizeCommand)
    ensures
        r.opcode == 0x80 && r.cdw10 == 0x200 && r.cdw11 == 0 && r.cdw12 == 0,
{
    NvmeSanitizeCommand { opcode: 0x80, cdw10: 0x0000_0200, cdw11: 0, cdw12: 0 }
}

/// Byte `k` (0 to 3) of `x` in little-endian order.
pub open spec fn le32_byte(x: u32, k: u32) -> u8 {
    ((x >> (8 * k)) & 0xff) as u8
}

/// Byte `i` of the 512-byte storage protocol command that carries `cmd`:
/// version 1, length 512, protocol type 4 (NVMe) and the adapter-request
/// flag as little-endian dwords at 0, 4, 8 and 12; the opcode at 32; CDW10
/// as a little-endian dword at 44; zero elsewhere.
pub open spec fn protocol_byte(cmd: NvmeSanitizeCommand, i: int) -> u8 {
    if 0 <= i < 4 {
        le32_byte(1, i as u32)
    } else if 4 <= i < 8 {
        le32_byte(512, (i - 4) as u32)
    } else if 8 <= i < 12 {
        le32_byte(4, (i - 8) as u32)
    } else if 12 <= i < 16 {
        le32_byte(0x8000_0000, (i - 12) as u32)
    } else if i == 32 {
        cmd.opcode
    } else if 44 <= i < 48 {
        le32_byte(cmd.cdw10, (i - 44) as u32)
    } else {
        0
    }
}

fn put_le32(buf: &mut Vec<u8>, at: usize, x: u32)
    requires
        at + 4 <= old(buf)@.len(),
    ensures
        final(buf)@.len() == old(buf)@.len(),
        forall|i: int| 0 <= i < final(buf)@.len() && !(at <= i < at + 4) ==> final(buf)@[i] == old(buf)@[i],
        forall|k: int| 0 <= k < 4 ==> final(buf)@[at + k] == #[trigger] le32_byte(x, k as u32),
{
    let mut k: u32 = 0;
    while k < 4
        invariant
            k <= 4,
            at + 4 <= buf@.len(),
            buf@.len() == old(buf)@.len(),
            forall|i: int| 0 <= i < buf@.len() && !(at <= i < at + k) ==> buf@[i] == old(buf)@[i],
            forall|j: int| 0 <= j < k ==> buf@[at + j] == #[trigger] le32_byte(x, j as u32),
        decreases 4 - k,
    {
        assert(buf.len() == buf@.len());
        let idx: usize = at + (k as usize);
        buf[idx] = ((x >> (8 * k)) & 0xff) as u8;
        k += 1;
    }
}

/// The storage protocol command buffer that carries an NVMe admin command.
pub fn protocol_command_buffer(cmd: &NvmeSanitizeCommand) -> (r: Vec<u8>)
    ensures
        r@.len() == 512,
        forall|i: int| 0 <= i < 512 ==> #[trigger] r@[i] == protocol_byte(*cmd, i),
{
    let mut buf: Vec<u8> = vec![0u8; 512];
    assert forall|i: int| 0 <= i < 512 implies buf@[i] == 0 by {}
    put_le32(&mut buf, 0, 1);
    put_le32(&mut buf, 4, 512);
    put_le32(&mut buf, 8, 4);
    put_le32(&mut buf, 12, 0x8000_0000);
    buf[32] = cmd.opcode;
    put_le32(&mut buf, 44, cmd.cdw10);
    assert forall|i: int| 0 <= i < 512 implies #[trigger] buf@[i] == protocol_byte(*cmd, i) by {
        if 0 <= i < 4 {
            assert(buf@[0 + (i - 0)] == le32_byte(1, (i - 0) as u32));
        } else if 4 <= i < 8 {
            assert(buf@[4 + (i - 4)] == le32_byte(512, (i - 4) as u32));
        } else if 8 <= i < 12 {
            assert(buf@[8 + (i - 8)] == le32_byte(4, (i - 8) as u32));
        } else if 12 <= i < 16 {
            assert(buf@[12 + (i - 12)] == le32_byte(0x8000_0000, (i - 12) as u32));
        } else if 44 <= i < 48 {
            assert(buf@[44 + (i - 44)] == le32_byte(cmd.cdw10, (i - 44) as u32));
        }
    }
    buf
}

/// The completion report after the controller accepted a Sanitize command.
pub fn sanitize_completion() -> (r: ShredProgress)
    ensures
        progress_is(r, 1, 1, 0, 0, "NVMe Sanitize"@, Some(true)),
        r.status == ShredStatus::Completed,
{
    let name = String::from_str("NVMe Sanitize");
    progress(1, 1, 0, 0, &name, Some(true), ShredStatus::Completed)
}

// ── Alternate data streams ─────────────────────────────────────────────────

/// Number of code units before the first 0 of a NUL-terminated name, or all
/// of them when there is no 0.
pub open spec fn units_before_nul(u: Seq<u16>, i: int) -> int
    decreases u.len() - i,
{
    if i >= u.len() {
        u.len() as int
    } else if u[i] == 0 {
        i
    } else {
        units_before_nul(u, i + 1)
    }
}

/// A stream name with every trailing ":$DATA" removed.
pub open spec fn strip_data_suffix(s: Seq<char>) -> Seq<char>
    decreases s.len(),
{
    if s.len() >= 6 && s.subrange(s.len() - 6, s.len() as int) == ":$DATA"@ {
        strip_data_suffix(s.subrange(0, s.len() - 6))
    } else {
        s
    }
}

/// The path by which an alternate data stream of `target` is opened, from
/// the stream's NUL-terminated UTF-16 name as the stream enumeration reports
/// it ("::$DATA", the main stream, and empty names give none): the target
/// followed by the name without its ":$DATA" type suffix.
pub open spec fn spec_ads_path(target: Seq<char>, units: Seq<u16>) -> Option<Seq<char>> {
    let name = strs::utf16_lossy(units.take(units_before_nul(units, 0)));
    if name.len() == 0 || name == "::$DATA"@ {
        None
    } else {
        Some(target + strip_data_suffix(name))
    }
}

/// Path of an alternate data stream to overwrite, if it is one.
#[verifier::spinoff_prover]
#[verifier::rlimit(40)]
pub fn ads_stream_path(target: &str, units: &[u16]) -> (r: Option<String>)
    ensures
        match r {
            Some(p) => spec_ads_path(target@, units@) == Some(p@),
            None => spec_ads_path(target@, units@).is_none(),
        },
{
    let mut n: usize = 0;
    while n < units.len() && units[n] != 0
        invariant
            n <= units@.len(),
            units_before_nul(units@, 0) == units_before_nul(units@, n as int),
        decreases units.len() - n,
    {
        n += 1;
    }
    let name_units = vstd::slice::slice_subrange(units, 0, n);
    assert(name_units@ =~= units@.take(units_before_nul(units@, 0)));
    let name = strs::from_utf16_lossy(name_units);
    let chars = strs::chars_of(name.as_str());
    if chars.len() == 0 || str_eq(name.as_str(), "::$DATA") {
        return None;
    }
    let mut k: usize = chars.len();
    proof {
        reveal_strlit(":$DATA");
        assert(chars@.subrange(0, k as int) =~= chars@);
    }
    while k >= 6 && chars[k - 6] == ':' && chars[k - 5] == '$' && chars[k - 4] == 'D' && chars[k - 3] == 'A'
        && chars[k - 2] == 'T' && chars[k - 1] == 'A'
        invariant
            k <= chars@.len(),
            chars@ == name@,
            strip_data_suffix(name@) == strip_data_suffix(chars@.subrange(0, k as int)),
        decreases k,
    {
        let ghost s = chars@.subrange(0, k as int);
        proof {
            reveal_strlit(":$DATA");
        }
        assert(s.subrange(s.len() - 6, s.len() as int) =~= ":$DATA"@);
        assert(s.subrange(0, s.len() - 6) =~= chars@.subrange(0, k - 6));
        k -= 6;
    }
    proof {
        let s = chars@.subrange(0, k as int);
        if s.len() >= 6 {
            if s.subrange(s.len() - 6, s.len() as int) == ":$DATA"@ {
                assert(s.subrange(s.len() - 6, s.len() as int)[0] == ':');
                assert(chars@[k - 6] == ':');
                assert(s.subrange(s.len() - 6, s.len() as int)[1] == '$');
                assert(s.subrange(s.len() - 6, s.len() as int)[2] == 'D');
                assert(s.subrange(s.len() - 6, s.len() as int)[3] == 'A');
                assert(s.subrange(s.len() - 6, s.len() as int)[4] == 'T');
                assert(s.subrange(s.len() - 6, s.len() as int)[5] == 'A');
            }
        }
    }
    let mut out = strs::chars_of(target);
    let ghost mid = out@;
    let mut i: usize = 0;
    while i < k
        invariant
            i <= k <= chars@.len(),
            out@ == mid + chars@.subrange(0, i as int),
        decreases k - i,
    {
        out.push(chars[i]);
        i += 1;
        assert(out@ =~= mid + chars@.subrange(0, i as int));
    }
    Some(string_from_chars(&out))
}

// ── Free-space wipe ─────────────────────────────────────────────────────────

/// The "disk full" error code on Windows (ERROR_DISK_FULL).
pub const DISK_FULL_WINDOWS: i32 = 112;

/// The "disk full" error code elsewhere (ENOSPC).
pub const DISK_FULL_UNIX: i32 = 28;

/// Whether a write error with OS code `code` means the disk is full, the
/// normal end of a free-space wipe.
pub fn is_disk_full(code: Option<i32>, on_windows: bool) -> (r: bool)
    ensures
        r == (code == Some(if on_windows { DISK_FULL_WINDOWS } else { DISK_FULL_UNIX })),
{
    match code {
        Some(c) => c == if on_windows { DISK_FULL_WINDOWS } else { DISK_FULL_UNIX },
        None => false,
    }
}

/// After one more block of a free-space wipe: the new byte count and the
/// progress report (size unknown, so 0).
pub fn wipe_block_written(written: u64) -> (r: (u64, ShredProgress))
    requires
        written <= u64::MAX - WRITE_BLOCK_SIZE,
    ensures
        r.0 == written + WRITE_BLOCK_SIZE,
        progress_is(r.1, 1, 1, r.0, 0, "Free Space Wipe"@, None),
        r.1.status == ShredStatus::Shredding,
{
    let w = written + WRITE_BLOCK_SIZE as u64;
    let name = String::from_str("Free Space Wipe");
    (w, progress(1, 1, w, 0, &name, None, ShredStatus::Shredding))
}

/// The completion report of a free-space wipe that wrote `written` bytes.
pub fn wipe_completion(written: u64) -> (r: ShredProgress)
    ensures
        progress_is(r, 1, 1, written, written, "Free Space Wipe"@, None),
        r.status == ShredStatus::Completed,
{
    let name = String::from_str("Free Space Wipe");
    progress(1, 1, written, written, &name, None, ShredStatus::Completed)
}

/// The progress report after a block of a free-space wipe: `written` bytes
/// so far, size unknown (0).
pub open spec fn wipe_progress_is(p: ShredProgress, written: u64) -> bool {
    progress_is(p, 1, 1, written, 0, "Free Space Wipe"@, None) && p.status == ShredStatus::Shredding
}

/// The completion report of a free-space wipe of `written` bytes.
pub open spec fn wipe_done_is(p: ShredProgress, written: u64) -> bool {
    progress_is(p, 1, 1, written, written, "Free Space Wipe"@, None) && p.status == ShredStatus::Completed
}

/// What happened since the last step of a free-space wipe.
pub enum WipeEvent {
    /// The temporary file was just created.
    Started,
    /// The last block was written.
    Wrote,
    /// Writing the last block failed; `disk_full` when the disk was full.
    WriteFailed { disk_full: bool },
}

/// What a free-space wipe does next.
pub enum WipeAction {
    /// Send `report` when there is one, then write the next 1 MiB of fresh
    /// random data to the temporary file.
    Write { report: Option<ShredProgress> },
    /// Send `report` when there is one, stop writing, sync and remove the
    /// temporary file, then send `done`.
    Finish { report: Option<ShredProgress>, done: ShredProgress },
    /// Remove the temporary file and fail with the write error.
    Fail,
}

/// `r` is the progress report owed: none, or the one after a block when
/// `report` gives the byte count.
pub open spec fn wipe_report_is(r: Option<ShredProgress>, report: Option<u64>) -> bool {
    match report {
        None => r is None,
        Some(w) => match r {
            Some(p) => wipe_progress_is(p, w),
            None => false,
        },
    }
}

/// `a` finishes the wipe after the report `report` with the completion
/// report of `written` bytes.
pub open spec fn wipe_finishes(a: WipeAction, report: Option<u64>, written: u64) -> bool {
    match a {
        WipeAction::Finish { report: r, done } => wipe_report_is(r, report) && wipe_done_is(done, written),
        _ => false,
    }
}

/// After a step that did not fail: when cancelled the wipe finishes,
/// otherwise it writes the next block; either way after the report owed.
pub open spec fn wipe_goes_on(a: WipeAction, cancelled: bool, finished: bool, report: Option<u64>, written: u64) -> bool {
    if cancelled {
        finished && wipe_finishes(a, report, written)
    } else {
        !finished && match a {
            WipeAction::Write { report: r } => wipe_report_is(r, report),
            _ => false,
        }
    }
}

/// State of a free-space wipe: the bytes written so far, and whether it is
/// over.
pub struct WipeRun {
    written: u64,
    finished: bool,
}

impl WipeRun {
    /// Bytes written so far.
    pub closed spec fn written(&self) -> u64 {
        self.written
    }

    /// Whether the wipe is over.
    pub closed spec fn finished(&self) -> bool {
        self.finished
    }

    /// A wipe that has written nothing yet.
    pub fn new() -> (r: Self)
        ensures
            r.written() == 0,
            !r.finished(),
    {
        WipeRun { written: 0, finished: false }
    }

    /// Bytes written so far.
    pub fn written_bytes(&self) -> (r: u64)
        ensures
            r == self.written(),
    {
        self.written
    }

    /// The next step of a free-space wipe after `event`, with the cancel
    /// flag read as `cancelled`:
    /// - a block written adds 1 MiB and reports the progress (a count that
    ///   would overflow ends the wipe instead);
    /// - then, unless cancelled, the next block is written; when cancelled,
    ///   the wipe finishes with its completion report;
    /// - a full disk finishes the wipe (the normal end); any other write
    ///   error fails it.
    pub fn step(&mut self, event: WipeEvent, cancelled: bool) -> (a: WipeAction)
        requires
            !old(self).finished(),
        ensures
            match event {
                WipeEvent::WriteFailed { disk_full } => final(self).finished() && final(self).written() == old(self).written()
                    && if disk_full {
                    wipe_finishes(a, None, old(self).written())
                } else {
                    a is Fail
                },
                WipeEvent::Wrote => if old(self).written() > u64::MAX - WRITE_BLOCK_SIZE {
                    final(self).finished() && final(self).written() == old(self).written() && wipe_finishes(a, None, old(self).written())
                } else {
                    final(self).written() == old(self).written() + WRITE_BLOCK_SIZE && wipe_goes_on(
                        a,
                        cancelled,
                        final(self).finished(),
                        Some(final(self).written()),
                        final(self).written(),
                    )
                },
                WipeEvent::Started => final(self).written() == old(self).written() && wipe_goes_on(
                    a,
                    cancelled,
                    final(self).finished(),
                    None,
                    old(self).written(),
                ),
            },
    {
        let report = match event {
            WipeEvent::WriteFailed { disk_full } => {
                self.finished = true;
                if disk_full {
                    return WipeAction::Finish { report: None, done: wipe_completion(self.written) };
                } else {
                    return WipeAction::Fail;
                }
            },
            WipeEvent::Wrote => {
                if self.written > u64::MAX - WRITE_BLOCK_SIZE as u64 {
                    self.finished = true;
                    return WipeAction::Finish { report: None, done: wipe_completion(self.written) };
                }
                let (w, p) = wipe_block_written(self.written);
                self.written = w;
                Some(p)
            },
            WipeEvent::Started => None,
        };
        if cancelled {
            self.finished = true;
            WipeAction::Finish { report, done: wipe_completion(self.written) }
        } else {
            WipeAction::Write { report }
        }
    }
}

// ── The shredder ────────────────────────────────────────────────────────────

/// How a shred request is carried out.
pub enum ShredPlan {
    /// Send this admin command to the NVMe controller.
    Nvme(NvmeSanitizeCommand),
    /// Run these overwrite passes; afterwards check the target against
    /// `verify`, when set.
    Overwrite { run: PassRun, verify: Option<PassType> },
}

/// Carries out a shred request: overwrite passes (or an NVMe command), and
/// for a file, not a raw device, the removal of its traces afterwards.
pub struct Shredder {
    options: ShredOptions,
}

impl Shredder {
    /// The request.
    pub closed spec fn options(&self) -> ShredOptions {
        self.options
    }

    pub fn new(options: ShredOptions) -> (r: Self)
        ensures
            r.options() == options,
    {
        Shredder { options }
    }

    /// The path of the target.
    pub fn target_path(&self) -> (r: &String)
        ensures
            r@ == self.options().target_path@,
    {
        &self.options.target_path
    }

    /// The plan of the request: the Sanitize or Format command for the NVMe
    /// algorithms, otherwise the algorithm's passes, verified afterwards
    /// against the final random pass only for DoD 5220.22-M with
    /// verification asked for.
    pub fn plan(&self) -> (r: ShredPlan)
        ensures
            self.options().algorithm == ShredAlgorithm::NvmeSanitize ==> match r {
                ShredPlan::Nvme(c) => c.opcode == 0x84 && c.cdw10 == 2 && c.cdw11 == 0 && c.cdw12 == 0,
                _ => false,
            },
            self.options().algorithm == ShredAlgorithm::NvmeFormat ==> match r {
                ShredPlan::Nvme(c) => c.opcode == 0x80 && c.cdw10 == 0x200 && c.cdw11 == 0 && c.cdw12 == 0,
                _ => false,
            },
            spec_pass_plan(self.options().algorithm) matches Some((passes, name)) ==> match r {
                ShredPlan::Overwrite { run, verify } => {
                    &&& run.wf()
                    &&& run.passes() == passes
                    &&& run.algorithm() == name
                    &&& run.model() == (PassRunModel {
                        passes,
                        algorithm: name,
                        pass: 0,
                        written: 0,
                        size: 0,
                        pending: 0,
                        phase: PassPhase::Ready,
                    })
                    &&& verify == (if self.options().algorithm == ShredAlgorithm::DoD5220
                        && self.options().verify_passes { Some(PassType::Random) } else { None })
                },
                _ => false,
            },
    {
        match pass_plan(&self.options.algorithm) {
            Some((passes, name)) => {
                let verify = match self.options.algorithm {
                    ShredAlgorithm::DoD5220 => if self.options.verify_passes {
                        Some(PassType::Random)
                    } else {
                        None
                    },
                    _ => None,
                };
                assert(passes@.len() <= 35) by {
                    assert(gutmann_table().len() == 35);
                }
                ShredPlan::Overwrite { run: PassRun::new(passes, name), verify }
            },
            None => match self.options.algorithm {
                ShredAlgorithm::NvmeFormat => ShredPlan::Nvme(format_command()),
                _ => ShredPlan::Nvme(sanitize_command()),
            },
        }
    }

    /// Whether the target is a file whose traces are removed after the
    /// overwrite (truncated, renamed at random, deleted): any target but a
    /// raw device.
    pub fn removes_file(&self) -> (r: bool)
        ensures
            r == !spec_is_device_path(self.options().target_path@),
    {
        !is_device_path(self.options.target_path.as_str())
    }

    /// The report that replaces the completion report of a DoD 5220.22-M
    /// run once its verification is done.
    pub fn verification_report(verified: bool) -> (r: ShredProgress)
        ensures
            progress_is(r, 3, 3, 0, 0, "DoD 5220.22-M"@, Some(verified)),
            r.status == ShredStatus::Completed,
    {
        let name = String::from_str("DoD 5220.22-M");
        progress(3, 3, 0, 0, &name, Some(verified), ShredStatus::Completed)
    }
}


// ── The whole run ───────────────────────────────────────────────────────────

/// Consistency of a run model (as `PassRun::wf`).
pub open spec fn model_wf(m: PassRunModel) -> bool {
    &&& m.passes.len() <= u32::MAX
    &&& 0 <= m.pass <= m.passes.len()
    &&& (m.phase == PassPhase::Opening || m.phase == PassPhase::Writing || m.phase == PassPhase::Syncing)
        ==> m.pass < m.passes.len()
    &&& m.phase == PassPhase::Writing ==> m.written + m.pending <= m.size && m.pending > 0
}

/// Order of the stages within a pass, for the termination of a run.
pub open spec fn phase_rank(p: PassPhase) -> int {
    match p {
        PassPhase::Ready => 4,
        PassPhase::Opening => 3,
        PassPhase::Writing => 2,
        PassPhase::Syncing => 1,
        PassPhase::Finished => 0,
    }
}

/// The event a driver reports for the stage a run waits in, when every
/// target it opens holds `size` bytes and every operation succeeds.
pub open spec fn answer(m: PassRunModel, size: u64) -> PassEvent {
    match m.phase {
        PassPhase::Ready => PassEvent::Begin,
        PassPhase::Opening => PassEvent::Opened(size),
        PassPhase::Writing => PassEvent::Wrote,
        _ => PassEvent::Synced,
    }
}

/// The actions of a run from `m` on, when nobody cancels, every target it
/// opens holds `size` bytes and every operation succeeds.
pub open spec fn uncancelled_run(m: PassRunModel, size: u64) -> Seq<PassActionKind>
    decreases
            (if m.pass <= m.passes.len() { m.passes.len() - m.pass } else { 0 }),
            phase_rank(m.phase),
            (if m.written <= m.size { m.size - m.written } else { 0 }),
{
    if !model_wf(m) || m.phase == PassPhase::Finished {
        Seq::empty()
    } else {
        let (m2, a) = spec_step(m, answer(m, size), false);
        if model_wf(m2) {
            seq![a] + uncancelled_run(m2, size)
        } else {
            seq![a]
        }
    }
}

/// The actions of an uncancelled run from pass `k` on: for each pass, open
/// the target, write it whole in the blocks `pass_blocks` gives with that
/// pass's fill, and sync; then complete.
pub open spec fn expected_run(passes: Seq<PassType>, size: u64, k: int) -> Seq<PassActionKind>
    decreases passes.len() - k,
{
    if k >= passes.len() || k < 0 {
        seq![PassActionKind::Complete]
    } else {
        seq![PassActionKind::Open((k + 1) as u32)] + pass_writes(passes[k], 0, size) + seq![PassActionKind::Sync]
            + expected_run(passes, size, k + 1)
    }
}

/// The write actions of a pass with fill `fill` from `written` on.
pub open spec fn pass_writes(fill: PassType, written: u64, size: u64) -> Seq<PassActionKind> {
    pass_blocks(written, size).map_values(|l: usize| PassActionKind::Write(l, fill))
}

proof fn lemma_pass_writes_step(fill: PassType, w: u64, size: u64)
    requires
        w < size,
    ensures
        pass_writes(fill, w, size) == seq![PassActionKind::Write(block_len(w, size), fill)]
            + pass_writes(fill, (w + block_len(w, size)) as u64, size),
{
    let l = block_len(w, size);
    assert(l > 0);
    let rest = pass_blocks((w + l) as u64, size);
    assert(pass_blocks(w, size) == seq![l] + rest);
    assert(pass_writes(fill, w, size) =~= seq![PassActionKind::Write(l, fill)] + pass_writes(fill, (w + l) as u64, size));
}

/// From a run waiting to sync pass `m.pass`.
proof fn lemma_run_syncing(m: PassRunModel, size: u64)
    requires
        model_wf(m),
        m.phase == PassPhase::Syncing,
    ensures
        uncancelled_run(m, size) == expected_run(m.passes, size, m.pass + 1),
    decreases m.passes.len() - m.pass, 0int, 0int,
{
    let (m2, a) = spec_step(m, answer(m, size), false);
    let k = m.pass + 1;
    if k == m.passes.len() {
        assert(m2.phase == PassPhase::Finished);
        assert(uncancelled_run(m2, size) == Seq::<PassActionKind>::empty());
        assert(uncancelled_run(m, size) =~= seq![PassActionKind::Complete]);
    } else {
        assert(m2.phase == PassPhase::Opening && m2.pass == k);
        lemma_run_opening(m2, size);
        assert(uncancelled_run(m, size) =~= seq![a] + uncancelled_run(m2, size));
        assert(expected_run(m.passes, size, k) =~= seq![PassActionKind::Open((k + 1) as u32)] + pass_writes(
            m.passes[k],
            0,
            size,
        ) + seq![PassActionKind::Sync] + expected_run(m.passes, size, k + 1));
    }
}

/// From a run waiting for the target of pass `m.pass` to be opened.
proof fn lemma_run_opening(m: PassRunModel, size: u64)
    requires
        model_wf(m),
        m.phase == PassPhase::Opening,
    ensures
        uncancelled_run(m, size) == pass_writes(m.passes[m.pass], 0, size) + seq![PassActionKind::Sync]
            + expected_run(m.passes, size, m.pass + 1),
    decreases m.passes.len() - m.pass, 1int, 0int,
{
    let (m2, a) = spec_step(m, answer(m, size), false);
    let fill = m.passes[m.pass];
    if 0 < size {
        assert(m2.phase == PassPhase::Writing && m2.written == 0 && m2.size == size);
        lemma_run_writing(m2, size);
        lemma_pass_writes_step(fill, 0, size);
        assert(uncancelled_run(m, size) =~= seq![a] + uncancelled_run(m2, size));
        assert(uncancelled_run(m, size) =~= pass_writes(fill, 0, size) + seq![PassActionKind::Sync]
            + expected_run(m.passes, size, m.pass + 1));
    } else {
        assert(m2.phase == PassPhase::Syncing);
        lemma_run_syncing(m2, size);
        assert(pass_blocks(0, size) =~= Seq::<usize>::empty());
        assert(pass_writes(fill, 0, size) =~= Seq::<PassActionKind>::empty());
        assert(uncancelled_run(m, size) =~= seq![a] + uncancelled_run(m2, size));
        assert(uncancelled_run(m, size) =~= pass_writes(fill, 0, size) + seq![PassActionKind::Sync]
            + expected_run(m.passes, size, m.pass + 1));
    }
}

/// From a run waiting for the block `m.written .. m.written + m.pending` of
/// pass `m.pass` to be written.
proof fn lemma_run_writing(m: PassRunModel, size: u64)
    requires
        model_wf(m),
        m.phase == PassPhase::Writing,
        m.size == size,
    ensures
        uncancelled_run(m, size) == pass_writes(m.passes[m.pass], (m.written + m.pending) as u64, size)
            + seq![PassActionKind::Sync] + expected_run(m.passes, size, m.pass + 1),
    decreases m.passes.len() - m.pass, 0int, m.size - m.written,
{
    let (m2, a) = spec_step(m, answer(m, size), false);
    let fill = m.passes[m.pass];
    let w = (m.written + m.pending) as u64;
    if w < size {
        assert(m2.phase == PassPhase::Writing && m2.written == w && m2.pending == block_len(w, size));
        lemma_run_writing(m2, size);
        lemma_pass_writes_step(fill, w, size);
        assert(uncancelled_run(m, size) =~= seq![a] + uncancelled_run(m2, size));
        assert(uncancelled_run(m, size) =~= pass_writes(fill, w, size) + seq![PassActionKind::Sync]
            + expected_run(m.passes, size, m.pass + 1));
    } else {
        assert(m2.phase == PassPhase::Syncing);
        lemma_run_syncing(m2, size);
        assert(pass_blocks(w, size) =~= Seq::<usize>::empty());
        assert(pass_writes(fill, w, size) =~= Seq::<PassActionKind>::empty());
        assert(uncancelled_run(m, size) =~= seq![a] + uncancelled_run(m2, size));
    }
}

/// An overwrite run that nobody cancels, over a target of `size` bytes
/// where every operation succeeds, performs every pass in order, each
/// writing the whole target with that pass's fill in blocks of at most
/// 1 MiB (`pass_blocks`) and then syncing it, and completes.
pub proof fn lemma_uncancelled_run(passes: Seq<PassType>, algorithm: Seq<char>, size: u64)
    requires
        passes.len() <= u32::MAX,
    ensures
        uncancelled_run(
            PassRunModel { passes, algorithm, pass: 0, written: 0, size: 0, pending: 0, phase: PassPhase::Ready },
            size,
        ) == expected_run(passes, size, 0),
{
    let m = PassRunModel { passes, algorithm, pass: 0, written: 0, size: 0, pending: 0, phase: PassPhase::Ready };
    let (m2, a) = spec_step(m, answer(m, size), false);
    if passes.len() == 0 {
        assert(uncancelled_run(m2, size) == Seq::<PassActionKind>::empty());
        assert(uncancelled_run(m, size) =~= seq![PassActionKind::Complete]);
    } else {
        lemma_run_opening(m2, size);
        assert(uncancelled_run(m, size) =~= seq![a] + uncancelled_run(m2, size));
        assert(expected_run(passes, size, 0) =~= seq![PassActionKind::Open(1)] + pass_writes(passes[0], 0, size)
            + seq![PassActionKind::Sync] + expected_run(passes, size, 1));
    }
}

/// Gutmann's method pass by pass (counting from 0): four random passes;
/// 0x55 and 0xAA; the three rotations 0x92, 0x49, 0x24 of the bit pattern
/// 100100...; the sixteen bytes 0x00, 0x11, ..., 0xFF whose two nibbles
/// are equal; the rotations 0x92, 0x49, 0x24 again and 0x6D, 0xB6, 0xDB of
/// 011011...; then four random passes.
pub proof fn lemma_gutmann_passes()
    ensures
        ({
            let p = spec_pass_plan(ShredAlgorithm::Gutmann35).unwrap().0;
            &&& spec_pass_plan(ShredAlgorithm::Gutmann35) is Some
            &&& p.len() == 35
            &&& forall|k: int| (0 <= k < 4 || 31 <= k < 35) ==> p[k] == PassType::Random
            &&& p[4] == PassType::Fixed(0x55) && p[5] == PassType::Fixed(0xAA)
            &&& p[6] == PassType::Fixed(0x92) && p[7] == PassType::Fixed(0x49) && p[8] == PassType::Fixed(0x24)
            &&& forall|k: int| 9 <= k < 25 ==> p[k] == PassType::Fixed(((k - 9) * 0x11) as u8)
            &&& p[25] == PassType::Fixed(0x92) && p[26] == PassType::Fixed(0x49) && p[27] == PassType::Fixed(0x24)
            &&& p[28] == PassType::Fixed(0x6D) && p[29] == PassType::Fixed(0xB6) && p[30] == PassType::Fixed(0xDB)
        }),
{
    let p = spec_pass_plan(ShredAlgorithm::Gutmann35).unwrap().0;
    let t = gutmann_table();
    assert(p.len() == 35);
    assert forall|k: int| 0 <= k < 35 implies p[k] == pass_of(#[trigger] t[k]) by {}
    assert forall|k: int| 9 <= k < 25 implies p[k] == PassType::Fixed(((k - 9) * 0x11) as u8) by {
        assert(p[k] == pass_of(t[k]));
        if k == 9 {} else if k == 10 {} else if k == 11 {} else if k == 12 {} else if k == 13 {}
        else if k == 14 {} else if k == 15 {} else if k == 16 {} else if k == 17 {} else if k == 18 {}
        else if k == 19 {} else if k == 20 {} else if k == 21 {} else if k == 22 {} else if k == 23 {}
        else {}
    }
    assert forall|k: int| (0 <= k < 4 || 31 <= k < 35) implies p[k] == PassType::Random by {
        assert(p[k] == pass_of(t[k]));
    }
}

/// The other overwrite methods pass by pass: DoD 5220.22-M writes 0x00,
/// 0xFF, then random data; Schneier's method 0x00, 0xFF, then five random
/// passes; the single random method one random pass.
pub proof fn lemma_other_pass_plans()
    ensures
        spec_pass_plan(ShredAlgorithm::DoD5220) matches Some((p, _)) && p.len() == 3 && p[0] == PassType::Fixed(0x00)
            && p[1] == PassType::Fixed(0xFF) && p[2] == PassType::Random,
        spec_pass_plan(ShredAlgorithm::Schneier7) matches Some((p, _)) && p.len() == 7 && p[0] == PassType::Fixed(0x00)
            && p[1] == PassType::Fixed(0xFF) && (forall|k: int| 2 <= k < 7 ==> p[k] == PassType::Random),
        spec_pass_plan(ShredAlgorithm::RandomSingle) matches Some((p, _)) && p.len() == 1 && p[0] == PassType::Random,
{
}

/// The verification samples of a target lie inside it, in order, starting
/// at its first byte; for a target of at least 4 KiB the last sample ends
/// exactly at its end.
pub proof fn lemma_sample_offsets_cover(size: u64)
    requires
        size > 0,
        size <= u64::MAX / 3,
    ensures
        spec_sample_offsets(size).len() == 5,
        spec_sample_offsets(size)[0] == 0,
        forall|k: int| 0 <= k < 5 ==> #[trigger] spec_sample_offsets(size)[k] < size,
        forall|k: int| 0 <= k < 3 ==> #[trigger] spec_sample_offsets(size)[k] <= spec_sample_offsets(size)[k + 1],
        size >= VERIFICATION_SAMPLE_SIZE ==> spec_sample_offsets(size)[4] + VERIFICATION_SAMPLE_SIZE == size,
{
    let s = spec_sample_offsets(size);
    assert(size / 4 <= size / 2) by (nonlinear_arith) requires size > 0;
    assert(size / 2 <= 3 * size / 4) by (nonlinear_arith) requires size > 0;
    assert(3 * size / 4 < size) by (nonlinear_arith) requires size > 0;
    assert forall|k: int| 0 <= k < 5 implies #[trigger] s[k] < size by {}
    assert forall|k: int| 0 <= k < 3 implies #[trigger] s[k] <= s[k + 1] by {}
}

/// The algorithm names a shred request uses are the algorithms' own names
/// ("DoD5220", "Gutmann35", "RandomSingle", "Schneier7", "NvmeSanitize",
/// "NvmeFormat"), each selecting its algorithm; any other name is refused
/// with "Unknown algorithm: " followed by the name.
pub proof fn lemma_algorithm_names(s: Seq<char>)
    ensures
        spec_parse_algorithm("DoD5220"@) == Ok::<ShredAlgorithm, Seq<char>>(ShredAlgorithm::DoD5220),
        spec_parse_algorithm("Gutmann35"@) == Ok::<ShredAlgorithm, Seq<char>>(ShredAlgorithm::Gutmann35),
        spec_parse_algorithm("RandomSingle"@) == Ok::<ShredAlgorithm, Seq<char>>(ShredAlgorithm::RandomSingle),
        spec_parse_algorithm("Schneier7"@) == Ok::<ShredAlgorithm, Seq<char>>(ShredAlgorithm::Schneier7),
        spec_parse_algorithm("NvmeSanitize"@) == Ok::<ShredAlgorithm, Seq<char>>(ShredAlgorithm::NvmeSanitize),
        spec_parse_algorithm("NvmeFormat"@) == Ok::<ShredAlgorithm, Seq<char>>(ShredAlgorithm::NvmeFormat),
        spec_parse_algorithm(s) is Err ==> spec_parse_algorithm(s) == Err::<ShredAlgorithm, Seq<char>>(
            "Unknown algorithm: "@ + s,
        ),
{
    reveal_strlit("DoD5220");
    reveal_strlit("Gutmann35");
    reveal_strlit("RandomSingle");
    reveal_strlit("Schneier7");
    reveal_strlit("NvmeSanitize");
    reveal_strlit("NvmeFormat");
    assert("Gutmann35"@[0] != "DoD5220"@[0]);
    assert("RandomSingle"@[0] != "DoD5220"@[0]);
    assert("Schneier7"@[0] != "RandomSingle"@[0]);
    assert("NvmeSanitize"@[0] != "Schneier7"@[0]);
    assert("NvmeFormat"@[4] != "NvmeSanitize"@[4]);
}

/// Raw devices are the Windows device namespace `\\.\` (as in
/// `\\.\PhysicalDrive0`) and the Unix device directory `/dev/`: every path
/// under either is a device, and a path starting with neither a backslash
/// nor '/' is not.
pub proof fn lemma_device_paths(rest: Seq<char>, p: Seq<char>)
    ensures
        spec_is_device_path(seq!['\\', '\\', '.', '\\'] + rest),
        spec_is_device_path(seq!['/', 'd', 'e', 'v', '/'] + rest),
        p.len() > 0 && p[0] != '\\' && p[0] != '/' ==> !spec_is_device_path(p),
{
    reveal_strlit("\\\\.\\");
    reveal_strlit("/dev/");
    assert((seq!['\\', '\\', '.', '\\'] + rest).subrange(0, 4) =~= "\\\\.\\"@);
    assert((seq!['/', 'd', 'e', 'v', '/'] + rest).subrange(0, 5) =~= "/dev/"@);
    if p.len() >= 4 && p.subrange(0, 4) == "\\\\.\\"@ {
        assert(p.subrange(0, 4)[0] == p[0]);
    }
    if p.len() >= 5 && p.subrange(0, 5) == "/dev/"@ {
        assert(p.subrange(0, 5)[0] == p[0]);
    }
}

/// Passes are written in blocks of 1 MiB and verified on samples of 4 KiB.
pub proof fn lemma_shred_geometry()
    ensures
        WRITE_BLOCK_SIZE == 1048576,
        VERIFICATION_SAMPLE_SIZE == 4096,
{
}

} // verus!
