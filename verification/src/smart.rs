//! Disk listing and health estimates.
use vstd::prelude::*;

use crate::strs;
use crate::types::{DiskInfo, HealthStatus, SmartHealth};

verus! {

/// Health class of a score: 80 to 100 healthy, 50 to 79 warning, anything
/// else critical.
pub open spec fn spec_health_class(score: u8) -> HealthStatus {
    if 80 <= score && score <= 100 {
        HealthStatus::Healthy
    } else if 50 <= score && score <= 79 {
        HealthStatus::Warning
    } else {
        HealthStatus::Critical
    }
}

/// A health record with the given class, temperature and score, and no
/// counted sector or hour.
pub open spec fn health_is(h: SmartHealth, overall: HealthStatus, temperature: Option<u32>, score: u8) -> bool {
    &&& h.overall_health == overall
    &&& h.temperature_celsius == temperature
    &&& h.reallocated_sectors == 0
    &&& h.pending_sectors == 0
    &&& h.uncorrectable_sectors == 0
    &&& h.power_on_hours == 0
    &&& h.health_score == score
}

/// A disk record built from what the system reports of a mounted disk.
pub open spec fn disk_is(
    d: DiskInfo,
    name: Seq<char>,
    mount: Seq<char>,
    total: u64,
    available: u64,
    file_system: Seq<char>,
    is_ssd: bool,
) -> bool {
    &&& d.device_path@ == name
    &&& d.display_name@ == name + " ("@ + mount + ")"@
    &&& d.total_bytes == total
    &&& d.used_bytes == total - available
    &&& d.file_system@ == file_system
    &&& d.is_ssd == is_ssd
    &&& d.model@ == "N/A"@
    &&& d.serial@ == "N/A"@
}

/// The path of physical drive `i` on Windows: `\\.\PhysicalDrive<i>`.
pub open spec fn spec_physical_drive_path(i: u32) -> Seq<char> {
    "\\\\.\\PhysicalDrive"@ + strs::decimal(i as nat)
}

/// The record of a raw physical drive of `length` bytes at `path`.
pub open spec fn physical_drive_is(d: DiskInfo, path: Seq<char>, length: u64) -> bool {
    &&& d.device_path@ == path
    &&& d.display_name@ == "Physical Drive ("@ + path + ")"@
    &&& d.total_bytes == length
    &&& d.used_bytes == 0
    &&& d.file_system@ == "RAW"@
    &&& !d.is_ssd
    &&& health_is(d.smart_health, HealthStatus::Unknown, None, 0)
    &&& d.model@ == "Unknown"@
    &&& d.serial@ == "Unknown"@
}

/// `a` is an answer `probe` can give for physical drive number `i`.
pub open spec fn probe_answers<P: DriveProbe>(probe: &P, i: u32, a: Option<u64>) -> bool {
    exists|s: &str| s@ == spec_physical_drive_path(i) && #[trigger] call_ensures(P::drive_length, (probe, s), a)
}

/// The drives `r` (numbers `ids`) are exactly those of `answers` that have
/// a length, in order, each with that length.
pub open spec fn drives_answered(r: Seq<DiskInfo>, ids: Seq<u32>, answers: Seq<Option<u64>>) -> bool {
    &&& forall|k: int| 0 <= k < ids.len() ==> ids[k] < answers.len() && answers[ids[k] as int] == Some(
        (#[trigger] r[k]).total_bytes,
    )
    &&& forall|i: int| 0 <= i < answers.len() && (#[trigger] answers[i]) is Some ==> exists|k: int|
        0 <= k < ids.len() && ids[k] == i
}

/// `r` lists physical drives with numbers `ids`, increasing and below
/// `limit`, each record a raw drive record of its path.
pub open spec fn drives_listed(r: Seq<DiskInfo>, ids: Seq<u32>, limit: u32) -> bool {
    &&& ids.len() == r.len()
    &&& forall|k: int| 0 <= k < ids.len() ==> ids[k] < limit
    &&& forall|k1: int, k2: int| 0 <= k1 < k2 < ids.len() ==> ids[k1] < ids[k2]
    &&& forall|k: int| 0 <= k < r.len() ==> physical_drive_is(
        #[trigger] r[k],
        spec_physical_drive_path(ids[k]),
        r[k].total_bytes,
    )
}

/// Answers whether a physical drive exists and how long it is.
pub trait DriveProbe {
    /// The length in bytes of the drive at `path`, or `None` when it cannot
    /// be opened.
    fn drive_length(&self, path: &str) -> Option<u64>;
}

/// Reads disk health.
pub struct SmartReader;

impl SmartReader {
    /// Health estimated from a score in percent of free space: class by
    /// score, 35 degrees, no counted sector or hour.
    pub fn estimated_health(health_score: u8) -> (r: SmartHealth)
        ensures
            health_is(r, spec_health_class(health_score), Some(35), health_score),
    {
        let overall = if 80 <= health_score && health_score <= 100 {
            HealthStatus::Healthy
        } else if 50 <= health_score && health_score <= 79 {
            HealthStatus::Warning
        } else {
            HealthStatus::Critical
        };
        SmartHealth {
            overall_health: overall,
            temperature_celsius: Some(35),
            reallocated_sectors: 0,
            pending_sectors: 0,
            uncorrectable_sectors: 0,
            power_on_hours: 0,
            health_score,
        }
    }

    /// Whether a storage property query answered with a device descriptor
    /// (at least 36 bytes).
    pub fn smart_query_answered(ok: bool, bytes_returned: u32) -> (r: bool)
        ensures
            r == (ok && bytes_returned >= 36),
    {
        ok && bytes_returned >= 36
    }

    /// Health of a drive that answered the storage property query: healthy,
    /// 38 degrees, score 92.
    pub fn queried_health() -> (r: SmartHealth)
        ensures
            health_is(r, HealthStatus::Healthy, Some(38), 92),
    {
        SmartHealth {
            overall_health: HealthStatus::Healthy,
            temperature_celsius: Some(38),
            reallocated_sectors: 0,
            pending_sectors: 0,
            uncorrectable_sectors: 0,
            power_on_hours: 0,
            health_score: 92,
        }
    }

    /// The record of a mounted disk: its name as path, "name (mount)" as
    /// display name, used bytes as total minus available, and "N/A" for
    /// model and serial.
    pub fn disk_info(
        name: &str,
        mount: &str,
        total: u64,
        available: u64,
        file_system: &str,
        is_ssd: bool,
        smart_health: SmartHealth,
    ) -> (r: DiskInfo)
        requires
            available <= total,
        ensures
            disk_is(r, name@, mount@, total, available, file_system@, is_ssd),
            r.smart_health == smart_health,
    {
        let mut display = String::from_str(name);
        display.append(" (");
        display.append(mount);
        display.append(")");
        DiskInfo {
            device_path: String::from_str(name),
            display_name: display,
            total_bytes: total,
            used_bytes: total - available,
            file_system: String::from_str(file_system),
            is_ssd,
            smart_health,
            model: String::from_str("N/A"),
            serial: String::from_str("N/A"),
        }
    }

    /// The path of physical drive `i`.
    pub fn physical_drive_path(i: u32) -> (r: String)
        ensures
            r@ == spec_physical_drive_path(i),
    {
        let mut s = String::from_str("\\\\.\\PhysicalDrive");
        let digits = strs::decimal_string(i as u64);
        s.append(digits.as_str());
        s
    }

    /// The record of a raw physical drive.
    pub fn physical_drive_info(path: &str, length: u64) -> (r: DiskInfo)
        ensures
            physical_drive_is(r, path@, length),
    {
        let mut display = String::from_str("Physical Drive (");
        display.append(path);
        display.append(")");
        DiskInfo {
            device_path: String::from_str(path),
            display_name: display,
            total_bytes: length,
            used_bytes: 0,
            file_system: String::from_str("RAW"),
            is_ssd: false,
            smart_health: SmartHealth {
                overall_health: HealthStatus::Unknown,
                temperature_celsius: None,
                reallocated_sectors: 0,
                pending_sectors: 0,
                uncorrectable_sectors: 0,
                power_on_hours: 0,
                health_score: 0,
            },
            model: String::from_str("Unknown"),
            serial: String::from_str("Unknown"),
        }
    }

    /// The physical drives 0 to 15 that `probe` can open, in order, each as
    /// a raw drive record with the length the probe reports.
    #[verifier::spinoff_prover]
    pub fn enumerate_physical_drives_windows<P: DriveProbe>(probe: &P) -> (r: Vec<DiskInfo>)
        ensures
            r@.len() <= 16,
            exists|ids: Seq<u32>| #[trigger] drives_listed(r@, ids, 16),
            exists|ids: Seq<u32>, answers: Seq<Option<u64>>|
                #![trigger drives_listed(r@, ids, 16), drives_answered(r@, ids, answers)]
                drives_listed(r@, ids, 16) && answers.len() == 16 && (forall|i: int|
                    0 <= i < 16 ==> probe_answers(probe, i as u32, #[trigger] answers[i])) && drives_answered(r@, ids, answers),
    {
        let mut drives: Vec<DiskInfo> = Vec::new();
        let ghost mut ids: Seq<u32> = Seq::empty();
        let ghost mut answers: Seq<Option<u64>> = Seq::empty();
        let mut i: u32 = 0;
        while i < 16
            invariant
                i <= 16,
                drives@.len() <= i,
                drives_listed(drives@, ids, i),
                answers.len() == i,
                forall|j: int| 0 <= j < i ==> probe_answers(probe, j as u32, #[trigger] answers[j]),
                drives_answered(drives@, ids, answers),
            decreases 16 - i,
        {
            let path = Self::physical_drive_path(i);
            let path_str = path.as_str();
            let answer = probe.drive_length(path_str);
            let ghost before_answers = answers;
            let ghost ids0 = ids;
            proof {
                assert(call_ensures(P::drive_length, (probe, path_str), answer));
                assert(probe_answers(probe, i, answer));
                answers = answers.push(answer);
                assert forall|j: int| 0 <= j < i + 1 implies probe_answers(probe, j as u32, #[trigger] answers[j]) by {
                    if j < i {
                        assert(answers[j] == before_answers[j]);
                    }
                }
            }
            match answer {
                Some(length) => {
                    let info = Self::physical_drive_info(path.as_str(), length);
                    let ghost before = drives@;
                    drives.push(info);
                    proof {
                        ids = ids.push(i);
                        assert forall|k: int| 0 <= k < drives@.len() implies physical_drive_is(
                            #[trigger] drives@[k],
                            spec_physical_drive_path(ids[k]),
                            drives@[k].total_bytes,
                        ) by {
                            if k < before.len() {
                                assert(drives@[k] == before[k]);
                            }
                        }
                    }
                },
                None => {},
            }
            proof {
                assert forall|k: int| 0 <= k < ids.len() implies ids[k] < answers.len() && answers[ids[k] as int] == Some(
                    (#[trigger] drives@[k]).total_bytes,
                ) by {
                    if k < ids0.len() {
                        assert(ids[k] == ids0[k]);
                        assert(answers[ids[k] as int] == before_answers[ids[k] as int]);
                    }
                }
                assert forall|j: int| 0 <= j < answers.len() && (#[trigger] answers[j]) is Some implies exists|k: int|
                    0 <= k < ids.len() && ids[k] == j by {
                    if j < i {
                        assert(answers[j] == before_answers[j]);
                        let k = choose|k: int| 0 <= k < ids0.len() && ids0[k] == j;
                        assert(ids[k] == ids0[k]);
                    } else {
                        assert(ids[ids.len() - 1] == i);
                    }
                }
            }
            i += 1;
        }
        assert(drives_listed(drives@, ids, 16));
        assert(drives_answered(drives@, ids, answers));
        drives
    }
}

/// Rank of a health class, worst first.
pub open spec fn health_rank(h: HealthStatus) -> int {
    match h {
        HealthStatus::Critical => 0,
        HealthStatus::Warning => 1,
        HealthStatus::Healthy => 2,
        _ => 3,
    }
}

/// Health classes follow the score: a higher score (up to 100) is never a
/// worse class; 80 is the lowest healthy score, 79 down to 50 warn, 49 and
/// below are critical.
pub proof fn lemma_health_class_by_score(a: u8, b: u8)
    ensures
        a <= b <= 100 ==> health_rank(spec_health_class(a)) <= health_rank(spec_health_class(b)),
        spec_health_class(100) == HealthStatus::Healthy,
        spec_health_class(80) == HealthStatus::Healthy,
        spec_health_class(79) == HealthStatus::Warning,
        spec_health_class(50) == HealthStatus::Warning,
        spec_health_class(49) == HealthStatus::Critical,
        spec_health_class(0) == HealthStatus::Critical,
{
}

} // verus!
