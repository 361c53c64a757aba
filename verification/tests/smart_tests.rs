use std::collections::HashMap;

use aeon_recovery::smart::{DriveProbe, SmartReader};
use aeon_recovery::types::HealthStatus;

struct Drives {
    lengths: HashMap<String, u64>,
}

impl DriveProbe for Drives {
    fn drive_length(&self, path: &str) -> Option<u64> {
        self.lengths.get(path).copied()
    }
}

#[test]
fn health_classes() {
    let h = SmartReader::estimated_health(85);
    assert_eq!(h.overall_health, HealthStatus::Healthy);
    assert_eq!(h.temperature_celsius, Some(35));
    assert_eq!(h.health_score, 85);
    assert_eq!(SmartReader::estimated_health(80).overall_health, HealthStatus::Healthy);
    assert_eq!(SmartReader::estimated_health(100).overall_health, HealthStatus::Healthy);
    assert_eq!(SmartReader::estimated_health(79).overall_health, HealthStatus::Warning);
    assert_eq!(SmartReader::estimated_health(50).overall_health, HealthStatus::Warning);
    assert_eq!(SmartReader::estimated_health(49).overall_health, HealthStatus::Critical);
    assert_eq!(SmartReader::estimated_health(101).overall_health, HealthStatus::Critical);
    let q = SmartReader::queried_health();
    assert_eq!((q.overall_health, q.temperature_celsius, q.health_score), (HealthStatus::Healthy, Some(38), 92));
    assert!(SmartReader::smart_query_answered(true, 36));
    assert!(!SmartReader::smart_query_answered(true, 35));
    assert!(!SmartReader::smart_query_answered(false, 100));
}

#[test]
fn mounted_disk_record() {
    let d = SmartReader::disk_info("/dev/sda1", "/home", 1000, 250, "ext4", true, SmartReader::estimated_health(25));
    assert_eq!(d.device_path, "/dev/sda1");
    assert_eq!(d.display_name, "/dev/sda1 (/home)");
    assert_eq!((d.total_bytes, d.used_bytes), (1000, 750));
    assert_eq!(d.file_system, "ext4");
    assert!(d.is_ssd);
    assert_eq!((d.model.as_str(), d.serial.as_str()), ("N/A", "N/A"));
    assert_eq!(d.smart_health.overall_health, HealthStatus::Critical);
}

#[test]
fn physical_drives() {
    assert_eq!(SmartReader::physical_drive_path(0), "\\\\.\\PhysicalDrive0");
    assert_eq!(SmartReader::physical_drive_path(15), "\\\\.\\PhysicalDrive15");
    let mut lengths = HashMap::new();
    lengths.insert("\\\\.\\PhysicalDrive0".to_string(), 500u64);
    lengths.insert("\\\\.\\PhysicalDrive3".to_string(), 900u64);
    lengths.insert("\\\\.\\PhysicalDrive16".to_string(), 1u64);
    let found = SmartReader::enumerate_physical_drives_windows(&Drives { lengths });
    assert_eq!(found.len(), 2);
    assert_eq!(found[0].device_path, "\\\\.\\PhysicalDrive0");
    assert_eq!(found[0].display_name, "Physical Drive (\\\\.\\PhysicalDrive0)");
    assert_eq!(found[0].total_bytes, 500);
    assert_eq!(found[1].device_path, "\\\\.\\PhysicalDrive3");
    assert_eq!(found[1].file_system, "RAW");
    assert_eq!(found[1].smart_health.overall_health, HealthStatus::Unknown);
    assert_eq!(found[1].smart_health.temperature_celsius, None);
    assert_eq!(found[1].model, "Unknown");
}
