use filelens::paths::{is_protected_path, Platform};
use filelens::progress::ScanErrorLog;

const ON: Platform = Platform::Posix;

#[test]
fn scan_error_log_keeps_recent_samples_and_total() {
    let mut log = ScanErrorLog::new();
    for index in 0..25 {
        log.record(&format!("/data/file-{index}.bin"), "permission denied");
    }
    let (total, recent) = log.snapshot();
    assert_eq!(total, 25);
    assert_eq!(recent.len(), 20);
    // The ring keeps the newest entries after wrapping past the cap.
    assert_eq!(
        recent.last().unwrap(),
        &("/data/file-24.bin".to_string(), "permission denied".to_string())
    );
    assert_eq!(recent.first().unwrap().0, "/data/file-5.bin");

    let empty = ScanErrorLog::new();
    assert_eq!(empty.snapshot(), (0, Vec::new()));
}

#[test]
fn protection_rules_match_normalized_separators() {
    let rules = vec!["/data/backup".to_string(), "keep".to_string()];
    assert!(is_protected_path(ON, "/data/backup/old/a.txt", &rules));
    assert!(is_protected_path(ON, "/data/backup", &rules));
    // Trailing separator in the rule must not create a dead rule.
    assert!(is_protected_path(ON, "/data/backup/x.txt", &vec!["/data/backup/".to_string()]));
    // Substring semantics deliberately over-protects: a rule for
    // `/data/backup` also matches `/data/backup2` (safe direction).
    assert!(is_protected_path(ON, "/data/backup2/a.txt", &rules));
    // Plain name fragments keep matching anywhere in the path.
    assert!(is_protected_path(ON, "/mnt/store/keepme.txt", &rules));
    assert!(!is_protected_path(ON, "/mnt/store/other.txt", &rules));
}

#[test]
fn protection_rules_follow_the_platform() {
    let rules = vec!["/Data/Keep".to_string()];
    assert!(is_protected_path(Platform::Windows, "\\data\\keep\\a.txt", &rules));
    assert!(!is_protected_path(Platform::Posix, "/data/keep/a.txt", &rules));
    assert!(is_protected_path(Platform::Posix, "/Data/Keep/a.txt", &rules));
}
