use diskclear::bigfiles::{finalize, ignored_keys, threshold_bytes};
use diskclear::settings::Settings;
use diskclear::walker::WalkFile;

#[test]
fn default_settings_values() {
    let s = Settings::default();
    assert_eq!(s.recovery_retention_days, 7);
    assert_eq!(s.fat32_policy, "skip");
    assert_eq!(s.theme, "system");
    assert_eq!(s.large_file_threshold_mb, 100);
    assert_eq!(s.scan_threads, 4);
    assert!(s.whitelist_dirs.is_empty() && s.ignored_files.is_empty());
}

#[test]
fn add_ignored_file_is_idempotent() {
    let mut s = Settings::default();
    s.add_ignored_file(r"C:\big.iso".to_string());
    s.add_ignored_file(r"C:\big.iso".to_string());
    assert_eq!(s.ignored_files, vec![r"C:\big.iso".to_string()]);
    s.add_ignored_file(r"C:\other.iso".to_string());
    assert_eq!(s.ignored_files.len(), 2);
    s.clear_ignored_files();
    assert!(s.ignored_files.is_empty());
    assert_eq!(s.recovery_retention_days, 7);
}

#[test]
fn threshold_saturates() {
    assert_eq!(threshold_bytes(100), 100 * 1024 * 1024);
    assert_eq!(threshold_bytes(u64::MAX), u64::MAX);
}

#[test]
fn finalize_drops_ignored_and_sorts() {
    let files = vec![
        WalkFile { path: r"C:\a.bin".to_string(), size: 10, modified_ms: 0, is_cloud: false },
        WalkFile { path: r"C:\B.iso".to_string(), size: 30, modified_ms: 0, is_cloud: false },
        WalkFile { path: r"C:\c.bin".to_string(), size: 20, modified_ms: 0, is_cloud: true },
    ];
    let keys = ignored_keys(&vec![r"\\?\c:\b.iso".to_string()]);
    assert_eq!(keys, vec![r"c:\b.iso".to_string()]);
    let (listed, truncated, total) = finalize(&files, &keys, false);
    assert_eq!(listed.iter().map(|f| f.path.as_str()).collect::<Vec<_>>(), vec![r"C:\c.bin", r"C:\a.bin"]);
    assert!(listed[0].is_cloud);
    assert!(!truncated);
    assert_eq!(total, 30);
    let (_, t2, _) = finalize(&files, &keys, true);
    assert!(t2);
}
