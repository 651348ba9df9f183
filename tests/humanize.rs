use vaporz::humanize::{format_last_modified, format_size};
use vaporz::models::FolderInfo;

#[test]
fn sizes() {
    assert_eq!(format_size(0), "0.0 B");
    assert_eq!(format_size(1023), "1023.0 B");
    assert_eq!(format_size(1024), "1.0 KB");
    assert_eq!(format_size(1536), "1.5 KB");
    assert_eq!(format_size(1_048_576), "1.0 MB");
    assert_eq!(format_size(5 * 1024 * 1024 * 1024), "5.0 GB");
    assert_eq!(format_size(u64::MAX), "16.0 EB");
}

#[test]
fn sizes_round_to_nearest_tenth() {
    // 1024 + 51.2 -> 1.05 KB exactly: half goes to even
    assert_eq!(format_size(1075), "1.0 KB");
    assert_eq!(format_size(1076), "1.1 KB");
    assert_eq!(format_size(1280), "1.2 KB");
    assert_eq!(format_size(1792), "1.8 KB");
    assert_eq!(format_size(1_048_575), "1024.0 KB");
}

#[test]
fn ages() {
    assert_eq!(format_last_modified(0), "0s");
    assert_eq!(format_last_modified(59), "59s");
    assert_eq!(format_last_modified(60), "1min");
    assert_eq!(format_last_modified(90), "2min");
    assert_eq!(format_last_modified(150), "2min");
    assert_eq!(format_last_modified(3599), "60min");
    assert_eq!(format_last_modified(3600), "1h");
    assert_eq!(format_last_modified(86399), "24h");
    assert_eq!(format_last_modified(3 * 86400), "3d");
}

#[test]
fn folder_texts_wait_for_measurements() {
    let mut f = FolderInfo::with_id(1, "/p/target".to_string());
    assert_eq!(f.human_size(), None);
    assert_eq!(f.human_last_modified(), None);
    f.set_size(2048);
    f.set_last_modified(120);
    assert_eq!(f.human_size(), Some("2.0 KB".to_string()));
    assert_eq!(f.human_last_modified(), Some("2min".to_string()));
}
