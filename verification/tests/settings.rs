use std::path::PathBuf;

use macdirstat::settings::{settings_path, Settings};

#[test]
fn serialize_parse_roundtrip_with_excludes() {
    let mut s = Settings::default();
    s.optimization_mode = false;
    s.scan_threads = 6;
    s.custom_excludes = vec![
        "/Users/me/Library/Caches".to_string(),
        "/Volumes/Backup".to_string(),
    ];
    s.show_info_card = false;
    let parsed = Settings::parse(&s.serialize());
    assert_eq!(parsed, s);
}

#[test]
fn excluded_paths_includes_cloud_and_custom() {
    let mut s = Settings::default();
    s.ignore_cloud_storage = true;
    s.custom_excludes = vec!["/tmp/skip-me".to_string()];
    let paths: Vec<PathBuf> =
        s.excluded_paths(Some("/Users/me")).iter().map(PathBuf::from).collect();
    assert!(paths.iter().any(|p| p.ends_with("Library/CloudStorage")));
    assert!(
        paths
            .iter()
            .any(|p| p.ends_with("Library/Mobile Documents"))
    );
    assert!(paths.iter().any(|p| p == &PathBuf::from("/tmp/skip-me")));

    s.ignore_cloud_storage = false;
    let paths: Vec<PathBuf> =
        s.excluded_paths(Some("/Users/me")).iter().map(PathBuf::from).collect();
    assert!(!paths.iter().any(|p| p.ends_with("Library/CloudStorage")));
    assert!(paths.iter().any(|p| p == &PathBuf::from("/tmp/skip-me")));
}

#[test]
fn excluded_paths_are_exact() {
    let mut s = Settings::default();
    s.custom_excludes = vec!["/x".to_string()];
    assert_eq!(
        s.excluded_paths(Some("/Users/me/")),
        vec![
            "/Users/me/Library/CloudStorage",
            "/Users/me/Library/Mobile Documents",
            "/Users/me/Dropbox",
            "/Users/me/OneDrive",
            "/Users/me/Google Drive",
            "/x",
        ]
    );
    assert_eq!(s.excluded_paths(None), vec!["/x"]);
}

#[test]
fn defaults() {
    let s = Settings::default();
    assert!(s.ignore_cloud_storage);
    assert!(s.skip_duplicate_inodes);
    assert!(s.optimization_mode);
    assert_eq!(s.min_file_size_mb, 25);
    assert_eq!(s.scan_threads, 0);
    assert!(s.custom_excludes.is_empty());
    assert!(s.show_info_card);
    assert_eq!(Settings::load(None), s);
}

#[test]
fn serialized_text() {
    let mut s = Settings::default();
    s.custom_excludes = vec!["/a b".to_string()];
    assert_eq!(
        s.serialize(),
        "ignore_cloud_storage=true\nskip_duplicate_inodes=true\noptimization_mode=true\nmin_file_size_mb=25\nscan_threads=0\nshow_info_card=true\nexclude=/a b\n"
    );
}

#[test]
fn parse_takes_what_it_can_read() {
    let s = Settings::load(Some(
        "ignore_cloud_storage=no\r\nmin_file_size_mb= 7 \nscan_threads=x\nunknown=1\nexclude=\nexclude=  /p  \nscan_threads=+3\nscan_threads=-4\nshow_info_card= true\noptimization_mode=false",
    ));
    assert!(!s.ignore_cloud_storage);
    assert!(s.skip_duplicate_inodes);
    assert!(!s.optimization_mode);
    assert_eq!(s.min_file_size_mb, 7);
    assert_eq!(s.scan_threads, 3);
    assert_eq!(s.custom_excludes, vec!["/p"]);
    assert!(s.show_info_card);
}

#[test]
fn parse_rejects_numbers_out_of_range() {
    let s = Settings::parse("min_file_size_mb=18446744073709551616\nscan_threads=18446744073709551615\n");
    assert_eq!(s.min_file_size_mb, 25);
    assert_eq!(s.scan_threads, u64::MAX);
}

#[test]
fn excludes_with_white_space_at_an_end_are_not_kept() {
    let mut s = Settings::default();
    s.custom_excludes = vec![" /a".to_string()];
    assert_eq!(Settings::parse(&s.serialize()).custom_excludes, vec!["/a"]);
}

#[test]
fn min_file_size_in_bytes() {
    let mut s = Settings::default();
    assert_eq!(s.min_file_size_bytes(), 25 * 1024 * 1024);
    s.optimization_mode = false;
    assert_eq!(s.min_file_size_bytes(), 0);
}

#[test]
fn custom_excludes_are_added_once_and_removed() {
    let mut s = Settings::default();
    s.add_exclude("/a".to_string());
    s.add_exclude("/b".to_string());
    s.add_exclude("/a".to_string());
    assert_eq!(s.custom_excludes, vec!["/a", "/b"]);
    s.remove_exclude(0);
    assert_eq!(s.custom_excludes, vec!["/b"]);
}

#[test]
fn typed_numbers() {
    let mut s = Settings::default();
    s.enter_min_file_size(" 40 ");
    assert_eq!(s.min_file_size_mb, 40);
    s.enter_min_file_size("0");
    assert_eq!(s.min_file_size_mb, 1);
    s.enter_min_file_size("ten");
    assert_eq!(s.min_file_size_mb, 1);
    s.enter_scan_threads("300");
    assert_eq!(s.scan_threads, 256);
    s.enter_scan_threads("8");
    assert_eq!(s.scan_threads, 8);
    s.enter_scan_threads("");
    assert_eq!(s.scan_threads, 8);
}

#[test]
fn settings_file() {
    assert_eq!(settings_path("/Users/me"), "/Users/me/.config/macdirstat/settings.txt");
}
