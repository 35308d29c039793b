use std::hash::{Hash, Hasher};

use macdirstat::cache::{cache_dir, cache_file, cache_file_name, cache_is_current, CACHE_VERSION};
use macdirstat::confirm::{applescript_escape, confirmed, delete_script};
use macdirstat::format::{
    folder_label, format_file_count, kind_label, more_types_label, size_label, start_dir,
    stop_label, threads_label, used_space, volume_name, FileCount,
};
use macdirstat::location::{file_location, folder_location, parent_path, strip_base};
use macdirstat::logging::{
    enabled, log_file_path, log_line, panic_report, rotated_log_path, should_rotate, timestamp,
    LocalTime, LogLevel, SourcePlace,
};
use macdirstat::path::{file_name, join, paths_match, short_name};

fn count(n: u64) -> String {
    match format_file_count(n) {
        FileCount::Exact(t) => t,
        FileCount::Millions(n) => format!("{:.1}M", n as f64 / 1_000_000.0),
    }
}

#[test]
fn counts_are_grouped() {
    assert_eq!(count(0), "0");
    assert_eq!(count(999), "999");
    assert_eq!(count(1_000), "1,000");
    assert_eq!(count(12_034), "12,034");
    assert_eq!(count(999_999), "999,999");
    assert_eq!(count(1_000_000), "1.0M");
    assert_eq!(count(2_560_000), "2.6M");
}

#[test]
fn approximate_sizes_of_directories_are_marked() {
    assert_eq!(size_label("3 MB", true, true), "~3 MB");
    assert_eq!(size_label("3 MB", true, false), "3 MB");
    assert_eq!(size_label("3 MB", false, true), "3 MB");
}

#[test]
fn labels() {
    assert_eq!(volume_name("/"), "Macintosh HD");
    assert_eq!(volume_name("/Volumes/Backup"), "Backup");
    assert_eq!(volume_name("/.."), "/..");
    assert_eq!(used_space(3, 10), 7);
    assert_eq!(used_space(10, 3), 0);
    assert_eq!(folder_label("/Users/me/"), "me");
    assert_eq!(folder_label("/"), "/");
    assert_eq!(more_types_label(5), "All file types");
    assert_eq!(more_types_label(17), "\u{2295} 12 more");
    assert_eq!(threads_label(0), "auto");
    assert_eq!(threads_label(8), "8");
    assert_eq!(kind_label(""), "File");
    assert_eq!(kind_label("rs"), ".rs file");
    assert_eq!(stop_label(false, true), "\u{25A0} Stop");
    assert_eq!(stop_label(false, false), "\u{25A0}  Stop");
    assert_eq!(stop_label(true, false), "Stopping\u{2026}");
}

#[test]
fn where_a_scan_starts() {
    let s = |t: &str| Some(t.to_string());
    assert_eq!(start_dir(s("/x"), s("/home")), "/x");
    assert_eq!(start_dir(None, s("/home")), "/home");
    assert_eq!(start_dir(None, None), "/Users");
}

#[test]
fn applescript_strings() {
    assert_eq!(applescript_escape("plain"), "plain");
    assert_eq!(applescript_escape("a\\b"), "a\\\\b");
    assert_eq!(applescript_escape("say \"hi\""), "say \\\"hi\\\"");
    assert_eq!(applescript_escape("\\\""), "\\\\\\\"");
    let once = "x\\\"y".replace('\\', "\\\\").replace('"', "\\\"");
    assert_eq!(applescript_escape("x\\\"y"), once);
}

#[test]
fn the_dialog_before_deleting() {
    assert_eq!(
        delete_script("a\"b", "3 MB", "/x/a\"b", false),
        "display alert \"Delete this file?\" message \"a\\\"b (3 MB)\n/x/a\\\"b\" as critical buttons {\"Cancel\", \"Delete\"} default button \"Cancel\""
    );
    assert_eq!(
        delete_script("d", "1 KB", "/d", true),
        "display alert \"Delete this directory?\" message \"d (1 KB)\n/d\n\nThis will permanently delete the directory and all its contents.\" as critical buttons {\"Cancel\", \"Delete\"} default button \"Cancel\""
    );
    assert!(confirmed("button returned:Delete\n"));
    assert!(!confirmed("button returned:Cancel\n"));
    assert!(!confirmed(""));
}

#[test]
fn cache_files() {
    assert_eq!(cache_dir("/Users/me"), "/Users/me/.cache/macdirstat");
    assert_eq!(cache_file_name(0xabc), "0000000000000abc.bin");
    assert_eq!(cache_file_name(u64::MAX), "ffffffffffffffff.bin");
    assert_eq!(cache_file(None, "/x"), None);
    let a = cache_file(Some("/Users/me"), "/x").expect("a home");
    assert!(a.starts_with("/Users/me/.cache/macdirstat/"));
    assert!(a.ends_with(".bin"));
    assert_eq!(a.len(), "/Users/me/.cache/macdirstat/".len() + 20);
    assert_eq!(Some(a.clone()), cache_file(Some("/Users/me"), "/x"));
    assert_ne!(Some(a), cache_file(Some("/Users/me"), "/y"));
}

#[test]
fn the_cache_file_is_named_by_the_hash_of_the_root() {
    let mut h = rustc_hash::FxHasher::default();
    "/Users/me".hash(&mut h);
    let want = format!("/h/.cache/macdirstat/{:016x}.bin", h.finish());
    assert_eq!(cache_file(Some("/h"), "/Users/me"), Some(want));
}

#[test]
fn caches_that_can_be_used() {
    assert_eq!(CACHE_VERSION, 2);
    assert!(cache_is_current(2, "/x", "/x"));
    assert!(!cache_is_current(1, "/x", "/x"));
    assert!(!cache_is_current(2, "/x", "/y"));
}

#[test]
fn what_is_logged() {
    assert!(enabled("macdirstat::app", LogLevel::Info));
    assert!(!enabled("macdirstat", LogLevel::Debug));
    assert!(!enabled("eframe", LogLevel::Info));
    assert!(enabled("eframe", LogLevel::Warn));
    assert!(enabled("", LogLevel::Error));
    assert!(!enabled("macdirstat", LogLevel::Trace));
}

#[test]
fn log_files() {
    assert_eq!(
        log_file_path("/Users/me"),
        "/Users/me/Library/Logs/MacDirStat/macdirstat.log"
    );
    assert_eq!(
        rotated_log_path("/Users/me"),
        "/Users/me/Library/Logs/MacDirStat/macdirstat.log.old"
    );
    assert!(!should_rotate(5 * 1024 * 1024));
    assert!(should_rotate(5 * 1024 * 1024 + 1));
}

#[test]
fn log_lines() {
    let t = LocalTime { year: 126, month: 6, day: 4, hour: 9, minute: 5, second: 7 };
    assert_eq!(timestamp(Some(t)), "2026-07-04 09:05:07");
    assert_eq!(timestamp(None), "????-??-?? ??:??:??");
    let old = LocalTime { year: -1905, month: 0, day: 1, hour: 0, minute: 0, second: 0 };
    assert_eq!(timestamp(Some(old)), format!("{:04}-01-01 00:00:00", -5));
    assert_eq!(
        log_line("now", LogLevel::Warn, "macdirstat", "hello"),
        "now [ WARN] macdirstat - hello\n"
    );
    assert_eq!(
        log_line("now", LogLevel::Error, "x", "y"),
        "now [ERROR] x - y\n"
    );
}

#[test]
fn panics_are_reported() {
    let place = SourcePlace { file: "src/a.rs".to_string(), line: 12, column: 5 };
    assert_eq!(
        panic_report(Some(place), Some("boom".to_string()), "trace"),
        "PANIC at src/a.rs:12:5: boom\ntrace"
    );
    assert_eq!(
        panic_report(None, None, ""),
        "PANIC at unknown location: <non-string panic payload>\n"
    );
}

#[test]
fn joined_paths() {
    assert_eq!(join("/a", "b"), "/a/b");
    assert_eq!(join("/", "b"), "/b");
    assert_eq!(join("", "b"), "b");
    assert_eq!(join("/a", "/b"), "/b");
    assert_eq!(join("/a", ""), "/a/");
}

#[test]
fn matching_paths() {
    for (a, b) in [
        ("/a/b", "/a//b/"),
        ("/a/./b", "/a/b"),
        ("a", "./a"),
        ("/a", "a"),
        ("/a/..", "/"),
        ("", "."),
        ("/", "//"),
        ("a/.", "a"),
    ] {
        let want = std::path::Path::new(a) == std::path::Path::new(b);
        assert_eq!(paths_match(a, b), want, "{a} and {b}");
    }
}

#[test]
fn last_names() {
    for p in ["/a/b", "/a/b/", "/", "", "..", "/a/..", "a/.", ".", "/a//b//"] {
        let want = std::path::Path::new(p).file_name().map(|n| n.to_string_lossy().into_owned());
        assert_eq!(file_name(p), want, "{p}");
    }
    assert_eq!(short_name("/Users/me"), "me");
    assert_eq!(short_name("/Users/me/"), "");
    assert_eq!(short_name("me"), "me");
}

#[test]
fn locations_relative_to_the_root() {
    let paths =
        ["/a/b/c", "/a//b/./c/", "/", "", ".", "./a", "a/b", "a/./b", "/a", "..", "../a", "/./a", "//"];
    for p in paths {
        let path = std::path::Path::new(p);
        let want = path.parent().map(|q| q.to_string_lossy().into_owned());
        assert_eq!(parent_path(p), want, "parent of {p}");
        for b in paths {
            let want = path.strip_prefix(b).ok().map(|q| q.to_string_lossy().into_owned());
            assert_eq!(strip_base(p, b), want, "{p} under {b}");
            let folder = path.strip_prefix(b).unwrap_or(path).to_string_lossy().into_owned();
            assert_eq!(folder_location(p, b), folder, "{p} under {b}");
            let file = path
                .parent()
                .unwrap_or(path)
                .strip_prefix(b)
                .unwrap_or(path)
                .to_string_lossy()
                .into_owned();
            assert_eq!(file_location(p, b), file, "{p} under {b}");
        }
    }
    assert_eq!(folder_location("/Users/me/a/b", "/Users/me"), "a/b");
    assert_eq!(file_location("/Users/me/a/b.txt", "/Users/me"), "a");
}

#[test]
fn escaped_strings_read_back() {
    for text in ["", "a\\", "\"", "\\\"\\", "no quotes", "\u{201C}"] {
        let escaped = applescript_escape(text);
        let mut said = String::new();
        let mut chars = escaped.chars();
        while let Some(c) = chars.next() {
            assert_ne!(c, '"', "the string would end here");
            said.push(if c == '\\' { chars.next().expect("an escape") } else { c });
        }
        assert_eq!(said, text);
    }
}
