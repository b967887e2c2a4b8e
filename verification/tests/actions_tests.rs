use std::collections::HashSet;

use mirufm_core::actions::{batch_notice, menu_dir, mime_from_output, on_path, search_dirs};
use mirufm_core::fs::{Entry, EntryKind, Meta};
use mirufm_core::ops::OpsError;

fn some(s: &str) -> Option<String> {
    Some(s.to_string())
}

#[test]
fn batch_notice_is_none_when_all_succeed() {
    let results: Vec<(String, Result<(), OpsError>)> =
        vec![("/a".to_string(), Ok(())), ("/b".to_string(), Ok(()))];
    assert_eq!(batch_notice("copy", &results), None);
    let empty: Vec<(String, Result<(), OpsError>)> = Vec::new();
    assert_eq!(batch_notice("copy", &empty), None);
}

#[test]
fn batch_notice_counts_failures() {
    let results: Vec<(String, Result<String, OpsError>)> = vec![
        ("/a".to_string(), Ok("/d/a".to_string())),
        ("/b".to_string(), Err(OpsError::Exists("/d/b".to_string()))),
        ("/c".to_string(), Err(OpsError::InvalidName("c".to_string()))),
    ];
    assert_eq!(
        batch_notice("move", &results),
        Some("move: 2 of 3 failed".to_string())
    );
}

#[test]
fn batch_notice_writes_large_counts_in_decimal() {
    let mut results: Vec<(String, Result<(), OpsError>)> = Vec::new();
    for i in 0..120 {
        let r = if i % 10 == 0 {
            Err(OpsError::Exists(format!("/x{i}")))
        } else {
            Ok(())
        };
        results.push((format!("/x{i}"), r));
    }
    assert_eq!(
        batch_notice("trash", &results),
        Some("trash: 12 of 120 failed".to_string())
    );
}

#[test]
fn search_dirs_prefers_data_home() {
    assert_eq!(
        search_dirs(some("/h/data"), some("/home/u"), some("/usr/share:/opt/share")),
        vec![
            "/h/data/applications",
            "/usr/share/applications",
            "/opt/share/applications"
        ]
    );
}

#[test]
fn search_dirs_falls_back_to_home_and_default_data_dirs() {
    assert_eq!(
        search_dirs(None, some("/home/u"), None),
        vec![
            "/home/u/.local/share/applications",
            "/usr/local/share/applications",
            "/usr/share/applications"
        ]
    );
}

#[test]
fn search_dirs_empty_data_home_adds_no_user_dir() {
    assert_eq!(
        search_dirs(some(""), some("/home/u"), some("::/a:")),
        vec!["/a/applications"]
    );
    assert!(search_dirs(None, None, some("")).is_empty());
}

#[test]
fn on_path_checks_absolute_paths_directly() {
    let present: HashSet<&str> = ["/usr/bin/foot"].into_iter().collect();
    assert!(on_path("/usr/bin/foot", None, |p| present.contains(p)));
    assert!(!on_path("/usr/bin/kitty", some("/usr/bin"), |p| present.contains(p)));
}

#[test]
fn on_path_searches_path_directories() {
    let present: HashSet<&str> = ["/opt/bin/kitty"].into_iter().collect();
    assert!(on_path("kitty", some("/usr/bin::/opt/bin"), |p| present.contains(p)));
    assert!(!on_path("kitty", some("/usr/bin"), |p| present.contains(p)));
    assert!(!on_path("kitty", None, |p| present.contains(p)));
}

#[test]
fn mime_from_output_trims_and_rejects_failures() {
    assert_eq!(
        mime_from_output(true, b"application/pdf\n"),
        Some("application/pdf".to_string())
    );
    assert_eq!(mime_from_output(true, b"  \n"), None);
    assert_eq!(mime_from_output(false, b"text/plain\n"), None);
}

fn menu_entry(path: &str, kind: EntryKind) -> Entry {
    Entry {
        name: path.rsplit('/').next().unwrap().to_string(),
        path: path.to_string(),
        kind,
        meta: Meta {
            size: 0,
            modified: None,
            readonly: false,
        },
    }
}

#[test]
fn menu_dir_is_the_dir_or_the_parent() {
    assert_eq!(menu_dir(&menu_entry("/home/u/docs", EntryKind::Dir)), "/home/u/docs");
    assert_eq!(menu_dir(&menu_entry("/home/u/a.txt", EntryKind::File)), "/home/u");
    assert_eq!(menu_dir(&menu_entry("/link", EntryKind::Symlink)), "/");
}
