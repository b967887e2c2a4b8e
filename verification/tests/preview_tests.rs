use mirufm_core::fs::{Entry, EntryKind, Meta};
use mirufm_core::preview::{meta_view, mode_rwx, preview, PreviewModel, MAX_PREVIEW_BYTES};

fn entry_at(path: &str, kind: EntryKind, size: u64) -> Entry {
    Entry {
        name: path.rsplit('/').next().unwrap().to_string(),
        path: path.to_string(),
        kind,
        meta: Meta {
            size,
            modified: None,
            readonly: false,
        },
    }
}

fn stat(_: &str) -> Option<(u32, u32, u32)> {
    Some((0o100640, 1000, 100))
}

fn no_stat(_: &str) -> Option<(u32, u32, u32)> {
    None
}

fn link_target(p: &str) -> Option<String> {
    Some(format!("{p}.target"))
}

fn no_listing(p: &str) -> Result<Vec<Entry>, String> {
    Err(format!("not a directory: {p}"))
}

/// A file system holding one file, `path`, with `bytes`; `read_head`
/// returns at most the asked number of its bytes.
fn one_file(path: &'static str, bytes: Vec<u8>) -> impl Fn(&str, usize) -> Result<Vec<u8>, String> {
    move |p: &str, n: usize| {
        if p == path {
            Ok(bytes.iter().copied().take(n).collect())
        } else {
            Err("No such file or directory (os error 2)".to_string())
        }
    }
}

#[test]
fn nonexistent_path_previews_as_error() {
    let e = Entry {
        name: "gone".to_string(),
        path: "/no/such/mirufm/file".to_string(),
        kind: EntryKind::File,
        meta: Meta {
            size: 0,
            modified: None,
            readonly: false,
        },
    };
    let model = preview(
        &e,
        false,
        no_listing,
        one_file("/elsewhere", Vec::new()),
        stat,
        link_target,
    );
    assert!(matches!(model, PreviewModel::Error(_)));
}

#[test]
fn dir_path_previews_as_sorted_listing() {
    let e = entry_at("/t", EntryKind::Dir, 0);
    let list = |p: &str| -> Result<Vec<Entry>, String> {
        assert_eq!(p, "/t");
        Ok(vec![
            entry_at("/t/b.txt", EntryKind::File, 1),
            entry_at("/t/a_sub", EntryKind::Dir, 0),
        ])
    };
    match preview(&e, false, list, one_file("/x", Vec::new()), stat, link_target) {
        PreviewModel::Dir { entries } => {
            assert_eq!(entries.len(), 2);
            assert_eq!(entries[0].name, "a_sub");
            assert_eq!(entries[0].kind, EntryKind::Dir);
            assert_eq!(entries[1].name, "b.txt");
        }
        other => panic!("expected Dir, got {other:?}"),
    }
}

#[test]
fn unlistable_dir_previews_as_error() {
    let e = entry_at("/locked", EntryKind::Dir, 0);
    let model = preview(&e, false, no_listing, one_file("/x", Vec::new()), stat, link_target);
    assert_eq!(
        model_error(model),
        Some("not a directory: /locked".to_string())
    );
}

fn model_error(m: PreviewModel) -> Option<String> {
    match m {
        PreviewModel::Error(s) => Some(s),
        _ => None,
    }
}

#[test]
fn text_file_reads_content() {
    let e = entry_at("/t/hi.txt", EntryKind::File, 11);
    match preview(
        &e,
        false,
        no_listing,
        one_file("/t/hi.txt", b"hello world".to_vec()),
        stat,
        link_target,
    ) {
        PreviewModel::Text { content, truncated } => {
            assert_eq!(content, "hello world");
            assert!(!truncated);
        }
        other => panic!("expected Text, got {other:?}"),
    }
}

#[test]
fn large_file_truncates() {
    let e = entry_at("/t/big.txt", EntryKind::File, 0);
    let big = vec![b'a'; MAX_PREVIEW_BYTES + 100];
    match preview(&e, false, no_listing, one_file("/t/big.txt", big), stat, link_target) {
        PreviewModel::Text { content, truncated } => {
            assert_eq!(content.len(), MAX_PREVIEW_BYTES);
            assert!(truncated);
        }
        other => panic!("expected Text, got {other:?}"),
    }
}

#[test]
fn file_of_exactly_the_limit_is_not_truncated() {
    let e = entry_at("/t/edge.txt", EntryKind::File, 0);
    let edge = vec![b'b'; MAX_PREVIEW_BYTES];
    match preview(&e, false, no_listing, one_file("/t/edge.txt", edge), stat, link_target) {
        PreviewModel::Text { content, truncated } => {
            assert_eq!(content.len(), MAX_PREVIEW_BYTES);
            assert!(!truncated);
        }
        other => panic!("expected Text, got {other:?}"),
    }
}

#[test]
fn binary_file_falls_back_to_metadata() {
    let e = entry_at("/t/blob.bin", EntryKind::File, 4);
    match preview(
        &e,
        false,
        no_listing,
        one_file("/t/blob.bin", vec![0x00, 0x01, 0x02, 0x00]),
        stat,
        link_target,
    ) {
        PreviewModel::Metadata(view) => {
            assert_eq!(view.name, "blob.bin");
            assert_eq!(view.kind, EntryKind::File);
            assert_eq!(view.size, 4);
            assert_eq!(view.symlink_target, None);
        }
        other => panic!("expected Metadata, got {other:?}"),
    }
}

#[test]
fn nul_past_the_limit_still_shows_text() {
    let e = entry_at("/t/tail.bin", EntryKind::File, 0);
    let mut bytes = vec![b'c'; MAX_PREVIEW_BYTES];
    bytes.push(0);
    match preview(&e, false, no_listing, one_file("/t/tail.bin", bytes), stat, link_target) {
        PreviewModel::Text { content, truncated } => {
            assert_eq!(content.len(), MAX_PREVIEW_BYTES);
            assert!(truncated);
        }
        other => panic!("expected Text, got {other:?}"),
    }
}

#[test]
fn invalid_utf8_is_replaced() {
    let e = entry_at("/t/latin1.txt", EntryKind::File, 3);
    match preview(
        &e,
        false,
        no_listing,
        one_file("/t/latin1.txt", vec![b'a', 0xE9, b'b']),
        stat,
        link_target,
    ) {
        PreviewModel::Text { content, truncated } => {
            assert_eq!(content, "a\u{FFFD}b");
            assert!(!truncated);
        }
        other => panic!("expected Text, got {other:?}"),
    }
}

#[test]
fn metadata_view_reports_mode_and_size() {
    let e = entry_at("/t/perm.dat", EntryKind::File, 10);
    match preview(
        &e,
        false,
        no_listing,
        one_file("/t/perm.dat", vec![0u8; 10]),
        stat,
        link_target,
    ) {
        PreviewModel::Metadata(view) => {
            assert_eq!(view.size, 10);
            assert_eq!(view.mode & 0o777, 0o640);
        }
        other => panic!("expected Metadata, got {other:?}"),
    }
}

#[test]
fn cancelled_before_read_aborts() {
    let e = entry_at("/t/c.txt", EntryKind::File, 5);
    let model = preview(
        &e,
        true,
        no_listing,
        |_: &str, _: usize| -> Result<Vec<u8>, String> { panic!("no read once cancelled") },
        stat,
        link_target,
    );
    match model {
        PreviewModel::Metadata(view) => {
            assert_eq!(view.name, "c.txt");
            assert_eq!(view.size, 5);
        }
        other => panic!("expected Metadata, got {other:?}"),
    }
}

#[test]
fn symlink_previews_as_metadata_without_reading() {
    let e = entry_at("/t/link", EntryKind::Symlink, 0);
    let model = preview(
        &e,
        false,
        |_: &str| -> Result<Vec<Entry>, String> { panic!("no listing") },
        |_: &str, _: usize| -> Result<Vec<u8>, String> { panic!("no read") },
        stat,
        link_target,
    );
    match model {
        PreviewModel::Metadata(view) => {
            assert_eq!(view.kind, EntryKind::Symlink);
            assert_eq!(view.symlink_target, Some("/t/link.target".to_string()));
        }
        other => panic!("expected Metadata, got {other:?}"),
    }
}

#[test]
fn mode_rwx_spells_permission_bits() {
    assert_eq!(mode_rwx(0o755), "rwxr-xr-x");
    assert_eq!(mode_rwx(0o100640), "rw-r-----");
    assert_eq!(mode_rwx(0), "---------");
    assert_eq!(mode_rwx(0o777), "rwxrwxrwx");
    assert_eq!(mode_rwx(0o1), "--------x");
}

#[test]
fn meta_view_copies_the_entry_and_zeroes_a_failed_stat() {
    let mut e = entry_at("/t/gone", EntryKind::File, 42);
    e.meta.modified = Some(7);
    let view = meta_view(&e, no_stat, |_: &str| -> Option<String> { panic!("not a symlink") });
    assert_eq!(view.name, "gone");
    assert_eq!(view.kind, EntryKind::File);
    assert_eq!(view.size, 42);
    assert_eq!(view.modified, Some(7));
    assert_eq!((view.mode, view.uid, view.gid), (0, 0, 0));
    assert_eq!(view.symlink_target, None);
    let found = meta_view(&e, stat, link_target);
    assert_eq!((found.mode, found.uid, found.gid), (0o100640, 1000, 100));
}
