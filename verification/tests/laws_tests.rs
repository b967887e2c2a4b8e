//! Concrete instances of the library's laws.
use mirufm_core::fs::{Entry, EntryKind, Meta};
use mirufm_core::git::{status_badges, GitState, StatusChange};
use mirufm_core::scheduler::{JobQueue, Priority};
use mirufm_core::sort::{sort, SortKey};
use mirufm_core::state::AppState;

fn file(name: &str, size: u64) -> Entry {
    Entry {
        name: name.to_string(),
        path: format!("/d/{name}"),
        kind: EntryKind::File,
        meta: Meta {
            size,
            modified: None,
            readonly: false,
        },
    }
}

#[test]
fn sorted_listing_is_in_order() {
    let mut v = vec![file("b", 3), file("a", 9), file("c", 1), file("d", 9)];
    sort(&mut v, SortKey::Size, false);
    for w in v.windows(2) {
        assert!(w[0].meta.size >= w[1].meta.size);
    }
}

#[test]
fn selection_follows_paths_through_reorder() {
    let mut s = AppState::new("/d".to_string());
    s.set_loaded("/d", vec![file("a", 0), file("b", 0), file("c", 0)], 0);
    s.select(0, 2);
    s.set_loaded("/d", vec![file("c", 0), file("a", 0), file("b", 0)], 1);
    assert_eq!(s.selected_paths(0), vec!["/d/c".to_string()]);
    assert_eq!(s.columns[0].anchor, Some(0));
}

#[test]
fn root_is_never_badged() {
    let m = status_badges("/r", &[("a/b/c".to_string(), StatusChange::IndexModification)]);
    assert_eq!(m.get("/r"), None);
    assert_eq!(m.get("/r/a"), Some(&GitState::Modified));
}

#[test]
fn queue_runs_new_job_after_its_peers() {
    let mut q: JobQueue<u8> = JobQueue::new();
    q.push(Priority::Visible, 1);
    q.push(Priority::Preview, 2);
    q.push(Priority::Visible, 3);
    q.push(Priority::Preload, 4);
    let order: Vec<u8> = std::iter::from_fn(|| q.pop()).collect();
    assert_eq!(order, vec![1, 3, 2, 4]);
}
