use mirufm_core::fs::{Entry, EntryKind, Meta};
use mirufm_core::sort::{filter, sort, SortKey};

fn sort_entry(name: &str, kind: EntryKind, size: u64, modified: Option<i128>) -> Entry {
    Entry {
        name: name.to_string(),
        path: name.to_string(),
        kind,
        meta: Meta {
            size,
            modified,
            readonly: false,
        },
    }
}

fn names(entries: &[Entry]) -> Vec<&str> {
    entries.iter().map(|e| e.name.as_str()).collect()
}

#[test]
fn name_sort_is_case_insensitive() {
    let mut v = vec![
        sort_entry("banana", EntryKind::File, 0, None),
        sort_entry("Apple", EntryKind::File, 0, None),
        sort_entry("cherry", EntryKind::File, 0, None),
    ];
    sort(&mut v, SortKey::Name, false);
    assert_eq!(names(&v), vec!["Apple", "banana", "cherry"]);
}

#[test]
fn dirs_first_groups_dirs_ahead() {
    let mut v = vec![
        sort_entry("b.txt", EntryKind::File, 0, None),
        sort_entry("zdir", EntryKind::Dir, 0, None),
        sort_entry("a.txt", EntryKind::File, 0, None),
    ];
    sort(&mut v, SortKey::Name, true);
    assert_eq!(names(&v), vec!["zdir", "a.txt", "b.txt"]);
}

#[test]
fn size_sort_descending_largest_first() {
    let mut v = vec![
        sort_entry("small", EntryKind::File, 10, None),
        sort_entry("big", EntryKind::File, 100, None),
        sort_entry("mid", EntryKind::File, 50, None),
    ];
    sort(&mut v, SortKey::Size, false);
    assert_eq!(names(&v), vec!["big", "mid", "small"]);
}

#[test]
fn modified_sort_newest_first() {
    let now: i128 = 1_700_000_000_000_000_000;
    let older = now - 3600 * 1_000_000_000;
    let mut v = vec![
        sort_entry("old", EntryKind::File, 0, Some(older)),
        sort_entry("new", EntryKind::File, 0, Some(now)),
        sort_entry("undated", EntryKind::File, 0, None),
    ];
    sort(&mut v, SortKey::Modified, false);
    assert_eq!(names(&v)[0], "new");
    assert_eq!(names(&v)[1], "old");
    assert_eq!(names(&v)[2], "undated");
}

#[test]
fn filter_hides_dotfiles_when_requested() {
    let v = vec![
        sort_entry(".hidden", EntryKind::File, 0, None),
        sort_entry("visible", EntryKind::File, 0, None),
    ];
    let shown = filter(v.clone(), false);
    assert_eq!(names(&shown), vec!["visible"]);
    let all = filter(v, true);
    assert_eq!(all.len(), 2);
}

#[test]
fn sort_is_stable_among_equal_keys() {
    let mut v = vec![
        sort_entry("x", EntryKind::File, 5, None),
        sort_entry("y", EntryKind::File, 7, None),
        sort_entry("z", EntryKind::File, 5, None),
        sort_entry("w", EntryKind::File, 7, None),
    ];
    sort(&mut v, SortKey::Size, false);
    assert_eq!(names(&v), vec!["y", "w", "x", "z"]);
}

#[test]
fn name_sort_keeps_case_variants_in_listing_order() {
    let mut v = vec![
        sort_entry("README", EntryKind::File, 0, None),
        sort_entry("a", EntryKind::File, 0, None),
        sort_entry("readme", EntryKind::File, 0, None),
    ];
    sort(&mut v, SortKey::Name, false);
    assert_eq!(names(&v), vec!["a", "README", "readme"]);
}

#[test]
fn sorting_a_sorted_listing_changes_nothing() {
    let mut v = vec![
        sort_entry("dir", EntryKind::Dir, 0, None),
        sort_entry("alpha", EntryKind::File, 0, None),
        sort_entry("beta", EntryKind::File, 0, None),
    ];
    sort(&mut v, SortKey::Name, true);
    let once: Vec<String> = v.iter().map(|e| e.name.clone()).collect();
    sort(&mut v, SortKey::Name, true);
    let twice: Vec<String> = v.iter().map(|e| e.name.clone()).collect();
    assert_eq!(once, twice);
}

#[test]
fn dirs_first_with_size_key_orders_within_groups() {
    let mut v = vec![
        sort_entry("f1", EntryKind::File, 1, None),
        sort_entry("d1", EntryKind::Dir, 1, None),
        sort_entry("f2", EntryKind::File, 9, None),
        sort_entry("d2", EntryKind::Dir, 9, None),
    ];
    sort(&mut v, SortKey::Size, true);
    assert_eq!(names(&v), vec!["d2", "d1", "f2", "f1"]);
}

#[test]
fn empty_listing_sorts_to_empty() {
    let mut v: Vec<Entry> = Vec::new();
    sort(&mut v, SortKey::Modified, true);
    assert!(v.is_empty());
    assert!(filter(v, false).is_empty());
}
