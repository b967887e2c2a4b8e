use mirufm_core::ops::file_name;
use mirufm_core::pathmap::PathMap;
use mirufm_core::paths::{distinct_parents, join, parent, starts_with};

fn path_chars(s: &str) -> Vec<char> {
    s.chars().collect()
}

fn text(v: Vec<char>) -> String {
    v.into_iter().collect()
}

#[test]
fn parent_drops_the_last_component() {
    assert_eq!(parent(&path_chars("/a/b")).map(text), Some("/a".to_string()));
    assert_eq!(parent(&path_chars("/a")).map(text), Some("/".to_string()));
    assert_eq!(parent(&path_chars("/")), None);
    assert_eq!(parent(&path_chars("")), None);
    assert_eq!(parent(&path_chars("a")).map(text), Some(String::new()));
}

#[test]
fn starts_with_compares_whole_components() {
    assert!(starts_with(&path_chars("/repo/x"), &path_chars("/repo")));
    assert!(starts_with(&path_chars("/repo"), &path_chars("/repo")));
    assert!(!starts_with(&path_chars("/repository"), &path_chars("/repo")));
    assert!(starts_with(&path_chars("/anything"), &path_chars("/")));
    assert!(starts_with(&path_chars("rel"), &path_chars("")));
}

#[test]
fn join_adds_one_separator() {
    assert_eq!(join("/d", "a.txt"), "/d/a.txt");
    assert_eq!(join("/", "a"), "/a");
    assert_eq!(join("/d/", "a"), "/d/a");
    assert_eq!(join("/d", "/abs"), "/abs");
    assert_eq!(join("", "a"), "a");
}

#[test]
fn file_name_is_last_component() {
    assert_eq!(file_name(&path_chars("/d/a.txt")).map(text), Some("a.txt".to_string()));
    assert_eq!(file_name(&path_chars("/")), None);
}

#[test]
fn distinct_parents_in_first_met_order() {
    let paths = vec![
        "/a/x".to_string(),
        "/b/y".to_string(),
        "/a/z".to_string(),
        "/dest/w".to_string(),
        "/".to_string(),
    ];
    assert_eq!(distinct_parents(&paths, Some("/dest")), vec!["/a", "/b"]);
    assert_eq!(distinct_parents(&paths, None), vec!["/a", "/b", "/dest"]);
    assert!(distinct_parents(&[], None).is_empty());
}

#[test]
fn path_map_insert_replaces_and_counts_keys_once() {
    let mut m: PathMap<u32> = PathMap::new();
    assert_eq!(m.len(), 0);
    m.insert("/a".to_string(), 1);
    m.insert("/b".to_string(), 2);
    m.insert("/a".to_string(), 3);
    assert_eq!(m.len(), 2);
    assert_eq!(m.get("/a"), Some(&3));
    assert!(m.contains_key("/b"));
    assert!(!m.contains_key("/c"));
}
