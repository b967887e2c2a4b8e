use mirufm_core::git::{classify, insert_with_rollup, status_badges, upgrade, GitState, StatusChange};
use mirufm_core::pathmap::PathMap;

#[test]
fn rolls_up_nested_change_to_ancestor_dirs() {
    let map = status_badges(
        "/repo",
        &[("sub/deep/nested.txt".to_string(), StatusChange::WorktreeUntracked)],
    );
    assert_eq!(map.get("/repo/sub/deep/nested.txt"), Some(&GitState::Untracked));
    assert_eq!(map.get("/repo/sub/deep"), Some(&GitState::Untracked));
    assert_eq!(map.get("/repo/sub"), Some(&GitState::Untracked));
    assert_eq!(map.get("/repo"), None);
    assert_eq!(map.len(), 3);
}

#[test]
fn rollup_takes_highest_precedence() {
    let map = status_badges(
        "/repo",
        &[
            ("d/tracked.txt".to_string(), StatusChange::WorktreeModification),
            ("d/new.txt".to_string(), StatusChange::WorktreeUntracked),
        ],
    );
    assert_eq!(map.get("/repo/d"), Some(&GitState::Modified));
    assert_eq!(map.get("/repo/d/new.txt"), Some(&GitState::Untracked));
}

#[test]
fn reports_modified_added_untracked() {
    let map = status_badges(
        "/repo",
        &[
            ("tracked.txt".to_string(), StatusChange::WorktreeModification),
            ("staged.txt".to_string(), StatusChange::IndexAddition),
            ("untracked.txt".to_string(), StatusChange::WorktreeUntracked),
        ],
    );
    assert_eq!(map.get("/repo/tracked.txt"), Some(&GitState::Modified));
    assert_eq!(map.get("/repo/staged.txt"), Some(&GitState::Added));
    assert_eq!(map.get("/repo/untracked.txt"), Some(&GitState::Untracked));
    assert_eq!(map.len(), 3);
}

#[test]
fn clean_repo_is_empty() {
    let map = status_badges("/repo", &[]);
    assert_eq!(map.len(), 0);
}

#[test]
fn rollup_order_does_not_matter() {
    let a = ("x/a".to_string(), StatusChange::IndexAddition);
    let b = ("x/b".to_string(), StatusChange::WorktreeUntracked);
    let one = status_badges("/r", &[a.clone(), b.clone()]);
    let two = status_badges("/r", &[b, a]);
    for k in ["/r/x", "/r/x/a", "/r/x/b"] {
        assert_eq!(one.get(k), two.get(k));
    }
    assert_eq!(one.get("/r/x"), Some(&GitState::Added));
}

#[test]
fn classify_maps_changes_to_badges() {
    assert_eq!(classify(StatusChange::IndexAddition), GitState::Added);
    assert_eq!(classify(StatusChange::IndexDeletion), GitState::Modified);
    assert_eq!(classify(StatusChange::IndexModification), GitState::Modified);
    assert_eq!(classify(StatusChange::IndexRewrite), GitState::Modified);
    assert_eq!(classify(StatusChange::WorktreeModification), GitState::Modified);
    assert_eq!(classify(StatusChange::WorktreeUntracked), GitState::Untracked);
    assert_eq!(classify(StatusChange::WorktreeRewrite), GitState::Modified);
}

#[test]
fn upgrade_never_lowers() {
    let mut m: PathMap<GitState> = PathMap::new();
    upgrade(&mut m, "/a", GitState::Modified);
    upgrade(&mut m, "/a", GitState::Untracked);
    assert_eq!(m.get("/a"), Some(&GitState::Modified));
    upgrade(&mut m, "/b", GitState::Untracked);
    upgrade(&mut m, "/b", GitState::Added);
    assert_eq!(m.get("/b"), Some(&GitState::Added));
}

#[test]
fn rollup_stops_outside_the_root() {
    let mut m: PathMap<GitState> = PathMap::new();
    insert_with_rollup(&mut m, "/repo", "/other/x/y".to_string(), GitState::Added);
    assert_eq!(m.get("/other/x/y"), Some(&GitState::Added));
    assert_eq!(m.get("/other/x"), None);
    assert_eq!(m.len(), 1);
}

#[test]
fn rollup_does_not_stop_at_sibling_with_root_prefix() {
    let mut m: PathMap<GitState> = PathMap::new();
    insert_with_rollup(&mut m, "/repo", "/repository/z".to_string(), GitState::Added);
    assert_eq!(m.get("/repository"), None);
    assert_eq!(m.len(), 1);
}

#[test]
fn git_state_rank_follows_precedence() {
    assert!(GitState::Untracked.rank() < GitState::Added.rank());
    assert!(GitState::Added.rank() < GitState::Modified.rank());
}
