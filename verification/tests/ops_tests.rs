use std::cell::RefCell;
use std::collections::BTreeMap;

use mirufm_core::ops::{
    copy, copy_then_delete, delete_permanent, mkdir, move_items, rename, split_extension, trash,
    unique_dest, valid_name, IoFailure, OpsError,
};

/// An in-memory file tree: each path maps to its contents, `None` for a
/// directory.
struct FakeFs {
    nodes: RefCell<BTreeMap<String, Option<String>>>,
}

impl FakeFs {
    fn new() -> FakeFs {
        FakeFs {
            nodes: RefCell::new(BTreeMap::new()),
        }
    }

    fn dir(&self, p: &str) {
        self.nodes.borrow_mut().insert(p.to_string(), None);
    }

    fn file(&self, p: &str, body: &str) {
        self.nodes
            .borrow_mut()
            .insert(p.to_string(), Some(body.to_string()));
    }

    fn has(&self, p: &str) -> bool {
        self.nodes.borrow().contains_key(p)
    }

    fn read(&self, p: &str) -> Option<String> {
        self.nodes.borrow().get(p).cloned().flatten()
    }

    fn is_dir(&self, p: &str) -> bool {
        matches!(self.nodes.borrow().get(p), Some(None))
    }

    fn under(&self, p: &str) -> Vec<(String, Option<String>)> {
        let prefix = format!("{}/", p);
        self.nodes
            .borrow()
            .iter()
            .filter(|(k, _)| k.as_str() == p || k.starts_with(&prefix))
            .map(|(k, v)| (k.clone(), v.clone()))
            .collect()
    }

    fn create_dir(&self, p: &str) -> Result<(), IoFailure> {
        if self.has(p) {
            return Err(IoFailure {
                os_code: Some(17),
                message: "File exists (os error 17)".to_string(),
            });
        }
        self.dir(p);
        Ok(())
    }

    fn rename(&self, from: &str, to: &str) -> Result<(), IoFailure> {
        let moved = self.under(from);
        if moved.is_empty() {
            return Err(IoFailure {
                os_code: Some(2),
                message: "No such file or directory (os error 2)".to_string(),
            });
        }
        let mut nodes = self.nodes.borrow_mut();
        for (k, v) in moved {
            nodes.remove(&k);
            nodes.insert(format!("{}{}", to, &k[from.len()..]), v);
        }
        Ok(())
    }

    fn copy_tree(&self, from: &str, to: &str) -> Result<(), OpsError> {
        let copied = self.under(from);
        if copied.is_empty() {
            return Err(OpsError::Io {
                path: from.to_string(),
                message: "No such file or directory (os error 2)".to_string(),
            });
        }
        let mut nodes = self.nodes.borrow_mut();
        for (k, v) in copied {
            nodes.insert(format!("{}{}", to, &k[from.len()..]), v);
        }
        Ok(())
    }

    fn remove(&self, p: &str) -> Result<(), OpsError> {
        let gone = self.under(p);
        if gone.is_empty() {
            return Err(OpsError::Io {
                path: p.to_string(),
                message: "No such file or directory (os error 2)".to_string(),
            });
        }
        let mut nodes = self.nodes.borrow_mut();
        for (k, _) in gone {
            nodes.remove(&k);
        }
        Ok(())
    }
}

fn cross_device(_: &str, _: &str) -> Result<(), IoFailure> {
    Err(IoFailure {
        os_code: Some(18),
        message: "Invalid cross-device link (os error 18)".to_string(),
    })
}

#[test]
fn valid_name_rejects_separators_and_dots() {
    assert!(valid_name("photo.png"));
    assert!(!valid_name(""));
    assert!(!valid_name("."));
    assert!(!valid_name(".."));
    assert!(!valid_name("a/b"));
}

#[test]
fn valid_name_accepts_dotted_names() {
    assert!(valid_name(".hidden"));
    assert!(valid_name("..."));
    assert!(valid_name("a b"));
}

#[test]
fn unique_dest_returns_name_when_free() {
    let fs = FakeFs::new();
    fs.dir("/d");
    let got = unique_dest("/d", "a.txt", |p| fs.has(p));
    assert_eq!(got, "/d/a.txt");
}

#[test]
fn unique_dest_appends_copy_then_numbers() {
    let fs = FakeFs::new();
    fs.dir("/d");
    fs.file("/d/a.txt", "");
    let first = unique_dest("/d", "a.txt", |p| fs.has(p));
    assert_eq!(first, "/d/a copy.txt");

    fs.file("/d/a copy.txt", "");
    let second = unique_dest("/d", "a.txt", |p| fs.has(p));
    assert_eq!(second, "/d/a copy 2.txt");

    fs.file("/d/a copy 2.txt", "");
    let third = unique_dest("/d", "a.txt", |p| fs.has(p));
    assert_eq!(third, "/d/a copy 3.txt");
}

#[test]
fn unique_dest_handles_no_extension() {
    let fs = FakeFs::new();
    fs.dir("/d");
    fs.dir("/d/photos");
    let got = unique_dest("/d", "photos", |p| fs.has(p));
    assert_eq!(got, "/d/photos copy");
}

#[test]
fn unique_dest_keeps_only_last_extension_and_dotfile_stems() {
    let fs = FakeFs::new();
    fs.file("/d/x.tar.gz", "");
    fs.file("/d/.bashrc", "");
    assert_eq!(unique_dest("/d", "x.tar.gz", |p| fs.has(p)), "/d/x.tar copy.gz");
    assert_eq!(unique_dest("/d", ".bashrc", |p| fs.has(p)), "/d/.bashrc copy");
}

#[test]
fn split_extension_follows_file_stem_rules() {
    let chars = |s: &str| s.chars().collect::<Vec<char>>();
    assert_eq!(split_extension(&chars("a.txt")), (chars("a"), Some(chars("txt"))));
    assert_eq!(split_extension(&chars("photos")), (chars("photos"), None));
    assert_eq!(split_extension(&chars(".bashrc")), (chars(".bashrc"), None));
    assert_eq!(split_extension(&chars("a.")), (chars("a"), Some(chars(""))));
}

#[test]
fn mkdir_creates_directory() {
    let fs = FakeFs::new();
    fs.dir("/d");
    let made = mkdir("/d", "new", |p| fs.has(p), |p| fs.create_dir(p)).unwrap();
    assert_eq!(made, "/d/new");
    assert!(fs.is_dir(&made));
}

#[test]
fn mkdir_rejects_invalid_name() {
    let fs = FakeFs::new();
    fs.dir("/d");
    assert!(matches!(
        mkdir("/d", "a/b", |p| fs.has(p), |p| fs.create_dir(p)),
        Err(OpsError::InvalidName(_))
    ));
    assert!(!fs.has("/d/a"));
}

#[test]
fn mkdir_errors_when_exists() {
    let fs = FakeFs::new();
    fs.dir("/d");
    fs.dir("/d/new");
    assert!(matches!(
        mkdir("/d", "new", |p| fs.has(p), |p| fs.create_dir(p)),
        Err(OpsError::Exists(_))
    ));
}

#[test]
fn mkdir_reports_create_failure_with_path() {
    let got = mkdir("/ro", "x", |_| false, |_| {
        Err(IoFailure {
            os_code: Some(13),
            message: "Permission denied (os error 13)".to_string(),
        })
    });
    assert_eq!(
        got,
        Err(OpsError::Io {
            path: "/ro/x".to_string(),
            message: "Permission denied (os error 13)".to_string()
        })
    );
}

#[test]
fn rename_moves_within_parent() {
    let fs = FakeFs::new();
    fs.dir("/d");
    fs.file("/d/a.txt", "x");
    let renamed = rename("/d/a.txt", "b.txt", |p| fs.has(p), |a, b| fs.rename(a, b)).unwrap();
    assert_eq!(renamed, "/d/b.txt");
    assert!(!fs.has("/d/a.txt"));
    assert!(fs.has(&renamed));
}

#[test]
fn rename_rejects_invalid_name() {
    let fs = FakeFs::new();
    fs.file("/d/a.txt", "x");
    assert!(matches!(
        rename("/d/a.txt", "b/c.txt", |p| fs.has(p), |a, b| fs.rename(a, b)),
        Err(OpsError::InvalidName(_))
    ));
}

#[test]
fn rename_errors_when_target_exists() {
    let fs = FakeFs::new();
    fs.file("/d/a.txt", "x");
    fs.file("/d/b.txt", "y");
    assert!(matches!(
        rename("/d/a.txt", "b.txt", |p| fs.has(p), |a, b| fs.rename(a, b)),
        Err(OpsError::Exists(_))
    ));
    assert_eq!(fs.read("/d/b.txt"), Some("y".to_string()));
}

#[test]
fn rename_to_same_name_is_a_noop() {
    let fs = FakeFs::new();
    fs.file("/d/a.txt", "x");
    let got = rename("/d/a.txt", "a.txt", |_| panic!("no probe"), |_, _| panic!("no move"));
    assert_eq!(got, Ok("/d/a.txt".to_string()));
}

#[test]
fn delete_permanent_removes_file_and_dir() {
    let fs = FakeFs::new();
    fs.file("/d/f.txt", "x");
    fs.dir("/d/d");
    fs.file("/d/d/inner", "y");
    let results = delete_permanent(
        &["/d/f.txt".to_string(), "/d/d".to_string()],
        |p| fs.remove(p),
    );
    assert_eq!(results.len(), 2);
    assert!(results.iter().all(|(_, r)| r.is_ok()));
    assert!(!fs.has("/d/f.txt"));
    assert!(!fs.has("/d/d"));
    assert!(!fs.has("/d/d/inner"));
}

#[test]
fn delete_permanent_reports_per_item_failure() {
    let fs = FakeFs::new();
    fs.dir("/d");
    let results = delete_permanent(&["/d/nope".to_string()], |p| fs.remove(p));
    assert_eq!(results.len(), 1);
    assert!(results[0].1.is_err());
}

#[test]
fn delete_permanent_continues_after_failure() {
    let fs = FakeFs::new();
    fs.file("/d/b", "");
    let results = delete_permanent(&["/d/a".to_string(), "/d/b".to_string()], |p| fs.remove(p));
    assert_eq!(results[0].0, "/d/a");
    assert!(results[0].1.is_err());
    assert_eq!(results[1], ("/d/b".to_string(), Ok(())));
}

#[test]
fn trash_removes_from_origin() {
    let fs = FakeFs::new();
    fs.file("/d/t.txt", "x");
    let results = trash(&["/d/t.txt".to_string()], |p| {
        fs.remove(p).map_err(|_| "no such file".to_string())
    });
    assert_eq!(results.len(), 1);
    assert!(results[0].1.is_ok());
    assert!(!fs.has("/d/t.txt"));
}

#[test]
fn trash_failure_becomes_trash_error() {
    let results = trash(&["/d/t.txt".to_string()], |_| Err("no trash can".to_string()));
    assert_eq!(
        results[0].1,
        Err(OpsError::Trash {
            path: "/d/t.txt".to_string(),
            message: "no trash can".to_string()
        })
    );
}

#[test]
fn copy_file_into_dir() {
    let fs = FakeFs::new();
    fs.dir("/src");
    fs.dir("/dst");
    fs.file("/src/a.txt", "hello");
    let results = copy(
        &["/src/a.txt".to_string()],
        "/dst",
        |p| fs.has(p),
        |a, b| fs.copy_tree(a, b),
    );
    let dest = results[0].1.as_ref().unwrap();
    assert_eq!(dest, "/dst/a.txt");
    assert_eq!(fs.read(dest), Some("hello".to_string()));
    assert!(fs.has("/src/a.txt"));
}

#[test]
fn copy_directory_recursively() {
    let fs = FakeFs::new();
    fs.dir("/src");
    fs.dir("/dst");
    fs.dir("/src/tree");
    fs.file("/src/tree/inner.txt", "deep");
    let results = copy(
        &["/src/tree".to_string()],
        "/dst",
        |p| fs.has(p),
        |a, b| fs.copy_tree(a, b),
    );
    let dest = results[0].1.as_ref().unwrap();
    assert_eq!(dest, "/dst/tree");
    assert_eq!(fs.read("/dst/tree/inner.txt"), Some("deep".to_string()));
}

#[test]
fn copy_auto_renames_on_collision() {
    let fs = FakeFs::new();
    fs.file("/src/a.txt", "new");
    fs.file("/dst/a.txt", "old");
    let results = copy(
        &["/src/a.txt".to_string()],
        "/dst",
        |p| fs.has(p),
        |a, b| fs.copy_tree(a, b),
    );
    let dest = results[0].1.as_ref().unwrap();
    assert_eq!(dest, "/dst/a copy.txt");
    assert_eq!(fs.read("/dst/a.txt"), Some("old".to_string()));
    assert_eq!(fs.read(dest), Some("new".to_string()));
}

#[test]
fn copy_of_root_has_no_name() {
    let results = copy(&["/".to_string()], "/dst", |_| false, |_, _| Ok(()));
    assert_eq!(results[0].1, Err(OpsError::InvalidName("/".to_string())));
}

#[test]
fn move_within_filesystem_uses_rename() {
    let fs = FakeFs::new();
    fs.file("/src/a.txt", "x");
    fs.dir("/dst");
    let results = move_items(
        &["/src/a.txt".to_string()],
        "/dst",
        |p| fs.has(p),
        |a, b| fs.rename(a, b),
        |_, _| panic!("no copy on one file system"),
        |_| panic!("no delete on one file system"),
    );
    let dest = results[0].1.as_ref().unwrap();
    assert_eq!(dest, "/dst/a.txt");
    assert!(!fs.has("/src/a.txt"));
    assert!(fs.has(dest));
}

#[test]
fn move_auto_renames_on_collision() {
    let fs = FakeFs::new();
    fs.file("/src/a.txt", "new");
    fs.file("/dst/a.txt", "old");
    let results = move_items(
        &["/src/a.txt".to_string()],
        "/dst",
        |p| fs.has(p),
        |a, b| fs.rename(a, b),
        |a, b| fs.copy_tree(a, b),
        |p| fs.remove(p),
    );
    let dest = results[0].1.as_ref().unwrap();
    assert_eq!(dest, "/dst/a copy.txt");
    assert!(!fs.has("/src/a.txt"));
}

#[test]
fn move_across_filesystems_copies_then_deletes() {
    let fs = FakeFs::new();
    fs.dir("/src/tree");
    fs.file("/src/tree/inner", "z");
    let results = move_items(
        &["/src/tree".to_string()],
        "/mnt",
        |p| fs.has(p),
        cross_device,
        |a, b| fs.copy_tree(a, b),
        |p| fs.remove(p),
    );
    assert_eq!(results[0].1, Ok("/mnt/tree".to_string()));
    assert!(!fs.has("/src/tree"));
    assert_eq!(fs.read("/mnt/tree/inner"), Some("z".to_string()));
}

#[test]
fn move_other_rename_failure_is_io_error() {
    let results = move_items(
        &["/src/a".to_string()],
        "/dst",
        |_| false,
        |_, _| {
            Err(IoFailure {
                os_code: Some(13),
                message: "Permission denied (os error 13)".to_string(),
            })
        },
        |_, _| panic!("no copy"),
        |_| panic!("no delete"),
    );
    assert_eq!(
        results[0].1,
        Err(OpsError::Io {
            path: "/src/a".to_string(),
            message: "Permission denied (os error 13)".to_string()
        })
    );
}

#[test]
fn copy_then_delete_moves_and_removes_source() {
    let fs = FakeFs::new();
    fs.dir("/src/tree");
    fs.file("/src/tree/inner", "z");
    let got = copy_then_delete(
        "/src/tree",
        "/dst/tree",
        |a, b| fs.copy_tree(a, b),
        |p| fs.remove(p),
    )
    .unwrap();
    assert_eq!(got, "/dst/tree");
    assert!(!fs.has("/src/tree"));
    assert_eq!(fs.read("/dst/tree/inner"), Some("z".to_string()));
}

#[test]
fn copy_then_delete_keeps_source_when_copy_fails() {
    let fs = FakeFs::new();
    fs.file("/src/a", "z");
    let got = copy_then_delete(
        "/src/a",
        "/dst/a",
        |a, _| {
            Err(OpsError::Io {
                path: a.to_string(),
                message: "disk full".to_string(),
            })
        },
        |p| fs.remove(p),
    );
    assert!(got.is_err());
    assert!(fs.has("/src/a"));
}

#[test]
fn refused_requests_write_nothing() {
    assert!(matches!(
        mkdir("/d", "a/b", |_| false, |_| panic!("no create for an invalid name")),
        Err(OpsError::InvalidName(_))
    ));
    assert!(matches!(
        mkdir("/d", "x", |_| true, |_| panic!("no create over a taken path")),
        Err(OpsError::Exists(_))
    ));
    assert!(matches!(
        rename("/d/a", "b", |_| true, |_, _| panic!("no move onto a taken path")),
        Err(OpsError::Exists(_))
    ));
    assert!(matches!(
        rename("/d/a", "../b", |_| false, |_, _| panic!("no move for an invalid name")),
        Err(OpsError::InvalidName(_))
    ));
}

#[test]
fn copies_and_moves_write_only_free_names() {
    let fs = FakeFs::new();
    fs.file("/src/a.txt", "new");
    fs.file("/dst/a.txt", "old");
    let results = move_items(
        &["/src/a.txt".to_string()],
        "/dst",
        |p| fs.has(p),
        |a, b| {
            assert!(!fs.has(b), "move onto an existing path");
            fs.rename(a, b)
        },
        |_, _| panic!("no copy on one file system"),
        |_| panic!("no removal on one file system"),
    );
    assert_eq!(results[0].1, Ok("/dst/a copy.txt".to_string()));
    assert_eq!(fs.read("/dst/a.txt"), Some("old".to_string()));
}
