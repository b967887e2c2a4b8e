//! The decisions behind the window's actions: where to look for installed
//! applications, whether a command can be launched, what MIME type a query
//! reported, and how a batch operation is summed up.
use vstd::prelude::*;
use vstd::string::*;

use crate::ops::{answered, OpsError};
use crate::fs::{Entry, EntryKind};
use crate::paths::{join, join_path, parent, parent_of};
use crate::preview::{decode_lossy, lossy_utf8};
use crate::text::{chars_of, decimal, decimal_chars, push_all, split, split_on, string_of, trim, trimmed};

verus! {

broadcast use vstd::string::group_string_axioms;

/// How many results of a batch are failures.
pub open spec fn failures<T>(results: Seq<(String, Result<T, OpsError>)>) -> nat
    decreases results.len(),
{
    if results.len() == 0 {
        0
    } else {
        failures(results.drop_last()) + if results.last().1 is Err {
            1nat
        } else {
            0nat
        }
    }
}

/// The notice for a batch: `verb: F of N failed` with `F` failures out of
/// `N` results, written in decimal.
pub open spec fn notice_text(verb: Seq<char>, failed: nat, total: nat) -> Seq<char> {
    verb + seq![':', ' '] + decimal(failed) + seq![' ', 'o', 'f', ' '] + decimal(total) + seq![
        ' ',
        'f',
        'a',
        'i',
        'l',
        'e',
        'd',
    ]
}

/// Sums up a batch: nothing when every item succeeded, otherwise how many
/// of how many failed.
pub fn batch_notice<T>(verb: &str, results: &[(String, Result<T, OpsError>)]) -> (r: Option<String>)
    ensures
        failures(results@) == 0 ==> r is None,
        failures(results@) > 0 ==> (r matches Some(s) && s@ == notice_text(
            verb@,
            failures(results@),
            results@.len(),
        )),
{
    let mut failed: usize = 0;
    let mut i: usize = 0;
    while i < results.len()
        invariant
            i <= results@.len(),
            failed == failures(results@.take(i as int)),
            failed <= i,
        decreases results@.len() - i,
    {
        proof {
            assert(results@.take(i + 1).drop_last() =~= results@.take(i as int));
        }
        if results[i].1.is_err() {
            failed += 1;
        }
        i += 1;
    }
    assert(results@.take(results@.len() as int) =~= results@);
    if failed == 0 {
        return None;
    }
    let mut text = chars_of(verb);
    push_all(&mut text, vec![':', ' '].as_slice());
    push_all(&mut text, decimal_chars(failed as u64).as_slice());
    push_all(&mut text, vec![' ', 'o', 'f', ' '].as_slice());
    push_all(&mut text, decimal_chars(results.len() as u64).as_slice());
    push_all(&mut text, vec![' ', 'f', 'a', 'i', 'l', 'e', 'd'].as_slice());
    Some(string_of(text.as_slice()))
}

/// The characters `applications`.
pub open spec fn applications() -> Seq<char> {
    seq!['a', 'p', 'p', 'l', 'i', 'c', 'a', 't', 'i', 'o', 'n', 's']
}

/// The characters `.local/share/applications`.
pub open spec fn user_applications() -> Seq<char> {
    seq!['.', 'l', 'o', 'c', 'a', 'l', '/', 's', 'h', 'a', 'r', 'e', '/'] + applications()
}

/// The default of `$XDG_DATA_DIRS`: `/usr/local/share:/usr/share`.
pub open spec fn default_data_dirs() -> Seq<char> {
    seq!['/', 'u', 's', 'r', '/', 'l', 'o', 'c', 'a', 'l', '/', 's', 'h', 'a', 'r', 'e', ':', '/', 'u', 's', 'r', '/', 's', 'h', 'a', 'r', 'e']
}

pub open spec fn opt_str_view(o: Option<String>) -> Option<Seq<char>> {
    match o {
        Some(s) => Some(s@),
        None => None,
    }
}

/// The user's application directory: `$XDG_DATA_HOME/applications` when
/// that variable is set (none when it is set but empty), otherwise
/// `$HOME/.local/share/applications` when `$HOME` is set.
pub open spec fn user_dirs(data_home: Option<Seq<char>>, home: Option<Seq<char>>) -> Seq<Seq<char>> {
    match data_home {
        Some(h) => if h.len() > 0 {
            seq![join_path(h, applications())]
        } else {
            Seq::empty()
        },
        None => match home {
            Some(h) => seq![join_path(h, user_applications())],
            None => Seq::empty(),
        },
    }
}

/// `applications` joined onto each non-empty directory in the list.
pub open spec fn system_dirs(dirs: Seq<Seq<char>>) -> Seq<Seq<char>>
    decreases dirs.len(),
{
    if dirs.len() == 0 {
        Seq::empty()
    } else {
        system_dirs(dirs.drop_last()) + if dirs.last().len() > 0 {
            seq![join_path(dirs.last(), applications())]
        } else {
            Seq::empty()
        }
    }
}

/// The XDG application directories in priority order, user directory
/// first, from the values of `$XDG_DATA_HOME`, `$HOME` and
/// `$XDG_DATA_DIRS` (each none when unset): then one per entry of the
/// colon-separated data directories, `/usr/local/share:/usr/share` by
/// default.
pub open spec fn search_dirs_of(data_home: Option<Seq<char>>, home: Option<Seq<char>>, data_dirs: Option<Seq<char>>) -> Seq<Seq<char>> {
    let dd = match data_dirs {
        Some(d) => d,
        None => default_data_dirs(),
    };
    user_dirs(data_home, home) + system_dirs(split_on(dd, ':'))
}

/// The XDG application directories in priority order.
pub fn search_dirs(data_home: Option<String>, home: Option<String>, data_dirs: Option<String>) -> (r: Vec<String>)
    ensures
        r@.len() == search_dirs_of(opt_str_view(data_home), opt_str_view(home), opt_str_view(data_dirs)).len(),
        forall|i: int| 0 <= i < r@.len() ==> #[trigger] r@[i]@ == search_dirs_of(
            opt_str_view(data_home),
            opt_str_view(home),
            opt_str_view(data_dirs),
        )[i],
{
    let ghost first = user_dirs(opt_str_view(data_home), opt_str_view(home));
    let mut out: Vec<String> = Vec::new();
    let apps = string_of(vec!['a', 'p', 'p', 'l', 'i', 'c', 'a', 't', 'i', 'o', 'n', 's'].as_slice());
    match &data_home {
        Some(h) => {
            if chars_of(h.as_str()).len() > 0 {
                out.push(join(h.as_str(), apps.as_str()));
            }
        },
        None => match &home {
            Some(h) => {
                let local = string_of(
                    vec!['.', 'l', 'o', 'c', 'a', 'l', '/', 's', 'h', 'a', 'r', 'e', '/', 'a', 'p', 'p', 'l', 'i', 'c', 'a', 't', 'i', 'o', 'n', 's'].as_slice(),
                );
                assert(local@ =~= user_applications());
                out.push(join(h.as_str(), local.as_str()));
            },
            None => {},
        },
    }
    assert(out@.len() == first.len());
    assert(forall|k: int| 0 <= k < out@.len() ==> #[trigger] out@[k]@ == first[k]);
    let dd = match data_dirs {
        Some(d) => chars_of(d.as_str()),
        None => {
            let v = vec!['/', 'u', 's', 'r', '/', 'l', 'o', 'c', 'a', 'l', '/', 's', 'h', 'a', 'r', 'e', ':', '/', 'u', 's', 'r', '/', 's', 'h', 'a', 'r', 'e'];
            assert(v@ =~= default_data_dirs());
            v
        },
    };
    let parts = split(dd.as_slice(), ':');
    let ghost ps = split_on(dd@, ':');
    let mut i: usize = 0;
    while i < parts.len()
        invariant
            i <= parts@.len(),
            parts@.len() == ps.len(),
            forall|k: int| 0 <= k < parts@.len() ==> #[trigger] parts@[k]@ == ps[k],
            apps@ == applications(),
            out@.len() == first.len() + system_dirs(ps.take(i as int)).len(),
            forall|k: int| 0 <= k < out@.len() ==> #[trigger] out@[k]@ == (first + system_dirs(ps.take(i as int)))[k],
        decreases parts@.len() - i,
    {
        proof {
            assert(ps.take(i + 1).drop_last() =~= ps.take(i as int));
            assert(ps.take(i + 1).last() == ps[i as int]);
        }
        let ghost before = out@;
        if parts[i].len() > 0 {
            let d = string_of(parts[i].as_slice());
            out.push(join(d.as_str(), apps.as_str()));
        }
        proof {
            let nxt = first + system_dirs(ps.take(i + 1));
            assert(nxt =~= (first + system_dirs(ps.take(i as int))) + if ps[i as int].len() > 0 {
                seq![join_path(ps[i as int], applications())]
            } else {
                Seq::empty()
            });
            assert forall|k: int| 0 <= k < out@.len() implies #[trigger] out@[k]@ == nxt[k] by {
                if k < before.len() {
                    assert(out@[k] == before[k]);
                }
            }
        }
        i += 1;
    }
    assert(ps.take(parts@.len() as int) =~= ps);
    out
}

/// Whether `cmd` was found launchable: an absolute path that `exists`
/// reports present, or a bare name that `exists` reports present under
/// some non-empty directory of the colon-separated `$PATH` value (the
/// directories tried in order until one has it).
pub open spec fn launchable_outcome<F: Fn(&str) -> bool>(exists_at: F, cmd: Seq<char>, path_var: Option<Seq<char>>, r: bool) -> bool {
    if cmd.len() > 0 && cmd[0] == '/' {
        answered(exists_at, cmd, r)
    } else {
        match path_var {
            None => !r,
            Some(pv) => if r {
                found_in(exists_at, split_on(pv, ':'), cmd)
            } else {
                absent_from(exists_at, split_on(pv, ':'), cmd, split_on(pv, ':').len() as int)
            },
        }
    }
}

/// `exists_at` reported `cmd` absent from each non-empty directory of
/// `dirs` before index `k`.
pub open spec fn absent_from<F: Fn(&str) -> bool>(exists_at: F, dirs: Seq<Seq<char>>, cmd: Seq<char>, k: int) -> bool {
    forall|j: int| 0 <= j < k && dirs[j].len() > 0 ==> answered(exists_at, join_path(#[trigger] dirs[j], cmd), false)
}

/// `exists_at` reported `cmd` present in a non-empty directory of `dirs`,
/// and absent from each non-empty directory before it.
pub open spec fn found_in<F: Fn(&str) -> bool>(exists_at: F, dirs: Seq<Seq<char>>, cmd: Seq<char>) -> bool {
    exists|k: int|
        0 <= k < dirs.len() && dirs[k].len() > 0 && #[trigger] answered(exists_at, join_path(dirs[k], cmd), true)
            && absent_from(exists_at, dirs, cmd, k)
}

/// Whether `cmd` is launchable: an absolute path that exists, or a bare
/// name found in a directory of `path_var` (the value of `$PATH`).
pub fn on_path(cmd: &str, path_var: Option<String>, exists_at: impl Fn(&str) -> bool) -> (r: bool)
    requires
        forall|s: &str| call_requires(exists_at, (s,)),
    ensures
        launchable_outcome(exists_at, cmd@, opt_str_view(path_var), r),
{
    let c = chars_of(cmd);
    let is_abs = c.len() > 0 && c[0] == '/';
    assert(is_abs == (cmd@.len() > 0 && cmd@[0] == '/'));
    if is_abs {
        let r = exists_at(cmd);
        assert(answered(exists_at, cmd@, r));
        return r;
    }
    let ghost pvv = opt_str_view(path_var);
    let pv = match path_var {
        Some(p) => p,
        None => return false,
    };
    assert(pvv == Some(pv@));
    let dirs = split(chars_of(pv.as_str()).as_slice(), ':');
    let ghost ds = split_on(pv@, ':');
    let mut i: usize = 0;
    while i < dirs.len()
        invariant
            i <= dirs@.len(),
            dirs@.len() == ds.len(),
            forall|k: int| 0 <= k < dirs@.len() ==> #[trigger] dirs@[k]@ == ds[k],
            forall|s: &str| call_requires(exists_at, (s,)),
            pvv == opt_str_view(path_var),
            pvv == Some(pv@),
            ds == split_on(pv@, ':'),
            !(cmd@.len() > 0 && cmd@[0] == '/'),
            absent_from(exists_at, ds, cmd@, i as int),
        decreases dirs@.len() - i,
    {
        if dirs[i].len() > 0 {
            let d = string_of(dirs[i].as_slice());
            let p = join(d.as_str(), cmd);
            let ps = p.as_str();
            let found = exists_at(ps);
            if found {
                assert(answered(exists_at, join_path(ds[i as int], cmd@), true));
                assert(absent_from(exists_at, ds, cmd@, i as int));
                assert(found_in(exists_at, ds, cmd@));
                return true;
            }
            assert(answered(exists_at, join_path(ds[i as int], cmd@), false));
        }
        i += 1;
    }
    false
}

/// The MIME type a `xdg-mime query filetype` run reported: its output
/// decoded and trimmed, or none when the run failed or printed nothing.
pub fn mime_from_output(success: bool, stdout: &[u8]) -> (r: Option<String>)
    ensures
        !success ==> r is None,
        success && trimmed(lossy_utf8(stdout@)).len() == 0 ==> r is None,
        success && trimmed(lossy_utf8(stdout@)).len() > 0 ==> (r matches Some(m) && m@ == trimmed(
            lossy_utf8(stdout@),
        )),
{
    if !success {
        return None;
    }
    let text = decode_lossy(stdout);
    let t = trim(chars_of(text.as_str()).as_slice());
    if t.len() == 0 {
        None
    } else {
        Some(string_of(t.as_slice()))
    }
}

/// The directory the context menu of `entry` acts in (where a terminal
/// opens): a directory itself, otherwise the directory that contains it,
/// or the entry's own path when it has none.
pub fn menu_dir(entry: &Entry) -> (r: String)
    ensures
        entry.kind == EntryKind::Dir ==> r@ == entry.path@,
        entry.kind != EntryKind::Dir ==> r@ == match parent_of(entry.path@) {
            Some(q) => q,
            None => entry.path@,
        },
{
    if entry.kind == EntryKind::Dir {
        return entry.path.clone();
    }
    match parent(chars_of(entry.path.as_str()).as_slice()) {
        Some(q) => string_of(q.as_slice()),
        None => entry.path.clone(),
    }
}

} // verus!
