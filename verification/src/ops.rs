//! File operations: which names are acceptable, where a copy or move lands,
//! and how a batch reports each item. The file system is reached through
//! the functions passed in: `taken` says whether a path exists, the others
//! create, rename, copy or remove and report how that went.
use vstd::prelude::*;
use vstd::string::*;

use crate::paths::{join, join_path};
use crate::text::{chars_of, decimal, decimal_chars, digit, push_all, string_of};

verus! {

broadcast use vstd::string::group_string_axioms;

/// Why a file operation failed. I/O errors are carried as their message.
#[derive(Debug, PartialEq, Eq)]
pub enum OpsError {
    InvalidName(String),
    Exists(String),
    Io { path: String, message: String },
    Trash { path: String, message: String },
}

/// How an I/O call failed: the OS error code, if any, and the message.
#[derive(Debug)]
pub struct IoFailure {
    pub os_code: Option<i32>,
    pub message: String,
}

/// The OS error code of a rename across file systems (EXDEV on Linux).
pub open spec fn cross_device_code() -> i32 {
    18
}

/// A call of `f` on a string that reads `s` may have answered `b`.
pub open spec fn answered<F: Fn(&str) -> bool>(f: F, s: Seq<char>, b: bool) -> bool {
    exists|t: &str| t@ == s && call_ensures(f, (t,), b)
}

/// A call of `f` on a string that reads `s` may have returned `r`.
pub open spec fn returned1<R, F: Fn(&str) -> R>(f: F, s: Seq<char>, r: R) -> bool {
    exists|t: &str| t@ == s && call_ensures(f, (t,), r)
}

/// A call of `f` on strings that read `a` and `b` may have returned `r`.
pub open spec fn returned2<R, F: Fn(&str, &str) -> R>(f: F, a: Seq<char>, b: Seq<char>, r: R) -> bool {
    exists|s: &str, t: &str| s@ == a && t@ == b && call_ensures(f, (s, t), r)
}

/// A name a file can be given: not empty, not `.` or `..`, no `/`.
pub open spec fn is_valid_name(s: Seq<char>) -> bool {
    &&& s.len() > 0
    &&& s != seq!['.']
    &&& s != seq!['.', '.']
    &&& !s.contains('/')
}

/// Whether `name` is a name a file can be given.
pub fn valid_name(name: &str) -> (r: bool)
    ensures
        r == is_valid_name(name@),
{
    let c = chars_of(name);
    if c.len() == 0 {
        return false;
    }
    if c.len() == 1 && c[0] == '.' {
        assert(c@ =~= seq!['.']);
        return false;
    }
    if c.len() == 2 && c[0] == '.' && c[1] == '.' {
        assert(c@ =~= seq!['.', '.']);
        return false;
    }
    assert(c@ != seq!['.']) by {
        if c@ == seq!['.'] {
            assert(c@.len() == 1);
        }
    }
    assert(c@ != seq!['.', '.']) by {
        if c@ == seq!['.', '.'] {
            assert(c@.len() == 2);
        }
    }
    let mut i: usize = 0;
    while i < c.len()
        invariant
            i <= c.len(),
            c@ == name@,
            c@.len() > 0,
            c@ != seq!['.'],
            c@ != seq!['.', '.'],
            forall|k: int| 0 <= k < i ==> c@[k] != '/',
        decreases c.len() - i,
    {
        if c[i] == '/' {
            assert(c@[i as int] == '/');
            assert(c@.contains('/'));
            return false;
        }
        i += 1;
    }
    true
}

/// `i` is the last index of a dot in `s`.
pub open spec fn is_last_dot(s: Seq<char>, i: int) -> bool {
    &&& 0 <= i < s.len()
    &&& s[i] == '.'
    &&& forall|k: int| i < k < s.len() ==> s[k] != '.'
}

/// A file name split into stem and extension as `Path::file_stem` and
/// `Path::extension` split it: at the last dot, unless that dot starts the
/// name or the name is `..`, in which case there is no extension.
pub open spec fn stem_and_extension(name: Seq<char>) -> (Seq<char>, Option<Seq<char>>) {
    if name == seq!['.', '.'] {
        (name, None)
    } else if exists|i: int| is_last_dot(name, i) && i > 0 {
        let i = choose|i: int| is_last_dot(name, i) && i > 0;
        (name.take(i), Some(name.skip(i + 1)))
    } else {
        (name, None)
    }
}

/// The stem and extension of a file name.
pub fn split_extension(name: &[char]) -> (r: (Vec<char>, Option<Vec<char>>))
    ensures
        r.0@ == stem_and_extension(name@).0,
        match r.1 {
            Some(e) => stem_and_extension(name@).1 == Some(e@),
            None => stem_and_extension(name@).1 is None,
        },
{
    let n = name.len();
    if n == 2 && name[0] == '.' && name[1] == '.' {
        assert(name@ =~= seq!['.', '.']);
        return (to_vec_chars(name), None);
    }
    assert(name@ != seq!['.', '.']) by {
        if name@ == seq!['.', '.'] {
            assert(name@.len() == 2);
        }
    }
    let mut i = n;
    while i > 0 && name[i - 1] != '.'
        invariant
            i <= n,
            n == name@.len(),
            forall|k: int| i <= k < n ==> name@[k] != '.',
        decreases i,
    {
        i -= 1;
    }
    if i <= 1 {
        proof {
            if exists|j: int| is_last_dot(name@, j) && j > 0 {
                let j = choose|j: int| is_last_dot(name@, j) && j > 0;
                if i == 1 {
                    assert(j == 0 || j >= 1);
                    if j > 0 {
                        assert(name@[j] == '.');
                    }
                } else {
                    assert(name@[j] == '.');
                }
            }
        }
        return (to_vec_chars(name), None);
    }
    let d = i - 1;
    proof {
        assert(is_last_dot(name@, d as int) && d > 0);
        let c = choose|c: int| is_last_dot(name@, c) && c > 0;
        if c < d {
            assert(name@[d as int] == '.');
        } else if c > d {
            assert(name@[c] == '.');
        }
    }
    let mut stem: Vec<char> = Vec::new();
    let mut k: usize = 0;
    while k < d
        invariant
            k <= d < n,
            n == name@.len(),
            stem@ == name@.take(k as int),
        decreases d - k,
    {
        stem.push(name[k]);
        assert(stem@ =~= name@.take(k + 1));
        k += 1;
    }
    let mut ext: Vec<char> = Vec::new();
    let mut m: usize = d + 1;
    while m < n
        invariant
            d + 1 <= m <= n,
            n == name@.len(),
            ext@ == name@.subrange(d + 1, m as int),
        decreases n - m,
    {
        ext.push(name[m]);
        assert(ext@ =~= name@.subrange(d + 1, m + 1));
        m += 1;
    }
    assert(ext@ =~= name@.skip(d + 1));
    (stem, Some(ext))
}

/// The characters ` copy`.
pub open spec fn copy_word() -> Seq<char> {
    seq![' ', 'c', 'o', 'p', 'y']
}

/// The `n`-th name tried for a copy of `name`: the name itself, then
/// `stem copy.ext`, then `stem copy 2.ext`, `stem copy 3.ext` and so on, the
/// extension kept where there is one.
pub open spec fn candidate_name(name: Seq<char>, n: nat) -> Seq<char> {
    if n == 0 {
        name
    } else {
        let (stem, ext) = stem_and_extension(name);
        let base = if n == 1 {
            stem + copy_word()
        } else {
            stem + copy_word() + seq![' '] + decimal(n)
        };
        match ext {
            Some(e) => base + seq!['.'] + e,
            None => base,
        }
    }
}

/// `d` is where a copy of `name` lands in `dir`: the first candidate that
/// `taken` reported free, every earlier one having been reported taken.
/// After every candidate a `u64` can number has been reported taken, the
/// last one is returned unasked.
pub open spec fn is_unique_dest<F: Fn(&str) -> bool>(taken: F, dir: Seq<char>, name: Seq<char>, d: Seq<char>) -> bool {
    exists|n: nat|
        n <= u64::MAX && d == join_path(dir, #[trigger] candidate_name(name, n)) && (forall|m: nat|
            m < n ==> answered(taken, join_path(dir, #[trigger] candidate_name(name, m)), true)) && (n
            < u64::MAX ==> answered(taken, d, false))
}

proof fn lemma_last_dot_unique(s: Seq<char>, i: int, j: int)
    requires
        is_last_dot(s, i),
        is_last_dot(s, j),
    ensures
        i == j,
{
    if i < j {
        assert(s[j] != '.');
    }
    if j < i {
        assert(s[i] != '.');
    }
}

proof fn lemma_decimal_has_no_dot(n: nat)
    ensures
        forall|k: int| 0 <= k < decimal(n).len() ==> decimal(n)[k] != '.',
    decreases n,
{
    assert(digit(n % 10) != '.');
    if n >= 10 {
        lemma_decimal_has_no_dot(n / 10);
        let prev = decimal(n / 10);
        assert forall|k: int| 0 <= k < decimal(n).len() implies decimal(n)[k] != '.' by {
            if k < prev.len() {
                assert(decimal(n)[k] == prev[k]);
            }
        }
    } else {
        assert(n % 10 == n);
    }
}

proof fn lemma_dot_has_last(s: Seq<char>, j: int)
    requires
        0 <= j < s.len(),
        s[j] == '.',
    ensures
        exists|i: int| is_last_dot(s, i) && i >= j,
    decreases s.len() - j,
{
    if exists|k: int| j < k < s.len() && s[k] == '.' {
        let k = choose|k: int| j < k < s.len() && s[k] == '.';
        lemma_dot_has_last(s, k);
    } else {
        assert(is_last_dot(s, j));
    }
}

/// Every name tried for a copy keeps the extension of the original name
/// (the name `..`, which no file is copied under, aside).
pub proof fn law_copy_names_keep_extension(name: Seq<char>, n: nat)
    requires
        name != seq!['.', '.'],
    ensures
        stem_and_extension(candidate_name(name, n)).1 == stem_and_extension(name).1,
{
    let (stem, ext) = stem_and_extension(name);
    if n > 0 {
        let base = if n == 1 {
            stem + copy_word()
        } else {
            stem + copy_word() + seq![' '] + decimal(n)
        };
        let c = candidate_name(name, n);
        lemma_decimal_has_no_dot(n);
        assert forall|k: int| stem.len() <= k < base.len() implies base[k] != '.' by {
            if n > 1 && k >= stem.len() + 6 {
                assert(base[k] == decimal(n)[k - stem.len() - 6]);
            }
        }
        match ext {
            Some(e) => {
                let i0 = choose|i: int| is_last_dot(name, i) && i > 0;
                assert(e == name.skip(i0 + 1));
                assert(c == base + seq!['.'] + e);
                let d = base.len() as int;
                assert(c[d] == '.');
                assert forall|k: int| d < k < c.len() implies c[k] != '.' by {
                    assert(c[k] == e[k - d - 1]);
                    assert(e[k - d - 1] == name[i0 + 1 + (k - d - 1)]);
                }
                assert(is_last_dot(c, d));
                assert(c != seq!['.', '.']) by {
                    assert(c.len() > 2);
                }
                let j = choose|j: int| is_last_dot(c, j) && j > 0;
                lemma_last_dot_unique(c, j, d);
                assert(c.skip(d + 1) =~= e);
            },
            None => {
                assert(stem == name);
                assert(c == base);
                assert(c != seq!['.', '.']) by {
                    assert(c.len() > 2);
                }
                if exists|j: int| is_last_dot(c, j) && j > 0 {
                    let j = choose|j: int| is_last_dot(c, j) && j > 0;
                    assert(j < stem.len());
                    assert(name[j] == '.');
                    lemma_dot_has_last(name, j);
                }
            },
        }
    }
}

fn candidate(name: &[char], stem: &Vec<char>, ext: &Option<Vec<char>>, n: u64) -> (r: Vec<char>)
    requires
        stem@ == stem_and_extension(name@).0,
        match ext {
            Some(e) => stem_and_extension(name@).1 == Some(e@),
            None => stem_and_extension(name@).1 is None,
        },
    ensures
        r@ == candidate_name(name@, n as nat),
{
    if n == 0 {
        return to_vec_chars(name);
    }
    let mut base: Vec<char> = stem.clone();
    let word = vec![' ', 'c', 'o', 'p', 'y'];
    push_all(&mut base, word.as_slice());
    if n > 1 {
        base.push(' ');
        let digits = decimal_chars(n);
        push_all(&mut base, digits.as_slice());
    }
    match ext {
        Some(e) => {
            base.push('.');
            push_all(&mut base, e.as_slice());
        },
        None => {},
    }
    base
}

/// The characters of a slice, copied out.
fn to_vec_chars(s: &[char]) -> (r: Vec<char>)
    ensures
        r@ == s@,
{
    let mut r: Vec<char> = Vec::new();
    push_all(&mut r, s);
    r
}

/// The first path in `dir` for a copy of `name` that `taken` reports free:
/// `name`, then `name copy.ext`, `name copy 2.ext` and so on, the extension
/// kept.
pub fn unique_dest(dir: &str, name: &str, taken: impl Fn(&str) -> bool) -> (r: String)
    requires
        forall|s: &str| call_requires(taken, (s,)),
    ensures
        is_unique_dest(taken, dir@, name@, r@),
{
    let nc = chars_of(name);
    let (stem, ext) = split_extension(nc.as_slice());
    let dc = string_of(chars_of(dir).as_slice());
    let mut n: u64 = 0;
    loop
        invariant
            forall|s: &str| call_requires(taken, (s,)),
            nc@ == name@,
            dc@ == dir@,
            stem@ == stem_and_extension(name@).0,
            match ext {
                Some(e) => stem_and_extension(name@).1 == Some(e@),
                None => stem_and_extension(name@).1 is None,
            },
            forall|m: nat| m < n ==> answered(taken, join_path(dir@, #[trigger] candidate_name(name@, m)), true),
        decreases u64::MAX - n,
    {
        let cand = string_of(candidate(nc.as_slice(), &stem, &ext, n).as_slice());
        let path = join(dc.as_str(), cand.as_str());
        if n == u64::MAX {
            assert(path@ == join_path(dir@, candidate_name(name@, n as nat)));
            return path;
        }
        let is_taken = taken(path.as_str());
        if !is_taken {
            assert(answered(taken, path@, false));
            assert(path@ == join_path(dir@, candidate_name(name@, n as nat)));
            return path;
        }
        assert(answered(taken, join_path(dir@, candidate_name(name@, n as nat)), true));
        n += 1;
    }
}

/// The last component of a path: what follows its last slash.
pub open spec fn last_component(p: Seq<char>) -> Seq<char> {
    if exists|i: int| crate::paths::is_last_slash(p, i) {
        let i = choose|i: int| crate::paths::is_last_slash(p, i);
        p.skip(i + 1)
    } else {
        p
    }
}

/// The file name of a path, as `Path::file_name` gives it: its last
/// component, unless that is empty, `.` or `..`.
pub open spec fn file_name_of(p: Seq<char>) -> Option<Seq<char>> {
    let c = last_component(p);
    if c.len() == 0 || c == seq!['.'] || c == seq!['.', '.'] {
        None
    } else {
        Some(c)
    }
}

/// The file name of a path.
pub fn file_name(p: &[char]) -> (r: Option<Vec<char>>)
    ensures
        match r {
            Some(c) => file_name_of(p@) == Some(c@),
            None => file_name_of(p@) is None,
        },
{
    let n = p.len();
    let mut i = n;
    while i > 0 && p[i - 1] != '/'
        invariant
            i <= n,
            n == p@.len(),
            forall|k: int| i <= k < n ==> p@[k] != '/',
        decreases i,
    {
        i -= 1;
    }
    proof {
        if i > 0 {
            assert(crate::paths::is_last_slash(p@, i - 1));
            let c = choose|c: int| crate::paths::is_last_slash(p@, c);
            if c < i - 1 {
                assert(p@[i - 1] == '/');
            } else if c > i - 1 {
                assert(p@[c] == '/');
            }
        } else {
            assert(!exists|c: int| crate::paths::is_last_slash(p@, c));
            assert(p@.skip(0) =~= p@);
        }
    }
    let mut c: Vec<char> = Vec::new();
    let mut k = i;
    while k < n
        invariant
            i <= k <= n,
            n == p@.len(),
            c@ == p@.subrange(i as int, k as int),
        decreases n - k,
    {
        c.push(p[k]);
        assert(c@ =~= p@.subrange(i as int, k + 1));
        k += 1;
    }
    assert(c@ =~= p@.skip(i as int));
    if c.len() == 0 || (c.len() == 1 && c[0] == '.') || (c.len() == 2 && c[0] == '.' && c[1] == '.') {
        proof {
            if c.len() == 1 {
                assert(c@ =~= seq!['.']);
            }
            if c.len() == 2 {
                assert(c@ =~= seq!['.', '.']);
            }
        }
        return None;
    }
    assert(c@ != seq!['.'] && c@ != seq!['.', '.']) by {
        if c@ == seq!['.'] {
            assert(c@.len() == 1);
        }
        if c@ == seq!['.', '.'] {
            assert(c@.len() == 2);
        }
    }
    Some(c)
}

/// What creating directory `name` in `parent` gives: `InvalidName` for a
/// name a file cannot have; `Exists` when `taken` reports the path taken;
/// otherwise the path once `create` made it, or `Io` with the path and
/// `create`'s error.
pub open spec fn mkdir_outcome<F: Fn(&str) -> bool, C: Fn(&str) -> Result<(), IoFailure>>(
    taken: F,
    create: C,
    parent: Seq<char>,
    name: Seq<char>,
    r: Result<String, OpsError>,
) -> bool {
    let p = join_path(parent, name);
    if !is_valid_name(name) {
        r matches Err(OpsError::InvalidName(s)) && s@ == name
    } else {
        match r {
            Err(OpsError::Exists(q)) => q@ == p && answered(taken, p, true),
            Ok(q) => q@ == p && answered(taken, p, false) && returned1(create, p, Ok(())),
            Err(OpsError::Io { path, message }) => path@ == p && answered(taken, p, false) && exists|
                f: IoFailure,
            | #[trigger] returned1(create, p, Err(f)) && f.message == message,
            _ => false,
        }
    }
}

/// `p` is the one path that creating `name` in `parent` may create: the
/// joined path, once the name is valid and `taken` reported it free.
pub open spec fn may_create<F: Fn(&str) -> bool>(taken: F, parent: Seq<char>, name: Seq<char>, p: Seq<char>) -> bool {
    &&& is_valid_name(name)
    &&& p == join_path(parent, name)
    &&& answered(taken, p, false)
}

/// Creates directory `name` in `parent`, refusing invalid names and paths
/// that `taken` reports taken. `create` is called on no other path than
/// the one `may_create` allows, so a refused request creates nothing.
pub fn mkdir(
    parent: &str,
    name: &str,
    taken: impl Fn(&str) -> bool,
    create: impl Fn(&str) -> Result<(), IoFailure>,
) -> (r: Result<String, OpsError>)
    requires
        forall|s: &str| call_requires(taken, (s,)),
        forall|s: &str| may_create(taken, parent@, name@, s@) ==> call_requires(create, (s,)),
    ensures
        mkdir_outcome(taken, create, parent@, name@, r),
{
    if !valid_name(name) {
        return Err(OpsError::InvalidName(String::from_str(name)));
    }
    let path = join(parent, name);
    let ps = path.as_str();
    let is_taken = taken(ps);
    if is_taken {
        assert(answered(taken, path@, true));
        return Err(OpsError::Exists(path));
    }
    assert(answered(taken, path@, false));
    let res = create(ps);
    assert(call_ensures(create, (ps,), res));
    match res {
        Ok(u) => {
            assert(u == ());
            assert(call_ensures(create, (ps,), Ok(())));
            assert(returned1(create, path@, Ok(())));
            Ok(path)
        },
        Err(f) => {
            let ghost g = f;
            assert(returned1(create, path@, Err(g)));
            Err(OpsError::Io { path, message: f.message })
        },
    }
}

/// The directory a rename happens in: the parent of `p`, or the root when
/// it has none.
pub open spec fn rename_dir(p: Seq<char>) -> Seq<char> {
    match crate::paths::parent_of(p) {
        Some(q) => q,
        None => seq!['/'],
    }
}

/// What renaming `path` to `new_name` gives: `InvalidName` for a name a
/// file cannot have; the path itself when the new name is the current one;
/// `Exists` when `taken` reports the new path taken; otherwise the new path
/// once `move_to` moved it there, or `Io` with the old path and
/// `move_to`'s error.
pub open spec fn rename_outcome<F: Fn(&str) -> bool, M: Fn(&str, &str) -> Result<(), IoFailure>>(
    taken: F,
    move_to: M,
    path: Seq<char>,
    new_name: Seq<char>,
    r: Result<String, OpsError>,
) -> bool {
    let dest = join_path(rename_dir(path), new_name);
    if !is_valid_name(new_name) {
        r matches Err(OpsError::InvalidName(s)) && s@ == new_name
    } else if dest == path {
        r matches Ok(q) && q@ == dest
    } else {
        match r {
            Err(OpsError::Exists(q)) => q@ == dest && answered(taken, dest, true),
            Ok(q) => q@ == dest && answered(taken, dest, false) && returned2(move_to, path, dest, Ok(())),
            Err(OpsError::Io { path: p, message }) => p@ == path && answered(taken, dest, false) && exists|
                f: IoFailure,
            | #[trigger] returned2(move_to, path, dest, Err(f)) && f.message == message,
            _ => false,
        }
    }
}

/// The one move that renaming `path` to `new_name` may make: from `path`
/// to the new path in the same directory, once the name is valid, the new
/// path differs from the old one and `taken` reported it free.
pub open spec fn may_rename<F: Fn(&str) -> bool>(
    taken: F,
    path: Seq<char>,
    new_name: Seq<char>,
    from: Seq<char>,
    to: Seq<char>,
) -> bool {
    &&& is_valid_name(new_name)
    &&& from == path
    &&& to == join_path(rename_dir(path), new_name)
    &&& to != path
    &&& answered(taken, to, false)
}

/// Renames `path` within its directory to `new_name`, refusing invalid
/// names and new paths that `taken` reports taken. `move_to` is called on
/// no other pair of paths than the one `may_rename` allows, so a refused
/// rename leaves both paths alone.
pub fn rename(
    path: &str,
    new_name: &str,
    taken: impl Fn(&str) -> bool,
    move_to: impl Fn(&str, &str) -> Result<(), IoFailure>,
) -> (r: Result<String, OpsError>)
    requires
        forall|s: &str| call_requires(taken, (s,)),
        forall|s: &str, t: &str| may_rename(taken, path@, new_name@, s@, t@) ==> call_requires(move_to, (s, t)),
    ensures
        rename_outcome(taken, move_to, path@, new_name@, r),
{
    if !valid_name(new_name) {
        return Err(OpsError::InvalidName(String::from_str(new_name)));
    }
    let pc = chars_of(path);
    let dir = match crate::paths::parent(pc.as_slice()) {
        Some(q) => string_of(q.as_slice()),
        None => {
            let mut r = String::new();
            crate::text::push_char(&mut r, '/');
            assert(r@ =~= seq!['/']);
            r
        },
    };
    let dest = join(dir.as_str(), new_name);
    let dc = chars_of(dest.as_str());
    if crate::text::chars_eq(dc.as_slice(), pc.as_slice()) {
        return Ok(dest);
    }
    let ds = dest.as_str();
    let is_taken = taken(ds);
    if is_taken {
        assert(answered(taken, dest@, true));
        return Err(OpsError::Exists(dest));
    }
    assert(answered(taken, dest@, false));
    assert(dir@ == rename_dir(path@));
    assert(dest@ != path@);
    assert(may_rename(taken, path@, new_name@, path@, ds@));
    let res = move_to(path, ds);
    match res {
        Ok(u) => {
            assert(u == ());
            assert(returned2(move_to, path@, dest@, Ok(())));
            Ok(dest)
        },
        Err(f) => {
            let ghost g = f;
            assert(returned2(move_to, path@, dest@, Err(g)));
            Err(OpsError::Io { path: String::from_str(path), message: f.message })
        },
    }
}

/// `s` is one of `paths`.
pub open spec fn listed(paths: Seq<String>, s: Seq<char>) -> bool {
    exists|i: int| 0 <= i < paths.len() && paths[i]@ == s
}

/// Moves each of `paths` to the trash with `discard`, in order, and reports
/// each: a failure becomes `Trash` with the path and `discard`'s message,
/// and does not stop the batch. `discard` is called on the listed paths
/// alone.
pub fn trash(paths: &[String], discard: impl Fn(&str) -> Result<(), String>) -> (r: Vec<
    (String, Result<(), OpsError>),
>)
    requires
        forall|s: &str| listed(paths@, s@) ==> call_requires(discard, (s,)),
    ensures
        r@.len() == paths@.len(),
        forall|i: int|
            0 <= i < r@.len() ==> {
                &&& (#[trigger] r@[i]).0@ == paths@[i]@
                &&& match r@[i].1 {
                    Ok(()) => returned1(discard, paths@[i]@, Ok(())),
                    Err(OpsError::Trash { path, message }) => path@ == paths@[i]@ && returned1(
                        discard,
                        paths@[i]@,
                        Err(message),
                    ),
                    _ => false,
                }
            },
{
    let mut out: Vec<(String, Result<(), OpsError>)> = Vec::new();
    let mut i: usize = 0;
    while i < paths.len()
        invariant
            i <= paths@.len(),
            out@.len() == i,
            forall|s: &str| listed(paths@, s@) ==> call_requires(discard, (s,)),
            forall|k: int|
                0 <= k < i ==> {
                    &&& (#[trigger] out@[k]).0@ == paths@[k]@
                    &&& match out@[k].1 {
                        Ok(()) => returned1(discard, paths@[k]@, Ok(())),
                        Err(OpsError::Trash { path, message }) => path@ == paths@[k]@ && returned1(
                            discard,
                            paths@[k]@,
                            Err(message),
                        ),
                        _ => false,
                    }
                },
        decreases paths@.len() - i,
    {
        let p = paths[i].clone();
        let ps = p.as_str();
        assert(listed(paths@, ps@)) by {
            assert(paths@[i as int]@ == ps@);
        }
        let res = discard(ps);
        let item = match res {
            Ok(u) => {
                assert(u == ());
                assert(returned1(discard, paths@[i as int]@, Ok(())));
                (p.clone(), Ok(()))
            },
            Err(m) => {
                let ghost gm = m;
                assert(returned1(discard, paths@[i as int]@, Err(gm)));
                (p.clone(), Err(OpsError::Trash { path: p, message: m }))
            },
        };
        let ghost before = out@;
        out.push(item);
        assert(forall|k: int| 0 <= k < i ==> out@[k] == before[k]);
        i += 1;
    }
    out
}

/// Removes each of `paths` with `remove`, in order, and reports each with
/// what `remove` returned; a failure does not stop the batch. `remove` is
/// called on the listed paths alone.
pub fn delete_permanent(paths: &[String], remove: impl Fn(&str) -> Result<(), OpsError>) -> (r: Vec<
    (String, Result<(), OpsError>),
>)
    requires
        forall|s: &str| listed(paths@, s@) ==> call_requires(remove, (s,)),
    ensures
        r@.len() == paths@.len(),
        forall|i: int|
            0 <= i < r@.len() ==> (#[trigger] r@[i]).0@ == paths@[i]@ && returned1(remove, paths@[i]@, r@[i].1),
{
    let mut out: Vec<(String, Result<(), OpsError>)> = Vec::new();
    let mut i: usize = 0;
    while i < paths.len()
        invariant
            i <= paths@.len(),
            out@.len() == i,
            forall|s: &str| listed(paths@, s@) ==> call_requires(remove, (s,)),
            forall|k: int|
                0 <= k < i ==> (#[trigger] out@[k]).0@ == paths@[k]@ && returned1(remove, paths@[k]@, out@[k].1),
        decreases paths@.len() - i,
    {
        let p = paths[i].clone();
        let ps = p.as_str();
        assert(listed(paths@, ps@)) by {
            assert(paths@[i as int]@ == ps@);
        }
        let res = remove(ps);
        assert(returned1(remove, paths@[i as int]@, res));
        let ghost before = out@;
        out.push((p, res));
        assert(forall|k: int| 0 <= k < i ==> out@[k] == before[k]);
        i += 1;
    }
    out
}

/// `(from, to)` is the one copy or move that placing `src` into `dest_dir`
/// may make: from `src` to the first free name for its file name there.
pub open spec fn to_unique_dest<F: Fn(&str) -> bool>(
    taken: F,
    src: Seq<char>,
    dest_dir: Seq<char>,
    from: Seq<char>,
    to: Seq<char>,
) -> bool {
    &&& from == src
    &&& match file_name_of(src) {
        Some(name) => is_unique_dest(taken, dest_dir, name, to),
        None => false,
    }
}

/// `(from, to)` is the copy or move of one of `srcs` into `dest_dir`.
pub open spec fn to_unique_dest_of_any<F: Fn(&str) -> bool>(
    taken: F,
    srcs: Seq<String>,
    dest_dir: Seq<char>,
    from: Seq<char>,
    to: Seq<char>,
) -> bool {
    exists|i: int| 0 <= i < srcs.len() && #[trigger] to_unique_dest(taken, srcs[i]@, dest_dir, from, to)
}

/// What copying `src` into `dest_dir` gives: `InvalidName` with the path
/// when it has no file name; otherwise the unique destination for its name
/// once `copy_tree` copied it there, or `copy_tree`'s error.
pub open spec fn copy_outcome<F: Fn(&str) -> bool, C: Fn(&str, &str) -> Result<(), OpsError>>(
    taken: F,
    copy_tree: C,
    src: Seq<char>,
    dest_dir: Seq<char>,
    r: Result<String, OpsError>,
) -> bool {
    match file_name_of(src) {
        None => r matches Err(OpsError::InvalidName(s)) && s@ == src,
        Some(name) => exists|d: Seq<char>|
            #[trigger] is_unique_dest(taken, dest_dir, name, d) && match r {
                Ok(q) => q@ == d && returned2(copy_tree, src, d, Ok(())),
                Err(e) => returned2(copy_tree, src, d, Err(e)),
            },
    }
}

/// Copies `src` into `dest_dir` under the first free name for it.
/// `copy_tree` is called on no other pair than the one `to_unique_dest`
/// allows, so nothing already in `dest_dir` is written over.
pub fn copy_one(
    src: &str,
    dest_dir: &str,
    taken: impl Fn(&str) -> bool,
    copy_tree: impl Fn(&str, &str) -> Result<(), OpsError>,
) -> (r: Result<String, OpsError>)
    requires
        forall|s: &str| call_requires(taken, (s,)),
        forall|s: &str, t: &str| to_unique_dest(taken, src@, dest_dir@, s@, t@) ==> call_requires(copy_tree, (s, t)),
    ensures
        copy_outcome(taken, copy_tree, src@, dest_dir@, r),
{
    let sc = chars_of(src);
    let name = match file_name(sc.as_slice()) {
        Some(n) => string_of(n.as_slice()),
        None => return Err(OpsError::InvalidName(String::from_str(src))),
    };
    assert(file_name_of(src@) == Some(name@));
    let dest = unique_dest(dest_dir, name.as_str(), taken);
    assert(is_unique_dest(taken, dest_dir@, name@, dest@));
    let ds = dest.as_str();
    assert(to_unique_dest(taken, src@, dest_dir@, src@, ds@));
    let res = copy_tree(src, ds);
    assert(call_ensures(copy_tree, (src, ds), res));
    match res {
        Ok(u) => {
            assert(u == ());
            assert(returned2(copy_tree, src@, dest@, Ok(())));
            let r: Result<String, OpsError> = Ok(dest);
            assert(is_unique_dest(taken, dest_dir@, file_name_of(src@)->0, dest@));
            assert(copy_outcome(taken, copy_tree, src@, dest_dir@, r));
            r
        },
        Err(e) => {
            let ghost ge = e;
            assert(returned2(copy_tree, src@, dest@, Err(ge)));
            let r: Result<String, OpsError> = Err(e);
            assert(is_unique_dest(taken, dest_dir@, file_name_of(src@)->0, dest@));
            assert(copy_outcome(taken, copy_tree, src@, dest_dir@, r));
            r
        },
    }
}

proof fn lemma_unique_dest_ref<F: Fn(&str) -> bool>(taken: F, dir: Seq<char>, name: Seq<char>, d: Seq<char>)
    requires
        is_unique_dest(&taken, dir, name, d),
    ensures
        is_unique_dest(taken, dir, name, d),
{
    let n = choose|n: nat|
        n <= u64::MAX && d == join_path(dir, #[trigger] candidate_name(name, n)) && (forall|m: nat|
            m < n ==> answered(&taken, join_path(dir, #[trigger] candidate_name(name, m)), true)) && (n
            < u64::MAX ==> answered(&taken, d, false));
    assert forall|m: nat| m < n implies answered(taken, join_path(dir, #[trigger] candidate_name(name, m)), true) by {
        let p = join_path(dir, candidate_name(name, m));
        assert(answered(&taken, p, true));
        let t = choose|t: &str| t@ == p && call_ensures(&taken, (t,), true);
        assert(call_ensures(taken, (t,), true));
    }
    if n < u64::MAX {
        let t = choose|t: &str| t@ == d && call_ensures(&taken, (t,), false);
        assert(call_ensures(taken, (t,), false));
    }
}

proof fn lemma_copy_outcome_ref<F: Fn(&str) -> bool, C: Fn(&str, &str) -> Result<(), OpsError>>(
    taken: F,
    copy_tree: C,
    src: Seq<char>,
    dest_dir: Seq<char>,
    r: Result<String, OpsError>,
)
    requires
        copy_outcome(&taken, &copy_tree, src, dest_dir, r),
    ensures
        copy_outcome(taken, copy_tree, src, dest_dir, r),
{
    if let Some(name) = file_name_of(src) {
        let d = choose|d: Seq<char>|
            #[trigger] is_unique_dest(&taken, dest_dir, name, d) && match r {
                Ok(q) => q@ == d && returned2(&copy_tree, src, d, Ok(())),
                Err(e) => returned2(&copy_tree, src, d, Err(e)),
            };
        lemma_unique_dest_ref(taken, dest_dir, name, d);
        match r {
            Ok(q) => {
                let (a, b) = choose|a: &str, b: &str| a@ == src && b@ == d && call_ensures(&copy_tree, (a, b), Ok(()));
                assert(call_ensures(copy_tree, (a, b), Ok(())));
            },
            Err(e) => {
                let (a, b) = choose|a: &str, b: &str| a@ == src && b@ == d && call_ensures(&copy_tree, (a, b), Err(e));
                assert(call_ensures(copy_tree, (a, b), Err(e)));
            },
        }
    }
}

/// Copies each of `srcs` into `dest_dir`, in order, and reports each with
/// where it landed or why it failed; a failure does not stop the batch.
/// `copy_tree` only ever writes a source to the first free name for it, so
/// nothing already in `dest_dir` is written over.
pub fn copy(
    srcs: &[String],
    dest_dir: &str,
    taken: impl Fn(&str) -> bool,
    copy_tree: impl Fn(&str, &str) -> Result<(), OpsError>,
) -> (r: Vec<(String, Result<String, OpsError>)>)
    requires
        forall|s: &str| call_requires(taken, (s,)),
        forall|s: &str, t: &str|
            to_unique_dest_of_any(taken, srcs@, dest_dir@, s@, t@) ==> call_requires(copy_tree, (s, t)),
    ensures
        r@.len() == srcs@.len(),
        forall|i: int|
            0 <= i < r@.len() ==> (#[trigger] r@[i]).0@ == srcs@[i]@ && copy_outcome(
                taken,
                copy_tree,
                srcs@[i]@,
                dest_dir@,
                r@[i].1,
            ),
{
    let mut out: Vec<(String, Result<String, OpsError>)> = Vec::new();
    let mut i: usize = 0;
    while i < srcs.len()
        invariant
            i <= srcs@.len(),
            out@.len() == i,
            forall|s: &str| call_requires(taken, (s,)),
            forall|s: &str, t: &str|
            to_unique_dest_of_any(taken, srcs@, dest_dir@, s@, t@) ==> call_requires(copy_tree, (s, t)),
            forall|k: int|
                0 <= k < i ==> (#[trigger] out@[k]).0@ == srcs@[k]@ && copy_outcome(
                    taken,
                    copy_tree,
                    srcs@[k]@,
                    dest_dir@,
                    out@[k].1,
                ),
        decreases srcs@.len() - i,
    {
        let s = srcs[i].clone();
        proof {
            assert forall|a: &str, b: &str| to_unique_dest(&taken, s@, dest_dir@, a@, b@) implies call_requires(
                &copy_tree,
                (a, b),
            ) by {
                let name = file_name_of(s@)->0;
                lemma_unique_dest_ref(taken, dest_dir@, name, b@);
                assert(to_unique_dest(taken, srcs@[i as int]@, dest_dir@, a@, b@));
                assert(to_unique_dest_of_any(taken, srcs@, dest_dir@, a@, b@));
            }
        }
        let res = copy_one(s.as_str(), dest_dir, &taken, &copy_tree);
        proof {
            lemma_copy_outcome_ref(taken, copy_tree, s@, dest_dir@, res);
        }
        let ghost before = out@;
        out.push((s, res));
        assert(forall|k: int| 0 <= k < i ==> out@[k] == before[k]);
        i += 1;
    }
    out
}

/// What copying `src` to `dest` and then removing `src` gives: `dest` once
/// both succeeded, otherwise the error of the step that failed (the removal
/// is not tried after a failed copy).
pub open spec fn copy_then_delete_outcome<C: Fn(&str, &str) -> Result<(), OpsError>, D: Fn(&str) -> Result<(), OpsError>>(
    copy_tree: C,
    remove: D,
    src: Seq<char>,
    dest: Seq<char>,
    r: Result<String, OpsError>,
) -> bool {
    match r {
        Ok(q) => q@ == dest && returned2(copy_tree, src, dest, Ok(())) && returned1(remove, src, Ok(())),
        Err(e) => returned2(copy_tree, src, dest, Err(e)) || (returned2(copy_tree, src, dest, Ok(()))
            && returned1(remove, src, Err(e))),
    }
}

/// Moves `src` to `dest` by copying it there and then removing it.
/// `copy_tree` is called on `(src, dest)` alone, and `remove` on `src`
/// alone and only once that copy succeeded.
pub fn copy_then_delete(
    src: &str,
    dest: &str,
    copy_tree: impl Fn(&str, &str) -> Result<(), OpsError>,
    remove: impl Fn(&str) -> Result<(), OpsError>,
) -> (r: Result<String, OpsError>)
    requires
        forall|s: &str, t: &str| s@ == src@ && t@ == dest@ ==> call_requires(copy_tree, (s, t)),
        forall|s: &str| s@ == src@ && returned2(copy_tree, src@, dest@, Ok(())) ==> call_requires(remove, (s,)),
    ensures
        copy_then_delete_outcome(copy_tree, remove, src@, dest@, r),
{
    let copied = copy_tree(src, dest);
    match copied {
        Err(e) => {
            let ghost ge = e;
            assert(returned2(copy_tree, src@, dest@, Err(ge)));
            return Err(e);
        },
        Ok(u) => {
            assert(u == ());
            assert(returned2(copy_tree, src@, dest@, Ok(())));
        },
    }
    let removed = remove(src);
    match removed {
        Err(e) => {
            let ghost ge = e;
            assert(returned1(remove, src@, Err(ge)));
            Err(e)
        },
        Ok(u) => {
            assert(u == ());
            assert(returned1(remove, src@, Ok(())));
            Ok(String::from_str(dest))
        },
    }
}

/// What moving `src` into `dest_dir` gives: `InvalidName` with the path
/// when it has no file name; otherwise, for the unique destination of its
/// name: that destination once `move_to` renamed it there; when the rename
/// failed for crossing file systems, what copying there and deleting gives;
/// on any other rename failure, `Io` with the source path and the message.
pub open spec fn move_outcome<
    F: Fn(&str) -> bool,
    M: Fn(&str, &str) -> Result<(), IoFailure>,
    C: Fn(&str, &str) -> Result<(), OpsError>,
    D: Fn(&str) -> Result<(), OpsError>,
>(
    taken: F,
    move_to: M,
    copy_tree: C,
    remove: D,
    src: Seq<char>,
    dest_dir: Seq<char>,
    r: Result<String, OpsError>,
) -> bool {
    match file_name_of(src) {
        None => r matches Err(OpsError::InvalidName(s)) && s@ == src,
        Some(name) => exists|d: Seq<char>|
            #[trigger] is_unique_dest(taken, dest_dir, name, d) && {
                ||| (r matches Ok(q) && q@ == d && returned2(move_to, src, d, Ok(())))
                ||| exists|f: IoFailure|
                    #[trigger] returned2(move_to, src, d, Err(f)) && if f.os_code == Some(cross_device_code()) {
                        copy_then_delete_outcome(copy_tree, remove, src, d, r)
                    } else {
                        r matches Err(OpsError::Io { path, message }) && path@ == src && message == f.message
                    }
            },
    }
}

/// The rename of `from` to `to` failed for crossing file systems.
pub open spec fn crossed<M: Fn(&str, &str) -> Result<(), IoFailure>>(move_to: M, from: Seq<char>, to: Seq<char>) -> bool {
    exists|f: IoFailure| #[trigger] returned2(move_to, from, to, Err(f)) && f.os_code == Some(cross_device_code())
}

/// `(from, to)` is a copy that moving `src` into `dest_dir` may fall back
/// to: onto the destination the rename was tried for, once that rename
/// failed for crossing file systems.
pub open spec fn may_copy_over<F: Fn(&str) -> bool, M: Fn(&str, &str) -> Result<(), IoFailure>>(
    taken: F,
    move_to: M,
    src: Seq<char>,
    dest_dir: Seq<char>,
    from: Seq<char>,
    to: Seq<char>,
) -> bool {
    to_unique_dest(taken, src, dest_dir, from, to) && crossed(move_to, from, to)
}

/// `p` is a removal that moving `src` into `dest_dir` may make: of `src`
/// itself, once it was copied to its destination in the fallback.
pub open spec fn may_remove_moved<
    F: Fn(&str) -> bool,
    M: Fn(&str, &str) -> Result<(), IoFailure>,
    C: Fn(&str, &str) -> Result<(), OpsError>,
>(taken: F, move_to: M, copy_tree: C, src: Seq<char>, dest_dir: Seq<char>, p: Seq<char>) -> bool {
    p == src && exists|d: Seq<char>|
        #[trigger] may_copy_over(taken, move_to, src, dest_dir, src, d) && returned2(copy_tree, src, d, Ok(()))
}

/// Moves `src` into `dest_dir` under the first free name for it, falling
/// back to copy-then-delete when the rename crosses file systems. The
/// closures that write are called only as `to_unique_dest`,
/// `may_copy_over` and `may_remove_moved` allow: nothing already in
/// `dest_dir` is written over and nothing but `src` is removed.
pub fn move_one(
    src: &str,
    dest_dir: &str,
    taken: impl Fn(&str) -> bool,
    move_to: impl Fn(&str, &str) -> Result<(), IoFailure>,
    copy_tree: impl Fn(&str, &str) -> Result<(), OpsError>,
    remove: impl Fn(&str) -> Result<(), OpsError>,
) -> (r: Result<String, OpsError>)
    requires
        forall|s: &str| call_requires(taken, (s,)),
        forall|s: &str, t: &str| to_unique_dest(taken, src@, dest_dir@, s@, t@) ==> call_requires(move_to, (s, t)),
        forall|s: &str, t: &str|
            may_copy_over(taken, move_to, src@, dest_dir@, s@, t@) ==> call_requires(copy_tree, (s, t)),
        forall|s: &str|
            may_remove_moved(taken, move_to, copy_tree, src@, dest_dir@, s@) ==> call_requires(remove, (s,)),
    ensures
        move_outcome(taken, move_to, copy_tree, remove, src@, dest_dir@, r),
{
    let sc = chars_of(src);
    let name = match file_name(sc.as_slice()) {
        Some(n) => string_of(n.as_slice()),
        None => return Err(OpsError::InvalidName(String::from_str(src))),
    };
    assert(file_name_of(src@) == Some(name@));
    let dest = unique_dest(dest_dir, name.as_str(), taken);
    assert(is_unique_dest(taken, dest_dir@, name@, dest@));
    let ds = dest.as_str();
    assert(to_unique_dest(taken, src@, dest_dir@, src@, ds@));
    let moved = move_to(src, ds);
    match moved {
        Ok(u) => {
            assert(u == ());
            assert(returned2(move_to, src@, dest@, Ok(())));
            let r: Result<String, OpsError> = Ok(dest);
            assert(is_unique_dest(taken, dest_dir@, file_name_of(src@)->0, dest@));
            r
        },
        Err(f) => {
            let ghost gf = f;
            assert(returned2(move_to, src@, dest@, Err(gf)));
            let r = if f.os_code == Some(18i32) {
                assert(crossed(move_to, src@, ds@));
                assert(may_copy_over(taken, move_to, src@, dest_dir@, src@, ds@));
                assert forall|a: &str| a@ == src@ && returned2(copy_tree, src@, ds@, Ok(())) implies call_requires(
                    remove,
                    (a,),
                ) by {
                    assert(may_remove_moved(taken, move_to, copy_tree, src@, dest_dir@, a@));
                }
                copy_then_delete(src, ds, copy_tree, remove)
            } else {
                Err(OpsError::Io { path: String::from_str(src), message: f.message })
            };
            assert(is_unique_dest(taken, dest_dir@, file_name_of(src@)->0, dest@));
            r
        },
    }
}

proof fn lemma_move_outcome_ref<
    F: Fn(&str) -> bool,
    M: Fn(&str, &str) -> Result<(), IoFailure>,
    C: Fn(&str, &str) -> Result<(), OpsError>,
    D: Fn(&str) -> Result<(), OpsError>,
>(
    taken: F,
    move_to: M,
    copy_tree: C,
    remove: D,
    src: Seq<char>,
    dest_dir: Seq<char>,
    r: Result<String, OpsError>,
)
    requires
        move_outcome(&taken, &move_to, &copy_tree, &remove, src, dest_dir, r),
    ensures
        move_outcome(taken, move_to, copy_tree, remove, src, dest_dir, r),
{
    if let Some(name) = file_name_of(src) {
        let d = choose|d: Seq<char>|
            #[trigger] is_unique_dest(&taken, dest_dir, name, d) && {
                ||| (r matches Ok(q) && q@ == d && returned2(&move_to, src, d, Ok(())))
                ||| exists|f: IoFailure|
                    #[trigger] returned2(&move_to, src, d, Err(f)) && if f.os_code == Some(cross_device_code()) {
                        copy_then_delete_outcome(&copy_tree, &remove, src, d, r)
                    } else {
                        r matches Err(OpsError::Io { path, message }) && path@ == src && message == f.message
                    }
            };
        lemma_unique_dest_ref(taken, dest_dir, name, d);
        if r matches Ok(q) && q@ == d && returned2(&move_to, src, d, Ok(())) {
            let (a, b) = choose|a: &str, b: &str| a@ == src && b@ == d && call_ensures(&move_to, (a, b), Ok(()));
            assert(call_ensures(move_to, (a, b), Ok(())));
        } else {
            let f = choose|f: IoFailure|
                #[trigger] returned2(&move_to, src, d, Err(f)) && if f.os_code == Some(cross_device_code()) {
                    copy_then_delete_outcome(&copy_tree, &remove, src, d, r)
                } else {
                    r matches Err(OpsError::Io { path, message }) && path@ == src && message == f.message
                };
            let (a, b) = choose|a: &str, b: &str| a@ == src && b@ == d && call_ensures(&move_to, (a, b), Err(f));
            assert(call_ensures(move_to, (a, b), Err(f)));
            assert(returned2(move_to, src, d, Err(f)));
            if f.os_code == Some(cross_device_code()) {
                match r {
                    Ok(q) => {
                        let (x, y) = choose|x: &str, y: &str| x@ == src && y@ == d && call_ensures(&copy_tree, (x, y), Ok(()));
                        assert(call_ensures(copy_tree, (x, y), Ok(())));
                        let z = choose|z: &str| z@ == src && call_ensures(&remove, (z,), Ok(()));
                        assert(call_ensures(remove, (z,), Ok(())));
                    },
                    Err(e) => {
                        if returned2(&copy_tree, src, d, Err(e)) {
                            let (x, y) = choose|x: &str, y: &str| x@ == src && y@ == d && call_ensures(&copy_tree, (x, y), Err(e));
                            assert(call_ensures(copy_tree, (x, y), Err(e)));
                        } else {
                            let (x, y) = choose|x: &str, y: &str| x@ == src && y@ == d && call_ensures(&copy_tree, (x, y), Ok(()));
                            assert(call_ensures(copy_tree, (x, y), Ok(())));
                            let z = choose|z: &str| z@ == src && call_ensures(&remove, (z,), Err(e));
                            assert(call_ensures(remove, (z,), Err(e)));
                        }
                    },
                }
            }
        }
    }
}

/// `(from, to)` is a fallback copy in the move of one of `srcs`.
pub open spec fn may_copy_over_any<F: Fn(&str) -> bool, M: Fn(&str, &str) -> Result<(), IoFailure>>(
    taken: F,
    move_to: M,
    srcs: Seq<String>,
    dest_dir: Seq<char>,
    from: Seq<char>,
    to: Seq<char>,
) -> bool {
    exists|i: int| 0 <= i < srcs.len() && #[trigger] may_copy_over(taken, move_to, srcs[i]@, dest_dir, from, to)
}

/// `p` is a removal in the move of one of `srcs`.
pub open spec fn may_remove_moved_any<
    F: Fn(&str) -> bool,
    M: Fn(&str, &str) -> Result<(), IoFailure>,
    C: Fn(&str, &str) -> Result<(), OpsError>,
>(taken: F, move_to: M, copy_tree: C, srcs: Seq<String>, dest_dir: Seq<char>, p: Seq<char>) -> bool {
    exists|i: int|
        0 <= i < srcs.len() && #[trigger] may_remove_moved(taken, move_to, copy_tree, srcs[i]@, dest_dir, p)
}

proof fn lemma_returned2_ref<R, G: Fn(&str, &str) -> R>(g: G, a: Seq<char>, b: Seq<char>, r: R)
    requires
        returned2(&g, a, b, r),
    ensures
        returned2(g, a, b, r),
{
    let (x, y) = choose|x: &str, y: &str| x@ == a && y@ == b && call_ensures(&g, (x, y), r);
    assert(call_ensures(g, (x, y), r));
}

proof fn lemma_may_copy_over_ref<F: Fn(&str) -> bool, M: Fn(&str, &str) -> Result<(), IoFailure>>(
    taken: F,
    move_to: M,
    src: Seq<char>,
    dest_dir: Seq<char>,
    from: Seq<char>,
    to: Seq<char>,
)
    requires
        may_copy_over(&taken, &move_to, src, dest_dir, from, to),
    ensures
        may_copy_over(taken, move_to, src, dest_dir, from, to),
{
    lemma_unique_dest_ref(taken, dest_dir, file_name_of(src)->0, to);
    let f = choose|f: IoFailure|
        #[trigger] returned2(&move_to, from, to, Err(f)) && f.os_code == Some(cross_device_code());
    lemma_returned2_ref(move_to, from, to, Err(f));
}

/// Moves each of `srcs` into `dest_dir`, in order, and reports each with
/// where it landed or why it failed; a failure does not stop the batch.
/// As in `move_one`, the closures that write are called only on what the
/// move of one of `srcs` allows: nothing already in `dest_dir` is written
/// over, and nothing but a moved source is removed.
pub fn move_items(
    srcs: &[String],
    dest_dir: &str,
    taken: impl Fn(&str) -> bool,
    move_to: impl Fn(&str, &str) -> Result<(), IoFailure>,
    copy_tree: impl Fn(&str, &str) -> Result<(), OpsError>,
    remove: impl Fn(&str) -> Result<(), OpsError>,
) -> (r: Vec<(String, Result<String, OpsError>)>)
    requires
        forall|s: &str| call_requires(taken, (s,)),
        forall|s: &str, t: &str|
            to_unique_dest_of_any(taken, srcs@, dest_dir@, s@, t@) ==> call_requires(move_to, (s, t)),
        forall|s: &str, t: &str|
            may_copy_over_any(taken, move_to, srcs@, dest_dir@, s@, t@) ==> call_requires(copy_tree, (s, t)),
        forall|s: &str|
            may_remove_moved_any(taken, move_to, copy_tree, srcs@, dest_dir@, s@) ==> call_requires(remove, (s,)),
    ensures
        r@.len() == srcs@.len(),
        forall|i: int|
            0 <= i < r@.len() ==> (#[trigger] r@[i]).0@ == srcs@[i]@ && move_outcome(
                taken,
                move_to,
                copy_tree,
                remove,
                srcs@[i]@,
                dest_dir@,
                r@[i].1,
            ),
{
    let mut out: Vec<(String, Result<String, OpsError>)> = Vec::new();
    let mut i: usize = 0;
    while i < srcs.len()
        invariant
            i <= srcs@.len(),
            out@.len() == i,
            forall|s: &str| call_requires(taken, (s,)),
            forall|s: &str, t: &str|
                to_unique_dest_of_any(taken, srcs@, dest_dir@, s@, t@) ==> call_requires(move_to, (s, t)),
            forall|s: &str, t: &str|
                may_copy_over_any(taken, move_to, srcs@, dest_dir@, s@, t@) ==> call_requires(copy_tree, (s, t)),
            forall|s: &str|
                may_remove_moved_any(taken, move_to, copy_tree, srcs@, dest_dir@, s@) ==> call_requires(remove, (s,)),
            forall|k: int|
                0 <= k < i ==> (#[trigger] out@[k]).0@ == srcs@[k]@ && move_outcome(
                    taken,
                    move_to,
                    copy_tree,
                    remove,
                    srcs@[k]@,
                    dest_dir@,
                    out@[k].1,
                ),
        decreases srcs@.len() - i,
    {
        let s = srcs[i].clone();
        proof {
            let ghost si = srcs@[i as int]@;
            assert(si == s@);
            assert forall|a: &str, b: &str| to_unique_dest(&taken, s@, dest_dir@, a@, b@) implies call_requires(
                &move_to,
                (a, b),
            ) by {
                lemma_unique_dest_ref(taken, dest_dir@, file_name_of(s@)->0, b@);
                assert(to_unique_dest(taken, srcs@[i as int]@, dest_dir@, a@, b@));
                assert(to_unique_dest_of_any(taken, srcs@, dest_dir@, a@, b@));
            }
            assert forall|a: &str, b: &str| may_copy_over(&taken, &move_to, s@, dest_dir@, a@, b@) implies call_requires(
                &copy_tree,
                (a, b),
            ) by {
                lemma_may_copy_over_ref(taken, move_to, s@, dest_dir@, a@, b@);
                assert(may_copy_over(taken, move_to, srcs@[i as int]@, dest_dir@, a@, b@));
                assert(may_copy_over_any(taken, move_to, srcs@, dest_dir@, a@, b@));
            }
            assert forall|a: &str| may_remove_moved(&taken, &move_to, &copy_tree, s@, dest_dir@, a@) implies call_requires(
                &remove,
                (a,),
            ) by {
                let d = choose|d: Seq<char>|
                    #[trigger] may_copy_over(&taken, &move_to, s@, dest_dir@, s@, d) && returned2(
                        &copy_tree,
                        s@,
                        d,
                        Ok(()),
                    );
                lemma_may_copy_over_ref(taken, move_to, s@, dest_dir@, s@, d);
                lemma_returned2_ref(copy_tree, s@, d, Ok(()));
                assert(may_copy_over(taken, move_to, srcs@[i as int]@, dest_dir@, s@, d));
                assert(may_remove_moved(taken, move_to, copy_tree, srcs@[i as int]@, dest_dir@, a@));
                assert(may_remove_moved_any(taken, move_to, copy_tree, srcs@, dest_dir@, a@));
            }
        }
        let res = move_one(s.as_str(), dest_dir, &taken, &move_to, &copy_tree, &remove);
        proof {
            lemma_move_outcome_ref(taken, move_to, copy_tree, remove, s@, dest_dir@, res);
        }
        let ghost before = out@;
        out.push((s, res));
        assert(forall|k: int| 0 <= k < i ==> out@[k] == before[k]);
        i += 1;
    }
    out
}

/// The names a file can be given are all strings except the empty one,
/// `.`, `..` and those holding a `/`; every other character is allowed.
pub proof fn law_valid_names(name: Seq<char>)
    ensures
        is_valid_name(name) <==> (name.len() > 0 && name != seq!['.'] && name != seq!['.', '.'] && forall|i: int|
            0 <= i < name.len() ==> name[i] != '/'),
{
    if exists|i: int| 0 <= i < name.len() && name[i] == '/' {
        let i = choose|i: int| 0 <= i < name.len() && name[i] == '/';
        assert(name.contains('/'));
    }
}

/// A name is refused exactly when it is empty, is `.` or `..`, or holds a
/// `/`: making a directory fails with `InvalidName` on those names and on
/// no other, so any other character, from any script, is accepted.
pub proof fn law_mkdir_refuses_exactly_bad_names<F: Fn(&str) -> bool, C: Fn(&str) -> Result<(), IoFailure>>(
    taken: F,
    create: C,
    parent: Seq<char>,
    name: Seq<char>,
    r: Result<String, OpsError>,
)
    requires
        mkdir_outcome(taken, create, parent, name, r),
    ensures
        (r matches Err(OpsError::InvalidName(n)) && n@ == name) <==> (name.len() == 0 || name == seq!['.']
            || name == seq!['.', '.'] || exists|i: int| 0 <= i < name.len() && name[i] == '/'),
{
    if exists|i: int| 0 <= i < name.len() && name[i] == '/' {
        let i = choose|i: int| 0 <= i < name.len() && name[i] == '/';
        assert(name.contains('/'));
    }
}

/// Renaming refuses a new name with `InvalidName` exactly when it is
/// empty, is `.` or `..`, or holds a `/`.
pub proof fn law_rename_refuses_exactly_bad_names<F: Fn(&str) -> bool, M: Fn(&str, &str) -> Result<(), IoFailure>>(
    taken: F,
    move_to: M,
    path: Seq<char>,
    new_name: Seq<char>,
    r: Result<String, OpsError>,
)
    requires
        rename_outcome(taken, move_to, path, new_name, r),
    ensures
        (r matches Err(OpsError::InvalidName(n)) && n@ == new_name) <==> (new_name.len() == 0 || new_name == seq![
            '.',
        ] || new_name == seq!['.', '.'] || exists|i: int| 0 <= i < new_name.len() && new_name[i] == '/'),
{
    if exists|i: int| 0 <= i < new_name.len() && new_name[i] == '/' {
        let i = choose|i: int| 0 <= i < new_name.len() && new_name[i] == '/';
        assert(new_name.contains('/'));
    }
}

} // verus!
