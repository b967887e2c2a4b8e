//! Paths as strings in normal form: the form that collecting
//! `Path::components` gives back, with no repeated, trailing or interior
//! `.` separators. On such strings, string equality is path equality and
//! the functions below agree with `Path::join`, `Path::parent` and
//! `Path::starts_with`.
use vstd::prelude::*;

use crate::text::{chars_eq, chars_of, string_of};

verus! {

/// `i` is the last index of a slash in `p`.
pub open spec fn is_last_slash(p: Seq<char>, i: int) -> bool {
    &&& 0 <= i < p.len()
    &&& p[i] == '/'
    &&& forall|k: int| i < k < p.len() ==> p[k] != '/'
}

/// The directory that contains `p`: `p` without its last component; none
/// for the root and for the empty path.
pub open spec fn parent_of(p: Seq<char>) -> Option<Seq<char>> {
    if p.len() == 0 || p == seq!['/'] {
        None
    } else if exists|i: int| is_last_slash(p, i) {
        let i = choose|i: int| is_last_slash(p, i);
        if i == 0 {
            Some(seq!['/'])
        } else {
            Some(p.take(i))
        }
    } else {
        Some(Seq::empty())
    }
}

pub proof fn lemma_parent_shorter(p: Seq<char>)
    ensures
        parent_of(p) matches Some(q) ==> q.len() < p.len(),
{
    if p.len() != 0 && p != seq!['/'] && exists|i: int| is_last_slash(p, i) {
        let i = choose|i: int| is_last_slash(p, i);
        if i == 0 {
            if p.len() == 1 {
                assert(p =~= seq!['/']);
            }
        }
    }
}

/// Whether `base` is a leading run of whole components of `p`.
pub open spec fn starts_with_path(p: Seq<char>, base: Seq<char>) -> bool {
    if base.len() == 0 {
        true
    } else if base == seq!['/'] {
        p.len() > 0 && p[0] == '/'
    } else {
        p == base || (p.len() > base.len() && p.take(base.len() as int) == base && p[base.len() as int]
            == '/')
    }
}

/// `name` joined onto `dir`: `name` itself when it is absolute or `dir` is
/// empty, otherwise `dir`, a separator unless `dir` ends in one, and
/// `name`.
pub open spec fn join_path(dir: Seq<char>, name: Seq<char>) -> Seq<char> {
    if name.len() > 0 && name[0] == '/' {
        name
    } else if dir.len() == 0 {
        name
    } else if dir.last() == '/' {
        dir + name
    } else {
        dir + seq!['/'] + name
    }
}

/// The containing directory of `p`.
pub fn parent(p: &[char]) -> (r: Option<Vec<char>>)
    ensures
        match r {
            Some(q) => parent_of(p@) == Some(q@),
            None => parent_of(p@) is None,
        },
{
    let n = p.len();
    if n == 0 || (n == 1 && p[0] == '/') {
        proof {
            if n == 1 {
                assert(p@ =~= seq!['/']);
            }
        }
        return None;
    }
    assert(p@ != seq!['/']) by {
        if p@ == seq!['/'] {
            assert(p@.len() == 1);
        }
    }
    let mut i = n;
    while i > 0 && p[i - 1] != '/'
        invariant
            i <= n,
            n == p@.len(),
            forall|k: int| i <= k < n ==> p@[k] != '/',
        decreases i,
    {
        i -= 1;
    }
    if i == 0 {
        return Some(Vec::new());
    }
    let s = i - 1;
    proof {
        assert(is_last_slash(p@, s as int));
        let c = choose|c: int| is_last_slash(p@, c);
        if c < s {
            assert(p@[s as int] != '/');
        } else if c > s {
            assert(p@[c] != '/');
        }
    }
    if s == 0 {
        let mut r: Vec<char> = Vec::new();
        r.push('/');
        assert(r@ =~= seq!['/']);
        return Some(r);
    }
    let mut r: Vec<char> = Vec::new();
    let mut k: usize = 0;
    while k < s
        invariant
            k <= s,
            s < n,
            n == p@.len(),
            r@ == p@.take(k as int),
        decreases s - k,
    {
        r.push(p[k]);
        assert(r@ =~= p@.take(k + 1));
        k += 1;
    }
    Some(r)
}

/// Whether `base` is a leading run of whole components of `p`.
pub fn starts_with(p: &[char], base: &[char]) -> (r: bool)
    ensures
        r == starts_with_path(p@, base@),
{
    let b = base.len();
    if b == 0 {
        return true;
    }
    if b == 1 && base[0] == '/' {
        assert(base@ =~= seq!['/']);
        return p.len() > 0 && p[0] == '/';
    }
    assert(base@ != seq!['/']) by {
        if base@ == seq!['/'] {
            assert(base@[0] == '/');
        }
    }
    if p.len() < b {
        assert(p@ != base@);
        return false;
    }
    let mut k: usize = 0;
    while k < b
        invariant
            k <= b,
            b == base@.len(),
            b <= p@.len(),
            forall|j: int| 0 <= j < k ==> p@[j] == base@[j],
        decreases b - k,
    {
        if p[k] != base[k] {
            assert(p@.take(b as int)[k as int] != base@[k as int]);
            assert(p@ != base@);
            return false;
        }
        k += 1;
    }
    assert(p@.take(b as int) =~= base@);
    if p.len() == b {
        assert(p@ =~= base@);
        true
    } else {
        p[b] == '/'
    }
}

/// `name` joined onto `dir`.
pub fn join(dir: &str, name: &str) -> (r: String)
    ensures
        r@ == join_path(dir@, name@),
{
    let d = chars_of(dir);
    let n = chars_of(name);
    if n.len() > 0 && n[0] == '/' {
        return string_of(n.as_slice());
    }
    if d.len() == 0 {
        return string_of(n.as_slice());
    }
    let mut out = d;
    if out[out.len() - 1] != '/' {
        out.push('/');
    }
    let mut i: usize = 0;
    let ghost base = out@;
    while i < n.len()
        invariant
            i <= n.len(),
            out@ == base + n@.take(i as int),
        decreases n.len() - i,
    {
        out.push(n[i]);
        assert(n@.take(i + 1) =~= n@.take(i as int).push(n@[i as int]));
        i += 1;
    }
    assert(n@.take(n.len() as int) =~= n@);
    proof {
        if d@.last() == '/' {
            assert(out@ =~= d@ + n@);
        } else {
            assert(out@ =~= d@ + seq!['/'] + n@);
        }
    }
    string_of(out.as_slice())
}

/// The directories that contain the first `n` of `paths`, each once, in
/// the order first met, leaving out `skip`.
pub open spec fn parents_upto(paths: Seq<Seq<char>>, skip: Option<Seq<char>>, n: int) -> Seq<Seq<char>>
    decreases n,
{
    if n <= 0 {
        Seq::empty()
    } else {
        let prev = parents_upto(paths, skip, n - 1);
        match parent_of(paths[n - 1]) {
            Some(q) => if skip != Some(q) && !prev.contains(q) {
                prev.push(q)
            } else {
                prev
            },
            None => prev,
        }
    }
}

pub open spec fn opt_view(o: Option<&str>) -> Option<Seq<char>> {
    match o {
        Some(s) => Some(s@),
        None => None,
    }
}

/// The directories that contain `paths`, each once, in the order first
/// met, leaving out `skip`: the folders to reload after their entries
/// moved away or were deleted.
pub fn distinct_parents(paths: &[String], skip: Option<&str>) -> (r: Vec<String>)
    ensures
        r@.map_values(|s: String| s@) == parents_upto(
            paths@.map_values(|s: String| s@),
            opt_view(skip),
            paths@.len() as int,
        ),
{
    let ghost ps = paths@.map_values(|s: String| s@);
    let sk: Option<Vec<char>> = match skip {
        Some(t) => Some(chars_of(t)),
        None => None,
    };
    let mut out: Vec<String> = Vec::new();
    let mut seen: Vec<Vec<char>> = Vec::new();
    let mut i: usize = 0;
    while i < paths.len()
        invariant
            i <= paths@.len(),
            ps == paths@.map_values(|s: String| s@),
            match sk {
                Some(v) => opt_view(skip) == Some(v@),
                None => opt_view(skip) is None,
            },
            out@.len() == seen@.len(),
            forall|k: int| 0 <= k < out@.len() ==> #[trigger] out@[k]@ == seen@[k]@,
            out@.map_values(|s: String| s@) == parents_upto(ps, opt_view(skip), i as int),
        decreases paths@.len() - i,
    {
        let ghost prev = out@.map_values(|s: String| s@);
        match parent(chars_of(paths[i].as_str()).as_slice()) {
            None => {},
            Some(q) => {
                let skipped = match &sk {
                    Some(v) => chars_eq(q.as_slice(), v.as_slice()),
                    None => false,
                };
                let mut met = false;
                let mut k: usize = 0;
                while k < seen.len()
                    invariant
                        k <= seen@.len(),
                        out@.len() == seen@.len(),
                        forall|j: int| 0 <= j < out@.len() ==> #[trigger] out@[j]@ == seen@[j]@,
                        prev == out@.map_values(|s: String| s@),
                        met == exists|j: int| 0 <= j < k && seen@[j]@ == q@,
                    decreases seen@.len() - k,
                {
                    if chars_eq(seen[k].as_slice(), q.as_slice()) {
                        met = true;
                    }
                    k += 1;
                }
                proof {
                    if met {
                        let j = choose|j: int| 0 <= j < seen@.len() && seen@[j]@ == q@;
                        assert(prev[j] == q@);
                    } else {
                        assert forall|j: int| 0 <= j < prev.len() implies prev[j] != q@ by {
                            assert(prev[j] == seen@[j]@);
                        }
                    }
                }
                if !skipped && !met {
                    out.push(string_of(q.as_slice()));
                    seen.push(q);
                    assert(out@.map_values(|s: String| s@) =~= prev.push(seen@.last()@));
                }
            },
        }
        i += 1;
    }
    out
}

/// Each directory to reload is listed once, and the left-out directory is
/// never listed.
pub proof fn law_parents_listed_once(paths: Seq<Seq<char>>, skip: Option<Seq<char>>, n: int)
    ensures
        parents_upto(paths, skip, n).no_duplicates(),
        skip matches Some(q) ==> !parents_upto(paths, skip, n).contains(q),
    decreases n,
{
    if n > 0 {
        law_parents_listed_once(paths, skip, n - 1);
        let prev = parents_upto(paths, skip, n - 1);
        match parent_of(paths[n - 1]) {
            Some(q) => {
                if skip != Some(q) && !prev.contains(q) {
                    let cur = prev.push(q);
                    assert forall|a: int, b: int| 0 <= a < b < cur.len() implies cur[a] != cur[b] by {
                        if b == cur.len() - 1 {
                            assert(prev.contains(cur[a]));
                        }
                    }
                    if let Some(k) = skip {
                        if cur.contains(k) {
                            let j = choose|j: int| 0 <= j < cur.len() && cur[j] == k;
                            if j < prev.len() {
                                assert(prev.contains(k));
                            }
                        }
                    }
                }
            },
            None => {},
        }
    }
}

} // verus!
