//! Git status badges: the state of each changed path, rolled up to the
//! directories that contain it.
use vstd::prelude::*;

use crate::pathmap::PathMap;
use crate::paths::{join, join_path, lemma_parent_shorter, parent, parent_of, starts_with, starts_with_path};
use crate::text::{chars_of, string_of};

verus! {

/// Per-entry git status; clean entries have none. The declaration order is
/// the roll-up precedence: `Modified` over `Added` over `Untracked`.
#[derive(Debug, Clone, Copy, PartialEq, Eq, Structural)]
pub enum GitState {
    Untracked,
    Added,
    Modified,
}

/// The rank of a state in the roll-up precedence.
pub open spec fn precedence(s: GitState) -> int {
    match s {
        GitState::Untracked => 0,
        GitState::Added => 1,
        GitState::Modified => 2,
    }
}

/// The state of higher precedence.
pub open spec fn higher(a: GitState, b: GitState) -> GitState {
    if precedence(b) > precedence(a) {
        b
    } else {
        a
    }
}

impl GitState {
    /// The rank of this state in the roll-up precedence.
    pub fn rank(&self) -> (r: u8)
        ensures
            r as int == precedence(*self),
    {
        match self {
            GitState::Untracked => 0,
            GitState::Added => 1,
            GitState::Modified => 2,
        }
    }
}

/// One change that a status walk reports: between the HEAD tree and the
/// index, or between the index and the working tree.
#[derive(Debug, Clone, Copy, PartialEq, Eq, Structural)]
pub enum StatusChange {
    IndexAddition,
    IndexDeletion,
    IndexModification,
    IndexRewrite,
    WorktreeModification,
    WorktreeUntracked,
    WorktreeRewrite,
}

/// The badge a change gives its path: an addition to the index is
/// `Added`, an untracked file `Untracked`, everything else `Modified`.
pub open spec fn state_of(c: StatusChange) -> GitState {
    match c {
        StatusChange::IndexAddition => GitState::Added,
        StatusChange::WorktreeUntracked => GitState::Untracked,
        _ => GitState::Modified,
    }
}

/// The badge a change gives its path.
pub fn classify(c: StatusChange) -> (s: GitState)
    ensures
        s == state_of(c),
{
    match c {
        StatusChange::IndexAddition => GitState::Added,
        StatusChange::IndexDeletion => GitState::Modified,
        StatusChange::IndexModification => GitState::Modified,
        StatusChange::IndexRewrite => GitState::Modified,
        StatusChange::WorktreeModification => GitState::Modified,
        StatusChange::WorktreeUntracked => GitState::Untracked,
        StatusChange::WorktreeRewrite => GitState::Modified,
    }
}

/// `m` with every path of `targets` raised to at least `s`: a path not yet
/// badged gets `s`, a badged one keeps the higher of its state and `s`.
pub open spec fn raised(m: Map<Seq<char>, GitState>, targets: Set<Seq<char>>, s: GitState) -> Map<
    Seq<char>,
    GitState,
> {
    Map::new(
        |k: Seq<char>| m.contains_key(k) || targets.contains(k),
        |k: Seq<char>|
            if targets.contains(k) {
                if m.contains_key(k) {
                    higher(m[k], s)
                } else {
                    s
                }
            } else {
                m[k]
            },
    )
}

/// The directories above `p` that a change at `p` badges: each parent in
/// turn, as long as it lies inside `root` and is not `root` itself.
pub open spec fn rollup_targets(root: Seq<char>, p: Seq<char>) -> Seq<Seq<char>>
    decreases p.len(),
{
    match parent_of(p) {
        Some(q) => if q == root || !starts_with_path(q, root) {
            Seq::empty()
        } else {
            proof {
                lemma_parent_shorter(p);
            }
            seq![q] + rollup_targets(root, q)
        },
        None => Seq::empty(),
    }
}

proof fn lemma_raised_compose(m: Map<Seq<char>, GitState>, a: Set<Seq<char>>, b: Set<Seq<char>>, s: GitState)
    ensures
        raised(raised(m, a, s), b, s) == raised(m, a.union(b), s),
{
    assert(raised(raised(m, a, s), b, s) =~= raised(m, a.union(b), s));
}

/// Raises `key` to at least `state`.
pub fn upgrade(map: &mut PathMap<GitState>, key: &str, state: GitState)
    ensures
        final(map).view() == raised(old(map).view(), set![key@], state),
{
    let cur = match map.get(key) {
        Some(s) => Some(*s),
        None => None,
    };
    let next = match cur {
        Some(s) => if state.rank() > s.rank() {
            state
        } else {
            s
        },
        None => state,
    };
    map.insert(string_of(chars_of(key).as_slice()), next);
    assert(map.view() =~= raised(old(map).view(), set![key@], state));
}

/// Records a change of state `state` at `abs`, in the repository whose
/// working tree is `repo_root`: `abs` and every directory between it and
/// the root (the root excluded) are raised to at least `state`.
pub fn insert_with_rollup(map: &mut PathMap<GitState>, repo_root: &str, abs: String, state: GitState)
    ensures
        final(map).view() == raised(
            old(map).view(),
            (seq![abs@] + rollup_targets(repo_root@, abs@)).to_set(),
            state,
        ),
{
    let root = chars_of(repo_root);
    let ghost m0 = map.view();
    let ghost full = seq![abs@] + rollup_targets(repo_root@, abs@);
    upgrade(map, abs.as_str(), state);
    let mut cur = chars_of(abs.as_str());
    let ghost mut done: Seq<Seq<char>> = seq![abs@];
    proof {
        assert(done.to_set() =~= set![abs@]) by {
            assert(done[0] == abs@);
        }
    }
    loop
        invariant
            root@ == repo_root@,
            full == done + rollup_targets(repo_root@, cur@),
            map.view() == raised(m0, done.to_set(), state),
        ensures
            map.view() == raised(m0, full.to_set(), state),
        decreases cur@.len(),
    {
        match parent(cur.as_slice()) {
            None => {
                proof {
                    assert(full =~= done);
                }
                break;
            },
            Some(q) => {
                if chars_eq_vec(&q, &root) || !starts_with(q.as_slice(), root.as_slice()) {
                    proof {
                        assert(full =~= done);
                    }
                    break;
                }
                proof {
                    lemma_parent_shorter(cur@);
                    lemma_raised_compose(m0, done.to_set(), set![q@], state);
                    done.lemma_push_to_set_commute(q@);
                    assert(done.push(q@).to_set() =~= done.to_set().union(set![q@]));
                    assert(done + rollup_targets(repo_root@, cur@) =~= done.push(q@) + rollup_targets(repo_root@, q@));
                }
                let qs = string_of(q.as_slice());
                upgrade(map, qs.as_str(), state);
                proof {
                    done = done.push(q@);
                }
                cur = q;
            },
        }
    }
}

fn chars_eq_vec(a: &Vec<char>, b: &Vec<char>) -> (r: bool)
    ensures
        r == (a@ == b@),
{
    crate::text::chars_eq(a.as_slice(), b.as_slice())
}

/// The badges of a status walk of the working tree `workdir`: each item,
/// a path relative to `workdir` and the change reported for it, recorded
/// in turn with its roll-up.
pub open spec fn status_view(workdir: Seq<char>, items: Seq<(Seq<char>, StatusChange)>) -> Map<
    Seq<char>,
    GitState,
>
    decreases items.len(),
{
    if items.len() == 0 {
        Map::empty()
    } else {
        let m = status_view(workdir, items.drop_last());
        let abs = join_path(workdir, items.last().0);
        raised(m, (seq![abs] + rollup_targets(workdir, abs)).to_set(), state_of(items.last().1))
    }
}

/// The items of a status walk, each path by its characters.
pub open spec fn items_view(items: Seq<(String, StatusChange)>) -> Seq<(Seq<char>, StatusChange)> {
    items.map_values(|it: (String, StatusChange)| (it.0@, it.1))
}

/// The badges of a status walk of the working tree `workdir`, from the
/// changes it reported, each with its path relative to `workdir`: only
/// changed paths and the directories above them inside the tree are
/// badged.
pub fn status_badges(workdir: &str, items: &[(String, StatusChange)]) -> (r: PathMap<GitState>)
    ensures
        r.view() == status_view(workdir@, items_view(items@)),
{
    let mut map: PathMap<GitState> = PathMap::new();
    let ghost iv = items_view(items@);
    let mut i: usize = 0;
    proof {
        assert(map.view() =~= status_view(workdir@, iv.take(0)));
    }
    while i < items.len()
        invariant
            i <= items@.len(),
            iv == items_view(items@),
            map.view() == status_view(workdir@, iv.take(i as int)),
        decreases items@.len() - i,
    {
        proof {
            assert(iv.take(i + 1).drop_last() =~= iv.take(i as int));
            assert(iv.take(i + 1).last() == (items@[i as int].0@, items@[i as int].1));
        }
        let abs = join(workdir, items[i].0.as_str());
        let state = classify(items[i].1);
        insert_with_rollup(&mut map, workdir, abs, state);
        i += 1;
    }
    assert(iv.take(items@.len() as int) =~= iv);
    map
}

/// The repository root itself is never badged by a roll-up.
pub proof fn law_root_never_badged(root: Seq<char>, p: Seq<char>)
    ensures
        !rollup_targets(root, p).contains(root),
    decreases p.len(),
{
    match parent_of(p) {
        Some(q) => if q == root || !starts_with_path(q, root) {
        } else {
            lemma_parent_shorter(p);
            law_root_never_badged(root, q);
            let t = rollup_targets(root, p);
            assert(t == seq![q] + rollup_targets(root, q));
            if t.contains(root) {
                let i = choose|i: int| 0 <= i < t.len() && t[i] == root;
                if i > 0 {
                    assert(rollup_targets(root, q)[i - 1] == root);
                }
            }
        },
        None => {},
    }
}

/// Every directory a roll-up badges lies inside the root.
pub proof fn law_rollup_stays_inside_root(root: Seq<char>, p: Seq<char>)
    ensures
        forall|i: int| 0 <= i < rollup_targets(root, p).len() ==> starts_with_path(#[trigger] rollup_targets(root, p)[i], root),
    decreases p.len(),
{
    match parent_of(p) {
        Some(q) => if q == root || !starts_with_path(q, root) {
        } else {
            lemma_parent_shorter(p);
            law_rollup_stays_inside_root(root, q);
            let t = rollup_targets(root, p);
            assert forall|i: int| 0 <= i < t.len() implies starts_with_path(#[trigger] t[i], root) by {
                if i > 0 {
                    assert(t[i] == rollup_targets(root, q)[i - 1]);
                }
            }
        },
        None => {},
    }
}

/// Recording a change never lowers a badge and never drops one: every path
/// keeps at least the state it had, and every recorded path ends with at
/// least the recorded state.
pub proof fn law_rollup_only_raises(m: Map<Seq<char>, GitState>, targets: Set<Seq<char>>, s: GitState)
    ensures
        forall|k: Seq<char>|
            #[trigger] m.contains_key(k) ==> raised(m, targets, s).contains_key(k) && precedence(raised(m, targets, s)[k])
                >= precedence(m[k]),
        forall|k: Seq<char>|
            #[trigger] targets.contains(k) ==> raised(m, targets, s).contains_key(k) && precedence(raised(m, targets, s)[k])
                >= precedence(s),
{
}

/// The badges do not depend on the order in which the changes are reported.
pub proof fn law_rollup_order_independent(
    m: Map<Seq<char>, GitState>,
    a: Set<Seq<char>>,
    sa: GitState,
    b: Set<Seq<char>>,
    sb: GitState,
)
    ensures
        raised(raised(m, a, sa), b, sb) == raised(raised(m, b, sb), a, sa),
{
    assert(raised(raised(m, a, sa), b, sb) =~= raised(raised(m, b, sb), a, sa));
}

} // verus!
