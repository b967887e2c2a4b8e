//! The column strip: one column per opened directory, each with its listing,
//! its selection and the anchor of a range selection, plus a cache of the
//! listings loaded so far.
use std::collections::BTreeSet;
use vstd::prelude::*;

use crate::fs::{Entry, EntryKind};
use crate::pathmap::PathMap;

verus! {

broadcast use {vstd::std_specs::btree::group_btree_axioms, vstd::laws_cmp::group_laws_cmp};

/// How far the listing of a column has got.
#[derive(Debug, PartialEq, Eq)]
pub enum Stage {
    Loading,
    Loaded,
    Error(String),
}

/// One directory of the strip.
#[derive(Debug)]
pub struct Column {
    pub path: String,
    pub entries: Vec<Entry>,
    pub selected: BTreeSet<usize>,
    pub anchor: Option<usize>,
    pub stage: Stage,
}

/// A listing kept for reuse, with the time at which it was read.
#[derive(Debug)]
pub struct CachedFolder {
    pub entries: Vec<Entry>,
    pub loaded_at: i128,
}

/// The whole navigation state.
pub struct AppState {
    pub columns: Vec<Column>,
    pub cache: PathMap<CachedFolder>,
}

impl Column {
    /// Every selected index and the anchor address an entry of the listing.
    pub open spec fn wf(self) -> bool {
        &&& forall|s: usize| #[trigger] self.selected@.contains(s) ==> s < self.entries.len()
        &&& self.anchor matches Some(a) ==> a < self.entries.len()
    }

    /// The same directory, listing and stage; only the selection may differ.
    pub open spec fn same_listing(self, other: Column) -> bool {
        &&& self.path == other.path
        &&& self.entries == other.entries
        &&& self.stage == other.stage
    }

    /// The paths of the selected entries that exist in the listing.
    pub open spec fn selected_path_set(self) -> Set<Seq<char>> {
        Set::new(
            |p: Seq<char>|
                exists|s: usize|
                    #![trigger self.selected@.contains(s)]
                    self.selected@.contains(s) && s < self.entries.len() && self.entries[s as int].path@
                        == p,
        )
    }

    /// The selection carried over to a new listing: the indices in `listing`
    /// of the entries whose path was selected before.
    pub open spec fn selection_after_reload(self, listing: Seq<Entry>) -> Set<usize> {
        Set::new(
            |j: usize| j < listing.len() && self.selected_path_set().contains(listing[j as int].path@),
        )
    }

    /// The anchor carried over to a new listing: the first index in
    /// `listing` of the anchored path, or none when it has vanished.
    pub open spec fn anchor_after_reload(self, listing: Seq<Entry>) -> Option<usize> {
        match self.anchor {
            Some(a) => if a < self.entries.len() {
                first_index_of_path(listing, self.entries[a as int].path@)
            } else {
                None
            },
            None => None,
        }
    }
}

/// `j` is the first index of `listing` whose path is `p`.
pub open spec fn is_first_with_path(listing: Seq<Entry>, p: Seq<char>, j: int) -> bool {
    &&& 0 <= j < listing.len()
    &&& listing[j].path@ == p
    &&& forall|k: int| 0 <= k < j ==> listing[k].path@ != p
}

/// The first index of `listing` whose path is `p`, if any.
pub open spec fn first_index_of_path(listing: Seq<Entry>, p: Seq<char>) -> Option<usize> {
    if exists|j: int| is_first_with_path(listing, p, j) {
        Some((choose|j: int| is_first_with_path(listing, p, j)) as usize)
    } else {
        None
    }
}

proof fn lemma_first_index(listing: Seq<Entry>, p: Seq<char>)
    requires
        listing.len() <= usize::MAX,
    ensures
        first_index_of_path(listing, p) matches Some(a) ==> is_first_with_path(listing, p, a as int),
{
}

/// The selection after a ctrl-click on `i`.
pub open spec fn toggled(sel: Set<usize>, i: usize) -> Set<usize> {
    if sel.contains(i) {
        sel.remove(i)
    } else {
        sel.insert(i)
    }
}

/// The selection after a shift-click on `i` in a listing of `len` entries:
/// every index between the anchor (or `i` without one) and `i`, cut at the
/// end of the listing.
pub open spec fn range_selection(anchor: Option<usize>, i: usize, len: nat) -> Set<usize> {
    let a = match anchor {
        Some(a) => a,
        None => i,
    };
    let lo = if a <= i { a } else { i };
    let hi = if a <= i { i } else { a };
    let top = if hi < len - 1 { hi as int } else { len - 1 };
    Set::new(|k: usize| lo <= k <= top)
}

/// `k` is the first column showing directory `p`.
pub open spec fn is_first_column(cols: Seq<Column>, p: Seq<char>, k: int) -> bool {
    &&& 0 <= k < cols.len()
    &&& cols[k].path@ == p
    &&& forall|j: int| 0 <= j < k ==> cols[j].path@ != p
}

/// No column shows directory `p`.
pub open spec fn no_column(cols: Seq<Column>, p: Seq<char>) -> bool {
    forall|k: int| 0 <= k < cols.len() ==> cols[k].path@ != p
}

/// Only column `k` may differ between `a` and `b`.
pub open spec fn others_unchanged(a: Seq<Column>, b: Seq<Column>, k: int) -> bool {
    &&& a.len() == b.len()
    &&& forall|j: int| 0 <= j < a.len() && j != k ==> a[j] == b[j]
}

fn find_column(cols: &Vec<Column>, path: &str) -> (r: Option<usize>)
    ensures
        match r {
            Some(k) => is_first_column(cols@, path@, k as int),
            None => no_column(cols@, path@),
        },
{
    let p = String::from_str(path);
    let mut k: usize = 0;
    while k < cols.len()
        invariant
            k <= cols.len(),
            p@ == path@,
            forall|j: int| 0 <= j < k ==> cols@[j].path@ != path@,
        decreases cols.len() - k,
    {
        if cols[k].path == p {
            return Some(k);
        }
        k += 1;
    }
    None
}

fn first_with_path(listing: &Vec<Entry>, p: &String) -> (r: Option<usize>)
    ensures
        r == first_index_of_path(listing@, p@),
{
    let mut j: usize = 0;
    while j < listing.len()
        invariant
            j <= listing.len(),
            forall|k: int| 0 <= k < j ==> listing@[k].path@ != p@,
        decreases listing.len() - j,
    {
        if listing[j].path == *p {
            proof {
                assert(is_first_with_path(listing@, p@, j as int));
                let c = choose|c: int| is_first_with_path(listing@, p@, c);
                assert(c == j);
            }
            return Some(j);
        }
        j += 1;
    }
    None
}

fn contains_path(paths: &Vec<String>, p: &String) -> (r: bool)
    ensures
        r == exists|i: int| 0 <= i < paths.len() && paths@[i]@ == p@,
{
    let mut i: usize = 0;
    while i < paths.len()
        invariant
            i <= paths.len(),
            forall|k: int| 0 <= k < i ==> paths@[k]@ != p@,
        decreases paths.len() - i,
    {
        if paths[i] == *p {
            return true;
        }
        i += 1;
    }
    false
}

impl AppState {
    /// Every column is well formed.
    pub open spec fn wf(self) -> bool {
        forall|k: int| 0 <= k < self.columns.len() ==> #[trigger] self.columns[k].wf()
    }

    /// A strip with one column, for `root`, still loading, and an empty cache.
    pub fn new(root: String) -> (s: AppState)
        ensures
            s.columns.len() == 1,
            s.columns[0].path == root,
            s.columns[0].entries@.len() == 0,
            s.columns[0].selected@.is_empty(),
            s.columns[0].anchor is None,
            s.columns[0].stage == Stage::Loading,
            s.cache.view() == Map::<Seq<char>, CachedFolder>::empty(),
            s.wf(),
    {
        let mut columns: Vec<Column> = Vec::new();
        columns.push(
            Column {
                path: root,
                entries: Vec::new(),
                selected: BTreeSet::new(),
                anchor: None,
                stage: Stage::Loading,
            },
        );
        AppState { columns, cache: PathMap::new() }
    }

    /// A plain click on entry `i` of column `col`: the selection becomes that
    /// entry alone and it becomes the anchor. Out-of-range indices change
    /// nothing.
    pub fn select(&mut self, col: usize, i: usize)
        ensures
            final(self).cache == old(self).cache,
            (col < old(self).columns.len() && i < old(self).columns[col as int].entries.len()) ==> {
                &&& others_unchanged(old(self).columns@, final(self).columns@, col as int)
                &&& final(self).columns[col as int].same_listing(old(self).columns[col as int])
                &&& final(self).columns[col as int].selected@ == set![i]
                &&& final(self).columns[col as int].anchor == Some(i)
            },
            !(col < old(self).columns.len() && i < old(self).columns[col as int].entries.len())
                ==> final(self).columns@ == old(self).columns@,
            old(self).wf() ==> final(self).wf(),
    {
        if col < self.columns.len() && i < self.columns[col].entries.len() {
            let c = &mut self.columns[col];
            c.selected.clear();
            c.selected.insert(i);
            c.anchor = Some(i);
        }
        proof {
            if old(self).wf() {
                assert forall|k: int| 0 <= k < self.columns.len() implies #[trigger] self.columns[k].wf() by {
                    assert(old(self).columns[k].wf());
                }
            }
        }
    }

    /// A ctrl-click on entry `i` of column `col`: the entry leaves the
    /// selection if it was in it and joins it otherwise, and it becomes the
    /// anchor. Out-of-range indices change nothing.
    pub fn toggle(&mut self, col: usize, i: usize)
        ensures
            final(self).cache == old(self).cache,
            (col < old(self).columns.len() && i < old(self).columns[col as int].entries.len()) ==> {
                &&& others_unchanged(old(self).columns@, final(self).columns@, col as int)
                &&& final(self).columns[col as int].same_listing(old(self).columns[col as int])
                &&& final(self).columns[col as int].selected@ == toggled(
                    old(self).columns[col as int].selected@,
                    i,
                )
                &&& final(self).columns[col as int].anchor == Some(i)
            },
            !(col < old(self).columns.len() && i < old(self).columns[col as int].entries.len())
                ==> final(self).columns@ == old(self).columns@,
            old(self).wf() ==> final(self).wf(),
    {
        if col < self.columns.len() && i < self.columns[col].entries.len() {
            let c = &mut self.columns[col];
            if !c.selected.remove(&i) {
                c.selected.insert(i);
            }
            c.anchor = Some(i);
        }
        proof {
            if old(self).wf() {
                assert forall|k: int| 0 <= k < self.columns.len() implies #[trigger] self.columns[k].wf() by {
                    assert(old(self).columns[k].wf());
                }
            }
        }
    }

    /// A shift-click on entry `i` of column `col`: the selection becomes the
    /// range from the anchor to `i` (just `i` without an anchor); the anchor
    /// stays. Out-of-range indices change nothing.
    pub fn select_range(&mut self, col: usize, i: usize)
        ensures
            final(self).cache == old(self).cache,
            (col < old(self).columns.len() && i < old(self).columns[col as int].entries.len()) ==> {
                &&& others_unchanged(old(self).columns@, final(self).columns@, col as int)
                &&& final(self).columns[col as int].same_listing(old(self).columns[col as int])
                &&& final(self).columns[col as int].selected@ == range_selection(
                    old(self).columns[col as int].anchor,
                    i,
                    old(self).columns[col as int].entries.len() as nat,
                )
                &&& final(self).columns[col as int].anchor == old(self).columns[col as int].anchor
            },
            !(col < old(self).columns.len() && i < old(self).columns[col as int].entries.len())
                ==> final(self).columns@ == old(self).columns@,
            old(self).wf() ==> final(self).wf(),
    {
        if col < self.columns.len() && i < self.columns[col].entries.len() {
            let c = &mut self.columns[col];
            let a = match c.anchor {
                Some(a) => a,
                None => i,
            };
            let (lo, hi) = if a <= i {
                (a, i)
            } else {
                (i, a)
            };
            let last = c.entries.len() - 1;
            let top = if hi < last {
                hi
            } else {
                last
            };
            let ghost target = range_selection(c.anchor, i, c.entries.len() as nat);
            let ghost oc = *c;
            assert(target =~= Set::new(|x: usize| lo <= x <= top));
            c.selected.clear();
            let mut k = lo;
            while k <= top
                invariant
                    lo <= i <= last,
                    last < usize::MAX,
                    top <= last,
                    lo <= k <= top + 1,
                    c.same_listing(oc),
                    c.anchor == oc.anchor,
                    c.selected@ == Set::new(|x: usize| lo <= x < k),
                decreases top + 1 - k,
            {
                c.selected.insert(k);
                assert(c.selected@ =~= Set::new(|x: usize| lo <= x < k + 1));
                k += 1;
            }
            assert(c.selected@ =~= target);
        }
        proof {
            if old(self).wf() {
                assert forall|k: int| 0 <= k < self.columns.len() implies #[trigger] self.columns[k].wf() by {
                    assert(old(self).columns[k].wf());
                }
            }
        }
    }

    /// Opens entry `entry_index` of column `col`: selects it, drops every
    /// deeper column, and for a directory appends a loading column for it and
    /// returns its path, which the caller is to list. Out-of-range indices
    /// change nothing and return `None`.
    pub fn descend(&mut self, col: usize, entry_index: usize) -> (r: Option<String>)
        ensures
            final(self).cache == old(self).cache,
            !(col < old(self).columns.len() && entry_index < old(self).columns[col as int].entries.len())
                ==> r is None && final(self).columns@ == old(self).columns@,
            (col < old(self).columns.len() && entry_index < old(self).columns[col as int].entries.len())
                ==> {
                let e = old(self).columns[col as int].entries[entry_index as int];
                &&& forall|j: int| 0 <= j < col ==> final(self).columns[j] == old(self).columns[j]
                &&& final(self).columns[col as int].same_listing(old(self).columns[col as int])
                &&& final(self).columns[col as int].selected@ == set![entry_index]
                &&& final(self).columns[col as int].anchor == Some(entry_index)
                &&& if e.kind == EntryKind::Dir {
                    &&& final(self).columns.len() == col + 2
                    &&& final(self).columns[col + 1].path == e.path
                    &&& final(self).columns[col + 1].entries@.len() == 0
                    &&& final(self).columns[col + 1].selected@.is_empty()
                    &&& final(self).columns[col + 1].anchor is None
                    &&& final(self).columns[col + 1].stage == Stage::Loading
                    &&& r == Some(e.path)
                } else {
                    &&& final(self).columns.len() == col + 1
                    &&& r is None
                }
            },
            old(self).wf() ==> final(self).wf(),
    {
        if col >= self.columns.len() || entry_index >= self.columns[col].entries.len() {
            return None;
        }
        let entry = self.columns[col].entries[entry_index].clone();
        self.select(col, entry_index);
        self.columns.truncate(col + 1);
        if entry.kind != EntryKind::Dir {
            proof {
                if old(self).wf() {
                    assert forall|k: int| 0 <= k < self.columns.len() implies #[trigger] self.columns[k].wf() by {}
                }
            }
            return None;
        }
        let p = entry.path.clone();
        self.columns.push(
            Column {
                path: entry.path,
                entries: Vec::new(),
                selected: BTreeSet::new(),
                anchor: None,
                stage: Stage::Loading,
            },
        );
        proof {
            if old(self).wf() {
                assert forall|k: int| 0 <= k < self.columns.len() implies #[trigger] self.columns[k].wf() by {}
            }
        }
        Some(p)
    }

    /// Records a fresh listing of directory `path`: caches it with the time
    /// `now`, and, in the first column showing that directory, replaces the
    /// listing, marks it loaded, and carries the selection and the anchor
    /// over by path, so that an index never comes to address a different
    /// file; paths that vanished drop out.
    pub fn set_loaded(&mut self, path: &str, entries: Vec<Entry>, now: i128)
        ensures
            final(self).cache.view().contains_key(path@),
            final(self).cache.view()[path@].entries@ == entries@,
            final(self).cache.view()[path@].loaded_at == now,
            final(self).cache.view().remove(path@) == old(self).cache.view().remove(path@),
            no_column(old(self).columns@, path@) ==> final(self).columns@ == old(self).columns@,
            forall|k: int| #[trigger] is_first_column(old(self).columns@, path@, k) ==> {
                let c = old(self).columns[k];
                &&& others_unchanged(old(self).columns@, final(self).columns@, k)
                &&& final(self).columns[k].path == c.path
                &&& final(self).columns[k].entries@ == entries@
                &&& final(self).columns[k].stage == Stage::Loaded
                &&& final(self).columns[k].selected@ == c.selection_after_reload(entries@)
                &&& final(self).columns[k].anchor == c.anchor_after_reload(entries@)
            },
            old(self).wf() ==> final(self).wf(),
    {
        let cached = CachedFolder { entries: entries.clone(), loaded_at: now };
        self.cache.insert(String::from_str(path), cached);
        proof {
            assert(self.cache.view().remove(path@) =~= old(self).cache.view().remove(path@));
        }
        match find_column(&self.columns, path) {
            None => {},
            Some(k) => {
                let c = &mut self.columns[k];
                let ghost oc = *c;
                // The paths of the selected entries, before the listing changes.
                let mut kept: Vec<String> = Vec::new();
                let ghost mut src: Seq<usize> = Seq::empty();
                let mut s: usize = 0;
                while s < c.entries.len()
                    invariant
                        *c == oc,
                        s <= c.entries.len(),
                        src.len() == kept.len(),
                        forall|i: int|
                            0 <= i < kept.len() ==> #[trigger] src[i] < s && c.selected@.contains(src[i])
                                && kept@[i]@ == c.entries@[src[i] as int].path@,
                        forall|t: usize|
                            t < s && #[trigger] c.selected@.contains(t) ==> exists|i: int|
                                0 <= i < src.len() && src[i] == t,
                    decreases c.entries.len() - s,
                {
                    if c.selected.contains(&s) {
                        kept.push(c.entries[s].path.clone());
                        proof {
                            let ghost n = src.len() as int;
                            let ghost prev = src;
                            src = src.push(s);
                            assert(src[n] == s);
                            assert forall|t: usize|
                                t < s + 1 && #[trigger] c.selected@.contains(t) implies exists|i: int|
                                    0 <= i < src.len() && src[i] == t by {
                                if t < s {
                                    let i = choose|i: int| 0 <= i < prev.len() && prev[i] == t;
                                    assert(src[i] == t);
                                }
                            }
                        }
                    }
                    s += 1;
                }
                proof {
                    assert forall|p: Seq<char>|
                        (exists|i: int| 0 <= i < kept.len() && kept@[i]@ == p) <==> #[trigger] oc.selected_path_set().contains(p) by {
                        if exists|i: int| 0 <= i < kept.len() && kept@[i]@ == p {
                            let i = choose|i: int| 0 <= i < kept.len() && kept@[i]@ == p;
                            assert(src[i] < oc.entries.len());
                            assert(oc.selected@.contains(src[i]));
                        }
                        if oc.selected_path_set().contains(p) {
                            let t = choose|t: usize|
                                #![trigger oc.selected@.contains(t)]
                                oc.selected@.contains(t) && t < oc.entries.len() && oc.entries[t as int].path@ == p;
                            let i = choose|i: int| 0 <= i < src.len() && src[i] == t;
                            assert(kept@[i]@ == p);
                        }
                    }
                }
                let anchor_path: Option<String> = match c.anchor {
                    Some(a) => if a < c.entries.len() {
                        Some(c.entries[a].path.clone())
                    } else {
                        None
                    },
                    None => None,
                };
                c.entries = entries;
                c.stage = Stage::Loaded;
                c.selected.clear();
                let mut j: usize = 0;
                while j < c.entries.len()
                    invariant
                        c.entries@ == entries@,
                        c.path == oc.path,
                        c.stage == Stage::Loaded,
                        j <= c.entries.len(),
                        forall|p: Seq<char>|
                            (exists|i: int| 0 <= i < kept.len() && kept@[i]@ == p) <==> #[trigger] oc.selected_path_set().contains(p),
                        c.selected@ == Set::new(
                            |x: usize| x < j && oc.selected_path_set().contains(entries@[x as int].path@),
                        ),
                    decreases c.entries.len() - j,
                {
                    if contains_path(&kept, &c.entries[j].path) {
                        c.selected.insert(j);
                    }
                    assert(c.selected@ =~= Set::new(
                        |x: usize| x < j + 1 && oc.selected_path_set().contains(entries@[x as int].path@),
                    ));
                    j += 1;
                }
                assert(c.selected@ =~= oc.selection_after_reload(entries@));
                c.anchor = match anchor_path {
                    Some(p) => first_with_path(&c.entries, &p),
                    None => None,
                };
            },
        }
        proof {
            if old(self).wf() {
                assert forall|k: int| 0 <= k < self.columns.len() implies #[trigger] self.columns[k].wf() by {
                    assert(old(self).columns[k].wf());
                    if is_first_column(old(self).columns@, path@, k) {
                        let c = old(self).columns[k];
                        let a = self.columns[k].anchor;
                        if a is Some {
                            let ap = c.entries[c.anchor->0 as int].path@;
                            let w = choose|j: int| is_first_with_path(entries@, ap, j);
                        }
                    }
                }
            }
        }
    }

    /// Records that directory `path` could not be listed: the first column
    /// showing it loses its listing, selection and anchor and shows `message`.
    pub fn set_error(&mut self, path: &str, message: String)
        ensures
            final(self).cache == old(self).cache,
            no_column(old(self).columns@, path@) ==> final(self).columns@ == old(self).columns@,
            forall|k: int| #[trigger] is_first_column(old(self).columns@, path@, k) ==> {
                &&& others_unchanged(old(self).columns@, final(self).columns@, k)
                &&& final(self).columns[k].path == old(self).columns[k].path
                &&& final(self).columns[k].entries@.len() == 0
                &&& final(self).columns[k].selected@.is_empty()
                &&& final(self).columns[k].anchor is None
                &&& final(self).columns[k].stage == Stage::Error(message)
            },
            old(self).wf() ==> final(self).wf(),
    {
        let ghost msg = message;
        match find_column(&self.columns, path) {
            None => {},
            Some(k) => {
                let c = &mut self.columns[k];
                c.entries.clear();
                c.selected.clear();
                c.anchor = None;
                c.stage = Stage::Error(message);
            },
        }
        proof {
            if old(self).wf() {
                assert forall|k: int| 0 <= k < self.columns.len() implies #[trigger] self.columns[k].wf() by {
                    assert(old(self).columns[k].wf());
                }
            }
        }
    }
}

/// The paths of the entries selected in `c` among its first `n` entries,
/// in listing order.
pub open spec fn selected_paths_upto(c: Column, n: int) -> Seq<Seq<char>>
    decreases n,
{
    if n <= 0 {
        Seq::empty()
    } else {
        selected_paths_upto(c, n - 1) + if c.selected@.contains((n - 1) as usize) {
            seq![c.entries[n - 1].path@]
        } else {
            Seq::empty()
        }
    }
}

/// The paths of the selected entries of `c`, in listing order.
pub open spec fn selected_paths_of(c: Column) -> Seq<Seq<char>> {
    selected_paths_upto(c, c.entries.len() as int)
}

impl AppState {
    /// The paths of the selected entries of column `col`, in listing order;
    /// none when there is no such column.
    pub fn selected_paths(&self, col: usize) -> (r: Vec<String>)
        ensures
            col < self.columns.len() ==> r@.map_values(|s: String| s@) == selected_paths_of(
                self.columns[col as int],
            ),
            col >= self.columns.len() ==> r@.len() == 0,
    {
        let mut out: Vec<String> = Vec::new();
        if col >= self.columns.len() {
            return out;
        }
        let c = &self.columns[col];
        let mut i: usize = 0;
        while i < c.entries.len()
            invariant
                i <= c.entries.len(),
                col < self.columns.len(),
                *c == self.columns[col as int],
                out@.map_values(|s: String| s@) == selected_paths_upto(*c, i as int),
            decreases c.entries.len() - i,
        {
            if c.selected.contains(&i) {
                let p = c.entries[i].path.clone();
                out.push(p);
            }
            assert(out@.map_values(|s: String| s@) =~= selected_paths_upto(*c, i + 1));
            i += 1;
        }
        out
    }

    /// A right click on entry `i` of column `col`, before its menu opens: the
    /// selection stays when the entry is already in it, so the menu acts on
    /// the whole selection; otherwise the entry alone is selected, as by a
    /// plain click.
    pub fn select_for_menu(&mut self, col: usize, i: usize)
        ensures
            final(self).cache == old(self).cache,
            (col < old(self).columns.len() && old(self).columns[col as int].selected@.contains(i))
                ==> final(self).columns@ == old(self).columns@,
            (col < old(self).columns.len() && !old(self).columns[col as int].selected@.contains(i) && i
                < old(self).columns[col as int].entries.len()) ==> {
                &&& others_unchanged(old(self).columns@, final(self).columns@, col as int)
                &&& final(self).columns[col as int].same_listing(old(self).columns[col as int])
                &&& final(self).columns[col as int].selected@ == set![i]
                &&& final(self).columns[col as int].anchor == Some(i)
            },
            !(col < old(self).columns.len() && i < old(self).columns[col as int].entries.len())
                ==> final(self).columns@ == old(self).columns@,
            old(self).wf() ==> final(self).wf(),
    {
        if col < self.columns.len() && self.columns[col].selected.contains(&i) {
            proof {
                if old(self).wf() && i >= old(self).columns[col as int].entries.len() {
                    assert(old(self).columns[col as int].wf());
                }
            }
            return;
        }
        self.select(col, i);
    }

    /// The entry that makes up the whole selection of column `col`: the one
    /// selected entry of its listing when exactly one index is selected.
    pub fn sole_selected(&self, col: usize) -> (r: Option<usize>)
        ensures
            r matches Some(i) ==> {
                &&& col < self.columns.len()
                &&& self.columns[col as int].selected.len() == 1
                &&& self.columns[col as int].selected@.contains(i)
                &&& i < self.columns[col as int].entries.len()
            },
            r is None ==> !(col < self.columns.len() && self.columns[col as int].selected.len() == 1 && exists|i: usize|
                i < self.columns[col as int].entries.len() && #[trigger] self.columns[col as int].selected@.contains(i)),
    {
        if col >= self.columns.len() {
            return None;
        }
        let c = &self.columns[col];
        if c.selected.len() != 1 {
            return None;
        }
        let mut i: usize = 0;
        while i < c.entries.len()
            invariant
                i <= c.entries.len(),
                col < self.columns.len(),
                *c == self.columns[col as int],
                c.selected.len() == 1,
                forall|k: usize| k < i ==> !#[trigger] c.selected@.contains(k),
            decreases c.entries.len() - i,
        {
            if c.selected.contains(&i) {
                return Some(i);
            }
            i += 1;
        }
        None
    }
}

/// Toggling the same entry twice leaves the selection as it was.
pub proof fn law_toggle_twice_restores(sel: Set<usize>, i: usize)
    ensures
        toggled(toggled(sel, i), i) == sel,
{
    assert(toggled(toggled(sel, i), i) =~= sel);
}

/// Reloading a directory whose listing has not changed (its paths being
/// distinct, as in any directory) leaves the selection and the anchor as
/// they were.
pub proof fn law_reload_unchanged_keeps_selection(c: Column)
    requires
        c.wf(),
        forall|i: int, j: int|
            0 <= i < j < c.entries.len() ==> #[trigger] c.entries[i].path@ != #[trigger] c.entries[j].path@,
    ensures
        c.selection_after_reload(c.entries@) == c.selected@,
        c.anchor_after_reload(c.entries@) == c.anchor,
{
    assert forall|j: usize| #[trigger] c.selection_after_reload(c.entries@).contains(j) == c.selected@.contains(j) by {
        if c.selected@.contains(j) {
            assert(c.selected_path_set().contains(c.entries@[j as int].path@));
        }
        if c.selection_after_reload(c.entries@).contains(j) {
            let p = c.entries@[j as int].path@;
            let s = choose|s: usize|
                #![trigger c.selected@.contains(s)]
                c.selected@.contains(s) && s < c.entries.len() && c.entries[s as int].path@ == p;
            if s != j {
                if s < j {
                    assert(c.entries[s as int].path@ != c.entries[j as int].path@);
                } else {
                    assert(c.entries[j as int].path@ != c.entries[s as int].path@);
                }
            }
        }
    }
    assert(c.selection_after_reload(c.entries@) =~= c.selected@);
    if let Some(a) = c.anchor {
        let p = c.entries@[a as int].path@;
        assert forall|k: int| 0 <= k < a implies c.entries@[k].path@ != p by {
            assert(c.entries[k].path@ != c.entries[a as int].path@);
        }
        assert(is_first_with_path(c.entries@, p, a as int));
        let w = choose|w: int| is_first_with_path(c.entries@, p, w);
        if w < a {
            assert(c.entries@[w].path@ != p);
        } else if w > a {
            assert(c.entries@[a as int].path@ != p);
        }
    }
}

/// After a reload, the selected paths are exactly the previously selected
/// paths that are still listed: a selection follows its files, never
/// jumps to another one, and drops the ones that vanished.
pub proof fn law_selection_follows_paths(c: Column, listing: Seq<Entry>)
    requires
        listing.len() <= usize::MAX,
    ensures
        forall|j: usize|
            #[trigger] c.selection_after_reload(listing).contains(j) ==> j < listing.len()
                && c.selected_path_set().contains(listing[j as int].path@),
        forall|j: usize|
            j < listing.len() && c.selected_path_set().contains(#[trigger] listing[j as int].path@)
                ==> c.selection_after_reload(listing).contains(j),
        c.anchor_after_reload(listing) matches Some(a) ==> a < listing.len() && (c.anchor matches Some(old_a)
            && old_a < c.entries.len() && listing[a as int].path@ == c.entries[old_a as int].path@),
{
    if let Some(a) = c.anchor_after_reload(listing) {
        assert(c.anchor is Some);
        let old_a = c.anchor->0;
        assert(old_a < c.entries.len());
        let p = c.entries[old_a as int].path@;
        assert(first_index_of_path(listing, p) == Some(a));
        lemma_first_index(listing, p);
    }
}

/// A range selection covers both the anchor and the clicked entry, and
/// every entry between them, and nothing else.
pub proof fn law_range_covers_anchor_to_click(a: usize, i: usize, len: nat)
    requires
        a < len,
        i < len,
    ensures
        range_selection(Some(a), i, len).contains(a),
        range_selection(Some(a), i, len).contains(i),
        forall|k: usize|
            #[trigger] range_selection(Some(a), i, len).contains(k) <==> ((a <= k <= i) || (i <= k <= a)),
{
}

} // verus!
