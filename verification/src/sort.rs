//! The order of a listing, and hiding dotfiles.
use vstd::prelude::*;
use vstd::slice::SliceAdditionalExecFns;
use vstd::string::*;
use vstd::utf8::encode_utf8;

use crate::fs::{Entry, EntryKind};

verus! {

broadcast use vstd::seq_lib::group_to_multiset_ensures;

/// The key a listing is ordered by.
#[derive(Debug, Clone, Copy, PartialEq, Eq, Structural)]
pub enum SortKey {
    Name,
    Size,
    Modified,
}

/// What `str::to_lowercase` returns for a string: its Unicode lowercase
/// mapping.
pub uninterp spec fn lowercase(s: Seq<char>) -> Seq<char>;

/// `str::to_lowercase`: the lowercase equivalent of `s`, as a new string.
#[verifier::external_body]
fn to_lowercase(s: &str) -> (r: String)
    ensures
        r@ == lowercase(s@),
{
    s.to_lowercase()
}

/// Three-way comparison of integers: -1, 0 or 1 as `a` is below, equal to
/// or above `b`.
pub open spec fn int_order(a: int, b: int) -> int {
    if a < b {
        -1
    } else if a > b {
        1
    } else {
        0
    }
}

/// Lexicographic three-way comparison of byte strings, the order of `str`.
pub open spec fn lex_order(a: Seq<u8>, b: Seq<u8>) -> int
    decreases a.len(),
{
    if a.len() == 0 {
        if b.len() == 0 {
            0
        } else {
            -1
        }
    } else if b.len() == 0 {
        1
    } else if a[0] < b[0] {
        -1
    } else if a[0] > b[0] {
        1
    } else {
        lex_order(a.drop_first(), b.drop_first())
    }
}

/// The bytes by which names compare: the UTF-8 encoding of the lowercased
/// name, so that the name order ignores case.
pub open spec fn name_key(e: Entry) -> Seq<u8> {
    encode_utf8(lowercase(e.name@))
}

/// Modification times compare newest first; entries without a timestamp
/// come after every entry with one.
pub open spec fn modified_order(a: Option<i128>, b: Option<i128>) -> int {
    match (b, a) {
        (Some(bt), Some(at)) => int_order(bt as int, at as int),
        (Some(_), None) => 1,
        (None, Some(_)) => -1,
        (None, None) => 0,
    }
}

pub open spec fn is_dir(e: Entry) -> bool {
    e.kind == EntryKind::Dir
}

/// Where `a` goes relative to `b` (-1 before, 1 after, 0 tied): with
/// `dirs_first` a directory goes ahead of a non-directory; otherwise names
/// ascend ignoring case, sizes descend, and modification times go newest
/// first.
pub open spec fn entry_order(key: SortKey, dirs_first: bool, a: Entry, b: Entry) -> int {
    if dirs_first && is_dir(a) != is_dir(b) {
        if is_dir(a) {
            -1
        } else {
            1
        }
    } else {
        match key {
            SortKey::Name => lex_order(name_key(a), name_key(b)),
            SortKey::Size => int_order(b.meta.size as int, a.meta.size as int),
            SortKey::Modified => modified_order(a.meta.modified, b.meta.modified),
        }
    }
}

/// In a stable sort of `s`, the entry at index `i` ends ahead of the entry
/// at index `j`: it compares before it, or ties with it and came first.
pub open spec fn sorted_before(s: Seq<Entry>, key: SortKey, dirs_first: bool, i: int, j: int) -> bool {
    let c = entry_order(key, dirs_first, s[i], s[j]);
    c < 0 || (c == 0 && i < j)
}

/// `p` lists the indices of `s` in the order of a stable sort: the result
/// holds `s[p[0]]`, `s[p[1]]`, and so on.
pub open spec fn is_stable_order(s: Seq<Entry>, key: SortKey, dirs_first: bool, p: Seq<int>) -> bool {
    &&& p.len() == s.len()
    &&& forall|k: int| 0 <= k < p.len() ==> 0 <= #[trigger] p[k] < s.len()
    &&& forall|k: int, l: int|
        0 <= k < l < p.len() ==> sorted_before(s, key, dirs_first, #[trigger] p[k], #[trigger] p[l])
}

proof fn lemma_lex_antisym(a: Seq<u8>, b: Seq<u8>)
    ensures
        lex_order(a, b) == -lex_order(b, a),
        -1 <= lex_order(a, b) <= 1,
        lex_order(a, b) == 0 ==> a == b,
    decreases a.len(),
{
    if a.len() > 0 && b.len() > 0 && a[0] == b[0] {
        lemma_lex_antisym(a.drop_first(), b.drop_first());
        if lex_order(a, b) == 0 {
            assert(a =~= seq![a[0]] + a.drop_first());
            assert(b =~= seq![b[0]] + b.drop_first());
        }
    }
}

proof fn lemma_lex_refl(a: Seq<u8>)
    ensures
        lex_order(a, a) == 0,
    decreases a.len(),
{
    if a.len() > 0 {
        lemma_lex_refl(a.drop_first());
    }
}

proof fn lemma_lex_trans(a: Seq<u8>, b: Seq<u8>, c: Seq<u8>)
    requires
        lex_order(a, b) < 0,
        lex_order(b, c) < 0,
    ensures
        lex_order(a, c) < 0,
    decreases a.len(),
{
    if a.len() > 0 && b.len() > 0 && c.len() > 0 && a[0] == b[0] && b[0] == c[0] {
        lemma_lex_trans(a.drop_first(), b.drop_first(), c.drop_first());
    }
}

proof fn lemma_order_props(key: SortKey, df: bool, a: Entry, b: Entry)
    ensures
        entry_order(key, df, a, b) == -entry_order(key, df, b, a),
        -1 <= entry_order(key, df, a, b) <= 1,
        entry_order(key, df, a, a) == 0,
{
    lemma_lex_antisym(name_key(a), name_key(b));
    lemma_lex_refl(name_key(a));
}

proof fn lemma_order_trans(key: SortKey, df: bool, a: Entry, b: Entry, c: Entry)
    requires
        entry_order(key, df, a, b) <= 0,
        entry_order(key, df, b, c) <= 0,
    ensures
        entry_order(key, df, a, c) <= 0,
        (entry_order(key, df, a, b) < 0 || entry_order(key, df, b, c) < 0) ==> entry_order(key, df, a, c) < 0,
{
    lemma_lex_antisym(name_key(a), name_key(b));
    lemma_lex_antisym(name_key(b), name_key(c));
    lemma_lex_antisym(name_key(a), name_key(c));
    if lex_order(name_key(a), name_key(b)) < 0 && lex_order(name_key(b), name_key(c)) < 0 {
        lemma_lex_trans(name_key(a), name_key(b), name_key(c));
    }
}

/// `sorted_before` is a strict total order on the indices of `s`.
proof fn lemma_before_order(s: Seq<Entry>, key: SortKey, df: bool)
    ensures
        forall|i: int| 0 <= i < s.len() ==> !#[trigger] sorted_before(s, key, df, i, i),
        forall|i: int, j: int|
            0 <= i < s.len() && 0 <= j < s.len() && i != j ==> #[trigger] sorted_before(s, key, df, i, j)
                || #[trigger] sorted_before(s, key, df, j, i),
        forall|i: int, j: int, k: int|
            0 <= i < s.len() && 0 <= j < s.len() && 0 <= k < s.len() && #[trigger] sorted_before(
                s,
                key,
                df,
                i,
                j,
            ) && #[trigger] sorted_before(s, key, df, j, k) ==> sorted_before(s, key, df, i, k),
{
    assert forall|i: int| 0 <= i < s.len() implies !#[trigger] sorted_before(s, key, df, i, i) by {
        lemma_order_props(key, df, s[i], s[i]);
    }
    assert forall|i: int, j: int|
        0 <= i < s.len() && 0 <= j < s.len() && i != j implies #[trigger] sorted_before(s, key, df, i, j)
            || #[trigger] sorted_before(s, key, df, j, i) by {
        lemma_order_props(key, df, s[i], s[j]);
    }
    assert forall|i: int, j: int, k: int|
        0 <= i < s.len() && 0 <= j < s.len() && 0 <= k < s.len() && #[trigger] sorted_before(
            s,
            key,
            df,
            i,
            j,
        ) && #[trigger] sorted_before(s, key, df, j, k) implies sorted_before(s, key, df, i, k) by {
        lemma_order_trans(key, df, s[i], s[j], s[k]);
    }
}

fn lex_compare(a: &Vec<u8>, b: &Vec<u8>) -> (r: i8)
    ensures
        r as int == lex_order(a@, b@),
{
    let mut i: usize = 0;
    assert(a@.skip(0) =~= a@);
    assert(b@.skip(0) =~= b@);
    while i < a.len() && i < b.len() && a[i] == b[i]
        invariant
            i <= a.len(),
            i <= b.len(),
            lex_order(a@, b@) == lex_order(a@.skip(i as int), b@.skip(i as int)),
        decreases a.len() - i,
    {
        assert(a@.skip(i as int).drop_first() =~= a@.skip(i + 1));
        assert(b@.skip(i as int).drop_first() =~= b@.skip(i + 1));
        i += 1;
    }
    if i == a.len() {
        if i == b.len() {
            0
        } else {
            -1
        }
    } else if i == b.len() {
        1
    } else if a[i] < b[i] {
        -1
    } else {
        1
    }
}

fn int_compare(a: u64, b: u64) -> (r: i8)
    ensures
        r as int == int_order(a as int, b as int),
{
    if a < b {
        -1
    } else if a > b {
        1
    } else {
        0
    }
}

fn modified_compare(a: Option<i128>, b: Option<i128>) -> (r: i8)
    ensures
        r as int == modified_order(a, b),
{
    match (b, a) {
        (Some(bt), Some(at)) => if bt < at {
            -1
        } else if bt > at {
            1
        } else {
            0
        },
        (Some(_), None) => 1,
        (None, Some(_)) => -1,
        (None, None) => 0,
    }
}

/// The entries being sorted with their name keys, ready for comparison.
struct SortInput<'a> {
    entries: &'a [Entry],
    names: Vec<Vec<u8>>,
    key: SortKey,
    dirs_first: bool,
}

impl<'a> SortInput<'a> {
    spec fn wf(&self) -> bool {
        &&& self.names.len() == self.entries@.len()
        &&& self.key == SortKey::Name ==> forall|i: int|
            0 <= i < self.names.len() ==> #[trigger] self.names[i]@ == name_key(self.entries@[i])
    }

    spec fn before(&self, i: int, j: int) -> bool {
        sorted_before(self.entries@, self.key, self.dirs_first, i, j)
    }

    fn compare(&self, i: usize, j: usize) -> (r: i8)
        requires
            self.wf(),
            i < self.entries@.len(),
            j < self.entries@.len(),
        ensures
            r as int == entry_order(self.key, self.dirs_first, self.entries@[i as int], self.entries@[j as int]),
    {
        let a = &self.entries[i];
        let b = &self.entries[j];
        let a_dir = a.kind == EntryKind::Dir;
        let b_dir = b.kind == EntryKind::Dir;
        if self.dirs_first && a_dir != b_dir {
            return if a_dir {
                -1
            } else {
                1
            };
        }
        match self.key {
            SortKey::Name => lex_compare(&self.names[i], &self.names[j]),
            SortKey::Size => int_compare(b.meta.size, a.meta.size),
            SortKey::Modified => modified_compare(a.meta.modified, b.meta.modified),
        }
    }

    fn before_exec(&self, i: usize, j: usize) -> (r: bool)
        requires
            self.wf(),
            i < self.entries@.len(),
            j < self.entries@.len(),
        ensures
            r == self.before(i as int, j as int),
    {
        let c = self.compare(i, j);
        c < 0 || (c == 0 && i < j)
    }

    spec fn sorted(&self, v: Seq<usize>) -> bool {
        &&& forall|k: int| 0 <= k < v.len() ==> #[trigger] v[k] < self.entries@.len()
        &&& forall|k: int, l: int| 0 <= k < l < v.len() ==> self.before(#[trigger] v[k] as int, #[trigger] v[l] as int)
    }

    fn merge(&self, a: Vec<usize>, b: Vec<usize>) -> (r: Vec<usize>)
        requires
            self.wf(),
            self.sorted(a@),
            self.sorted(b@),
            forall|k: int, m: int| 0 <= k < a.len() && 0 <= m < b.len() ==> #[trigger] a@[k] != #[trigger] b@[m],
        ensures
            self.sorted(r@),
            r@.to_multiset() == a@.to_multiset().add(b@.to_multiset()),
    {
        proof {
            lemma_before_order(self.entries@, self.key, self.dirs_first);
        }
        let mut out: Vec<usize> = Vec::new();
        let mut i: usize = 0;
        let mut j: usize = 0;
        while i < a.len() || j < b.len()
            invariant
                self.wf(),
                self.sorted(a@),
                self.sorted(b@),
                i <= a.len(),
                j <= b.len(),
                forall|k: int, m: int| 0 <= k < a.len() && 0 <= m < b.len() ==> #[trigger] a@[k] != #[trigger] b@[m],
                self.sorted(out@),
                out@.to_multiset() == a@.take(i as int).to_multiset().add(b@.take(j as int).to_multiset()),
                forall|k: int, m: int|
                    0 <= k < out.len() && i <= m < a.len() ==> self.before(#[trigger] out@[k] as int, #[trigger] a@[m] as int),
                forall|k: int, m: int|
                    0 <= k < out.len() && j <= m < b.len() ==> self.before(#[trigger] out@[k] as int, #[trigger] b@[m] as int),
                forall|x: int, y: int, z: int|
                    0 <= x < self.entries@.len() && 0 <= y < self.entries@.len() && 0 <= z < self.entries@.len()
                        && #[trigger] self.before(x, y) && #[trigger] self.before(y, z) ==> self.before(x, z),
                forall|x: int, y: int|
                    0 <= x < self.entries@.len() && 0 <= y < self.entries@.len() && x != y ==> #[trigger] self.before(x, y)
                        || #[trigger] self.before(y, x),
                forall|x: int| 0 <= x < self.entries@.len() ==> !#[trigger] self.before(x, x),
            decreases a.len() + b.len() - i - j,
        {
            let take_a = if i < a.len() && j < b.len() {
                self.before_exec(a[i], b[j])
            } else {
                i < a.len()
            };
            let ghost old_out = out@;
            if take_a {
                let x = a[i];
                proof {
                    if j < b.len() {
                        assert forall|m: int| j <= m < b.len() implies self.before(x as int, #[trigger] b@[m] as int) by {
                            if m > j {
                                assert(self.before(b@[j as int] as int, b@[m] as int));
                            }
                        }
                    }
                    assert forall|m: int| i < m < a.len() implies self.before(x as int, #[trigger] a@[m] as int) by {
                        assert(self.before(a@[i as int] as int, a@[m] as int));
                    }
                    assert(a@.take(i + 1) =~= a@.take(i as int).push(x));
                }
                out.push(x);
                i += 1;
            } else {
                let y = b[j];
                proof {
                    if i < a.len() {
                        assert(y != a@[i as int]);
                        assert(self.before(y as int, a@[i as int] as int));
                        assert forall|m: int| i <= m < a.len() implies self.before(y as int, #[trigger] a@[m] as int) by {
                            if m > i {
                                assert(self.before(a@[i as int] as int, a@[m] as int));
                            }
                        }
                    }
                    assert forall|m: int| j < m < b.len() implies self.before(y as int, #[trigger] b@[m] as int) by {
                        assert(self.before(b@[j as int] as int, b@[m] as int));
                    }
                    assert(b@.take(j + 1) =~= b@.take(j as int).push(y));
                }
                out.push(y);
                j += 1;
            }
            proof {
                assert forall|k: int, l: int| 0 <= k < l < out@.len() implies self.before(#[trigger] out@[k] as int, #[trigger] out@[l] as int) by {
                    if l < old_out.len() {
                        assert(old_out[k] == out@[k] && old_out[l] == out@[l]);
                    }
                }
            }
        }
        proof {
            assert(a@.take(a.len() as int) =~= a@);
            assert(b@.take(b.len() as int) =~= b@);
        }
        out
    }

    fn merge_sort(&self, v: Vec<usize>) -> (r: Vec<usize>)
        requires
            self.wf(),
            forall|k: int| 0 <= k < v.len() ==> #[trigger] v@[k] < self.entries@.len(),
            v@.no_duplicates(),
        ensures
            self.sorted(r@),
            r@.to_multiset() == v@.to_multiset(),
        decreases v.len(),
    {
        if v.len() <= 1 {
            proof {
                lemma_before_order(self.entries@, self.key, self.dirs_first);
            }
            return v;
        }
        let mut left = v;
        let ghost whole = left@;
        let mid = left.len() / 2;
        let right = left.split_off(mid);
        proof {
            assert(whole =~= left@ + right@);
            vstd::seq_lib::lemma_multiset_commutative(left@, right@);
        }
        proof {
            assert forall|p: int, q: int| 0 <= p < q < left@.len() implies left@[p] != left@[q] by {
                assert(left@[p] == whole[p] && left@[q] == whole[q]);
            }
            assert forall|p: int, q: int| 0 <= p < q < right@.len() implies right@[p] != right@[q] by {
                assert(right@[p] == whole[p + mid] && right@[q] == whole[q + mid]);
            }
        }
        let ghost lv = left@;
        let ghost rv = right@;
        let l = self.merge_sort(left);
        let r = self.merge_sort(right);
        proof {
            assert forall|k: int, m: int| 0 <= k < l@.len() && 0 <= m < r@.len() implies #[trigger] l@[k] != #[trigger] r@[m] by {
                assert(l@.to_multiset().count(l@[k]) > 0);
                assert(r@.to_multiset().count(r@[m]) > 0);
                assert(lv.contains(l@[k]));
                assert(rv.contains(r@[m]));
                let p = choose|p: int| 0 <= p < lv.len() && lv[p] == l@[k];
                let q = choose|q: int| 0 <= q < rv.len() && rv[q] == r@[m];
                assert(whole[p] == lv[p]);
                assert(whole[q + mid] == rv[q]);
            }
        }
        self.merge(l, r)
    }
}

spec fn index_range(n: nat) -> Seq<usize> {
    Seq::new(n, |k: int| k as usize)
}

proof fn lemma_range_multiset(n: nat)
    ensures
        forall|x: usize| #[trigger] index_range(n).to_multiset().count(x) > 0 ==> x < n,
{
    let s = index_range(n);
    assert forall|x: usize| #[trigger] s.to_multiset().count(x) > 0 implies x < n by {
        assert(s.contains(x));
    }
}

/// Sorts `entries` stably by `key`, directories first when `dirs_first`:
/// afterwards they stand in the order of a stable sort of what they were.
pub fn sort(entries: &mut [Entry], key: SortKey, dirs_first: bool)
    ensures
        final(entries)@.len() == old(entries)@.len(),
        exists|p: Seq<int>|
            #[trigger] is_stable_order(old(entries)@, key, dirs_first, p) && forall|k: int|
                0 <= k < p.len() ==> final(entries)@[k] == old(entries)@[#[trigger] p[k]],
{
    let n = entries.len();
    let ghost orig = entries@;
    let mut names: Vec<Vec<u8>> = Vec::new();
    let mut i: usize = 0;
    while i < n
        invariant
            n == entries@.len(),
            entries@ == orig,
            i <= n,
            names.len() == i,
            key == SortKey::Name ==> forall|k: int| 0 <= k < i ==> #[trigger] names@[k]@ == name_key(entries@[k]),
        decreases n - i,
    {
        if key == SortKey::Name {
            let lower = to_lowercase(entries[i].name.as_str());
            names.push(lower.as_str().as_bytes_vec());
        } else {
            names.push(Vec::new());
        }
        i += 1;
    }
    let mut idx: Vec<usize> = Vec::new();
    let mut k: usize = 0;
    while k < n
        invariant
            k <= n,
            idx@ == index_range(k as nat),
        decreases n - k,
    {
        idx.push(k);
        assert(idx@ =~= index_range((k + 1) as nat));
        k += 1;
    }
    proof {
        assert(idx@.no_duplicates());
    }
    let order = {
        let input = SortInput { entries: &*entries, names, key, dirs_first };
        input.merge_sort(idx)
    };
    proof {
        assert(order@.to_multiset().len() == idx@.to_multiset().len());
        lemma_range_multiset(n as nat);
        lemma_before_order(orig, key, dirs_first);
        assert forall|m: int| 0 <= m < order@.len() implies #[trigger] order@[m] < n by {
            assert(order@.to_multiset().count(order@[m]) > 0);
        }
    }
    let mut out: Vec<Entry> = Vec::new();
    let mut m: usize = 0;
    while m < n
        invariant
            n == entries@.len(),
            entries@ == orig,
            order@.len() == n,
            forall|q: int| 0 <= q < order@.len() ==> #[trigger] order@[q] < n,
            m <= n,
            out.len() == m,
            forall|q: int| 0 <= q < m ==> #[trigger] out@[q] == orig[order@[q] as int],
        decreases n - m,
    {
        out.push(entries[order[m]].clone());
        m += 1;
    }
    let mut w: usize = n;
    while w > 0
        invariant
            w <= n,
            out.len() == w,
            entries@.len() == n,
            order@.len() == n,
            forall|q: int| 0 <= q < w ==> #[trigger] out@[q] == orig[order@[q] as int],
            forall|q: int| w <= q < n ==> #[trigger] entries@[q] == orig[order@[q] as int],
        decreases w,
    {
        let e = out.pop().unwrap();
        w -= 1;
        entries[w] = e;
    }
    proof {
        let p = order@.map(|q: int, x: usize| x as int);
        assert(is_stable_order(orig, key, dirs_first, p));
    }
}

/// Whether a name is hidden: it starts with a dot.
pub open spec fn is_hidden(name: Seq<char>) -> bool {
    name.len() > 0 && name[0] == '.'
}

/// The entries to show: all of them with `show_hidden`, otherwise those
/// whose name does not start with a dot, in their order.
pub fn filter(entries: Vec<Entry>, show_hidden: bool) -> (r: Vec<Entry>)
    ensures
        show_hidden ==> r@ == entries@,
        !show_hidden ==> r@ == entries@.filter(|e: Entry| !is_hidden(e.name@)),
{
    if show_hidden {
        return entries;
    }
    let ghost pred = |e: Entry| !is_hidden(e.name@);
    let mut out: Vec<Entry> = Vec::new();
    let mut i: usize = 0;
    while i < entries.len()
        invariant
            i <= entries.len(),
            pred == (|e: Entry| !is_hidden(e.name@)),
            out@ == entries@.take(i as int).filter(pred),
        decreases entries.len() - i,
    {
        let name = entries[i].name.as_str();
        let hidden = name.unicode_len() > 0 && name.get_char(0) == '.';
        assert(pred(entries@[i as int]) == !hidden);
        if !hidden {
            out.push(entries[i].clone());
        }
        proof {
            assert(entries@.take(i + 1) =~= entries@.take(i as int).push(entries@[i as int]));
            entries@.take(i as int).lemma_filter_push(entries@[i as int], pred);
        }
        i += 1;
    }
    assert(entries@.take(entries.len() as int) =~= entries@);
    out
}

/// A sort result is in order: each entry compares before or ties with
/// every entry after it; with `dirs_first` no directory follows a
/// non-directory; and no entry of the input appears twice.
pub proof fn law_sort_result_ordered(s: Seq<Entry>, key: SortKey, dirs_first: bool, p: Seq<int>)
    requires
        is_stable_order(s, key, dirs_first, p),
    ensures
        forall|k: int, l: int|
            0 <= k < l < p.len() ==> entry_order(key, dirs_first, s[#[trigger] p[k]], s[#[trigger] p[l]]) <= 0,
        dirs_first ==> forall|k: int, l: int|
            0 <= k < l < p.len() && is_dir(s[#[trigger] p[l]]) ==> is_dir(s[#[trigger] p[k]]),
        forall|k: int, l: int| 0 <= k < l < p.len() ==> #[trigger] p[k] != #[trigger] p[l],
{
    lemma_before_order(s, key, dirs_first);
    assert forall|k: int, l: int|
        0 <= k < l < p.len() implies entry_order(key, dirs_first, s[#[trigger] p[k]], s[#[trigger] p[l]]) <= 0 by {
        assert(sorted_before(s, key, dirs_first, p[k], p[l]));
    }
}

proof fn lemma_order_covers(s: Seq<Entry>, key: SortKey, dirs_first: bool, p: Seq<int>)
    requires
        is_stable_order(s, key, dirs_first, p),
    ensures
        forall|x: int| 0 <= x < s.len() ==> #[trigger] p.contains(x),
{
    law_sort_result_ordered(s, key, dirs_first, p);
    let n = s.len() as int;
    assert(p.no_duplicates()) by {
        assert forall|k: int, l: int| 0 <= k < p.len() && 0 <= l < p.len() && k != l implies p[k] != p[l] by {
            if k < l {
                assert(p[k] != p[l]);
            } else {
                assert(p[l] != p[k]);
            }
        }
    }
    p.unique_seq_to_set();
    vstd::set_lib::lemma_int_range(0, n);
    let range = vstd::set_lib::set_int_range(0, n);
    assert(p.to_set().subset_of(range));
    p.lemma_cardinality_of_set();
    assert(p.to_set().finite()) by {
        vstd::set_lib::lemma_len_subset(p.to_set(), range);
    }
    vstd::set_lib::lemma_subset_equality(p.to_set(), range);
    assert forall|x: int| 0 <= x < s.len() implies #[trigger] p.contains(x) by {
        assert(range.contains(x));
        assert(p.to_set().contains(x));
    }
}

proof fn lemma_orders_agree_at(s: Seq<Entry>, key: SortKey, dirs_first: bool, p: Seq<int>, q: Seq<int>, d: int)
    requires
        is_stable_order(s, key, dirs_first, p),
        is_stable_order(s, key, dirs_first, q),
        0 <= d < p.len(),
        forall|e: int| 0 <= e < d ==> p[e] == q[e],
        forall|x: int| 0 <= x < s.len() ==> #[trigger] p.contains(x),
        forall|x: int| 0 <= x < s.len() ==> #[trigger] q.contains(x),
    ensures
        p[d] == q[d],
{
    if p[d] != q[d] {
        let x = p[d];
        let y = q[d];
        assert(p.contains(y));
        assert(q.contains(x));
        let m = choose|m: int| 0 <= m < p.len() && p[m] == y;
        let m2 = choose|m2: int| 0 <= m2 < q.len() && q[m2] == x;
        if m < d {
            assert(p[m] == q[m]);
            assert(sorted_before(s, key, dirs_first, q[m], q[d]));
            lemma_before_order(s, key, dirs_first);
        }
        if m2 < d {
            assert(p[m2] == q[m2]);
            assert(sorted_before(s, key, dirs_first, p[m2], p[d]));
            lemma_before_order(s, key, dirs_first);
        }
        assert(sorted_before(s, key, dirs_first, p[d], p[m]));
        assert(sorted_before(s, key, dirs_first, q[d], q[m2]));
        lemma_before_order(s, key, dirs_first);
        assert(sorted_before(s, key, dirs_first, x, x));
    }
}

proof fn lemma_orders_agree_upto(s: Seq<Entry>, key: SortKey, dirs_first: bool, p: Seq<int>, q: Seq<int>, d: int)
    requires
        is_stable_order(s, key, dirs_first, p),
        is_stable_order(s, key, dirs_first, q),
        0 <= d <= p.len(),
        forall|x: int| 0 <= x < s.len() ==> #[trigger] p.contains(x),
        forall|x: int| 0 <= x < s.len() ==> #[trigger] q.contains(x),
    ensures
        forall|e: int| 0 <= e < d ==> p[e] == q[e],
    decreases d,
{
    if d > 0 {
        lemma_orders_agree_upto(s, key, dirs_first, p, q, d - 1);
        lemma_orders_agree_at(s, key, dirs_first, p, q, d - 1);
    }
}

/// The order of a stable sort is unique: a listing sorts one way only.
pub proof fn law_sort_is_unique(s: Seq<Entry>, key: SortKey, dirs_first: bool, p: Seq<int>, q: Seq<int>)
    requires
        is_stable_order(s, key, dirs_first, p),
        is_stable_order(s, key, dirs_first, q),
    ensures
        p == q,
{
    lemma_order_covers(s, key, dirs_first, p);
    lemma_order_covers(s, key, dirs_first, q);
    lemma_orders_agree_upto(s, key, dirs_first, p, q, p.len() as int);
    assert(p =~= q);
}

/// Sorting a listing that is already in order leaves it as it is.
pub proof fn law_sort_keeps_ordered_listing(s: Seq<Entry>, key: SortKey, dirs_first: bool, p: Seq<int>)
    requires
        is_stable_order(s, key, dirs_first, p),
        forall|k: int, l: int| 0 <= k < l < s.len() ==> entry_order(key, dirs_first, #[trigger] s[k], #[trigger] s[l]) <= 0,
    ensures
        forall|k: int| 0 <= k < p.len() ==> #[trigger] p[k] == k,
{
    let id = Seq::new(s.len(), |k: int| k);
    assert(is_stable_order(s, key, dirs_first, id)) by {
        assert forall|k: int, l: int| 0 <= k < l < id.len() implies sorted_before(s, key, dirs_first, #[trigger] id[k], #[trigger] id[l]) by {
            assert(entry_order(key, dirs_first, s[k], s[l]) <= 0);
        }
    }
    law_sort_is_unique(s, key, dirs_first, p, id);
}

/// `a` is a proper prefix of `b`.
pub open spec fn is_proper_prefix<A>(a: Seq<A>, b: Seq<A>) -> bool {
    a.len() < b.len() && b.take(a.len() as int) == a
}

/// Byte strings compare as `str` does: a proper prefix comes before every
/// longer string it starts, and otherwise the first differing byte decides;
/// equal strings tie.
pub proof fn law_lex_order_is_byte_order(a: Seq<u8>, b: Seq<u8>)
    ensures
        is_proper_prefix(a, b) ==> lex_order(a, b) == -1,
        is_proper_prefix(b, a) ==> lex_order(a, b) == 1,
        forall|i: int|
            0 <= i < a.len() && i < b.len() && a.take(i) == b.take(i) && a[i] != b[i] ==> (lex_order(a, b) == -1
                <==> a[i] < b[i]),
        lex_order(a, b) == 0 <==> a == b,
    decreases a.len(),
{
    lemma_lex_antisym(a, b);
    if a == b {
        lemma_lex_refl(a);
    }
    if a.len() > 0 && b.len() > 0 {
        if a[0] == b[0] {
            law_lex_order_is_byte_order(a.drop_first(), b.drop_first());
            if is_proper_prefix(a, b) {
                assert(b.drop_first().take(a.drop_first().len() as int) =~= b.take(a.len() as int).drop_first());
            }
            if is_proper_prefix(b, a) {
                assert(a.drop_first().take(b.drop_first().len() as int) =~= a.take(b.len() as int).drop_first());
            }
            assert forall|i: int|
                0 <= i < a.len() && i < b.len() && a.take(i) == b.take(i) && a[i] != b[i] implies (lex_order(a, b)
                == -1 <==> a[i] < b[i]) by {
                if i > 0 {
                    assert(a.drop_first().take(i - 1) =~= a.take(i).drop_first());
                    assert(b.drop_first().take(i - 1) =~= b.take(i).drop_first());
                    assert(a.drop_first()[i - 1] == a[i]);
                    assert(b.drop_first()[i - 1] == b[i]);
                }
            }
        } else {
            assert forall|i: int|
                0 <= i < a.len() && i < b.len() && a.take(i) == b.take(i) && a[i] != b[i] implies (lex_order(a, b)
                == -1 <==> a[i] < b[i]) by {
                if i > 0 {
                    assert(a.take(i)[0] == b.take(i)[0]);
                }
            }
            if is_proper_prefix(a, b) {
                assert(b.take(a.len() as int)[0] == b[0]);
            }
            if is_proper_prefix(b, a) {
                assert(a.take(b.len() as int)[0] == a[0]);
            }
        }
    } else if a.len() == 0 && b.len() > 0 {
    } else if b.len() == 0 && a.len() > 0 {
    }
}

proof fn lemma_encode_utf8_concat(a: Seq<char>, t: Seq<char>)
    ensures
        encode_utf8(a + t) == encode_utf8(a) + encode_utf8(t),
    decreases a.len(),
{
    if a.len() == 0 {
        assert(a + t =~= t);
        assert(encode_utf8(a) + encode_utf8(t) =~= encode_utf8(t));
    } else {
        assert((a + t).drop_first() =~= a.drop_first() + t);
        lemma_encode_utf8_concat(a.drop_first(), t);
        assert(encode_utf8(a + t) =~= encode_utf8(a) + encode_utf8(t));
    }
}

proof fn lemma_encode_utf8_nonempty(t: Seq<char>)
    requires
        t.len() > 0,
    ensures
        encode_utf8(t).len() > 0,
{
    let c = t[0] as u32;
    assert(vstd::utf8::encode_scalar(c).len() > 0);
}

/// Sorted by name, an entry whose lowercased name is a proper prefix of
/// another's comes first (`notes` before `notes.txt`), whatever order they
/// were listed in, unless `dirs_first` puts the other one ahead for being
/// a directory.
pub proof fn law_name_prefix_sorts_first(s: Seq<Entry>, dirs_first: bool, p: Seq<int>, k: int, l: int)
    requires
        is_stable_order(s, SortKey::Name, dirs_first, p),
        0 <= k < p.len(),
        0 <= l < p.len(),
        is_proper_prefix(lowercase(s[p[k]].name@), lowercase(s[p[l]].name@)),
        !dirs_first || is_dir(s[p[k]]) == is_dir(s[p[l]]),
    ensures
        k < l,
{
    let a = lowercase(s[p[k]].name@);
    let b = lowercase(s[p[l]].name@);
    let t = b.skip(a.len() as int);
    assert(b =~= a + t);
    lemma_encode_utf8_concat(a, t);
    lemma_encode_utf8_nonempty(t);
    let ea = encode_utf8(a);
    let eb = encode_utf8(b);
    assert(eb.take(ea.len() as int) =~= ea);
    law_lex_order_is_byte_order(ea, eb);
    law_lex_order_is_byte_order(eb, ea);
    if l < k {
        assert(sorted_before(s, SortKey::Name, dirs_first, p[l], p[k]));
    }
    if l == k {
        assert(ea == eb);
    }
}

} // verus!
