//! What the preview pane shows for an entry.
use vstd::prelude::*;
use vstd::utf8::{decode_utf8, valid_utf8};

use crate::fs::{Entry, EntryKind};
use crate::ops::returned1;
use crate::sort::{is_stable_order, sort, SortKey};
use crate::text::string_of;

verus! {

/// The most bytes of a file the preview shows.
pub const MAX_PREVIEW_BYTES: usize = 1024 * 1024;

/// The metadata shown for an entry that is not shown as text or listing.
#[derive(Debug)]
pub struct MetaView {
    pub name: String,
    pub kind: EntryKind,
    pub size: u64,
    pub mode: u32,
    pub modified: Option<i128>,
    pub uid: u32,
    pub gid: u32,
    pub symlink_target: Option<String>,
}

/// What the preview pane shows.
#[derive(Debug)]
pub enum PreviewModel {
    Text { content: String, truncated: bool },
    Dir { entries: Vec<Entry> },
    Metadata(MetaView),
    Error(String),
}

/// What `String::from_utf8_lossy` makes of a byte string: its text, with
/// each invalid sequence replaced by U+FFFD.
pub uninterp spec fn lossy_utf8(b: Seq<u8>) -> Seq<char>;

/// `String::from_utf8_lossy`: the text of `b`, invalid sequences replaced
/// by U+FFFD; for valid UTF-8 exactly the text it encodes.
#[verifier::external_body]
pub(crate) fn decode_lossy(b: &[u8]) -> (r: String)
    ensures
        r@ == lossy_utf8(b@),
        valid_utf8(b@) ==> r@ == decode_utf8(b@),
{
    String::from_utf8_lossy(b).into_owned()
}

/// `m` is the metadata of `entry`: its name, kind, size and modification
/// time are the entry's; its mode, owner and group are what `stat` returned
/// for the entry's path (zeros when it returned none); and its link target
/// is what `read_link` returned for a symlink, none for anything else.
pub open spec fn is_meta_view_of<
    S: Fn(&str) -> Option<(u32, u32, u32)>,
    L: Fn(&str) -> Option<String>,
>(stat: S, read_link: L, entry: Entry, m: MetaView) -> bool {
    &&& m.name@ == entry.name@
    &&& m.kind == entry.kind
    &&& m.size == entry.meta.size
    &&& m.modified == entry.meta.modified
    &&& exists|st: Option<(u32, u32, u32)>|
        #[trigger] returned1(stat, entry.path@, st) && match st {
            Some((mode, uid, gid)) => m.mode == mode && m.uid == uid && m.gid == gid,
            None => m.mode == 0 && m.uid == 0 && m.gid == 0,
        }
    &&& if entry.kind == EntryKind::Symlink {
        returned1(read_link, entry.path@, m.symlink_target)
    } else {
        m.symlink_target is None
    }
}

/// The metadata shown for `entry`: what the listing recorded of it, with
/// its permission bits, owner and group from `stat` (which does not follow
/// a final symlink) and, for a symlink, its target from `read_link`.
pub fn meta_view(
    entry: &Entry,
    stat: impl Fn(&str) -> Option<(u32, u32, u32)>,
    read_link: impl Fn(&str) -> Option<String>,
) -> (m: MetaView)
    requires
        forall|s: &str| call_requires(stat, (s,)),
        forall|s: &str| call_requires(read_link, (s,)),
    ensures
        is_meta_view_of(stat, read_link, *entry, m),
{
    let st = stat(entry.path.as_str());
    assert(returned1(stat, entry.path@, st));
    let (mode, uid, gid) = match st {
        Some(t) => t,
        None => (0, 0, 0),
    };
    let symlink_target = if entry.kind == EntryKind::Symlink {
        let t = read_link(entry.path.as_str());
        assert(returned1(read_link, entry.path@, t));
        t
    } else {
        None
    };
    MetaView {
        name: entry.name.clone(),
        kind: entry.kind,
        size: entry.meta.size,
        mode,
        modified: entry.meta.modified,
        uid,
        gid,
        symlink_target,
    }
}

/// A call of `f` on a string that reads `p` and on `n` may have returned
/// `r`.
pub open spec fn read_returned<F: Fn(&str, usize) -> Result<Vec<u8>, String>>(f: F, p: Seq<char>, n: usize, r: Result<Vec<u8>, String>) -> bool {
    exists|t: &str| t@ == p && call_ensures(f, (t, n), r)
}

/// What a file's first bytes make the preview: metadata when the first
/// `MAX_PREVIEW_BYTES` of them hold a NUL byte, otherwise their text, marked
/// truncated when the file went on past them.
pub open spec fn file_preview_is(head: Seq<u8>, r: PreviewModel) -> bool {
    let shown = if head.len() > MAX_PREVIEW_BYTES { head.take(MAX_PREVIEW_BYTES as int) } else { head };
    if shown.contains(0u8) {
        r is Metadata
    } else {
        r matches PreviewModel::Text { content, truncated } && content@ == lossy_utf8(shown) && truncated == (
        head.len() > MAX_PREVIEW_BYTES)
    }
}

/// A file whose first `MAX_PREVIEW_BYTES` bytes hold a NUL byte anywhere
/// previews as metadata, never as text; one whose first bytes hold none
/// previews as text: those bytes decoded, marked truncated exactly when the
/// file went on past them.
pub proof fn law_nul_byte_means_binary(head: Seq<u8>, r: PreviewModel)
    requires
        file_preview_is(head, r),
    ensures
        (exists|j: int| 0 <= j < head.len() && j < MAX_PREVIEW_BYTES && head[j] == 0u8) ==> r is Metadata,
        (forall|j: int| 0 <= j < head.len() && j < MAX_PREVIEW_BYTES ==> head[j] != 0u8) ==> (r matches
            PreviewModel::Text { content, truncated } && truncated == (head.len() > MAX_PREVIEW_BYTES)
            && content@ == lossy_utf8(if head.len() > MAX_PREVIEW_BYTES {
            head.take(MAX_PREVIEW_BYTES as int)
        } else {
            head
        })),
{
    let shown = if head.len() > MAX_PREVIEW_BYTES {
        head.take(MAX_PREVIEW_BYTES as int)
    } else {
        head
    };
    if exists|j: int| 0 <= j < head.len() && j < MAX_PREVIEW_BYTES && head[j] == 0u8 {
        let j = choose|j: int| 0 <= j < head.len() && j < MAX_PREVIEW_BYTES && head[j] == 0u8;
        assert(shown[j] == 0u8);
    } else {
        if shown.contains(0u8) {
            let j = choose|j: int| 0 <= j < shown.len() && shown[j] == 0u8;
            assert(head[j] == 0u8);
        }
    }
}

/// What the preview shows for `entry`: a directory as its listing, sorted
/// by name with directories first, or the error listing it gave; a symlink,
/// not followed, as its metadata; a file as its text when its first bytes
/// hold no NUL byte, otherwise as its metadata, or the error reading it
/// gave. A file whose preview was cancelled before the read shows its
/// metadata. `list_dir` lists a directory, `read_head` reads at most the
/// given number of bytes from the start of a file, and `stat` and
/// `read_link` give what `meta_view` adds to an entry's metadata.
pub fn preview(
    entry: &Entry,
    cancelled: bool,
    list_dir: impl Fn(&str) -> Result<Vec<Entry>, String>,
    read_head: impl Fn(&str, usize) -> Result<Vec<u8>, String>,
    stat: impl Fn(&str) -> Option<(u32, u32, u32)>,
    read_link: impl Fn(&str) -> Option<String>,
) -> (r: PreviewModel)
    requires
        forall|s: &str| call_requires(list_dir, (s,)),
        forall|s: &str, n: usize| call_requires(read_head, (s, n)),
        forall|s: &str| call_requires(stat, (s,)),
        forall|s: &str| call_requires(read_link, (s,)),
    ensures
        entry.kind == EntryKind::Dir ==> exists|listed: Result<Vec<Entry>, String>|
            #[trigger] returned1(list_dir, entry.path@, listed) && match listed {
                Ok(es) => r matches PreviewModel::Dir { entries } && exists|p: Seq<int>|
                    #[trigger] is_stable_order(es@, SortKey::Name, true, p) && entries@.len() == es@.len() && forall|k: int|
                        0 <= k < p.len() ==> entries@[k] == es@[#[trigger] p[k]],
                Err(m) => r == PreviewModel::Error(m),
            },
        entry.kind == EntryKind::Symlink ==> (r matches PreviewModel::Metadata(m) && is_meta_view_of(
            stat,
            read_link,
            *entry,
            m,
        )),
        entry.kind == EntryKind::File && cancelled ==> (r matches PreviewModel::Metadata(m) && is_meta_view_of(
            stat,
            read_link,
            *entry,
            m,
        )),
        entry.kind == EntryKind::File && !cancelled ==> exists|read: Result<Vec<u8>, String>|
            #[trigger] read_returned(read_head, entry.path@, (MAX_PREVIEW_BYTES + 1) as usize, read) && match read {
                Ok(head) => file_preview_is(head@, r) && (r matches PreviewModel::Metadata(m) ==> is_meta_view_of(
                    stat,
                    read_link,
                    *entry,
                    m,
                )),
                Err(m) => r == PreviewModel::Error(m),
            },
{
    match entry.kind {
        EntryKind::Dir => {
            let ps = entry.path.as_str();
            let listed = list_dir(ps);
            assert(returned1(list_dir, entry.path@, listed));
            match listed {
                Ok(es) => {
                    let ghost orig = es@;
                    let mut entries = es;
                    sort(entries.as_mut_slice(), SortKey::Name, true);
                    PreviewModel::Dir { entries }
                },
                Err(m) => PreviewModel::Error(m),
            }
        },
        EntryKind::Symlink => PreviewModel::Metadata(meta_view(entry, stat, read_link)),
        EntryKind::File => {
            if cancelled {
                return PreviewModel::Metadata(meta_view(entry, stat, read_link));
            }
            let ps = entry.path.as_str();
            let read = read_head(ps, MAX_PREVIEW_BYTES + 1);
            assert(read_returned(read_head, entry.path@, (MAX_PREVIEW_BYTES + 1) as usize, read));
            match read {
                Err(m) => PreviewModel::Error(m),
                Ok(head) => {
                    let n = if head.len() > MAX_PREVIEW_BYTES {
                        MAX_PREVIEW_BYTES
                    } else {
                        head.len()
                    };
                    let mut k: usize = 0;
                    let mut has_nul = false;
                    while k < n
                        invariant
                            k <= n <= head@.len(),
                            has_nul == exists|j: int| 0 <= j < k && head@[j] == 0u8,
                        decreases n - k,
                    {
                        if head[k] == 0u8 {
                            has_nul = true;
                        }
                        k += 1;
                    }
                    let ghost shown = head@.take(n as int);
                    proof {
                        if has_nul {
                            let j = choose|j: int| 0 <= j < k && head@[j] == 0u8;
                            assert(shown[j] == 0u8);
                        }
                    }
                    if has_nul {
                        return PreviewModel::Metadata(meta_view(entry, stat, read_link));
                    }
                    let mut bytes: Vec<u8> = Vec::new();
                    let mut m: usize = 0;
                    while m < n
                        invariant
                            m <= n <= head@.len(),
                            bytes@ == head@.take(m as int),
                        decreases n - m,
                    {
                        bytes.push(head[m]);
                        assert(bytes@ =~= head@.take(m + 1));
                        m += 1;
                    }
                    if n == head.len() {
                        assert(shown =~= head@);
                    }
                    PreviewModel::Text {
                        content: decode_lossy(bytes.as_slice()),
                        truncated: head.len() > MAX_PREVIEW_BYTES,
                    }
                },
            }
        },
    }
}

/// The letter at position `i` (0 to 8) of the `rwxrwxrwx` form of the
/// permission bits `mode`: the letter of the bit when it is set, `-` when
/// it is not. Position 0 is the owner's read bit (octal 400), position 8
/// the others' execute bit (octal 1).
pub open spec fn mode_letter(mode: u32, i: int) -> char {
    if mode & (1u32 << ((8 - i) as u32)) != 0 {
        if i % 3 == 0 {
            'r'
        } else if i % 3 == 1 {
            'w'
        } else {
            'x'
        }
    } else {
        '-'
    }
}

/// The permission bits of `mode` as nine letters, `rwxr-xr-x` style.
pub fn mode_rwx(mode: u32) -> (r: String)
    ensures
        r@.len() == 9,
        forall|i: int| 0 <= i < 9 ==> r@[i] == mode_letter(mode, i),
{
    let letters = ['r', 'w', 'x'];
    let mut out: Vec<char> = Vec::new();
    let mut i: u32 = 0;
    while i < 9
        invariant
            i <= 9,
            out@.len() == i,
            letters@ == seq!['r', 'w', 'x'],
            forall|k: int| 0 <= k < i ==> out@[k] == mode_letter(mode, k),
        decreases 9 - i,
    {
        let bit: u32 = 1u32 << (8 - i);
        if mode & bit != 0 {
            out.push(letters[(i % 3) as usize]);
        } else {
            out.push('-');
        }
        i += 1;
    }
    string_of(out.as_slice())
}

} // verus!
