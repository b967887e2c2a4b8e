//! The window's rules that need no I/O: which command a key stands for,
//! what the inline editor does with a key, what the clipboard holds after
//! a copy, a cut or a paste, and how an entry is labelled.
use vstd::prelude::*;
use vstd::string::*;

use crate::fs::{Entry, EntryKind};
use crate::text::{chars_eq, chars_of, push_char, string_of, trim, trimmed};

verus! {

broadcast use vstd::string::group_string_axioms;

/// What a key press does outside the inline editor.
#[derive(Debug, Clone, Copy, PartialEq, Eq, Structural)]
pub enum KeyCommand {
    ConfirmDelete,
    CancelDelete,
    CloseMenu,
    Copy,
    Cut,
    Paste,
    BeginRename,
    BeginMkdir,
    DeletePermanently,
    Trash,
    Ignore,
}

/// The command of key `key` with the given modifiers. While a permanent
/// delete waits for confirmation, Enter confirms, Escape cancels and every
/// other key is swallowed. Otherwise: Escape closes an open menu, Ctrl+C
/// copies, Ctrl+X cuts, Ctrl+V pastes, F2 renames, Ctrl+Shift+N makes a
/// folder, Shift+Delete deletes for good and Delete moves to the trash.
pub open spec fn key_command_of(
    key: Seq<char>,
    ctrl: bool,
    shift: bool,
    confirming_delete: bool,
    menu_open: bool,
) -> KeyCommand {
    if confirming_delete {
        if key == "enter"@ {
            KeyCommand::ConfirmDelete
        } else if key == "escape"@ {
            KeyCommand::CancelDelete
        } else {
            KeyCommand::Ignore
        }
    } else if key == "escape"@ && menu_open {
        KeyCommand::CloseMenu
    } else if ctrl && key == "c"@ {
        KeyCommand::Copy
    } else if ctrl && key == "x"@ {
        KeyCommand::Cut
    } else if ctrl && key == "v"@ {
        KeyCommand::Paste
    } else if key == "f2"@ {
        KeyCommand::BeginRename
    } else if ctrl && shift && key == "n"@ {
        KeyCommand::BeginMkdir
    } else if key == "delete"@ && shift {
        KeyCommand::DeletePermanently
    } else if key == "delete"@ {
        KeyCommand::Trash
    } else {
        KeyCommand::Ignore
    }
}

fn is_key(key: &Vec<char>, name: &str) -> (r: bool)
    ensures
        r == (key@ == name@),
{
    let n = chars_of(name);
    chars_eq(key.as_slice(), n.as_slice())
}

/// The command of a key press outside the inline editor.
pub fn key_command(key: &str, ctrl: bool, shift: bool, confirming_delete: bool, menu_open: bool) -> (r:
    KeyCommand)
    ensures
        r == key_command_of(key@, ctrl, shift, confirming_delete, menu_open),
{
    let k = chars_of(key);
    if confirming_delete {
        if is_key(&k, "enter") {
            KeyCommand::ConfirmDelete
        } else if is_key(&k, "escape") {
            KeyCommand::CancelDelete
        } else {
            KeyCommand::Ignore
        }
    } else if is_key(&k, "escape") && menu_open {
        KeyCommand::CloseMenu
    } else if ctrl && is_key(&k, "c") {
        KeyCommand::Copy
    } else if ctrl && is_key(&k, "x") {
        KeyCommand::Cut
    } else if ctrl && is_key(&k, "v") {
        KeyCommand::Paste
    } else if is_key(&k, "f2") {
        KeyCommand::BeginRename
    } else if ctrl && shift && is_key(&k, "n") {
        KeyCommand::BeginMkdir
    } else if is_key(&k, "delete") && shift {
        KeyCommand::DeletePermanently
    } else if is_key(&k, "delete") {
        KeyCommand::Trash
    } else {
        KeyCommand::Ignore
    }
}

/// What the inline editor does with a key.
#[derive(Debug, Clone, Copy, PartialEq, Eq, Structural)]
pub enum EditCommand {
    Cancel,
    Commit,
    Backspace,
    Insert,
    Ignore,
}

/// The editor's command for key `key`: Escape cancels, Enter commits,
/// Backspace deletes the last character, and a key that types a character
/// inserts it unless Control or the platform key is held.
pub open spec fn edit_command_of(key: Seq<char>, types_char: bool, control: bool, platform: bool) -> EditCommand {
    if key == "escape"@ {
        EditCommand::Cancel
    } else if key == "enter"@ {
        EditCommand::Commit
    } else if key == "backspace"@ {
        EditCommand::Backspace
    } else if types_char && !control && !platform {
        EditCommand::Insert
    } else {
        EditCommand::Ignore
    }
}

/// The inline editor's command for a key press.
pub fn edit_command(key: &str, types_char: bool, control: bool, platform: bool) -> (r: EditCommand)
    ensures
        r == edit_command_of(key@, types_char, control, platform),
{
    let k = chars_of(key);
    if is_key(&k, "escape") {
        EditCommand::Cancel
    } else if is_key(&k, "enter") {
        EditCommand::Commit
    } else if is_key(&k, "backspace") {
        EditCommand::Backspace
    } else if types_char && !control && !platform {
        EditCommand::Insert
    } else {
        EditCommand::Ignore
    }
}

/// Whether the clipboard was filled by a copy or by a cut.
#[derive(Debug, Clone, Copy, PartialEq, Eq, Structural)]
pub enum ClipMode {
    Copy,
    Cut,
}

/// What a copy or a cut put aside for pasting.
#[derive(Debug)]
pub struct Clipboard {
    pub mode: ClipMode,
    pub paths: Vec<String>,
}

/// The clipboard after a copy or cut of `paths`: those paths in that mode,
/// or the clipboard as it was when nothing was selected.
pub fn put_aside(current: Option<Clipboard>, mode: ClipMode, paths: Vec<String>) -> (r: Option<Clipboard>)
    ensures
        paths@.len() == 0 ==> r == current,
        paths@.len() > 0 ==> (r matches Some(c) && c.mode == mode && c.paths@ == paths@),
{
    if paths.len() == 0 {
        current
    } else {
        Some(Clipboard { mode, paths })
    }
}

/// Whether a paste may start: there is something to paste, and a cut does
/// not start again while an earlier cut is still moving its files.
pub fn may_paste(clip: &Option<Clipboard>, cut_in_flight: bool) -> (r: bool)
    ensures
        r == (clip matches Some(c) && !(c.mode == ClipMode::Cut && cut_in_flight)),
{
    match clip {
        None => false,
        Some(c) => !(c.mode == ClipMode::Cut && cut_in_flight),
    }
}

/// The clipboard once a paste finished: a cut whose every item moved
/// empties it; a cut with a failure keeps it for a retry, and a copy keeps
/// it for pasting again.
pub fn after_paste(current: Option<Clipboard>, was_cut: bool, all_succeeded: bool) -> (r: Option<Clipboard>)
    ensures
        was_cut && all_succeeded ==> r is None,
        !(was_cut && all_succeeded) ==> r == current,
{
    if was_cut && all_succeeded {
        None
    } else {
        current
    }
}

/// How an entry is listed: its name, with a trailing `/` for a directory.
pub open spec fn label_of(e: Entry) -> Seq<char> {
    if e.kind == EntryKind::Dir {
        e.name@.push('/')
    } else {
        e.name@
    }
}

/// The label of an entry in a listing.
pub fn entry_label(e: &Entry) -> (r: String)
    ensures
        r@ == label_of(*e),
{
    let mut s = e.name.clone();
    if e.kind == EntryKind::Dir {
        push_char(&mut s, '/');
    }
    s
}

/// The name an inline edit commits: what was typed without leading and
/// trailing whitespace, or none when nothing is left, in which case the
/// edit is dropped.
pub fn committed_name(buffer: &str) -> (r: Option<String>)
    ensures
        trimmed(buffer@).len() == 0 ==> r is None,
        trimmed(buffer@).len() > 0 ==> (r matches Some(n) && n@ == trimmed(buffer@)),
{
    let t = trim(chars_of(buffer).as_slice());
    if t.len() == 0 {
        None
    } else {
        Some(string_of(t.as_slice()))
    }
}

/// What a left click on an entry does.
#[derive(Debug, Clone, Copy, PartialEq, Eq, Structural)]
pub enum ClickCommand {
    Toggle,
    SelectRange,
    Open,
}

/// A click with Control toggles the entry, one with Shift (and no Control)
/// selects the range from the anchor, and a plain click selects the entry
/// and opens it: a directory as the next column, a file in the preview.
pub fn click_command(ctrl: bool, shift: bool) -> (r: ClickCommand)
    ensures
        r == (if ctrl {
            ClickCommand::Toggle
        } else if shift {
            ClickCommand::SelectRange
        } else {
            ClickCommand::Open
        }),
{
    if ctrl {
        ClickCommand::Toggle
    } else if shift {
        ClickCommand::SelectRange
    } else {
        ClickCommand::Open
    }
}

} // verus!
