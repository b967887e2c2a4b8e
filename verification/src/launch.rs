//! Launching: the terminal to spawn, the installed applications that open a
//! MIME type, and the command line that opens a file with one of them.
use vstd::prelude::*;

use crate::ops::{answered, split_extension, stem_and_extension};
use crate::pathmap::PathMap;
use crate::text::{
    chars_eq, chars_of, find_char, first_index_of, is_whitespace, is_ws, split, split_on, string_of,
    trim, trimmed,
};

verus! {

broadcast use vstd::string::group_string_axioms;

/// A parsed `.desktop` application entry.
#[derive(Debug, PartialEq, Eq)]
pub struct DesktopApp {
    pub name: String,
    pub exec_line: String,
    pub icon: Option<String>,
    pub path: String,
}

/// The terminals tried, in order, when `$TERMINAL` is unset or not
/// launchable.
pub open spec fn fallback(k: int) -> Seq<char> {
    if k == 0 {
        "alacritty"@
    } else if k == 1 {
        "kitty"@
    } else if k == 2 {
        "foot"@
    } else if k == 3 {
        "wezterm"@
    } else if k == 4 {
        "gnome-terminal"@
    } else {
        "xterm"@
    }
}

/// The number of fallback terminals.
pub open spec fn fallback_count() -> int {
    6
}

/// `$TERMINAL` was passed over: unset, blank once trimmed, or reported not
/// launchable.
pub open spec fn env_passed_over<F: Fn(&str) -> bool>(env: Option<&str>, f: F) -> bool {
    match env {
        None => true,
        Some(t) => trimmed(t@).len() == 0 || answered(f, trimmed(t@), false),
    }
}

/// What choosing a terminal gives: `$TERMINAL` trimmed when it is not
/// empty and reported launchable; otherwise the first fallback reported
/// launchable, every earlier one having been reported not launchable;
/// otherwise none, every fallback having been reported not launchable.
pub open spec fn terminal_outcome<F: Fn(&str) -> bool>(env: Option<&str>, launchable: F, r: Option<Vec<String>>) -> bool {
    match r {
        Some(v) => v@.len() == 1 && ({
            ||| (env matches Some(t) && trimmed(t@).len() > 0 && v@[0]@ == trimmed(t@) && answered(
                launchable,
                trimmed(t@),
                true,
            ))
            ||| (env_passed_over(env, launchable) && exists|k: int|
                0 <= k < fallback_count() && v@[0]@ == fallback(k) && answered(launchable, fallback(k), true)
                    && forall|j: int| 0 <= j < k ==> answered(launchable, #[trigger] fallback(j), false))
        }),
        None => env_passed_over(env, launchable) && forall|j: int|
            0 <= j < fallback_count() ==> answered(launchable, #[trigger] fallback(j), false),
    }
}

/// `s` may be asked about while choosing a terminal: `$TERMINAL` trimmed,
/// when that is not empty; and each fallback in turn, once `$TERMINAL` was
/// passed over and every fallback before it was reported not launchable.
pub open spec fn may_probe_terminal<F: Fn(&str) -> bool>(env: Option<&str>, launchable: F, s: Seq<char>) -> bool {
    ||| (env matches Some(t) && trimmed(t@).len() > 0 && s == trimmed(t@))
    ||| (env_passed_over(env, launchable) && exists|k: int|
        0 <= k < fallback_count() && s == #[trigger] fallback(k) && forall|j: int|
            0 <= j < k ==> answered(launchable, #[trigger] fallback(j), false))
}

/// The terminal to spawn, as an argument vector. `$TERMINAL` (trimmed) wins
/// when it is set and `launchable` reports it launchable; otherwise the first
/// fallback that `launchable` reports launchable; otherwise none.
/// `launchable` is asked only what `may_probe_terminal` allows: never an
/// empty string, `$TERMINAL` first, then the fallbacks in order, stopping
/// at the first one reported launchable.
pub fn terminal_command(env_terminal: Option<&str>, launchable: impl Fn(&str) -> bool) -> (r: Option<
    Vec<String>,
>)
    requires
        forall|s: &str| may_probe_terminal(env_terminal, launchable, s@) ==> call_requires(launchable, (s,)),
    ensures
        terminal_outcome(env_terminal, launchable, r),
{
    if let Some(t) = env_terminal {
        let tc = trim(chars_of(t).as_slice());
        if tc.len() > 0 {
            let ts = string_of(tc.as_slice());
            let ok = launchable(ts.as_str());
            if ok {
                let mut v: Vec<String> = Vec::new();
                v.push(ts);
                assert(answered(launchable, trimmed(t@), true));
                return Some(v);
            }
            assert(answered(launchable, trimmed(t@), false));
        }
    }
    assert(env_passed_over(env_terminal, launchable));
    let names: [&str; 6] = ["alacritty", "kitty", "foot", "wezterm", "gnome-terminal", "xterm"];
    let mut k: usize = 0;
    while k < 6
        invariant
            k <= 6,
            forall|s: &str| may_probe_terminal(env_terminal, launchable, s@) ==> call_requires(launchable, (s,)),
            env_passed_over(env_terminal, launchable),
            forall|j: int| 0 <= j < 6 ==> #[trigger] names@[j]@ == fallback(j),
            forall|j: int| 0 <= j < k ==> answered(launchable, #[trigger] fallback(j), false),
        decreases 6 - k,
    {
        let c = names[k];
        assert(c@ == fallback(k as int));
        assert(may_probe_terminal(env_terminal, launchable, c@));
        let ok = launchable(c);
        if ok {
            let mut v: Vec<String> = Vec::new();
            v.push(String::from_str(c));
            assert(answered(launchable, fallback(k as int), true));
            return Some(v);
        }
        assert(answered(launchable, fallback(k as int), false));
        k += 1;
    }
    None
}

/// The words of `s`: its maximal runs of non-whitespace characters, as
/// `str::split_whitespace` gives them.
pub open spec fn words(s: Seq<char>) -> Seq<Seq<char>>
    decreases s.len(),
{
    if s.len() == 0 {
        Seq::empty()
    } else {
        let w = words(s.drop_last());
        if is_ws(s.last()) {
            w
        } else if s.len() >= 2 && !is_ws(s[s.len() - 2]) {
            w.update(w.len() - 1, w.last().push(s.last()))
        } else {
            w.push(seq![s.last()])
        }
    }
}

proof fn lemma_words_nonempty(s: Seq<char>)
    ensures
        s.len() > 0 && !is_ws(s.last()) ==> words(s).len() > 0,
        s.len() > 0 && !is_ws(s.last()) ==> words(s).last().len() > 0,
    decreases s.len(),
{
    if s.len() > 0 {
        lemma_words_nonempty(s.drop_last());
    }
}

/// The words of `s`.
pub fn split_whitespace(s: &[char]) -> (r: Vec<Vec<char>>)
    ensures
        r@.len() == words(s@).len(),
        forall|i: int| 0 <= i < r@.len() ==> #[trigger] r@[i]@ == words(s@)[i],
{
    let mut r: Vec<Vec<char>> = Vec::new();
    let mut i: usize = 0;
    while i < s.len()
        invariant
            i <= s.len(),
            r@.len() == words(s@.take(i as int)).len(),
            forall|k: int| 0 <= k < r@.len() ==> #[trigger] r@[k]@ == words(s@.take(i as int))[k],
        decreases s.len() - i,
    {
        let c = s[i];
        proof {
            let t = s@.take(i + 1);
            assert(t.drop_last() =~= s@.take(i as int));
            assert(t.last() == c);
            if i > 0 {
                assert(t[i - 1] == s@.take(i as int).last());
                lemma_words_nonempty(s@.take(i as int));
            }
        }
        if !is_whitespace(c) {
            if i > 0 && !is_whitespace(s[i - 1]) {
                let last = r.len() - 1;
                let mut w = r.remove(last);
                w.push(c);
                r.push(w);
                proof {
                    let t = s@.take(i + 1);
                    assert(r@.len() == words(t).len());
                    assert forall|k: int| 0 <= k < r@.len() implies #[trigger] r@[k]@ == words(t)[k] by {}
                }
            } else {
                let mut w: Vec<char> = Vec::new();
                w.push(c);
                r.push(w);
                assert(w@ =~= seq![c]);
            }
        }
        i += 1;
    }
    assert(s@.take(s.len() as int) =~= s@);
    r
}

/// Whether a word is a field code that stands for the file.
pub open spec fn is_file_code(w: Seq<char>) -> bool {
    w == seq!['%', 'f'] || w == seq!['%', 'u'] || w == seq!['%', 'F'] || w == seq!['%', 'U']
}

/// Whether a word is a field code other than the file codes and `%%`,
/// which is dropped: a `%` and one more character.
pub open spec fn is_dropped_code(w: Seq<char>) -> bool {
    w.len() == 2 && w[0] == '%'
}

/// What one word of an `Exec=` value becomes: the file for a file code,
/// `%` for `%%`, nothing for any other field code, itself otherwise.
pub open spec fn expand_word(w: Seq<char>, file: Seq<char>) -> Seq<Seq<char>> {
    if is_file_code(w) {
        seq![file]
    } else if w == seq!['%', '%'] {
        seq![seq!['%']]
    } else if is_dropped_code(w) {
        Seq::empty()
    } else {
        seq![w]
    }
}

/// The words expanded in order.
pub open spec fn expand_words(ws: Seq<Seq<char>>, file: Seq<char>) -> Seq<Seq<char>>
    decreases ws.len(),
{
    if ws.len() == 0 {
        Seq::empty()
    } else {
        expand_words(ws.drop_last(), file) + expand_word(ws.last(), file)
    }
}

/// The argument vector that opens `file` with an application whose `Exec=`
/// value is `exec`: its words expanded, then `file` appended when no word
/// was a file code.
pub open spec fn exec_argv_of(exec: Seq<char>, file: Seq<char>) -> Seq<Seq<char>> {
    let ws = words(exec);
    if exists|i: int| 0 <= i < ws.len() && is_file_code(ws[i]) {
        expand_words(ws, file)
    } else {
        expand_words(ws, file).push(file)
    }
}

proof fn lemma_expand_passes_file(ws: Seq<Seq<char>>, file: Seq<char>, i: int)
    requires
        0 <= i < ws.len(),
        is_file_code(ws[i]),
    ensures
        expand_words(ws, file).contains(file),
    decreases ws.len(),
{
    let e = expand_words(ws, file);
    let prev = expand_words(ws.drop_last(), file);
    assert(e == prev + expand_word(ws.last(), file));
    if i == ws.len() - 1 {
        assert(e[e.len() - 1] == file);
    } else {
        assert(ws.drop_last()[i] == ws[i]);
        lemma_expand_passes_file(ws.drop_last(), file, i);
        let j = choose|j: int| 0 <= j < prev.len() && prev[j] == file;
        assert(e[j] == file);
    }
}

/// The file is always among the arguments: in place of each file code, or
/// appended when there is none.
pub proof fn law_exec_argv_passes_file(exec: Seq<char>, file: Seq<char>)
    ensures
        exec_argv_of(exec, file).contains(file),
{
    let ws = words(exec);
    if exists|i: int| 0 <= i < ws.len() && is_file_code(ws[i]) {
        let i = choose|i: int| 0 <= i < ws.len() && is_file_code(ws[i]);
        lemma_expand_passes_file(ws, file, i);
    } else {
        let e = expand_words(ws, file).push(file);
        assert(e[e.len() - 1] == file);
    }
}

fn classify_word(w: &Vec<char>) -> (r: u8)
    ensures
        r == 0 <==> is_file_code(w@),
        r == 1 <==> (!is_file_code(w@) && w@ == seq!['%', '%']),
        r == 2 <==> (!is_file_code(w@) && w@ != seq!['%', '%'] && is_dropped_code(w@)),
        r <= 3,
{
    if w.len() == 2 && w[0] == '%' {
        let c = w[1];
        proof {
            assert(w@ =~= seq!['%', c]);
        }
        if c == 'f' || c == 'u' || c == 'F' || c == 'U' {
            0
        } else if c == '%' {
            1
        } else {
            2
        }
    } else {
        proof {
            if w@.len() == 2 {
                assert(w@[0] != '%');
            }
        }
        3
    }
}

/// The argument vector that opens `file` with an application whose `Exec=`
/// value is `app_exec`: `%f`, `%u`, `%F` and `%U` become the file, `%%`
/// becomes `%`, every other `%` code is dropped, and the file is appended
/// when no file code appears.
pub fn exec_argv(app_exec: &str, file: &str) -> (r: Vec<String>)
    ensures
        r@.len() == exec_argv_of(app_exec@, file@).len(),
        forall|i: int| 0 <= i < r@.len() ==> #[trigger] r@[i]@ == exec_argv_of(app_exec@, file@)[i],
{
    let ws = split_whitespace(chars_of(app_exec).as_slice());
    let ghost wv = words(app_exec@);
    let mut out: Vec<String> = Vec::new();
    let mut had_file_code = false;
    let mut i: usize = 0;
    while i < ws.len()
        invariant
            i <= ws.len(),
            ws@.len() == wv.len(),
            forall|k: int| 0 <= k < ws@.len() ==> #[trigger] ws@[k]@ == wv[k],
            out@.len() == expand_words(wv.take(i as int), file@).len(),
            forall|k: int| 0 <= k < out@.len() ==> #[trigger] out@[k]@ == expand_words(wv.take(i as int), file@)[k],
            had_file_code == exists|k: int| 0 <= k < i && is_file_code(wv[k]),
        decreases ws.len() - i,
    {
        let w = &ws[i];
        let kind = classify_word(w);
        let ghost before = out@;
        proof {
            assert(wv.take(i + 1).drop_last() =~= wv.take(i as int));
            assert(wv.take(i + 1).last() == wv[i as int]);
        }
        if kind == 0 {
            out.push(String::from_str(file));
            had_file_code = true;
        } else if kind == 1 {
            out.push(String::from_str("%"));
            proof {
                reveal_strlit("%");
            }
        } else if kind == 3 {
            out.push(string_of(w.as_slice()));
        }
        proof {
            let ex = expand_words(wv.take(i + 1), file@);
            assert(ex == expand_words(wv.take(i as int), file@) + expand_word(wv[i as int], file@));
            assert(out@.len() == ex.len());
            assert forall|k: int| 0 <= k < out@.len() implies #[trigger] out@[k]@ == ex[k] by {
                if k < before.len() {
                    assert(out@[k] == before[k]);
                }
            }
            if kind == 0 {
                assert(is_file_code(wv[i as int]));
            }
        }
        i += 1;
    }
    assert(wv.take(ws.len() as int) =~= wv);
    if !had_file_code {
        out.push(String::from_str(file));
    }
    out
}

/// The keys of a `[Desktop Entry]` group read so far, and whether the line
/// being read is inside that group.
pub struct DesktopFields {
    pub in_group: bool,
    pub name: Option<Seq<char>>,
    pub exec_line: Option<Seq<char>>,
    pub icon: Option<Seq<char>>,
    pub mimes: Seq<char>,
    pub nodisplay: bool,
    pub hidden: bool,
}

pub open spec fn group_header() -> Seq<char> {
    seq!['[', 'D', 'e', 's', 'k', 't', 'o', 'p', ' ', 'E', 'n', 't', 'r', 'y', ']']
}

pub open spec fn key_name() -> Seq<char> {
    seq!['N', 'a', 'm', 'e']
}

pub open spec fn key_exec() -> Seq<char> {
    seq!['E', 'x', 'e', 'c']
}

pub open spec fn key_icon() -> Seq<char> {
    seq!['I', 'c', 'o', 'n']
}

pub open spec fn key_mime() -> Seq<char> {
    seq!['M', 'i', 'm', 'e', 'T', 'y', 'p', 'e']
}

pub open spec fn key_nodisplay() -> Seq<char> {
    seq!['N', 'o', 'D', 'i', 's', 'p', 'l', 'a', 'y']
}

pub open spec fn key_hidden() -> Seq<char> {
    seq!['H', 'i', 'd', 'd', 'e', 'n']
}

pub open spec fn word_true() -> Seq<char> {
    seq!['t', 'r', 'u', 'e']
}

/// Nothing read yet.
pub open spec fn no_fields() -> DesktopFields {
    DesktopFields {
        in_group: false,
        name: None,
        exec_line: None,
        icon: None,
        mimes: Seq::empty(),
        nodisplay: false,
        hidden: false,
    }
}

/// Reading one line, trimmed: a `[...]` line opens a group (the entry group
/// only for `[Desktop Entry]`); inside the entry group a `key=value` line
/// sets a plain key (the first `Name` wins, later values of the other keys
/// replace earlier ones; `NoDisplay` and `Hidden` are set when the value is
/// `true`). Other lines, localized keys and other groups change nothing.
pub open spec fn desktop_step(f: DesktopFields, raw: Seq<char>) -> DesktopFields {
    let line = trimmed(raw);
    if line.len() > 0 && line[0] == '[' {
        DesktopFields { in_group: line == group_header(), ..f }
    } else if !f.in_group {
        f
    } else {
        match first_index_of(line, '=') {
            None => f,
            Some(e) => {
                let k = trimmed(line.take(e));
                let v = trimmed(line.skip(e + 1));
                if k == key_name() && f.name is None {
                    DesktopFields { name: Some(v), ..f }
                } else if k == key_exec() {
                    DesktopFields { exec_line: Some(v), ..f }
                } else if k == key_icon() {
                    DesktopFields { icon: Some(v), ..f }
                } else if k == key_mime() {
                    DesktopFields { mimes: v, ..f }
                } else if k == key_nodisplay() {
                    DesktopFields { nodisplay: v == word_true(), ..f }
                } else if k == key_hidden() {
                    DesktopFields { hidden: v == word_true(), ..f }
                } else {
                    f
                }
            },
        }
    }
}

/// The fields after reading `lines` in order.
pub open spec fn desktop_scan(lines: Seq<Seq<char>>) -> DesktopFields
    decreases lines.len(),
{
    if lines.len() == 0 {
        no_fields()
    } else {
        desktop_step(desktop_scan(lines.drop_last()), lines.last())
    }
}

/// The application a `.desktop` file describes for `mime`, as its name,
/// command line and icon: none when it is marked `NoDisplay` or `Hidden`,
/// when its `MimeType=` list (separated by `;`) does not hold `mime`, or
/// when it lacks a name or a command line. The file is read line by line,
/// a line ending at each newline; a carriage return before it is trimmed
/// away as whitespace.
pub open spec fn desktop_entry_of(content: Seq<char>, mime: Seq<char>) -> Option<
    (Seq<char>, Seq<char>, Option<Seq<char>>),
> {
    let f = desktop_scan(split_on(content, '\n'));
    if f.nodisplay || f.hidden {
        None
    } else if !split_on(f.mimes, ';').contains(mime) {
        None
    } else {
        match (f.name, f.exec_line) {
            (Some(n), Some(e)) => Some((n, e, f.icon)),
            _ => None,
        }
    }
}

pub open spec fn opt_view(o: Option<Vec<char>>) -> Option<Seq<char>> {
    match o {
        Some(v) => Some(v@),
        None => None,
    }
}

pub open spec fn opt_string_view(o: Option<String>) -> Option<Seq<char>> {
    match o {
        Some(v) => Some(v@),
        None => None,
    }
}

fn opt_string(o: &Option<Vec<char>>) -> (r: Option<String>)
    ensures
        opt_string_view(r) == opt_view(*o),
{
    match o {
        Some(v) => Some(string_of(v.as_slice())),
        None => None,
    }
}

/// What stands before and after index `e` of `s`.
fn around(s: &[char], e: usize) -> (r: (Vec<char>, Vec<char>))
    requires
        e < s@.len(),
    ensures
        r.0@ == s@.take(e as int),
        r.1@ == s@.skip(e + 1),
{
    let mut head: Vec<char> = Vec::new();
    let mut j: usize = 0;
    while j < e
        invariant
            j <= e < s@.len(),
            head@ == s@.take(j as int),
        decreases e - j,
    {
        head.push(s[j]);
        assert(head@ =~= s@.take(j + 1));
        j += 1;
    }
    let mut tail: Vec<char> = Vec::new();
    let n = s.len();
    let mut k: usize = e + 1;
    while k < s.len()
        invariant
            e + 1 <= k <= s@.len(),
            tail@ == s@.subrange(e + 1, k as int),
        decreases s.len() - k,
    {
        tail.push(s[k]);
        assert(tail@ =~= s@.subrange(e + 1, k + 1));
        k += 1;
    }
    assert(tail@ =~= s@.skip(e + 1));
    (head, tail)
}

/// Parses the `.desktop` file at `path` whose text is `content`, for the
/// MIME type `mime`.
pub fn parse_desktop_entry(content: &str, mime: &str, path: &str) -> (r: Option<DesktopApp>)
    ensures
        match r {
            Some(app) => desktop_entry_of(content@, mime@) == Some(
                (app.name@, app.exec_line@, opt_string_view(app.icon)),
            ) && app.path@ == path@,
            None => desktop_entry_of(content@, mime@) is None,
        },
{
    let lines = split(chars_of(content).as_slice(), '\n');
    let ghost ls = split_on(content@, '\n');
    let header = vec!['[', 'D', 'e', 's', 'k', 't', 'o', 'p', ' ', 'E', 'n', 't', 'r', 'y', ']'];
    let k_name = vec!['N', 'a', 'm', 'e'];
    let k_exec = vec!['E', 'x', 'e', 'c'];
    let k_icon = vec!['I', 'c', 'o', 'n'];
    let k_mime = vec!['M', 'i', 'm', 'e', 'T', 'y', 'p', 'e'];
    let k_nodisplay = vec!['N', 'o', 'D', 'i', 's', 'p', 'l', 'a', 'y'];
    let k_hidden = vec!['H', 'i', 'd', 'd', 'e', 'n'];
    let w_true = vec!['t', 'r', 'u', 'e'];
    let mut in_group = false;
    let mut name: Option<Vec<char>> = None;
    let mut exec_line: Option<Vec<char>> = None;
    let mut icon: Option<Vec<char>> = None;
    let mut mimes: Vec<char> = Vec::new();
    let mut nodisplay = false;
    let mut hidden = false;
    let mut i: usize = 0;
    while i < lines.len()
        invariant
            i <= lines.len(),
            lines@.len() == ls.len(),
            forall|k: int| 0 <= k < lines@.len() ==> #[trigger] lines@[k]@ == ls[k],
            header@ == group_header(),
            k_name@ == key_name(),
            k_exec@ == key_exec(),
            k_icon@ == key_icon(),
            k_mime@ == key_mime(),
            k_nodisplay@ == key_nodisplay(),
            k_hidden@ == key_hidden(),
            w_true@ == word_true(),
            desktop_scan(ls.take(i as int)) == (DesktopFields {
                in_group,
                name: opt_view(name),
                exec_line: opt_view(exec_line),
                icon: opt_view(icon),
                mimes: mimes@,
                nodisplay,
                hidden,
            }),
        decreases lines.len() - i,
    {
        proof {
            assert(ls.take(i + 1).drop_last() =~= ls.take(i as int));
            assert(ls.take(i + 1).last() == ls[i as int]);
        }
        let line = trim(lines[i].as_slice());
        if line.len() > 0 && line[0] == '[' {
            in_group = chars_eq(line.as_slice(), header.as_slice());
        } else if in_group {
            match find_char(line.as_slice(), '=') {
                None => {},
                Some(e) => {
                    let (head, tail) = around(line.as_slice(), e);
                    let k = trim(head.as_slice());
                    let v = trim(tail.as_slice());
                    if chars_eq(k.as_slice(), k_name.as_slice()) && name.is_none() {
                        name = Some(v);
                    } else if chars_eq(k.as_slice(), k_exec.as_slice()) {
                        exec_line = Some(v);
                    } else if chars_eq(k.as_slice(), k_icon.as_slice()) {
                        icon = Some(v);
                    } else if chars_eq(k.as_slice(), k_mime.as_slice()) {
                        mimes = v;
                    } else if chars_eq(k.as_slice(), k_nodisplay.as_slice()) {
                        nodisplay = chars_eq(v.as_slice(), w_true.as_slice());
                    } else if chars_eq(k.as_slice(), k_hidden.as_slice()) {
                        hidden = chars_eq(v.as_slice(), w_true.as_slice());
                    }
                },
            }
        }
        i += 1;
    }
    assert(ls.take(lines.len() as int) =~= ls);
    if nodisplay || hidden {
        return None;
    }
    let mime_c = chars_of(mime);
    let parts = split(mimes.as_slice(), ';');
    let ghost ps = split_on(mimes@, ';');
    let mut found = false;
    let mut m: usize = 0;
    while m < parts.len()
        invariant
            m <= parts.len(),
            parts@.len() == ps.len(),
            forall|k: int| 0 <= k < parts@.len() ==> #[trigger] parts@[k]@ == ps[k],
            mime_c@ == mime@,
            found == exists|k: int| 0 <= k < m && ps[k] == mime@,
        decreases parts.len() - m,
    {
        if chars_eq(parts[m].as_slice(), mime_c.as_slice()) {
            found = true;
        }
        m += 1;
    }
    if !found {
        return None;
    }
    match (name, exec_line) {
        (Some(n), Some(x)) => {
            let ic = opt_string(&icon);
            Some(
                DesktopApp {
                    name: string_of(n.as_slice()),
                    exec_line: string_of(x.as_slice()),
                    icon: ic,
                    path: String::from_str(path),
                },
            )
        },
        _ => None,
    }
}

/// The characters `desktop`.
pub open spec fn desktop_ext() -> Seq<char> {
    seq!['d', 'e', 's', 'k', 't', 'o', 'p']
}

/// The stem of a file name with the extension `desktop`, if it has that
/// extension.
pub open spec fn desktop_stem_of(name: Seq<char>) -> Option<Seq<char>> {
    let (stem, ext) = stem_and_extension(name);
    if ext == Some(desktop_ext()) {
        Some(stem)
    } else {
        None
    }
}

/// The stem of `file_name` when its extension is `desktop`.
pub fn desktop_stem(file_name: &str) -> (r: Option<String>)
    ensures
        match r {
            Some(s) => desktop_stem_of(file_name@) == Some(s@),
            None => desktop_stem_of(file_name@) is None,
        },
{
    let (stem, ext) = split_extension(chars_of(file_name).as_slice());
    let d = vec!['d', 'e', 's', 'k', 't', 'o', 'p'];
    match ext {
        Some(e) => if chars_eq(e.as_slice(), d.as_slice()) {
            Some(string_of(stem.as_slice()))
        } else {
            None
        },
        None => None,
    }
}

/// The `.desktop` stems met so far in a scan of application directories in
/// priority order: the first file of a stem is the one read, and it shadows
/// every later file of that stem, whether or not it turns out to match.
pub struct StemFilter {
    seen: PathMap<bool>,
}

impl StemFilter {
    /// The stems met so far.
    pub closed spec fn view(self) -> Set<Seq<char>> {
        self.seen.view().dom()
    }

    /// A scan that has met no stem.
    pub fn new() -> (f: Self)
        ensures
            f.view() == Set::<Seq<char>>::empty(),
    {
        let f = StemFilter { seen: PathMap::new() };
        assert(f.view() =~= Set::<Seq<char>>::empty());
        f
    }

    /// Whether the file `file_name` is to be read: it is a `.desktop` file
    /// whose stem has not been met. Its stem is met from now on.
    pub fn should_read(&mut self, file_name: &str) -> (r: bool)
        ensures
            match desktop_stem_of(file_name@) {
                Some(stem) => {
                    &&& r == !old(self).view().contains(stem)
                    &&& final(self).view() == old(self).view().insert(stem)
                },
                None => !r && final(self).view() == old(self).view(),
            },
    {
        match desktop_stem(file_name) {
            None => false,
            Some(stem) => {
                let fresh = !self.seen.contains_key(stem.as_str());
                let ghost k = stem@;
                self.seen.insert(stem, true);
                assert(self.view() =~= old(self).view().insert(k));
                fresh
            },
        }
    }
}

impl Clone for DesktopApp {
    fn clone(&self) -> (r: Self)
        ensures
            r == *self,
    {
        DesktopApp {
            name: self.name.clone(),
            exec_line: self.exec_line.clone(),
            icon: match &self.icon {
                Some(i) => Some(i.clone()),
                None => None,
            },
            path: self.path.clone(),
        }
    }
}

/// `f` answers `b` about `s`, and never the opposite.
pub open spec fn decides<F: Fn(&str) -> bool>(f: F, s: Seq<char>, b: bool) -> bool {
    answered(f, s, b) && !answered(f, s, !b)
}

/// The terminals tried when `$TERMINAL` does not name a launchable one,
/// in order.
pub open spec fn terminals_tried() -> Seq<Seq<char>> {
    seq!["alacritty"@, "kitty"@, "foot"@, "wezterm"@, "gnome-terminal"@, "xterm"@]
}

/// `$TERMINAL`, trimmed, wins when it is not empty and is launchable.
pub proof fn law_launchable_env_terminal_wins<F: Fn(&str) -> bool>(
    env: Option<&str>,
    launchable: F,
    r: Option<Vec<String>>,
)
    requires
        terminal_outcome(env, launchable, r),
        env matches Some(t) && trimmed(t@).len() > 0 && decides(launchable, trimmed(t@), true),
    ensures
        r matches Some(v) && v@.len() == 1 && v@[0]@ == trimmed(env->0@),
{
}

/// When `$TERMINAL` is unset, blank, or not launchable, the terminal chosen
/// is the first of alacritty, kitty, foot, wezterm, gnome-terminal and xterm
/// that is launchable: when the one at position `k` is launchable and none
/// before it is, it is the one chosen; when none of them is, there is none.
pub proof fn law_first_launchable_fallback_is_chosen<F: Fn(&str) -> bool>(
    env: Option<&str>,
    launchable: F,
    k: int,
    r: Option<Vec<String>>,
)
    requires
        terminal_outcome(env, launchable, r),
        env matches Some(t) ==> trimmed(t@).len() == 0 || decides(launchable, trimmed(t@), false),
        0 <= k <= 6,
        forall|j: int| 0 <= j < k ==> decides(launchable, #[trigger] terminals_tried()[j], false),
        k < 6 ==> decides(launchable, terminals_tried()[k], true),
    ensures
        k < 6 ==> (r matches Some(v) && v@.len() == 1 && v@[0]@ == terminals_tried()[k]),
        k == 6 ==> r is None,
{
    assert forall|j: int| 0 <= j < 6 implies fallback(j) == #[trigger] terminals_tried()[j] by {
    }
    match r {
        Some(v) => {
            let m = choose|m: int|
                0 <= m < fallback_count() && v@[0]@ == fallback(m) && answered(launchable, fallback(m), true)
                    && forall|j: int| 0 <= j < m ==> answered(launchable, #[trigger] fallback(j), false);
            if m < k {
                assert(decides(launchable, terminals_tried()[m], false));
            } else if m > k {
                assert(answered(launchable, fallback(k), false));
            }
        },
        None => {
            if k < 6 {
                assert(answered(launchable, fallback(k), false));
            }
        },
    }
}

/// `raw` is a group header line: once trimmed, it starts with `[`.
pub open spec fn is_group_header(raw: Seq<char>) -> bool {
    trimmed(raw).len() > 0 && trimmed(raw)[0] == '['
}

/// `f` and `g` hold the same keys.
pub open spec fn same_keys(f: DesktopFields, g: DesktopFields) -> bool {
    &&& f.name == g.name
    &&& f.exec_line == g.exec_line
    &&& f.icon == g.icon
    &&& f.mimes == g.mimes
    &&& f.nodisplay == g.nodisplay
    &&& f.hidden == g.hidden
}

/// Only the `[Desktop Entry]` group is read: a group header opens that
/// group exactly when it is `[Desktop Entry]`, and changes no key; and a
/// line outside that group changes nothing.
pub proof fn law_only_the_entry_group_is_read(f: DesktopFields, raw: Seq<char>)
    ensures
        is_group_header(raw) ==> desktop_step(f, raw).in_group == (trimmed(raw) == seq![
            '[',
            'D',
            'e',
            's',
            'k',
            't',
            'o',
            'p',
            ' ',
            'E',
            'n',
            't',
            'r',
            'y',
            ']',
        ]) && same_keys(desktop_step(f, raw), f),
        !is_group_header(raw) && !f.in_group ==> desktop_step(f, raw) == f,
{
}

/// The lines of any other group, such as `[Desktop Action new-window]`,
/// change no key: reading a header that is not `[Desktop Entry]` and then
/// lines without a header leaves every key as it was before that header.
pub proof fn law_other_groups_change_no_key(ls: Seq<Seq<char>>, header: Seq<char>, rest: Seq<Seq<char>>)
    requires
        is_group_header(header),
        trimmed(header) != group_header(),
        forall|i: int| 0 <= i < rest.len() ==> !is_group_header(#[trigger] rest[i]),
    ensures
        same_keys(desktop_scan(ls.push(header) + rest), desktop_scan(ls)),
        !desktop_scan(ls.push(header) + rest).in_group,
    decreases rest.len(),
{
    if rest.len() == 0 {
        assert(ls.push(header) + rest =~= ls.push(header));
        assert(ls.push(header).drop_last() =~= ls);
    } else {
        let shorter = rest.drop_last();
        law_other_groups_change_no_key(ls, header, shorter);
        let all = ls.push(header) + rest;
        assert(all.drop_last() =~= ls.push(header) + shorter);
        assert(all.last() == rest.last());
        assert(!is_group_header(rest[rest.len() - 1]));
    }
}

} // verus!
