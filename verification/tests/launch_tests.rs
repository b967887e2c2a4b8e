use std::collections::HashSet;

use mirufm_core::launch::{
    desktop_stem, exec_argv, parse_desktop_entry, split_whitespace, terminal_command, DesktopApp,
    StemFilter,
};

fn exists_set(names: &[&str]) -> impl Fn(&str) -> bool {
    let set: HashSet<String> = names.iter().map(|s| s.to_string()).collect();
    move |n: &str| set.contains(n)
}

#[test]
fn terminal_command_prefers_env_when_present() {
    let cmd = terminal_command(Some("kitty"), exists_set(&["kitty", "xterm"]));
    assert_eq!(cmd, Some(vec!["kitty".to_string()]));
}

#[test]
fn terminal_command_falls_back_through_list() {
    let cmd = terminal_command(None, exists_set(&["foot", "xterm"]));
    assert_eq!(cmd, Some(vec!["foot".to_string()]));
}

#[test]
fn terminal_command_env_missing_falls_back() {
    let cmd = terminal_command(Some("myterm"), exists_set(&["xterm"]));
    assert_eq!(cmd, Some(vec!["xterm".to_string()]));
}

#[test]
fn terminal_command_returns_none_when_nothing_found() {
    let cmd = terminal_command(None, exists_set(&[]));
    assert_eq!(cmd, None);
}

#[test]
fn terminal_command_trims_env_value() {
    let cmd = terminal_command(Some("  kitty \n"), exists_set(&["kitty"]));
    assert_eq!(cmd, Some(vec!["kitty".to_string()]));
    let blank = terminal_command(Some("   "), exists_set(&["   ", "alacritty"]));
    assert_eq!(blank, Some(vec!["alacritty".to_string()]));
}

#[test]
fn exec_argv_substitutes_single_file_codes() {
    let f = "/tmp/a.pdf";
    assert_eq!(exec_argv("reader %f", f), vec!["reader", "/tmp/a.pdf"]);
    assert_eq!(exec_argv("reader %u", f), vec!["reader", "/tmp/a.pdf"]);
}

#[test]
fn exec_argv_substitutes_multi_file_codes() {
    let f = "/tmp/a.pdf";
    assert_eq!(exec_argv("v %F", f), vec!["v", "/tmp/a.pdf"]);
    assert_eq!(exec_argv("v %U", f), vec!["v", "/tmp/a.pdf"]);
}

#[test]
fn exec_argv_strips_unknown_field_codes() {
    let f = "/tmp/a.pdf";
    assert_eq!(exec_argv("app %i %c %k", f), vec!["app", "/tmp/a.pdf"]);
    assert_eq!(exec_argv("app %%", f), vec!["app", "%", "/tmp/a.pdf"]);
    assert_eq!(exec_argv("app %x", f), vec!["app", "/tmp/a.pdf"]);
    assert_eq!(exec_argv("app %x %f", f), vec!["app", "/tmp/a.pdf"]);
}

#[test]
fn exec_argv_appends_file_when_no_code() {
    let f = "/tmp/a.pdf";
    assert_eq!(exec_argv("editor", f), vec!["editor", "/tmp/a.pdf"]);
}

#[test]
fn exec_argv_keeps_other_words_and_repeats_file_codes() {
    let f = "/x";
    assert_eq!(
        exec_argv("  env  --flag %f   %U ", f),
        vec!["env", "--flag", "/x", "/x"]
    );
    assert_eq!(exec_argv("", f), vec!["/x"]);
    assert_eq!(exec_argv("a %d %D %n %N %v %m b", f), vec!["a", "b", "/x"]);
}

#[test]
fn split_whitespace_gives_words() {
    let s: Vec<char> = " ab\tc  d ".chars().collect();
    let words: Vec<String> = split_whitespace(&s)
        .into_iter()
        .map(|w| w.into_iter().collect())
        .collect();
    assert_eq!(words, vec!["ab", "c", "d"]);
}

/// The `.desktop` scan over in-memory directories, each a list of
/// (file name, contents), in priority order.
fn scan(mime: &str, dirs: &[Vec<(&str, &str)>]) -> Vec<DesktopApp> {
    let mut seen = StemFilter::new();
    let mut out = Vec::new();
    for (d, dir) in dirs.iter().enumerate() {
        for (file, content) in dir {
            if !seen.should_read(file) {
                continue;
            }
            let path = format!("/apps{}/{}", d, file);
            if let Some(app) = parse_desktop_entry(content, mime, &path) {
                out.push(app);
            }
        }
    }
    out
}

#[test]
fn desktop_entry_matches_declared_type() {
    let apps = scan(
        "application/pdf",
        &[vec![(
            "reader.desktop",
            "[Desktop Entry]\nName=Reader\nExec=reader %f\nMimeType=application/pdf;text/plain;\n",
        )]],
    );
    assert_eq!(apps.len(), 1);
    assert_eq!(apps[0].name, "Reader");
    assert_eq!(apps[0].exec_line, "reader %f");
    assert_eq!(apps[0].icon, None);
    assert_eq!(apps[0].path, "/apps0/reader.desktop");
}

#[test]
fn desktop_entry_skips_nonmatching_and_malformed() {
    let apps = scan(
        "application/pdf",
        &[vec![
            (
                "other.desktop",
                "[Desktop Entry]\nName=Other\nExec=other %f\nMimeType=image/png;\n",
            ),
            ("junk.desktop", "not a desktop file at all"),
            ("notdesktop.txt", "[Desktop Entry]\nMimeType=application/pdf;\n"),
        ]],
    );
    assert!(apps.is_empty());
}

#[test]
fn desktop_entry_skips_nodisplay_and_hidden() {
    let apps = scan(
        "application/pdf",
        &[vec![
            (
                "hiddenone.desktop",
                "[Desktop Entry]\nName=Hidden\nExec=h %f\nMimeType=application/pdf;\nNoDisplay=true\n",
            ),
            (
                "gone.desktop",
                "[Desktop Entry]\nName=Gone\nExec=g %f\nMimeType=application/pdf;\nHidden=true\n",
            ),
        ]],
    );
    assert!(apps.is_empty());
}

#[test]
fn desktop_entry_dedupes_by_stem() {
    let apps = scan(
        "application/pdf",
        &[
            vec![(
                "reader.desktop",
                "[Desktop Entry]\nName=UserReader\nExec=ureader %f\nMimeType=application/pdf;\n",
            )],
            vec![(
                "reader.desktop",
                "[Desktop Entry]\nName=SystemReader\nExec=sreader %f\nMimeType=application/pdf;\n",
            )],
        ],
    );
    assert_eq!(apps.len(), 1);
    assert_eq!(apps[0].name, "UserReader");
}

#[test]
fn shadowing_entry_hides_later_ones_even_when_not_matching() {
    let apps = scan(
        "application/pdf",
        &[
            vec![(
                "reader.desktop",
                "[Desktop Entry]\nName=UserReader\nExec=ureader %f\nMimeType=image/png;\n",
            )],
            vec![(
                "reader.desktop",
                "[Desktop Entry]\nName=SystemReader\nExec=sreader %f\nMimeType=application/pdf;\n",
            )],
        ],
    );
    assert!(apps.is_empty());
}

#[test]
fn parse_desktop_entry_reads_only_the_main_group() {
    let content = "[Desktop Action new]\nName=Action\nExec=act\n\n[Desktop Entry]\n  Name = Viewer \nName=Second\nExec=view %U\nIcon=viewer\nMimeType=text/plain;image/png\n[Other]\nExec=wrong\n";
    let app = parse_desktop_entry(content, "image/png", "/a/viewer.desktop").unwrap();
    assert_eq!(app.name, "Viewer");
    assert_eq!(app.exec_line, "view %U");
    assert_eq!(app.icon, Some("viewer".to_string()));
    assert_eq!(app.path, "/a/viewer.desktop");
}

#[test]
fn parse_desktop_entry_needs_name_and_exec() {
    let no_exec = "[Desktop Entry]\nName=X\nMimeType=text/plain;\n";
    assert_eq!(parse_desktop_entry(no_exec, "text/plain", "/x.desktop"), None);
    let no_name = "[Desktop Entry]\nExec=x\nMimeType=text/plain;\n";
    assert_eq!(parse_desktop_entry(no_name, "text/plain", "/x.desktop"), None);
}

#[test]
fn nodisplay_false_keeps_the_entry() {
    let content = "[Desktop Entry]\nName=X\nExec=x\nMimeType=text/plain;\nNoDisplay=false\n";
    assert!(parse_desktop_entry(content, "text/plain", "/x.desktop").is_some());
}

#[test]
fn desktop_stem_needs_desktop_extension() {
    assert_eq!(desktop_stem("reader.desktop"), Some("reader".to_string()));
    assert_eq!(desktop_stem("a.b.desktop"), Some("a.b".to_string()));
    assert_eq!(desktop_stem("reader.txt"), None);
    assert_eq!(desktop_stem("desktop"), None);
    assert_eq!(desktop_stem(".desktop"), None);
}

#[test]
fn stem_filter_reads_each_stem_once() {
    let mut f = StemFilter::new();
    assert!(f.should_read("a.desktop"));
    assert!(!f.should_read("a.desktop"));
    assert!(f.should_read("b.desktop"));
    assert!(!f.should_read("c.txt"));
}
