use desktop_entries::command::cleanup_exec;
use desktop_entries::entry::{extract_desktop, parse_desktop_files, Desktop, DesktopFields};
use desktop_entries::listing::{dedup_by_name, filter, keep_matching};
use desktop_entries::order::{lex_less, sort_by_lowercase_name};
use desktop_entries::paths::{find_data_dirs, is_desktop_file, split_on_colons};
use desktop_entries::pipeline::{
    build_listing, clean_commands, list_entries, parse_args, render_line, render_text,
};

fn s(x: &str) -> String {
    x.to_string()
}

fn desktop(name: &str, command: &str) -> Desktop {
    Desktop { name: s(name), categories: String::new(), command: s(command), icon: String::new() }
}

fn fields(name: Option<&str>, command: Option<&str>) -> DesktopFields {
    DesktopFields {
        name: name.map(s),
        command: command.map(s),
        categories: None,
        icon: None,
        no_display: None,
        terminal: None,
    }
}

fn names(v: &[Desktop]) -> Vec<String> {
    v.iter().map(|d| d.name.clone()).collect()
}

fn file(text: &str) -> Vec<u8> {
    text.as_bytes().to_vec()
}

#[test]
fn extract_fills_defaults() {
    let d = extract_desktop(fields(Some("Firefox"), Some("firefox %u"))).unwrap();
    assert_eq!(d.name, "Firefox");
    assert_eq!(d.command, "firefox %u");
    assert_eq!(d.categories, "");
    assert_eq!(d.icon, "");
}

#[test]
fn extract_keeps_optional_fields() {
    let mut f = fields(Some("Files"), Some("nautilus"));
    f.categories = Some(s("System;Utility;"));
    f.icon = Some(s("folder"));
    let d = extract_desktop(f).unwrap();
    assert_eq!(d.categories, "System;Utility;");
    assert_eq!(d.icon, "folder");
}

#[test]
fn extract_needs_name_and_exec() {
    assert!(extract_desktop(fields(None, Some("x"))).is_none());
    assert!(extract_desktop(fields(Some("X"), None)).is_none());
}

#[test]
fn no_display_true_hides() {
    let mut f = fields(Some("Hidden"), Some("hidden"));
    f.no_display = Some(s("true"));
    f.terminal = Some(s("true"));
    assert!(extract_desktop(f).is_none());
}

#[test]
fn no_display_other_spellings_do_not_hide() {
    for v in ["TRUE", "1", "false", "True"] {
        let mut f = fields(Some("Shown"), Some("shown"));
        f.no_display = Some(s(v));
        assert!(extract_desktop(f).is_some(), "{}", v);
    }
}

#[test]
fn terminal_true_prefixes_command() {
    let mut f = fields(Some("htop"), Some("htop"));
    f.terminal = Some(s("true"));
    assert_eq!(extract_desktop(f).unwrap().command, "alacritty -e htop");
    let mut g = fields(Some("htop"), Some("htop"));
    g.terminal = Some(s("yes"));
    assert_eq!(extract_desktop(g).unwrap().command, "htop");
}

#[test]
fn cleanup_removes_field_codes() {
    assert_eq!(cleanup_exec(s("firefox %u")), "firefox ");
    assert_eq!(cleanup_exec(s("app %f %F %U x")), "app    x");
    assert_eq!(cleanup_exec(s("a%zb%Zc%yd")), "abcd");
    assert_eq!(cleanup_exec(s("keep %k %c %i 100%")), "keep %k %c %i 100%");
    assert_eq!(cleanup_exec(s("")), "");
}

#[test]
fn cleanup_removes_codes_one_after_another() {
    // removing %u joins the % before it to the f after it; %f was removed already
    assert_eq!(cleanup_exec(s("%%uf")), "%f");
    // removing %f joins %u, removed afterwards
    assert_eq!(cleanup_exec(s("%%fu")), "");
}

#[test]
fn cleanup_keeps_terminal_prefix() {
    let mut f = fields(Some("top"), Some("top %F"));
    f.terminal = Some(s("true"));
    let d = extract_desktop(f).unwrap();
    assert_eq!(cleanup_exec(d.command), "alacritty -e top ");
}

#[test]
fn parse_reads_desktop_entry_section() {
    let files = vec![
        file("[Desktop Entry]\nName=Editor\nExec=edit %F\nIcon=ed\nCategories=Dev;\n"),
        file("[Other]\nName=Nope\nExec=nope\n"),
        file("[Desktop Entry]\nName=NoExec\n"),
        file("[Desktop Entry]\nName=Gone\nExec=gone\nNoDisplay=true\n"),
    ];
    let out = parse_desktop_files(files);
    assert_eq!(out.len(), 1);
    assert_eq!(out[0].name, "Editor");
    assert_eq!(out[0].command, "edit %F");
    assert_eq!(out[0].icon, "ed");
    assert_eq!(out[0].categories, "Dev;");
}

#[test]
fn parse_uses_unlocalized_name() {
    let out = parse_desktop_files(vec![file(
        "[Desktop Entry]\nName[de]=Rechner\nName=Calculator\nExec=calc\n",
    )]);
    assert_eq!(names(&out), vec![s("Calculator")]);
}

#[test]
fn dedup_last_wins() {
    let out = dedup_by_name(vec![
        desktop("A", "first"),
        desktop("B", "b"),
        desktop("A", "second"),
        desktop("A", "third"),
    ]);
    assert_eq!(out.len(), 2);
    let a = out.iter().find(|d| d.name == "A").unwrap();
    assert_eq!(a.command, "third");
}

#[test]
fn dedup_of_empty_is_empty() {
    assert!(dedup_by_name(Vec::new()).is_empty());
}

#[test]
fn sort_is_case_insensitive() {
    let out = sort_by_lowercase_name(vec![
        desktop("Zed", "z"),
        desktop("apple", "a"),
        desktop("Banana", "b"),
    ]);
    assert_eq!(names(&out), vec![s("apple"), s("Banana"), s("Zed")]);
}

#[test]
fn sort_is_stable_for_equal_keys() {
    let out = sort_by_lowercase_name(vec![
        desktop("b", "1"),
        desktop("FOO", "2"),
        desktop("a", "3"),
        desktop("foo", "4"),
    ]);
    assert_eq!(names(&out), vec![s("a"), s("b"), s("FOO"), s("foo")]);
}

#[test]
fn lex_less_orders_by_code_point() {
    assert!(lex_less("abc", "abd"));
    assert!(lex_less("ab", "abc"));
    assert!(!lex_less("abc", "abc"));
    assert!(!lex_less("b", "abc"));
    assert!(lex_less("", "a"));
    assert!(lex_less("Z", "a"));
}

#[test]
fn filter_keeps_fuzzy_matches_in_order() {
    let input = vec![desktop("Firefox", "f"), desktop("htop", "h"), desktop("Files", "n")];
    let out = filter(input, "fi");
    assert_eq!(names(&out), vec![s("Firefox"), s("Files")]);
}

#[test]
fn filter_with_empty_term_keeps_all() {
    let input = vec![desktop("b", "b"), desktop("a", "a")];
    assert_eq!(names(&filter(input, "")), vec![s("b"), s("a")]);
}

#[test]
fn keep_matching_follows_scores() {
    let input = vec![desktop("x", "1"), desktop("y", "2"), desktop("z", "3")];
    let out = keep_matching(input, vec![Some(5), None, Some(-1)]);
    assert_eq!(names(&out), vec![s("x"), s("z")]);
}

#[test]
fn filtered_listing_is_subset() {
    let make = || {
        vec![desktop("Firefox", "firefox"), desktop("htop", "htop"), desktop("Thunderbird", "tb")]
    };
    let all = names(&build_listing(make(), None));
    let some = names(&build_listing(make(), Some(s("fox"))));
    assert!(!some.is_empty());
    assert!(some.len() < all.len());
    for n in &some {
        assert!(all.contains(n));
    }
}

#[test]
fn args_without_query() {
    let r = parse_args(vec![s("prog")]);
    assert!(!r.json);
    assert!(r.query.is_none());
}

#[test]
fn args_with_query_and_json() {
    let r = parse_args(vec![s("prog"), s("--json"), s("fire")]);
    assert!(r.json);
    assert_eq!(r.query, Some(s("fire")));
    let r = parse_args(vec![s("prog"), s("fire"), s("--json")]);
    assert!(r.json);
    assert_eq!(r.query, Some(s("fire")));
}

#[test]
fn args_with_two_positionals_do_not_filter() {
    let r = parse_args(vec![s("prog"), s("a"), s("b")]);
    assert!(!r.json);
    assert!(r.query.is_none());
}

#[test]
fn args_remove_only_first_json() {
    let r = parse_args(vec![s("prog"), s("--json"), s("--json")]);
    assert!(r.json);
    assert_eq!(r.query, Some(s("--json")));
}

#[test]
fn data_dirs_from_configuration() {
    let r = find_data_dirs("applications", Some(s("/a:/b")), None, Some(s("/home/u"))).unwrap();
    assert_eq!(
        r,
        vec![s("/a/applications"), s("/b/applications"), s("/home/u/.local/share/applications")]
    );
}

#[test]
fn data_dirs_defaults() {
    let r = find_data_dirs("applications", None, Some(s("/data")), None).unwrap();
    assert_eq!(r, vec![s("/usr/share/applications"), s("/data/applications")]);
}

#[test]
fn data_dirs_without_home_fail() {
    assert!(find_data_dirs("applications", Some(s("/a")), None, None).is_none());
}

#[test]
fn split_keeps_empty_pieces() {
    assert_eq!(split_on_colons(""), vec![s("")]);
    assert_eq!(split_on_colons("a::b:"), vec![s("a"), s(""), s("b"), s("")]);
}

#[test]
fn desktop_file_names() {
    assert!(is_desktop_file("firefox.desktop"));
    assert!(is_desktop_file("..desktop"));
    assert!(!is_desktop_file(".desktop"));
    assert!(!is_desktop_file("a.desktop.bak"));
    assert!(!is_desktop_file("a.Desktop"));
    assert!(!is_desktop_file("desktop"));
}

#[test]
fn clean_commands_strips_each() {
    let out = clean_commands(vec![desktop("a", "x %u"), desktop("b", "y %F z")]);
    assert_eq!(out[0].command, "x ");
    assert_eq!(out[1].command, "y  z");
}

#[test]
fn render_line_uses_tabs() {
    let mut d = desktop("Files", "nautilus");
    d.categories = s("System;");
    assert_eq!(render_line(&d), "Files\tSystem;\tnautilus");
}

#[test]
fn end_to_end_firefox_and_htop() {
    let files = vec![
        file("[Desktop Entry]\nName=htop\nExec=htop\nTerminal=true\n"),
        file("[Desktop Entry]\nName=Firefox\nExec=firefox %u\n"),
    ];
    let out = list_entries(files, None);
    let lines = render_text(&out);
    assert_eq!(lines, vec![s("Firefox\t\tfirefox "), s("htop\t\talacritty -e htop")]);
}

#[test]
fn end_to_end_duplicates_keep_last() {
    let files = vec![
        file("[Desktop Entry]\nName=Term\nExec=old\n"),
        file("[Desktop Entry]\nName=Term\nExec=new %f\nIcon=t\n"),
        file("[Desktop Entry]\nName=Hidden\nExec=h\nNoDisplay=true\n"),
    ];
    let out = list_entries(files, None);
    assert_eq!(out.len(), 1);
    assert_eq!(out[0].command, "new ");
    assert_eq!(out[0].icon, "t");
}

#[test]
fn end_to_end_is_reproducible() {
    let make = || {
        vec![
            file("[Desktop Entry]\nName=b\nExec=b\n"),
            file("[Desktop Entry]\nName=A\nExec=a %U\n"),
        ]
    };
    let first = render_text(&list_entries(make(), None));
    let second = render_text(&list_entries(make(), None));
    assert_eq!(first, second);
}

#[test]
fn parse_skips_unparsable_descriptor() {
    let mut bad = file("[Desktop Entry]\nName=Broken\nExec=");
    bad.push(0xff);
    bad.push(b'\n');
    let good = file("[Desktop Entry]\nName=Fine\nExec=fine\n");
    let out = parse_desktop_files(vec![bad, good]);
    assert_eq!(names(&out), vec![s("Fine")]);
}
