use git_overlay::base_repository::{matching_files, BaseRepository};
use git_overlay::directory_config::DirectoryConfig;
use git_overlay::info::decimal_string;
use git_overlay::matcher::{PatternMatcher, WalkEntry};
use git_overlay::overlay_directory::OverlayDirectory;
use git_overlay::repo_config::RepositoryConfiguration;
use git_overlay::strlist::{
    contains_str, insert_all, insert_str, keep_absent, remove_all, remove_str, str_eq,
};
use git_overlay::text::{
    chars_of, is_whitespace, line_spans, push_str, range_eq, string_of, trim_bounds,
};

fn strings(items: &[&str]) -> Vec<String> {
    items.iter().map(|s| s.to_string()).collect()
}

fn file(path: &str) -> WalkEntry {
    WalkEntry { path: path.to_string(), is_dir: false }
}

#[test]
fn whitespace_is_unicode_white_space() {
    for c in [' ', '\t', '\n', '\r', '\u{b}', '\u{c}', '\u{85}', '\u{a0}', '\u{2003}', '\u{3000}'] {
        assert!(is_whitespace(c), "{c:?}");
        assert_eq!(is_whitespace(c), c.is_whitespace());
    }
    for c in ['a', '#', '\u{200b}', '_'] {
        assert!(!is_whitespace(c));
        assert_eq!(is_whitespace(c), c.is_whitespace());
    }
}

#[test]
fn character_helpers() {
    let cs = chars_of("  héllo \t");
    assert_eq!(cs.len(), 9);
    let (a, b) = trim_bounds(&cs, 0, cs.len());
    assert_eq!(string_of(&cs, a, b), "héllo");
    let (a, b) = trim_bounds(&cs, 0, 2);
    assert_eq!(a, b);
    let mut s = String::from("ab");
    push_str(&mut s, "cd");
    assert_eq!(s, "abcd");
    let pat = chars_of("llo");
    assert!(range_eq(&cs, 4, 7, &pat));
    assert!(!range_eq(&cs, 3, 6, &pat));
}

#[test]
fn line_spans_follow_str_lines() {
    let text = "a\r\nb\n\nc";
    let cs = chars_of(text);
    let got: Vec<String> = line_spans(&cs).iter().map(|&(a, b)| string_of(&cs, a, b)).collect();
    let want: Vec<String> = text.lines().map(str::to_string).collect();
    assert_eq!(got, want);
    assert!(line_spans(&chars_of("")).is_empty());
    assert_eq!(line_spans(&chars_of("x\n")).len(), 1);
}

#[test]
fn string_list_operations() {
    assert!(str_eq("a", "a"));
    assert!(!str_eq("a", "b"));
    let mut v = strings(&["a", "b"]);
    assert!(contains_str(&v, "b"));
    assert!(!contains_str(&v, "c"));
    insert_str(&mut v, "b".to_string());
    assert_eq!(v, strings(&["a", "b"]));
    insert_str(&mut v, "c".to_string());
    assert_eq!(v, strings(&["a", "b", "c"]));
    remove_str(&mut v, "a");
    assert_eq!(v, strings(&["b", "c"]));
    insert_all(&mut v, &strings(&["c", "d", "d", "e"]));
    assert_eq!(v, strings(&["b", "c", "d", "e"]));
    remove_all(&mut v, &strings(&["b", "e", "x"]));
    assert_eq!(v, strings(&["c", "d"]));
    assert_eq!(keep_absent(&strings(&["a", "c", "x", "d"]), &v), strings(&["a", "x"]));
}

#[test]
fn decimal_numbers() {
    assert_eq!(decimal_string(0), "0");
    assert_eq!(decimal_string(7), "7");
    assert_eq!(decimal_string(10), "10");
    assert_eq!(decimal_string(42), "42");
    assert_eq!(decimal_string(1234567), "1234567");
    assert_eq!(decimal_string(usize::MAX), usize::MAX.to_string());
}

#[test]
fn directory_config_keeps_patterns() {
    let mut c = DirectoryConfig::default_with("/o");
    assert!(!c.exists_on_disk());
    assert_eq!(DirectoryConfig::path("/o"), "/o/.git-overlay.yml");
    c.add_managed_pattern("a".to_string());
    c.add_managed_pattern("a".to_string());
    c.add_ignore_pattern("b".to_string());
    assert_eq!(c.managed_patterns(), &strings(&["a"]));
    assert_eq!(c.ignore_patterns(), &strings(&["b"]));
    c.remove_managed_pattern("a");
    c.remove_ignore_pattern("b");
    assert!(c.managed_patterns().is_empty());
    assert!(c.ignore_patterns().is_empty());
    c.mark_saved();
    assert!(c.exists_on_disk());

    let loaded = DirectoryConfig::load("/o", Some((strings(&["x"]), strings(&["y"]))));
    assert!(loaded.exists_on_disk());
    assert_eq!(loaded.root(), "/o");
    assert_eq!(loaded.managed_patterns(), &strings(&["x"]));
    assert_eq!(loaded.ignore_patterns(), &strings(&["y"]));
    assert!(!DirectoryConfig::load("/o", None).exists_on_disk());
}

#[test]
fn repository_configuration_keeps_files() {
    let mut c = RepositoryConfiguration::default_with("/r");
    assert_eq!(RepositoryConfiguration::path("/r"), "/r/.git/overlay.yml");
    assert_eq!(c.overlay_directory(), "");
    c.set_overlay_directory("../o".to_string());
    assert_eq!(c.overlay_directory(), "../o");
    c.add_managed_file("f".to_string());
    c.add_managed_file("f".to_string());
    assert_eq!(c.managed_files(), &strings(&["f"]));
    c.remove_managed_file("f");
    assert!(c.managed_files().is_empty());
    assert!(!c.exists_on_disk());
    c.mark_saved();
    assert!(c.exists_on_disk());
    let loaded = RepositoryConfiguration::load("/r", Some(("/o".to_string(), strings(&["g"]))));
    assert!(loaded.exists_on_disk());
    assert_eq!(loaded.root(), "/r");
    assert_eq!(loaded.overlay_directory(), "/o");
    assert_eq!(loaded.managed_files(), &strings(&["g"]));
}

#[test]
fn matcher_follows_gitignore_rules() {
    let m = PatternMatcher::build("/r", &strings(&["*.txt", "!keep.txt", "/top", "build"]), "test", "test")
        .unwrap();
    assert!(m.ignores("/r/build/x.o"));
    assert!(m.ignores("build/deep/y.o"));
    assert!(!m.ignores("/r/src/x.o"));
    assert!(m.ignores("/r/a.txt"));
    assert!(m.ignores("/r/sub/b.txt"));
    assert!(!m.ignores("/r/keep.txt"));
    assert!(!m.ignores("/r/a.rs"));
    assert!(m.ignores("/r/top"));
    assert!(!m.ignores("/r/sub/top"));
    assert_eq!(
        m.unmatched(&strings(&["/r/a.txt", "/r/a.rs", "/r/keep.txt"])),
        strings(&["/r/a.rs", "/r/keep.txt"])
    );
}

#[test]
fn matching_files_skips_directories_and_git_dir() {
    let entries = vec![
        WalkEntry { path: "/r".to_string(), is_dir: true },
        file("/r/a.txt"),
        WalkEntry { path: "/r/d.txt".to_string(), is_dir: true },
        file("/r/.git/x.txt"),
        file("/r/sub/b.txt"),
        file("/r/c.rs"),
    ];
    let got = matching_files("/r", &strings(&["*.txt"]), &entries).unwrap();
    assert_eq!(got, strings(&["/r/a.txt", "/r/sub/b.txt"]));
}

#[test]
fn invalid_pattern_is_an_error() {
    let r = matching_files("/r", &strings(&["*.txt", "[z-a].txt"]), &vec![file("/r/a.txt")]);
    let msg = r.unwrap_err();
    assert!(msg.starts_with("invalid exclude pattern \"[z-a].txt\": "), "{msg}");
    let r = matching_files("/r", &strings(&["a\"[b-a]"]), &vec![file("/r/a.txt")]);
    let msg = r.unwrap_err();
    assert!(msg.starts_with("invalid exclude pattern \"a\\\"[b-a]\": "), "{msg}");
    assert!(PatternMatcher::build("/r", &strings(&["{a,b"]), "test", "test").is_err());
    // An unclosed class is taken literally, as git does.
    assert!(PatternMatcher::build("/r", &strings(&["foo["]), "test", "test").is_ok());
}

#[test]
fn overlay_directory_files_leave_out_only_its_config() {
    let d = OverlayDirectory::new("/o".to_string(), DirectoryConfig::default_with("/o"));
    let entries = vec![
        WalkEntry { path: "/o".to_string(), is_dir: true },
        file("/o/a"),
        file("/o/.git-overlay.yml"),
        file("/o/.git/config"),
        file("/o/sub/.git-overlay.yml"),
    ];
    assert_eq!(d.files(&entries), strings(&["/o/a", "/o/.git/config", "/o/sub/.git-overlay.yml"]));
}

#[test]
fn overlay_directory_pins_stray_files() {
    let mut config = DirectoryConfig::default_with("/o");
    config.add_ignore_pattern("*.md".to_string());
    config.add_ignore_pattern(".venv".to_string());
    let mut d = OverlayDirectory::new("/o".to_string(), config);
    d.fix_patterns(&strings(&["/o/a.md", "/o/.venv/bin/x", "/o/sub/c.txt"])).unwrap();
    assert_eq!(d.list_patterns(), &strings(&["*.md", ".venv", "sub/c.txt"]));
    assert_eq!(d.config().ignore_patterns(), d.list_patterns());
    assert!(d.config().managed_patterns().is_empty());
    assert_eq!(
        d.fix_patterns(&strings(&["/elsewhere/x"])).unwrap_err(),
        "failed to relativize /elsewhere/x to /o"
    );
    assert_eq!(d.list_patterns(), &strings(&["*.md", ".venv", "sub/c.txt"]));
    d.add_patterns(&strings(&["x", "*.md"]));
    d.remove_patterns(&strings(&["sub/c.txt", ".venv"]));
    assert_eq!(d.list_patterns(), &strings(&["*.md", "x"]));
    let mut bad = OverlayDirectory::new(
        "/o".to_string(),
        DirectoryConfig::load("/o", Some((vec![], strings(&["a{b"])))),
    );
    let msg = bad.fix_patterns(&vec![]).unwrap_err();
    assert!(msg.starts_with("invalid ignore pattern \"a{b\": "), "{msg}");
}

#[test]
fn toplevel_from_rev_parse_output() {
    assert_eq!(
        BaseRepository::toplevel_from_rev_parse("/d", &strings(&["true", "/r"])).unwrap(),
        "/r"
    );
    assert_eq!(
        BaseRepository::toplevel_from_rev_parse("/d", &strings(&["false", "/r"])).unwrap_err(),
        "current directory /d is not managed by git"
    );
    assert_eq!(
        BaseRepository::toplevel_from_rev_parse("/d", &strings(&["true"])).unwrap_err(),
        "unexpected git rev-parse output in /d"
    );
    assert!(BaseRepository::toplevel_from_rev_parse("/d", &vec![]).is_err());
}

#[test]
fn files_to_drop_and_unmanaged() {
    let dropped = BaseRepository::files_to_drop(&strings(&["a", "b", "c"]), &strings(&["b"]));
    assert_eq!(dropped, strings(&["a", "c"]));
    assert!(BaseRepository::files_to_drop(&vec![], &strings(&["b"])).is_empty());
}

#[test]
fn default_configurations_are_empty() {
    let d = DirectoryConfig::default();
    assert_eq!(d.root(), "");
    assert!(!d.exists_on_disk());
    assert!(d.managed_patterns().is_empty() && d.ignore_patterns().is_empty());
    let r = RepositoryConfiguration::default();
    assert_eq!(r.root(), "");
    assert_eq!(r.overlay_directory(), "");
    assert!(!r.exists_on_disk());
    assert!(r.managed_files().is_empty());
}

#[test]
fn directory_patterns_select_the_files_below() {
    let entries = vec![file("/r/build/x.o"), file("/r/src/a.c"), file("/r/build")];
    let got = matching_files("/r", &strings(&["build"]), &entries).unwrap();
    assert_eq!(got, strings(&["/r/build/x.o", "/r/build"]));
    // Paths outside the root are passed over rather than asked about.
    let got = matching_files("/r", &strings(&["*.o"]), &vec![file("/elsewhere/x.o"), file("/r/y.o")])
        .unwrap();
    assert_eq!(got, strings(&["/r/y.o"]));
}

#[test]
fn rev_parse_output_lines() {
    assert_eq!(
        BaseRepository::rev_parse_lines("true\n  /repo  \r\n\n"),
        strings(&["true", "/repo"])
    );
    assert!(BaseRepository::rev_parse_lines("").is_empty());
}

#[test]
fn matcher_skips_comments_blank_lines_and_trims() {
    let m = PatternMatcher::build("/r", &strings(&["# a.txt", "   ", "b.txt   "]), "test", "test").unwrap();
    assert!(!m.ignores("/r/a.txt"));
    assert!(m.ignores("/r/b.txt"));
    // Only comments: nothing is ignored.
    let m = PatternMatcher::build("/r", &strings(&["#x"]), "test", "test").unwrap();
    assert!(!m.ignores("/r/x"));
}

#[test]
fn matcher_root_loses_a_leading_dot_slash() {
    let m = PatternMatcher::build("./r", &strings(&["/top"]), "test", "test").unwrap();
    assert!(m.ignores("r/top"));
    assert!(m.ignores("./r/top"));
    assert!(!m.ignores("r/sub/top"));
}

#[test]
fn matcher_passes_over_paths_it_cannot_be_asked_about() {
    let m = PatternMatcher::build("a", &strings(&["*"]), "test", "test").unwrap();
    assert!(!m.ignores("a//x"));
    assert!(!m.ignores("/elsewhere/x"));
    assert!(m.ignores("a/x"));
    let m = PatternMatcher::build("/r", &strings(&["*"]), "test", "test").unwrap();
    assert!(!m.ignores(".//x"));
}

#[test]
fn error_quotes_control_characters_as_debug_does() {
    let pattern = "a\u{1}\u{7f}\u{1b}[b-a]";
    let r = matching_files("/r", &strings(&[pattern]), &vec![file("/r/a.txt")]);
    let msg = r.unwrap_err();
    let expected = format!("invalid exclude pattern {:?}: ", pattern);
    assert_eq!(expected, "invalid exclude pattern \"a\\u{1}\\u{7f}\\u{1b}[b-a]\": ");
    assert!(msg.starts_with(&expected), "{msg}");
}
