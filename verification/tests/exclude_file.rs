use git_overlay::exclude::{close_guard_text, open_guard_text, string_of_str, ExcludeFile};

const CONTENT: &str = "# user rules\n*.tmp\n# >>> managed by git-overlay\nfoo.txt\n  # bar  \n#baz\n# <<< managed by git-overlay\nafter\n";

#[test]
fn guards_are_fixed_lines() {
    assert_eq!(open_guard_text(), "# >>> managed by git-overlay");
    assert_eq!(close_guard_text(), "# <<< managed by git-overlay");
}

#[test]
fn load_splits_head_region_and_tail() {
    let f = ExcludeFile::load("/r", CONTENT);
    assert_eq!(f.root(), "/r");
    assert_eq!(f.path(), "/r/.git/info/exclude");
    assert_eq!(f.head(), "# user rules\n*.tmp\n");
    assert_eq!(f.patterns(), &vec!["foo.txt".to_string(), "bar".to_string(), "baz".to_string()]);
    assert_eq!(f.tail(), "after\n");
}

#[test]
fn load_without_region_keeps_everything_as_head() {
    let f = ExcludeFile::load("/r", "a\nb");
    assert_eq!(f.head(), "a\nb");
    assert!(f.patterns().is_empty());
    assert_eq!(f.tail(), "");
    // A closing guard before the opening one: no region, the whole file is
    // the head.
    let text = "# <<< managed by git-overlay\nx\n# >>> managed by git-overlay\n";
    let f = ExcludeFile::load("/r", text);
    assert_eq!(f.head(), text);
    assert!(f.patterns().is_empty());
    assert_eq!(f.tail(), "");
    // The head gains a line feed before the region when it lacks one.
    assert_eq!(
        ExcludeFile::load("/r", "a\nb").save(),
        "a\nb\n# >>> managed by git-overlay\n# <<< managed by git-overlay\n"
    );
}

#[test]
fn save_writes_plain_patterns_and_keeps_surroundings() {
    let f = ExcludeFile::load("/r", CONTENT);
    let saved = f.save();
    assert_eq!(
        saved,
        "# user rules\n*.tmp\n# >>> managed by git-overlay\nfoo.txt\nbar\nbaz\n# <<< managed by git-overlay\nafter\n"
    );
    // Loading what was saved gives the same file back.
    let again = ExcludeFile::load("/r", &saved);
    assert_eq!(again.head(), f.head());
    assert_eq!(again.patterns(), f.patterns());
    assert_eq!(again.tail(), f.tail());
    assert_eq!(again.save(), saved);
    assert_eq!(f.unfreeze(), saved);
}

#[test]
fn freeze_comments_patterns_and_load_uncomments_them() {
    let f = ExcludeFile::load("/r", CONTENT);
    let frozen = f.freeze();
    assert_eq!(
        frozen,
        "# user rules\n*.tmp\n# >>> managed by git-overlay\n# foo.txt\n# bar\n# baz\n# <<< managed by git-overlay\nafter\n"
    );
    let thawed = ExcludeFile::load("/r", &frozen);
    assert_eq!(thawed.patterns(), f.patterns());
}

#[test]
fn add_remove_and_clear_edit_the_list() {
    let mut f = ExcludeFile::load("/r", "");
    f.add("a".to_string());
    f.add("b".to_string());
    f.add("a".to_string());
    assert_eq!(f.patterns(), &vec!["a".to_string(), "b".to_string(), "a".to_string()]);
    f.remove("a");
    assert_eq!(f.patterns(), &vec!["b".to_string()]);
    f.remove("zzz");
    assert_eq!(f.patterns(), &vec!["b".to_string()]);
    f.clear();
    assert!(f.patterns().is_empty());
}

#[test]
fn ignore_add_puts_pattern_outside_managed_block_and_removes_it() {
    let mut f = ExcludeFile::load("/r", "# >>> managed by git-overlay\n# <<< managed by git-overlay\n");
    f.add_ignore("foo.txt");
    let saved = f.save();
    assert_eq!(
        saved,
        "# >>> managed by git-overlay\n# <<< managed by git-overlay\nfoo.txt\n"
    );
    assert!(saved.contains("# <<< managed by git-overlay"));
    assert!(f.patterns().is_empty());
    f.remove_ignore("foo.txt");
    assert_eq!(f.save(), "# >>> managed by git-overlay\n# <<< managed by git-overlay\n");
}

#[test]
fn add_ignore_keeps_existing_lines() {
    // Already a line of the head: nothing changes.
    let mut f = ExcludeFile::load("/r", "  foo.txt\n# >>> managed by git-overlay\n# <<< managed by git-overlay\nx");
    let before = f.save();
    f.add_ignore("foo.txt");
    assert_eq!(f.save(), before);
    // A new line goes at the end of the text after the region.
    f.add_ignore("bar");
    assert_eq!(f.tail(), "x\nbar\n");
    // Removal drops every matching line, on both sides.
    f.remove_ignore("foo.txt");
    assert_eq!(f.head(), "");
    f.remove_ignore("bar");
    assert_eq!(f.tail(), "x\n");
}

#[test]
fn string_of_str_copies() {
    assert_eq!(string_of_str("abc"), "abc".to_string());
    assert_eq!(string_of_str(""), String::new());
}

#[test]
fn load_then_save_writes_the_same_text() {
    let text = "# mine\n*.o\n# >>> managed by git-overlay\nfoo\n/bar/baz\n# <<< managed by git-overlay\nrest\n";
    assert_eq!(ExcludeFile::load("/r", text).save(), text);
    // Text the save writes differently: a region line with spaces around it.
    let loose = "# >>> managed by git-overlay\n  foo  \n# <<< managed by git-overlay\n";
    assert_eq!(
        ExcludeFile::load("/r", loose).save(),
        "# >>> managed by git-overlay\nfoo\n# <<< managed by git-overlay\n"
    );
}

#[test]
fn text_around_the_region_is_kept_byte_for_byte() {
    let text = "a\r\nb\r\n# >>> managed by git-overlay\nfoo\n# <<< managed by git-overlay\nc\r\nlast";
    let f = ExcludeFile::load("/r", text);
    assert_eq!(f.head(), "a\r\nb\r\n");
    assert_eq!(f.tail(), "c\r\nlast");
    assert_eq!(f.save(), text);
}

#[test]
fn unclosed_region_is_no_region() {
    let text = "keep\n# >>> managed by git-overlay\n# note\nbar\n";
    let mut f = ExcludeFile::load("/r", text);
    assert_eq!(f.head(), text);
    assert!(f.patterns().is_empty());
    assert_eq!(f.tail(), "");
    f.clear();
    let saved = f.save();
    assert_eq!(
        saved,
        "keep\n# >>> managed by git-overlay\n# note\nbar\n# >>> managed by git-overlay\n# <<< managed by git-overlay\n"
    );
}
