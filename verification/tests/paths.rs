use git_overlay::overlay::{path_contains, strip_prefix, OverlayTarget};
use git_overlay::exclude::ExcludeFile;
use git_overlay::paths::{
    anchor_path, components_of, is_in_git_dir, join_path, paths_to_patterns, relativize_all,
    strip_dir, AnchorError,
};

fn strings(items: &[&str]) -> Vec<String> {
    items.iter().map(|s| s.to_string()).collect()
}

#[test]
fn join_path_follows_path_join() {
    assert_eq!(join_path("/a", "b"), "/a/b");
    assert_eq!(join_path("/a/", "b"), "/a/b");
    assert_eq!(join_path("", "b"), "b");
    assert_eq!(join_path("/a", "/abs"), "/abs");
    assert_eq!(join_path("/a", ""), "/a/");
}

#[test]
fn strip_dir_takes_the_part_below() {
    assert_eq!(strip_dir("/r", "/r/a/b"), Some("a/b".to_string()));
    assert_eq!(strip_dir("/r", "/r"), None);
    assert_eq!(strip_dir("/r", "/rx/a"), None);
    assert_eq!(strip_dir("/r", "/other/a"), None);
    assert_eq!(strip_dir("/r/", "/r/a/b"), Some("a/b".to_string()));
}

#[test]
fn components_skip_empty_and_dot() {
    assert_eq!(components_of("/a//b/./c/"), strings(&["a", "b", "c"]));
    assert_eq!(components_of("a/../b"), strings(&["a", "..", "b"]));
    assert!(components_of("/").is_empty());
}

#[test]
fn file_add_manages_only_the_specific_path() {
    let r = paths_to_patterns("/repo", "/repo", &strings(&["sub/top.txt"])).unwrap();
    assert_eq!(r, strings(&["/sub/top.txt"]));
}

#[test]
fn file_add_normalizes_relative_path() {
    let r = paths_to_patterns("/repo", "/repo", &strings(&["sub/./../sub/top.txt"])).unwrap();
    assert_eq!(r, strings(&["/sub/top.txt"]));
    assert!(!r[0].contains(".."));
}

#[test]
fn paths_are_taken_from_the_working_directory() {
    let r = paths_to_patterns("/repo", "/repo/sub", &strings(&["top.txt", "../a.txt", "/repo/b/c"]))
        .unwrap();
    assert_eq!(r, strings(&["/sub/top.txt", "/a.txt", "/b/c"]));
}

#[test]
fn paths_outside_or_at_the_root_are_refused() {
    // A `..` that climbs above the root leaves the repository.
    assert!(matches!(anchor_path("/repo", "/repo", "../x.txt"), Err(AnchorError::Outside)));
    assert!(matches!(anchor_path("/repo", "/repo/sub", "../../repo/x"), Err(AnchorError::Outside)));
    assert_eq!(anchor_path("/repo", "/repo/sub", "../x").ok(), Some("/x".to_string()));
    assert!(matches!(anchor_path("/repo", "/elsewhere", "x"), Err(AnchorError::Outside)));
    assert!(matches!(anchor_path("/repo", "/repo", "."), Err(AnchorError::IsRoot)));
    assert!(matches!(anchor_path("/repo", "/repo/sub", ".."), Err(AnchorError::IsRoot)));
    let e = paths_to_patterns("/repo", "/repo", &strings(&["../x.txt"])).unwrap_err();
    assert_eq!(e, "path ../x.txt is outside the repository /repo");
    let e = paths_to_patterns("/repo", "/repo", &strings(&["ok.txt", "/tmp/x"])).unwrap_err();
    assert_eq!(e, "path /tmp/x is outside the repository /repo");
    let e = paths_to_patterns("/repo", "/repo", &strings(&["."])).unwrap_err();
    assert_eq!(e, "path . is the repository root, not a file");
}

#[test]
fn relativize_all_strips_the_directory() {
    assert_eq!(
        relativize_all("/r", &strings(&["/r/a", "/r/b/c"])).unwrap(),
        strings(&["a", "b/c"])
    );
    assert_eq!(
        relativize_all("/r", &strings(&["/r/a", "/s/b", "/t"])).unwrap_err(),
        "failed to relativize /s/b to /r"
    );
    assert!(relativize_all("/r", &vec![]).unwrap().is_empty());
    // A directory written with a trailing slash.
    assert_eq!(relativize_all("/o/", &strings(&["/o/x", "/o/y/z"])).unwrap(), strings(&["x", "y/z"]));
}

#[test]
fn git_directory_is_recognized() {
    assert!(is_in_git_dir("/r", "/r/.git"));
    assert!(is_in_git_dir("/r", "/r/.git/HEAD"));
    assert!(!is_in_git_dir("/r", "/r/.gitignore"));
    assert!(!is_in_git_dir("/r", "/r/sub/.git/HEAD"));
    assert!(!is_in_git_dir("/r", "/other/.git"));
}

#[test]
fn strip_prefix_goes_by_components() {
    assert_eq!(strip_prefix("/a/b", "/a/b/c/d"), Some("c/d".to_string()));
    assert_eq!(strip_prefix("/a/b", "/a/b"), Some(String::new()));
    assert_eq!(strip_prefix("/a/b", "/a/bc"), None);
    assert!(path_contains("/a", "/a/b"));
    assert!(!path_contains("/a/b", "/a"));
}

#[test]
fn overlay_target_locates_repository_and_directory() {
    let exclude = ExcludeFile::load("/root/repo", "");
    let t = OverlayTarget::new("/root", "/root/repo/sub", "/root/repo", exclude).unwrap();
    assert_eq!(t.repo_root(), "repo");
    assert_eq!(t.repo_root_abs(), "/root/repo");
    assert_eq!(t.directory(), "sub");
    let e = OverlayTarget::new("/root", "/root/other", "/root/repo", ExcludeFile::load("/root/repo", ""));
    assert_eq!(
        e.err(),
        Some("current directory /root/other is outside Git repository root /root/repo".to_string())
    );
    let e = OverlayTarget::new("/root", "/x/repo", "/x/repo", ExcludeFile::load("/x/repo", ""));
    assert_eq!(
        e.err(),
        Some("Git repository root /x/repo is outside repository_root /root".to_string())
    );
    assert!(OverlayTarget::check_inside("/root", "/root/a").is_ok());
    assert_eq!(
        OverlayTarget::check_inside("/root", "/tmp").unwrap_err(),
        "current directory /tmp is not inside repository_root /root"
    );
}

#[test]
fn anchored_pattern_has_no_empty_or_dot_parts() {
    let r = paths_to_patterns("/repo", "/repo", &strings(&["./a//b/./c/", "a/../b"])).unwrap();
    assert_eq!(r, strings(&["/a/b/c", "/b"]));
    for p in &r {
        assert!(p[1..].split('/').all(|s| !s.is_empty() && s != "." && s != ".."));
        // Anchoring the pattern again, as a path below the root, gives it back.
        let again = paths_to_patterns("/repo", "/repo", &strings(&[&format!("/repo{p}")])).unwrap();
        assert_eq!(&again[0], p);
    }
}

#[test]
fn overlay_target_paths_join_back() {
    let t = OverlayTarget::new("/root/", "/root/a/b/sub/", "/root/a/b", ExcludeFile::load("/root/a/b", ""))
        .unwrap();
    assert_eq!(t.repo_root(), "a/b");
    assert_eq!(t.directory(), "sub");
    assert_eq!(join_path("/root/", t.repo_root()), "/root/a/b");
    assert_eq!(join_path(t.repo_root_abs(), t.directory()), "/root/a/b/sub");
    let t = OverlayTarget::new("/root", "/root/a", "/root/a", ExcludeFile::load("/root/a", "")).unwrap();
    assert_eq!(t.directory(), "");
}
