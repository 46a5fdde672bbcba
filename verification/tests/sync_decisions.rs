use git_overlay::sync_decision::{
    action_manages, decide_overlay_file, decide_repo_file, ForceSide, LinkAction, PairState,
};

fn st(repo_exists: bool, overlay_exists: bool, same_file: bool, same_content: bool) -> PairState {
    PairState { repo_exists, overlay_exists, same_file, same_content }
}

#[test]
fn force_sides_and_their_aliases() {
    assert_eq!(ForceSide::from_name("repository"), Some(ForceSide::Repository));
    assert_eq!(ForceSide::from_name("this"), Some(ForceSide::Repository));
    assert_eq!(ForceSide::from_name("overlay"), Some(ForceSide::Overlay));
    assert_eq!(ForceSide::from_name("that"), Some(ForceSide::Overlay));
    assert_eq!(ForceSide::from_name("both"), None);
    assert_eq!(ForceSide::from_name(""), None);
}

#[test]
fn repository_file_only_in_repository_moves() {
    assert_eq!(decide_repo_file(st(true, false, false, false), None), LinkAction::MoveToOverlay);
    assert_eq!(decide_repo_file(st(false, true, false, false), None), LinkAction::Skip);
    assert_eq!(decide_repo_file(st(false, false, false, false), None), LinkAction::Skip);
}

#[test]
fn overlay_file_only_in_overlay_is_linked() {
    assert_eq!(decide_overlay_file(st(false, true, false, false), None), LinkAction::LinkIntoRepo);
    assert_eq!(decide_overlay_file(st(true, false, false, false), None), LinkAction::Skip);
}

#[test]
fn differing_copies_are_a_conflict() {
    let both = st(true, true, false, false);
    assert_eq!(decide_repo_file(both, None), LinkAction::Conflict);
    assert_eq!(decide_overlay_file(both, None), LinkAction::Conflict);
    assert!(!action_manages(LinkAction::Conflict));
}

#[test]
fn sync_with_identical_file_in_both_repo_and_overlay_links_them() {
    let same = st(true, true, false, true);
    for force in [None, Some(ForceSide::Repository), Some(ForceSide::Overlay)] {
        assert_eq!(decide_overlay_file(same, force), LinkAction::ReplaceRepoWithLink);
        assert_eq!(decide_repo_file(same, force), LinkAction::ReplaceRepoWithLink);
    }
    let linked = st(true, true, true, true);
    assert_eq!(decide_overlay_file(linked, None), LinkAction::Keep);
    assert_eq!(decide_repo_file(linked, Some(ForceSide::Overlay)), LinkAction::Keep);
}

#[test]
fn forced_sides_resolve_conflicts() {
    let both = st(true, true, false, false);
    assert_eq!(
        decide_overlay_file(both, ForceSide::from_name("overlay")),
        LinkAction::ReplaceRepoWithLink
    );
    assert_eq!(
        decide_overlay_file(both, ForceSide::from_name("that")),
        LinkAction::ReplaceRepoWithLink
    );
    assert_eq!(
        decide_overlay_file(both, ForceSide::from_name("repository")),
        LinkAction::ReplaceOverlayWithLink
    );
    assert_eq!(
        decide_repo_file(both, ForceSide::from_name("this")),
        LinkAction::ReplaceOverlayWithLink
    );
}

#[test]
fn managed_after_every_action_but_conflict_and_skip() {
    assert!(action_manages(LinkAction::MoveToOverlay));
    assert!(action_manages(LinkAction::LinkIntoRepo));
    assert!(action_manages(LinkAction::ReplaceRepoWithLink));
    assert!(action_manages(LinkAction::ReplaceOverlayWithLink));
    assert!(action_manages(LinkAction::Keep));
    assert!(!action_manages(LinkAction::Conflict));
    assert!(!action_manages(LinkAction::Skip));
}
