//! What synchronization does with one file that may exist in the repository,
//! in the overlay directory, or in both.
use vstd::prelude::*;
use crate::strlist::str_eq;

verus! {

/// Which copy wins when a file exists in both places with different
/// contents.
#[derive(Clone, Copy, Debug, PartialEq, Eq, Structural)]
pub enum ForceSide {
    /// Keep the repository copy.
    Repository,
    /// Keep the overlay copy.
    Overlay,
}

/// The side named by `name`: `repository` or its alias `this`, `overlay` or
/// its alias `that`.
pub open spec fn force_from_name(name: Seq<char>) -> Option<ForceSide> {
    if name == "repository"@ || name == "this"@ {
        Some(ForceSide::Repository)
    } else if name == "overlay"@ || name == "that"@ {
        Some(ForceSide::Overlay)
    } else {
        None
    }
}

impl ForceSide {
    /// The side named by `name` (see [`force_from_name`]).
    pub fn from_name(name: &str) -> (r: Option<ForceSide>)
        ensures
            r == force_from_name(name@),
    {
        if str_eq(name, "repository") || str_eq(name, "this") {
            Some(ForceSide::Repository)
        } else if str_eq(name, "overlay") || str_eq(name, "that") {
            Some(ForceSide::Overlay)
        } else {
            None
        }
    }
}

/// What was found on disk for one relative path: whether the repository
/// copy and the overlay copy exist, whether they are the same file (hard
/// links to one inode), and whether their contents are equal.
#[derive(Clone, Copy, Debug, PartialEq, Eq, Structural)]
pub struct PairState {
    pub repo_exists: bool,
    pub overlay_exists: bool,
    pub same_file: bool,
    pub same_content: bool,
}

/// What to do with one file.
#[derive(Clone, Copy, Debug, PartialEq, Eq, Structural)]
pub enum LinkAction {
    /// Move the repository file into the overlay directory and hard link it
    /// back into the repository.
    MoveToOverlay,
    /// Hard link the overlay file into the repository, where it is missing.
    LinkIntoRepo,
    /// Replace the repository copy by a hard link to the overlay copy.
    ReplaceRepoWithLink,
    /// Replace the overlay copy by a hard link to the repository copy.
    ReplaceOverlayWithLink,
    /// Both paths already are the same file: nothing to do.
    Keep,
    /// Both copies exist with different contents: leave both, and warn.
    Conflict,
    /// The file to act on is gone: nothing to do.
    Skip,
}

/// What to do when both copies exist.
pub open spec fn resolve_both(st: PairState, force: Option<ForceSide>) -> LinkAction {
    if st.same_file {
        LinkAction::Keep
    } else if st.same_content {
        LinkAction::ReplaceRepoWithLink
    } else {
        match force {
            Some(ForceSide::Overlay) => LinkAction::ReplaceRepoWithLink,
            Some(ForceSide::Repository) => LinkAction::ReplaceOverlayWithLink,
            None => LinkAction::Conflict,
        }
    }
}

/// What to do with a repository file that the exclude patterns match and
/// that is not managed yet.
pub open spec fn repo_file_action(st: PairState, force: Option<ForceSide>) -> LinkAction {
    if !st.repo_exists {
        LinkAction::Skip
    } else if !st.overlay_exists {
        LinkAction::MoveToOverlay
    } else {
        resolve_both(st, force)
    }
}

/// What to do with a file of the overlay directory.
pub open spec fn overlay_file_action(st: PairState, force: Option<ForceSide>) -> LinkAction {
    if !st.overlay_exists {
        LinkAction::Skip
    } else if !st.repo_exists {
        LinkAction::LinkIntoRepo
    } else {
        resolve_both(st, force)
    }
}

/// Whether the file is managed once the action is done.
pub open spec fn manages(a: LinkAction) -> bool {
    !(a is Conflict || a is Skip)
}

fn decide_both(st: PairState, force: Option<ForceSide>) -> (a: LinkAction)
    ensures
        a == resolve_both(st, force),
{
    if st.same_file {
        LinkAction::Keep
    } else if st.same_content {
        LinkAction::ReplaceRepoWithLink
    } else {
        match force {
            Some(ForceSide::Overlay) => LinkAction::ReplaceRepoWithLink,
            Some(ForceSide::Repository) => LinkAction::ReplaceOverlayWithLink,
            None => LinkAction::Conflict,
        }
    }
}

/// What to do with a repository file that the exclude patterns match and
/// that is not managed yet (see [`repo_file_action`]).
pub fn decide_repo_file(st: PairState, force: Option<ForceSide>) -> (a: LinkAction)
    ensures
        a == repo_file_action(st, force),
{
    if !st.repo_exists {
        LinkAction::Skip
    } else if !st.overlay_exists {
        LinkAction::MoveToOverlay
    } else {
        decide_both(st, force)
    }
}

/// What to do with a file of the overlay directory (see
/// [`overlay_file_action`]).
pub fn decide_overlay_file(st: PairState, force: Option<ForceSide>) -> (a: LinkAction)
    ensures
        a == overlay_file_action(st, force),
{
    if !st.overlay_exists {
        LinkAction::Skip
    } else if !st.repo_exists {
        LinkAction::LinkIntoRepo
    } else {
        decide_both(st, force)
    }
}

/// Whether the file is managed once the action is done (see [`manages`]).
pub fn action_manages(a: LinkAction) -> (b: bool)
    ensures
        b == manages(a),
{
    match a {
        LinkAction::Conflict | LinkAction::Skip => false,
        _ => true,
    }
}

/// A file that exists in both places with different contents is never
/// overwritten without a forced side: synchronization leaves both copies
/// and reports a conflict.
pub proof fn lemma_no_clobber_without_force(st: PairState)
    requires
        st.repo_exists,
        st.overlay_exists,
        !st.same_file,
        !st.same_content,
    ensures
        repo_file_action(st, None) == LinkAction::Conflict,
        overlay_file_action(st, None) == LinkAction::Conflict,
        !manages(repo_file_action(st, None)),
{
}

/// With a forced side, the chosen copy wins on both paths: forcing the
/// overlay replaces the repository copy by a link to the overlay copy,
/// forcing the repository replaces the overlay copy by a link to the
/// repository copy; either way the file becomes managed.
pub proof fn lemma_forced_side_wins(st: PairState)
    requires
        st.repo_exists,
        st.overlay_exists,
        !st.same_file,
        !st.same_content,
    ensures
        repo_file_action(st, Some(ForceSide::Overlay)) == LinkAction::ReplaceRepoWithLink,
        overlay_file_action(st, Some(ForceSide::Overlay)) == LinkAction::ReplaceRepoWithLink,
        repo_file_action(st, Some(ForceSide::Repository)) == LinkAction::ReplaceOverlayWithLink,
        overlay_file_action(st, Some(ForceSide::Repository))
            == LinkAction::ReplaceOverlayWithLink,
        manages(repo_file_action(st, Some(ForceSide::Overlay))),
        manages(repo_file_action(st, Some(ForceSide::Repository))),
{
}

/// Identical copies are linked together, the overlay copy being the one
/// that stays, whatever side is forced.
pub proof fn lemma_identical_copies_linked(st: PairState, force: Option<ForceSide>)
    requires
        st.repo_exists,
        st.overlay_exists,
        !st.same_file,
        st.same_content,
    ensures
        repo_file_action(st, force) == LinkAction::ReplaceRepoWithLink,
        overlay_file_action(st, force) == LinkAction::ReplaceRepoWithLink,
{
}

/// What is found for a file whose two copies are `copies`: the contents of
/// the repository copy and of the overlay copy, each when it exists, and
/// whether they are one file (hard links to one inode).
pub open spec fn observed(copies: (Option<Seq<u8>>, Option<Seq<u8>>, bool)) -> PairState {
    PairState {
        repo_exists: copies.0 is Some,
        overlay_exists: copies.1 is Some,
        same_file: copies.2,
        same_content: copies.0 == copies.1,
    }
}

/// The two copies once `a` is done: a move or a replacement leaves one file
/// with the kept copy's contents in both places; the other actions change
/// nothing.
pub open spec fn after_action(
    copies: (Option<Seq<u8>>, Option<Seq<u8>>, bool),
    a: LinkAction,
) -> (Option<Seq<u8>>, Option<Seq<u8>>, bool) {
    match a {
        LinkAction::MoveToOverlay => (copies.0, copies.0, true),
        LinkAction::ReplaceOverlayWithLink => (copies.0, copies.0, true),
        LinkAction::LinkIntoRepo => (copies.1, copies.1, true),
        LinkAction::ReplaceRepoWithLink => (copies.1, copies.1, true),
        _ => copies,
    }
}

/// The two copies after one synchronization run per entry of `runs`, each
/// deciding for the file as a repository file (`true`) or as a file of the
/// overlay directory (`false`), with `force`.
pub open spec fn after_runs(
    copies: (Option<Seq<u8>>, Option<Seq<u8>>, bool),
    runs: Seq<bool>,
    force: Option<ForceSide>,
) -> (Option<Seq<u8>>, Option<Seq<u8>>, bool)
    decreases runs.len(),
{
    if runs.len() == 0 {
        copies
    } else {
        let before = after_runs(copies, runs.drop_last(), force);
        let st = observed(before);
        let a = if runs.last() {
            repo_file_action(st, force)
        } else {
            overlay_file_action(st, force)
        };
        after_action(before, a)
    }
}

/// However many times synchronization runs without a forced side, a file
/// whose two copies differ keeps both copies as they are: each run reports
/// a conflict and overwrites neither.
pub proof fn lemma_repeated_syncs_keep_both(
    copies: (Option<Seq<u8>>, Option<Seq<u8>>, bool),
    runs: Seq<bool>,
)
    requires
        copies.0 is Some,
        copies.1 is Some,
        copies.0 != copies.1,
        !copies.2,
    ensures
        after_runs(copies, runs, None) == copies,
    decreases runs.len(),
{
    if runs.len() > 0 {
        lemma_repeated_syncs_keep_both(copies, runs.drop_last());
        lemma_no_clobber_without_force(observed(copies));
    }
}

/// With a forced side, one run on a file whose two copies differ leaves the
/// forced copy in both places as one file, and further runs keep it.
pub proof fn lemma_forced_sync_settles(
    copies: (Option<Seq<u8>>, Option<Seq<u8>>, bool),
    runs: Seq<bool>,
    side: ForceSide,
)
    requires
        copies.0 is Some,
        copies.1 is Some,
        copies.0 != copies.1,
        !copies.2,
        runs.len() > 0,
    ensures
        after_runs(copies, runs, Some(side)) == (match side {
            ForceSide::Repository => (copies.0, copies.0, true),
            ForceSide::Overlay => (copies.1, copies.1, true),
        }),
    decreases runs.len(),
{
    lemma_forced_side_wins(observed(copies));
    let settled = match side {
        ForceSide::Repository => (copies.0, copies.0, true),
        ForceSide::Overlay => (copies.1, copies.1, true),
    };
    if runs.len() > 1 {
        lemma_forced_sync_settles(copies, runs.drop_last(), side);
        assert(after_runs(copies, runs.drop_last(), Some(side)) == settled);
        assert(observed(settled).same_file);
    } else {
        assert(after_runs(copies, runs.drop_last(), Some(side)) == copies);
    }
}

} // verus!
