//! Synchronization of a repository with its overlay directory, as a state
//! machine: each step takes what the caller found or did on disk and says
//! what to do next, so that every decision is made here and the caller only
//! walks, probes, moves, links, removes and writes.
use vstd::prelude::*;
use crate::base_repository::{
    BaseModel, BaseRepository, managed_by, matching_files, not_initialized_text, unfolded,
    with_exclude, with_managed_files, with_overlay_patterns,
};
use crate::directory_config::DirectoryConfigModel;
use crate::exclude::{ExcludeModel, render, string_of_str};
use crate::matcher::{WalkEntry, build_error_prefix, entry_views, matching_paths, unmatched_paths};
use crate::overlay_directory::{OverlayModel, covering_patterns, matcher_builds, overlay_files};
use crate::paths::{relativize_all, relativize_failure, strip_dir_all};
use crate::repo_config::RepositoryConfigurationModel;
use crate::strlist::{
    absent_from, inserted_all, lemma_absent_from_contains, lemma_inserted_all_contains,
    lemma_removed_all_contains, removed_all, views,
};
use crate::sync_decision::{
    ForceSide, LinkAction, PairState, overlay_file_action, repo_file_action,
};

verus! {

/// Where a synchronization stands, with what it remembers between steps.
pub enum SyncPhase {
    /// Nothing done yet: the step expects `Start`.
    Begin,
    /// Waiting for a walk of the repository.
    AwaitRepoWalk,
    /// Waiting for what is on disk for each candidate to move: the managed
    /// files when synchronization started, the repository files the exclude
    /// patterns match (relative), and the candidates among them.
    AwaitRepoProbe { snapshot: Vec<String>, excluded: Vec<String>, candidates: Vec<String> },
    /// Waiting for the moves and links of the candidates to be done.
    AwaitMoves { snapshot: Vec<String>, excluded: Vec<String> },
    /// Waiting for the files no longer matched to leave the overlay.
    AwaitDrops { dropped: Vec<String> },
    /// Waiting for a walk of the overlay directory.
    AwaitOverlayWalk,
    /// Waiting for the overlay directory's configuration to be written; the
    /// overlay's files, relative to its root.
    AwaitOverlayConfigSaved { rels: Vec<String> },
    /// Waiting for the exclude file to be written.
    AwaitExcludeWritten { rels: Vec<String> },
    /// Waiting for what is on disk for each of the overlay's files.
    AwaitOverlayProbe { rels: Vec<String> },
    /// Waiting for the overlay's files to be linked.
    AwaitLinks,
    /// Waiting for the repository's configuration to be written.
    AwaitConfigSaved,
    /// After `add`: waiting for a walk of the repository, to move the files
    /// that these newly added patterns match.
    AwaitAddWalk { patterns: Vec<String> },
    /// After `add`: waiting for what is on disk for each candidate to move.
    AwaitAddProbe { candidates: Vec<String> },
    /// After `remove`: waiting for a walk of the repository, to find the
    /// managed files no pattern matches any more.
    AwaitRemoveWalk,
    /// After `remove`: waiting for those files to leave the overlay.
    AwaitRemoveDrops { dropped: Vec<String> },
    /// After `remove`: waiting for the overlay's configuration to be written.
    AwaitRemoveOverlaySaved,
    /// Done, or stopped.
    Finished,
}

/// What the caller reports.
pub enum SyncEvent {
    /// Begin synchronizing.
    Start,
    /// The entries met by the walk that was asked for.
    Walked(Vec<WalkEntry>),
    /// What was found on disk for each path that was asked about, in order.
    Probed(Vec<PairState>),
    /// The work that was asked for is done.
    Done,
    /// The work that was asked for failed, with this message.
    Failed(String),
}

/// What the caller is asked to do next.
pub enum SyncRequest {
    /// Walk the repository.
    WalkRepository,
    /// Look at the repository copy and the overlay copy of each relative
    /// path.
    Probe(Vec<String>),
    /// Carry out each action on its relative path.
    Perform(Vec<String>, Vec<LinkAction>),
    /// Remove each relative path from the overlay directory.
    RemoveFromOverlay(Vec<String>),
    /// Walk the overlay directory.
    WalkOverlay,
    /// Write the overlay directory's configuration.
    SaveOverlayConfig,
    /// Write this text as the exclude file.
    WriteExclude(String),
    /// Write the repository's configuration.
    SaveConfig,
    /// Synchronization is complete.
    Finish,
    /// Synchronization stopped with this message.
    Stop(String),
}

/// The message a `Stop` request carries; empty for other requests.
pub open spec fn stop_text(req: SyncRequest) -> Seq<char> {
    match req {
        SyncRequest::Stop(m) => m@,
        _ => seq![],
    }
}

/// The step stops: nothing changes, the phase is `Finished`, and a `Stop`
/// request is made.
pub open spec fn halted(old: BaseModel, new: BaseModel, next: SyncPhase, req: SyncRequest) -> bool {
    new == old && next is Finished && req is Stop
}

/// The message for an event that the phase does not expect.
pub open spec fn unexpected_text() -> Seq<char> {
    "unexpected event during synchronization"@
}

/// The message for probe results that do not match the paths asked about.
pub open spec fn probe_mismatch_text() -> Seq<char> {
    "probe results do not match the files asked about"@
}

/// The model with the overlay directory's configuration marked as written.
pub open spec fn overlay_saved(m: BaseModel) -> BaseModel {
    BaseModel {
        overlay: OverlayModel {
            config: DirectoryConfigModel { exists: true, ..m.overlay.config },
            ..m.overlay
        },
        ..m
    }
}

/// The model with the overlay's managed patterns and patterns folded into
/// the exclude file (see
/// [`BaseRepository::sync_overlay_patterns`]).
pub open spec fn folded(m: BaseModel) -> BaseModel {
    with_exclude(
        m,
        ExcludeModel {
            patterns: m.exclude.patterns + unfolded(
                m.overlay.config.managed_patterns + m.overlay.config.ignore_patterns,
                m.exclude,
            ),
            ..m.exclude
        },
    )
}

/// The repository files, relative to the root, that the exclude patterns
/// match among the walk entries `es` (when the patterns build and every
/// match lies below the root).
pub open spec fn excluded_rels(m: BaseModel, es: Seq<WalkEntry>) -> Option<Seq<Seq<char>>> {
    strip_dir_all(m.root, matching_paths(m.root, m.exclude.patterns, entry_views(es)))
}

/// What one step of synchronization does: from the model `old`, in
/// `phase`, on `event`, the step leaves the model `new`, goes to `next` and
/// makes the request `req`.
pub open spec fn sync_step_spec(
    old: BaseModel,
    phase: SyncPhase,
    event: SyncEvent,
    force: Option<ForceSide>,
    new: BaseModel,
    next: SyncPhase,
    req: SyncRequest,
) -> bool {
    match event {
        SyncEvent::Failed(e) => halted(old, new, next, req) && stop_text(req) == e@,
        _ => match phase {
            SyncPhase::Begin => match event {
                SyncEvent::Start => if old.config.exists {
                    new == old && next is AwaitRepoWalk && req is WalkRepository
                } else {
                    halted(old, new, next, req) && stop_text(req) == not_initialized_text(old.root)
                },
                _ => halted(old, new, next, req) && stop_text(req) == unexpected_text(),
            },
            SyncPhase::AwaitRepoWalk => match event {
                SyncEvent::Walked(es) => if !matcher_builds(old.exclude.patterns) {
                    halted(old, new, next, req) && build_error_prefix(
                        "exclude"@,
                        "exclude"@,
                        old.exclude.patterns,
                    ).is_prefix_of(stop_text(req))
                } else if excluded_rels(old, es@) is None {
                    halted(old, new, next, req) && relativize_failure(
                        old.root,
                        matching_paths(old.root, old.exclude.patterns, entry_views(es@)),
                        stop_text(req),
                    )
                } else {
                    &&& new == old
                    &&& next matches SyncPhase::AwaitRepoProbe { snapshot, excluded, candidates }
                    &&& views(snapshot@) == old.config.managed_files
                    &&& views(excluded@) == excluded_rels(old, es@).unwrap()
                    &&& views(candidates@) == absent_from(
                        excluded_rels(old, es@).unwrap(),
                        old.config.managed_files,
                    )
                    &&& req matches SyncRequest::Probe(ps)
                    &&& views(ps@) == views(candidates@)
                },
                _ => halted(old, new, next, req) && stop_text(req) == unexpected_text(),
            },
            SyncPhase::AwaitRepoProbe { snapshot, excluded, candidates } => match event {
                SyncEvent::Probed(states) => if states.len() != candidates.len() {
                    halted(old, new, next, req) && stop_text(req) == probe_mismatch_text()
                } else {
                    &&& req matches SyncRequest::Perform(ps, acts)
                    &&& views(ps@) == views(candidates@)
                    &&& acts.len() == candidates.len()
                    &&& forall|i: int|
                        0 <= i < acts.len() ==> acts@[i] == repo_file_action(
                            #[trigger] states@[i],
                            force,
                        )
                    &&& new == with_managed_files(
                        old,
                        inserted_all(
                            old.config.managed_files,
                            managed_by(views(candidates@), acts@),
                        ),
                    )
                    &&& next matches SyncPhase::AwaitMoves { snapshot: s2, excluded: e2 }
                    &&& views(s2@) == views(snapshot@)
                    &&& views(e2@) == views(excluded@)
                },
                _ => halted(old, new, next, req) && stop_text(req) == unexpected_text(),
            },
            SyncPhase::AwaitMoves { snapshot, excluded } => match event {
                SyncEvent::Done => {
                    &&& new == old
                    &&& next matches SyncPhase::AwaitDrops { dropped }
                    &&& views(dropped@) == absent_from(views(snapshot@), views(excluded@))
                    &&& req matches SyncRequest::RemoveFromOverlay(ps)
                    &&& views(ps@) == views(dropped@)
                },
                _ => halted(old, new, next, req) && stop_text(req) == unexpected_text(),
            },
            SyncPhase::AwaitDrops { dropped } => match event {
                SyncEvent::Done => {
                    &&& new == with_managed_files(
                        with_overlay_patterns(
                            old,
                            removed_all(old.overlay.config.ignore_patterns, views(dropped@)),
                        ),
                        removed_all(old.config.managed_files, views(dropped@)),
                    )
                    &&& next is AwaitOverlayWalk
                    &&& req is WalkOverlay
                },
                _ => halted(old, new, next, req) && stop_text(req) == unexpected_text(),
            },
            SyncPhase::AwaitOverlayWalk => match event {
                SyncEvent::Walked(es) => {
                    let files = overlay_files(old.overlay.root, entry_views(es@));
                    let cover = covering_patterns(old.overlay.config);
                    let stray = unmatched_paths(old.overlay.root, cover, files);
                    if strip_dir_all(old.overlay.root, files) is None {
                        halted(old, new, next, req) && relativize_failure(
                            old.overlay.root,
                            files,
                            stop_text(req),
                        )
                    } else if !matcher_builds(cover) {
                        halted(old, new, next, req) && build_error_prefix(
                            "ignore"@,
                            "overlay ignore"@,
                            cover,
                        ).is_prefix_of(stop_text(req))
                    } else if strip_dir_all(old.overlay.root, stray) is None {
                        halted(old, new, next, req) && relativize_failure(
                            old.overlay.root,
                            stray,
                            stop_text(req),
                        )
                    } else {
                        &&& new == with_overlay_patterns(
                            old,
                            inserted_all(
                                old.overlay.config.ignore_patterns,
                                strip_dir_all(old.overlay.root, stray).unwrap(),
                            ),
                        )
                        &&& next matches SyncPhase::AwaitOverlayConfigSaved { rels }
                        &&& views(rels@) == strip_dir_all(old.overlay.root, files).unwrap()
                        &&& req is SaveOverlayConfig
                    }
                },
                _ => halted(old, new, next, req) && stop_text(req) == unexpected_text(),
            },
            SyncPhase::AwaitOverlayConfigSaved { rels } => match event {
                SyncEvent::Done => {
                    &&& new == folded(overlay_saved(old))
                    &&& next matches SyncPhase::AwaitExcludeWritten { rels: r2 }
                    &&& views(r2@) == views(rels@)
                    &&& req matches SyncRequest::WriteExclude(text)
                    &&& text@ == render(new.exclude.head, new.exclude.patterns, new.exclude.tail)
                },
                _ => halted(old, new, next, req) && stop_text(req) == unexpected_text(),
            },
            SyncPhase::AwaitExcludeWritten { rels } => match event {
                SyncEvent::Done => {
                    &&& new == old
                    &&& next matches SyncPhase::AwaitOverlayProbe { rels: r2 }
                    &&& views(r2@) == views(rels@)
                    &&& req matches SyncRequest::Probe(ps)
                    &&& views(ps@) == views(rels@)
                },
                _ => halted(old, new, next, req) && stop_text(req) == unexpected_text(),
            },
            SyncPhase::AwaitOverlayProbe { rels } => match event {
                SyncEvent::Probed(states) => if states.len() != rels.len() {
                    halted(old, new, next, req) && stop_text(req) == probe_mismatch_text()
                } else {
                    &&& req matches SyncRequest::Perform(ps, acts)
                    &&& views(ps@) == views(rels@)
                    &&& acts.len() == rels.len()
                    &&& forall|i: int|
                        0 <= i < acts.len() ==> acts@[i] == overlay_file_action(
                            #[trigger] states@[i],
                            force,
                        )
                    &&& new == with_managed_files(
                        old,
                        inserted_all(old.config.managed_files, managed_by(views(rels@), acts@)),
                    )
                    &&& next is AwaitLinks
                },
                _ => halted(old, new, next, req) && stop_text(req) == unexpected_text(),
            },
            SyncPhase::AwaitLinks => match event {
                SyncEvent::Done => new == old && next is AwaitConfigSaved && req is SaveConfig,
                _ => halted(old, new, next, req) && stop_text(req) == unexpected_text(),
            },
            SyncPhase::AwaitConfigSaved => match event {
                SyncEvent::Done => {
                    &&& new == (BaseModel {
                        config: RepositoryConfigurationModel { exists: true, ..old.config },
                        ..old
                    })
                    &&& next is Finished
                    &&& req is Finish
                },
                _ => halted(old, new, next, req) && stop_text(req) == unexpected_text(),
            },
            SyncPhase::AwaitAddWalk { patterns } => match event {
                SyncEvent::Walked(es) => {
                    let files = matching_paths(old.root, views(patterns@), entry_views(es@));
                    if !matcher_builds(views(patterns@)) {
                        halted(old, new, next, req) && build_error_prefix(
                            "exclude"@,
                            "exclude"@,
                            views(patterns@),
                        ).is_prefix_of(stop_text(req))
                    } else if strip_dir_all(old.root, files) is None {
                        halted(old, new, next, req) && relativize_failure(
                            old.root,
                            files,
                            stop_text(req),
                        )
                    } else {
                        &&& new == old
                        &&& next matches SyncPhase::AwaitAddProbe { candidates }
                        &&& views(candidates@) == absent_from(
                            strip_dir_all(old.root, files).unwrap(),
                            old.config.managed_files,
                        )
                        &&& req matches SyncRequest::Probe(ps)
                        &&& views(ps@) == views(candidates@)
                    }
                },
                _ => halted(old, new, next, req) && stop_text(req) == unexpected_text(),
            },
            SyncPhase::AwaitAddProbe { candidates } => match event {
                SyncEvent::Probed(states) => if states.len() != candidates.len() {
                    halted(old, new, next, req) && stop_text(req) == probe_mismatch_text()
                } else {
                    &&& req matches SyncRequest::Perform(ps, acts)
                    &&& views(ps@) == views(candidates@)
                    &&& acts.len() == candidates.len()
                    &&& forall|i: int|
                        0 <= i < acts.len() ==> acts@[i] == repo_file_action(
                            #[trigger] states@[i],
                            force,
                        )
                    &&& new == with_managed_files(
                        old,
                        inserted_all(
                            old.config.managed_files,
                            managed_by(views(candidates@), acts@),
                        ),
                    )
                    &&& next is AwaitLinks
                },
                _ => halted(old, new, next, req) && stop_text(req) == unexpected_text(),
            },
            SyncPhase::AwaitRemoveWalk => match event {
                SyncEvent::Walked(es) => if !matcher_builds(old.exclude.patterns) {
                    halted(old, new, next, req) && build_error_prefix(
                        "exclude"@,
                        "exclude"@,
                        old.exclude.patterns,
                    ).is_prefix_of(stop_text(req))
                } else if excluded_rels(old, es@) is None {
                    halted(old, new, next, req) && relativize_failure(
                        old.root,
                        matching_paths(old.root, old.exclude.patterns, entry_views(es@)),
                        stop_text(req),
                    )
                } else {
                    &&& new == old
                    &&& next matches SyncPhase::AwaitRemoveDrops { dropped }
                    &&& views(dropped@) == absent_from(
                        old.config.managed_files,
                        excluded_rels(old, es@).unwrap(),
                    )
                    &&& req matches SyncRequest::RemoveFromOverlay(ps)
                    &&& views(ps@) == views(dropped@)
                },
                _ => halted(old, new, next, req) && stop_text(req) == unexpected_text(),
            },
            SyncPhase::AwaitRemoveDrops { dropped } => match event {
                SyncEvent::Done => {
                    &&& new == with_managed_files(
                        with_overlay_patterns(
                            old,
                            removed_all(old.overlay.config.ignore_patterns, views(dropped@)),
                        ),
                        removed_all(old.config.managed_files, views(dropped@)),
                    )
                    &&& next is AwaitRemoveOverlaySaved
                    &&& req is SaveOverlayConfig
                },
                _ => halted(old, new, next, req) && stop_text(req) == unexpected_text(),
            },
            SyncPhase::AwaitRemoveOverlaySaved => match event {
                SyncEvent::Done => new == overlay_saved(old) && next is AwaitConfigSaved
                    && req is SaveConfig,
                _ => halted(old, new, next, req) && stop_text(req) == unexpected_text(),
            },
            SyncPhase::Finished => halted(old, new, next, req) && stop_text(req) == unexpected_text(),
        },
    }
}

fn stop(msg: &str) -> (r: (SyncPhase, SyncRequest))
    ensures
        r.0 is Finished,
        r.1 is Stop,
        stop_text(r.1) == msg@,
{
    (SyncPhase::Finished, SyncRequest::Stop(string_of_str(msg)))
}

impl BaseRepository {
    /// One step of synchronizing the repository with its overlay directory
    /// (see [`sync_step_spec`]). Starting from `Begin` with `Start`, the
    /// requests are, in order: walk the repository; probe the files the
    /// exclude patterns match that are not managed yet; move them into the
    /// overlay and link them back; remove from the overlay the managed files
    /// no longer matched; walk the overlay; write its configuration once its
    /// stray files are pinned; write the exclude file once the overlay's
    /// patterns are folded in; probe the overlay's files; link them into the
    /// repository; write the repository's configuration. After `add`, a run
    /// starts in `AwaitAddWalk` with the patterns added, and moves the files
    /// they match; after `remove`, in `AwaitRemoveWalk`, and takes out of the
    /// overlay the managed files no pattern matches any more. A failure
    /// reported at any step stops with its message and changes nothing.
    pub fn sync_step(&mut self, phase: SyncPhase, event: SyncEvent, force: Option<ForceSide>) -> (r: (
        SyncPhase,
        SyncRequest,
    ))
        ensures
            sync_step_spec(old(self)@, phase, event, force, final(self)@, r.0, r.1),
    {
        if let SyncEvent::Failed(e) = event {
            return (SyncPhase::Finished, SyncRequest::Stop(e));
        }
        match phase {
            SyncPhase::Begin => match event {
                SyncEvent::Start => match self.ensure_initialized() {
                    Ok(()) => (SyncPhase::AwaitRepoWalk, SyncRequest::WalkRepository),
                    Err(m) => (SyncPhase::Finished, SyncRequest::Stop(m)),
                },
                _ => stop("unexpected event during synchronization"),
            },
            SyncPhase::AwaitRepoWalk => match event {
                SyncEvent::Walked(es) => {
                    let files = match self.excluded_files(&es) {
                        Ok(f) => f,
                        Err(m) => {
                            return (SyncPhase::Finished, SyncRequest::Stop(m));
                        },
                    };
                    let excluded = match relativize_all(self.root(), &files) {
                        Ok(x) => x,
                        Err(m) => {
                            return (SyncPhase::Finished, SyncRequest::Stop(m));
                        },
                    };
                    let candidates = self.unmanaged(&excluded);
                    let snapshot = self.tracked_files().clone();
                    let ask = candidates.clone();
                    (
                        SyncPhase::AwaitRepoProbe { snapshot, excluded, candidates },
                        SyncRequest::Probe(ask),
                    )
                },
                _ => stop("unexpected event during synchronization"),
            },
            SyncPhase::AwaitRepoProbe { snapshot, excluded, candidates } => match event {
                SyncEvent::Probed(states) => {
                    if states.len() != candidates.len() {
                        return stop("probe results do not match the files asked about");
                    }
                    let actions = self.sync_added(&candidates, &states, force);
                    (SyncPhase::AwaitMoves { snapshot, excluded }, SyncRequest::Perform(candidates, actions))
                },
                _ => stop("unexpected event during synchronization"),
            },
            SyncPhase::AwaitMoves { snapshot, excluded } => match event {
                SyncEvent::Done => {
                    let dropped = BaseRepository::files_to_drop(&snapshot, &excluded);
                    let ask = dropped.clone();
                    (SyncPhase::AwaitDrops { dropped }, SyncRequest::RemoveFromOverlay(ask))
                },
                _ => stop("unexpected event during synchronization"),
            },
            SyncPhase::AwaitDrops { dropped } => match event {
                SyncEvent::Done => {
                    self.drop_managed(&dropped);
                    (SyncPhase::AwaitOverlayWalk, SyncRequest::WalkOverlay)
                },
                _ => stop("unexpected event during synchronization"),
            },
            SyncPhase::AwaitOverlayWalk => match event {
                SyncEvent::Walked(es) => {
                    let files = self.overlay().files(&es);
                    let rels = match relativize_all(self.overlay().root(), &files) {
                        Ok(x) => x,
                        Err(m) => {
                            return (SyncPhase::Finished, SyncRequest::Stop(m));
                        },
                    };
                    match self.fix_overlay_patterns(&files) {
                        Ok(()) => (SyncPhase::AwaitOverlayConfigSaved { rels }, SyncRequest::SaveOverlayConfig),
                        Err(m) => (SyncPhase::Finished, SyncRequest::Stop(m)),
                    }
                },
                _ => stop("unexpected event during synchronization"),
            },
            SyncPhase::AwaitOverlayConfigSaved { rels } => match event {
                SyncEvent::Done => {
                    self.mark_overlay_saved();
                    self.sync_overlay_patterns();
                    let text = self.exclude().save();
                    (SyncPhase::AwaitExcludeWritten { rels }, SyncRequest::WriteExclude(text))
                },
                _ => stop("unexpected event during synchronization"),
            },
            SyncPhase::AwaitExcludeWritten { rels } => match event {
                SyncEvent::Done => {
                    let ask = rels.clone();
                    (SyncPhase::AwaitOverlayProbe { rels }, SyncRequest::Probe(ask))
                },
                _ => stop("unexpected event during synchronization"),
            },
            SyncPhase::AwaitOverlayProbe { rels } => match event {
                SyncEvent::Probed(states) => {
                    if states.len() != rels.len() {
                        return stop("probe results do not match the files asked about");
                    }
                    let actions = self.sync_overlay_files(&rels, &states, force);
                    (SyncPhase::AwaitLinks, SyncRequest::Perform(rels, actions))
                },
                _ => stop("unexpected event during synchronization"),
            },
            SyncPhase::AwaitLinks => match event {
                SyncEvent::Done => (SyncPhase::AwaitConfigSaved, SyncRequest::SaveConfig),
                _ => stop("unexpected event during synchronization"),
            },
            SyncPhase::AwaitConfigSaved => match event {
                SyncEvent::Done => {
                    self.mark_config_saved();
                    (SyncPhase::Finished, SyncRequest::Finish)
                },
                _ => stop("unexpected event during synchronization"),
            },
            SyncPhase::AwaitAddWalk { patterns } => match event {
                SyncEvent::Walked(es) => {
                    let files = match matching_files(self.root(), &patterns, &es) {
                        Ok(f) => f,
                        Err(m) => {
                            return (SyncPhase::Finished, SyncRequest::Stop(m));
                        },
                    };
                    let rels = match relativize_all(self.root(), &files) {
                        Ok(x) => x,
                        Err(m) => {
                            return (SyncPhase::Finished, SyncRequest::Stop(m));
                        },
                    };
                    let candidates = self.unmanaged(&rels);
                    let ask = candidates.clone();
                    (SyncPhase::AwaitAddProbe { candidates }, SyncRequest::Probe(ask))
                },
                _ => stop("unexpected event during synchronization"),
            },
            SyncPhase::AwaitAddProbe { candidates } => match event {
                SyncEvent::Probed(states) => {
                    if states.len() != candidates.len() {
                        return stop("probe results do not match the files asked about");
                    }
                    let actions = self.sync_added(&candidates, &states, force);
                    (SyncPhase::AwaitLinks, SyncRequest::Perform(candidates, actions))
                },
                _ => stop("unexpected event during synchronization"),
            },
            SyncPhase::AwaitRemoveWalk => match event {
                SyncEvent::Walked(es) => {
                    let files = match self.excluded_files(&es) {
                        Ok(f) => f,
                        Err(m) => {
                            return (SyncPhase::Finished, SyncRequest::Stop(m));
                        },
                    };
                    let excluded = match relativize_all(self.root(), &files) {
                        Ok(x) => x,
                        Err(m) => {
                            return (SyncPhase::Finished, SyncRequest::Stop(m));
                        },
                    };
                    let dropped = BaseRepository::files_to_drop(self.tracked_files(), &excluded);
                    let ask = dropped.clone();
                    (SyncPhase::AwaitRemoveDrops { dropped }, SyncRequest::RemoveFromOverlay(ask))
                },
                _ => stop("unexpected event during synchronization"),
            },
            SyncPhase::AwaitRemoveDrops { dropped } => match event {
                SyncEvent::Done => {
                    self.drop_managed(&dropped);
                    (SyncPhase::AwaitRemoveOverlaySaved, SyncRequest::SaveOverlayConfig)
                },
                _ => stop("unexpected event during synchronization"),
            },
            SyncPhase::AwaitRemoveOverlaySaved => match event {
                SyncEvent::Done => {
                    self.mark_overlay_saved();
                    (SyncPhase::AwaitConfigSaved, SyncRequest::SaveConfig)
                },
                _ => stop("unexpected event during synchronization"),
            },
            SyncPhase::Finished => stop("unexpected event during synchronization"),
        }
    }
}

/// Over a synchronization run (the repository walk, the probe of the
/// candidates, the moves, the drops), the files taken out of the overlay are
/// exactly the files managed when the run started that the exclude patterns
/// no longer match in the walk; so a managed file that is still matched is
/// never removed from the overlay and is still managed afterwards.
pub proof fn lemma_sync_drops_only_unmatched(
    m0: BaseModel,
    es: Vec<WalkEntry>,
    force: Option<ForceSide>,
    m1: BaseModel,
    ph1: SyncPhase,
    r1: SyncRequest,
    states: Vec<PairState>,
    m2: BaseModel,
    ph2: SyncPhase,
    r2: SyncRequest,
    m3: BaseModel,
    ph3: SyncPhase,
    r3: SyncRequest,
    m4: BaseModel,
    ph4: SyncPhase,
    r4: SyncRequest,
)
    requires
        sync_step_spec(m0, SyncPhase::AwaitRepoWalk, SyncEvent::Walked(es), force, m1, ph1, r1),
        ph1 is AwaitRepoProbe,
        sync_step_spec(m1, ph1, SyncEvent::Probed(states), force, m2, ph2, r2),
        ph2 is AwaitMoves,
        sync_step_spec(m2, ph2, SyncEvent::Done, force, m3, ph3, r3),
        sync_step_spec(m3, ph3, SyncEvent::Done, force, m4, ph4, r4),
    ensures
        excluded_rels(m0, es@) is Some,
        r3 matches SyncRequest::RemoveFromOverlay(ps) && forall|f: Seq<char>|
            #[trigger] views(ps@).contains(f) <==> (m0.config.managed_files.contains(f)
                && !excluded_rels(m0, es@).unwrap().contains(f)),
        forall|f: Seq<char>|
            m0.config.managed_files.contains(f) && excluded_rels(m0, es@).unwrap().contains(f)
                ==> #[trigger] m4.config.managed_files.contains(f),
{
    let x = excluded_rels(m0, es@).unwrap();
    match ph1 {
        SyncPhase::AwaitRepoProbe { snapshot, excluded, candidates } => {
            assert(views(snapshot@) == m0.config.managed_files);
            assert(views(excluded@) == x);
            match ph2 {
                SyncPhase::AwaitMoves { snapshot: s2, excluded: e2 } => {
                    assert(views(s2@) == m0.config.managed_files);
                    assert(views(e2@) == x);
                    match ph3 {
                        SyncPhase::AwaitDrops { dropped } => {
                            let d = views(dropped@);
                            assert(d == absent_from(m0.config.managed_files, x));
                            lemma_absent_from_contains(m0.config.managed_files, x);
                            let added = managed_by(views(candidates@), r2->Perform_1@);
                            assert(m2.config.managed_files == inserted_all(
                                m0.config.managed_files,
                                added,
                            ));
                            lemma_inserted_all_contains(m0.config.managed_files, added);
                            assert(m3 == m2);
                            assert(m4.config.managed_files == removed_all(
                                m3.config.managed_files,
                                d,
                            ));
                            lemma_removed_all_contains(m3.config.managed_files, d);
                        },
                        _ => {},
                    }
                },
                _ => {},
            }
        },
        _ => {},
    }
}

} // verus!
