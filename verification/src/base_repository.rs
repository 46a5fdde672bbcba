//! A Git repository overlaid with an overlay directory: the bookkeeping of
//! its exclude file and configurations, and the decisions of adding,
//! removing and synchronizing managed files.
use vstd::prelude::*;
use crate::exclude::{
    ExcludeFile, ExcludeModel, has_line, string_of_str, with_ignore, with_ignores, without_ignore,
    without_ignores,
};
use crate::matcher::{
    PatternMatcher, WalkEntry, build_error_prefix, entry_views, gitignore_line_accepted,
    matching_paths, unmatched_paths,
};
use crate::overlay_directory::{OverlayDirectory, OverlayModel, matcher_builds, covering_patterns};
use crate::directory_config::DirectoryConfigModel;
use crate::paths::{join_path, path_join, relativize_failure, strip_dir_all};
use crate::repo_config::{RepositoryConfiguration, RepositoryConfigurationModel};
use crate::strlist::{
    absent_from, contains_str, inserted_all, keep_absent, removed_all, str_eq, views,
};
use crate::sync_decision::{
    ForceSide, LinkAction, PairState, action_manages, decide_overlay_file, decide_repo_file,
    manages, overlay_file_action, repo_file_action,
};
use crate::text::{chars_of, line_spans, lines, push_str, string_of, trim, trim_bounds};

verus! {

/// The abstract state of a [`BaseRepository`].
pub struct BaseModel {
    pub root: Seq<char>,
    pub exclude: ExcludeModel,
    pub config: RepositoryConfigurationModel,
    pub overlay: OverlayModel,
}

/// The patterns of `batch` that are new: not in `existing`, and not already
/// met earlier in the batch, in order.
pub open spec fn new_patterns(existing: Seq<Seq<char>>, batch: Seq<Seq<char>>) -> Seq<Seq<char>>
    decreases batch.len(),
{
    if batch.len() == 0 {
        seq![]
    } else {
        let prev = new_patterns(existing, batch.drop_last());
        let p = batch.last();
        if existing.contains(p) || prev.contains(p) {
            prev
        } else {
            prev.push(p)
        }
    }
}

/// The paths whose action leaves them managed, in order.
pub open spec fn managed_by(paths: Seq<Seq<char>>, actions: Seq<LinkAction>) -> Seq<Seq<char>>
    decreases paths.len(),
{
    if paths.len() == 0 || actions.len() != paths.len() {
        seq![]
    } else {
        let rest = managed_by(paths.drop_last(), actions.drop_last());
        if manages(actions.last()) {
            rest.push(paths.last())
        } else {
            rest
        }
    }
}

/// The model with the exclude file replaced.
pub open spec fn with_exclude(m: BaseModel, e: ExcludeModel) -> BaseModel {
    BaseModel { exclude: e, ..m }
}

/// The model with the overlay directory's patterns (its configuration's
/// ignore patterns) replaced.
pub open spec fn with_overlay_patterns(m: BaseModel, ps: Seq<Seq<char>>) -> BaseModel {
    BaseModel {
        overlay: OverlayModel {
            config: DirectoryConfigModel { ignore_patterns: ps, ..m.overlay.config },
            ..m.overlay
        },
        ..m
    }
}

/// The model with the managed files replaced.
pub open spec fn with_managed_files(m: BaseModel, fs: Seq<Seq<char>>) -> BaseModel {
    BaseModel { config: RepositoryConfigurationModel { managed_files: fs, ..m.config }, ..m }
}

/// A repository to be overlaid with an overlay directory.
pub struct BaseRepository {
    repo_root_abs: String,
    exclude: ExcludeFile,
    config: RepositoryConfiguration,
    overlay: OverlayDirectory,
}

impl View for BaseRepository {
    type V = BaseModel;

    closed spec fn view(&self) -> BaseModel {
        BaseModel {
            root: self.repo_root_abs@,
            exclude: self.exclude@,
            config: self.config@,
            overlay: self.overlay@,
        }
    }
}

/// The error for a repository at `root` that is not initialized.
pub open spec fn not_initialized_text(root: Seq<char>) -> Seq<char> {
    "repository "@ + root + " is not initialized; run init first"@
}

/// The message for a repository that is not initialized.
fn not_initialized_message(root: &str) -> (s: String)
    ensures
        s@ == not_initialized_text(root@),
{
    let mut msg = string_of_str("repository ");
    push_str(&mut msg, root);
    push_str(&mut msg, " is not initialized; run init first");
    msg
}

/// The absolute paths of the file entries that `patterns`, as gitignore
/// lines for `root`, match, in walk order. It fails when the patterns do
/// not build a matcher.
pub fn matching_files(root: &str, patterns: &Vec<String>, entries: &Vec<WalkEntry>) -> (r: Result<
    Vec<String>,
    String,
>)
    ensures
        r is Ok <==> matcher_builds(views(patterns@)),
        r matches Ok(v) ==> views(v@) == matching_paths(
            root@,
            views(patterns@),
            entry_views(entries@),
        ),
        r matches Err(m) ==> build_error_prefix("exclude"@, "exclude"@, views(patterns@)).is_prefix_of(m@),
{
    match PatternMatcher::build(root, patterns, "exclude", "exclude") {
        Ok(m) => {
            assert(matcher_builds(views(patterns@))) by {
                assert forall|j: int| 0 <= j < views(patterns@).len() implies gitignore_line_accepted(
                    #[trigger] views(patterns@)[j],
                ) by {
                    assert(views(patterns@)[j] == patterns@[j]@);
                }
            }
            Ok(m.matching_files(entries))
        },
        Err(e) => {
            assert(!matcher_builds(views(patterns@))) by {
                if matcher_builds(views(patterns@)) {
                    assert forall|j: int| 0 <= j < patterns.len() implies gitignore_line_accepted(
                        #[trigger] patterns@[j]@,
                    ) by {
                        assert(views(patterns@)[j] == patterns@[j]@);
                    }
                }
            }
            Err(e)
        },
    }
}

/// The lines of `ls`, each trimmed, leaving out those that trim to nothing.
pub open spec fn trimmed_nonempty(ls: Seq<Seq<char>>) -> Seq<Seq<char>>
    decreases ls.len(),
{
    if ls.len() == 0 {
        seq![]
    } else {
        let rest = trimmed_nonempty(ls.drop_last());
        if trim(ls.last()).len() == 0 {
            rest
        } else {
            rest.push(trim(ls.last()))
        }
    }
}

impl BaseRepository {
    /// The lines of what `git rev-parse` printed, each trimmed, without the
    /// empty ones.
    pub fn rev_parse_lines(stdout: &str) -> (out: Vec<String>)
        ensures
            views(out@) == trimmed_nonempty(lines(stdout@)),
    {
        let cs = chars_of(stdout);
        let spans = line_spans(&cs);
        let ghost ls = lines(stdout@);
        let mut out: Vec<String> = Vec::new();
        let mut i: usize = 0;
        while i < spans.len()
            invariant
                i <= spans.len() == ls.len(),
                cs@ == stdout@,
                ls == lines(stdout@),
                forall|j: int| 0 <= j < spans.len() ==> (#[trigger] spans[j]).0 <= spans[j].1 <= cs.len(),
                forall|j: int|
                    0 <= j < spans.len() ==> #[trigger] cs@.subrange(spans[j].0 as int, spans[j].1 as int)
                        == ls[j],
                views(out@) == trimmed_nonempty(ls.take(i as int)),
            decreases spans.len() - i,
        {
            proof {
                assert(ls.take(i + 1).drop_last() =~= ls.take(i as int));
                assert(ls.take(i + 1).last() == ls[i as int]);
                assert(cs@.subrange(spans[i as int].0 as int, spans[i as int].1 as int) == ls[i as int]);
            }
            let (a, b) = trim_bounds(&cs, spans[i].0, spans[i].1);
            if a < b {
                let ghost before = out@;
                out.push(string_of(&cs, a, b));
                assert(views(out@) =~= views(before).push(trim(ls[i as int])));
            }
            i = i + 1;
        }
        assert(ls.take(ls.len() as int) =~= ls);
        out
    }

    /// The repository root reported by `git rev-parse --is-inside-work-tree
    /// --show-toplevel` run in `dir`, from its non-empty output lines: the
    /// second line, when there are exactly two and the first is `true`.
    pub fn toplevel_from_rev_parse(dir: &str, lines: &Vec<String>) -> (r: Result<String, String>)
        ensures
            r is Ok <==> lines.len() == 2 && lines@[0]@ == "true"@,
            r matches Ok(t) ==> t@ == lines@[1]@,
            r matches Err(m) ==> m@ == (if lines.len() != 2 {
                "unexpected git rev-parse output in "@ + dir@
            } else {
                "current directory "@ + dir@ + " is not managed by git"@
            }),
    {
        if lines.len() != 2 {
            let mut msg = string_of_str("unexpected git rev-parse output in ");
            push_str(&mut msg, dir);
            return Err(msg);
        }
        if !str_eq(lines[0].as_str(), "true") {
            let mut msg = string_of_str("current directory ");
            push_str(&mut msg, dir);
            push_str(&mut msg, " is not managed by git");
            return Err(msg);
        }
        Ok(lines[1].clone())
    }

    /// The repository at the absolute root `repo_root_abs`, with its loaded
    /// exclude file, configuration and overlay directory.
    pub fn new(
        repo_root_abs: String,
        exclude: ExcludeFile,
        config: RepositoryConfiguration,
        overlay: OverlayDirectory,
    ) -> (r: Self)
        ensures
            r@ == (BaseModel {
                root: repo_root_abs@,
                exclude: exclude@,
                config: config@,
                overlay: overlay@,
            }),
    {
        BaseRepository { repo_root_abs, exclude, config, overlay }
    }

    /// The repository root.
    pub fn root(&self) -> (r: &str)
        ensures
            r@ == self@.root,
    {
        self.repo_root_abs.as_str()
    }

    /// Whether the repository has been initialized (its configuration file
    /// exists).
    pub fn is_initialized(&self) -> (b: bool)
        ensures
            b == self@.config.exists,
    {
        self.config.exists_on_disk()
    }

    /// The repository's exclude file.
    pub fn exclude(&self) -> (r: &ExcludeFile)
        ensures
            r@ == self@.exclude,
    {
        &self.exclude
    }

    /// The repository's configuration.
    pub fn config(&self) -> (r: &RepositoryConfiguration)
        ensures
            r@ == self@.config,
    {
        &self.config
    }

    /// The repository's overlay directory.
    pub fn overlay(&self) -> (r: &OverlayDirectory)
        ensures
            r@ == self@.overlay,
    {
        &self.overlay
    }

    /// The patterns in the repository's private ignore file.
    pub fn list_patterns(&self) -> (r: &Vec<String>)
        ensures
            views(r@) == self@.exclude.patterns,
    {
        self.exclude.patterns()
    }

    /// The files managed by the overlay tool.
    pub fn tracked_files(&self) -> (r: &Vec<String>)
        ensures
            views(r@) == self@.config.managed_files,
    {
        self.config.managed_files()
    }

    /// The ignore patterns of the overlay directory.
    pub fn list_ignore_patterns(&self) -> (r: &Vec<String>)
        ensures
            views(r@) == self@.overlay.config.ignore_patterns,
    {
        self.overlay.list_patterns()
    }

    /// Where the configured overlay directory is: its path joined onto the
    /// repository root.
    pub fn overlay_location(&self) -> (p: String)
        ensures
            p@ == path_join(self@.root, self@.config.overlay_directory),
    {
        join_path(self.repo_root_abs.as_str(), self.config.overlay_directory())
    }

    /// Fails when the repository has not been initialized.
    pub fn ensure_initialized(&self) -> (r: Result<(), String>)
        ensures
            r is Ok <==> self@.config.exists,
            r matches Err(m) ==> m@ == not_initialized_text(self@.root),
    {
        if !self.config.exists_on_disk() {
            return Err(not_initialized_message(self.repo_root_abs.as_str()));
        }
        Ok(())
    }

    /// Replaces the overlay directory, freshly loaded from the configured
    /// location.
    pub fn set_overlay(&mut self, overlay: OverlayDirectory)
        ensures
            final(self)@ == (BaseModel { overlay: overlay@, ..old(self)@ }),
    {
        self.overlay = overlay;
    }

    /// Records that the configuration file has been written.
    pub fn mark_config_saved(&mut self)
        ensures
            final(self)@ == (BaseModel {
                config: RepositoryConfigurationModel { exists: true, ..old(self)@.config },
                ..old(self)@
            }),
    {
        self.config.mark_saved();
    }

    /// Records that the overlay directory's configuration file has been
    /// written.
    pub fn mark_overlay_saved(&mut self)
        ensures
            final(self)@ == (BaseModel {
                overlay: OverlayModel {
                    config: DirectoryConfigModel { exists: true, ..old(self)@.overlay.config },
                    ..old(self)@.overlay
                },
                ..old(self)@
            }),
    {
        self.overlay.mark_saved();
    }

    /// Starts initialization: fails when the repository is already
    /// initialized, otherwise records `overlay_path` as the overlay
    /// directory.
    pub fn init(&mut self, overlay_path: &str) -> (r: Result<(), String>)
        ensures
            r is Ok <==> !old(self)@.config.exists,
            r is Err ==> final(self)@ == old(self)@,
            r matches Err(m) ==> m@ == "repository "@ + old(self)@.root
                + " is already initialized with overlay path "@ + old(self)@.config.overlay_directory,
            r is Ok ==> final(self)@ == (BaseModel {
                config: RepositoryConfigurationModel {
                    overlay_directory: overlay_path@,
                    ..old(self)@.config
                },
                ..old(self)@
            }),
    {
        if self.config.exists_on_disk() {
            let mut msg = string_of_str("repository ");
            push_str(&mut msg, self.repo_root_abs.as_str());
            push_str(&mut msg, " is already initialized with overlay path ");
            push_str(&mut msg, self.config.overlay_directory());
            return Err(msg);
        }
        self.config.set_overlay_directory(string_of_str(overlay_path));
        Ok(())
    }

    /// Adds patterns to the private ignore file, leaving out those already
    /// in it and repeats within the batch, and adds every pattern of the
    /// batch to the overlay directory's patterns, once each. Returns the
    /// patterns added to the private ignore file. Fails, changing nothing,
    /// when the repository is not initialized.
    pub fn add_patterns(&mut self, patterns: &Vec<String>) -> (r: Result<Vec<String>, String>)
        ensures
            r is Ok <==> old(self)@.config.exists,
            r is Err ==> final(self)@ == old(self)@,
            r matches Err(m) ==> m@ == not_initialized_text(old(self)@.root),
            r matches Ok(u) ==> {
                &&& views(u@) == new_patterns(old(self)@.exclude.patterns, views(patterns@))
                &&& final(self)@ == with_overlay_patterns(
                    with_exclude(
                        old(self)@,
                        ExcludeModel {
                            patterns: old(self)@.exclude.patterns + views(u@),
                            ..old(self)@.exclude
                        },
                    ),
                    inserted_all(old(self)@.overlay.config.ignore_patterns, views(patterns@)),
                )
            },
    {
        if let Err(e) = self.ensure_initialized() {
            return Err(e);
        }
        let mut unique: Vec<String> = Vec::new();
        let mut i: usize = 0;
        while i < patterns.len()
            invariant
                i <= patterns.len(),
                self@ == old(self)@,
                views(unique@) == new_patterns(
                    old(self)@.exclude.patterns,
                    views(patterns@).take(i as int),
                ),
            decreases patterns.len() - i,
        {
            proof {
                assert(views(patterns@).take(i + 1).drop_last() =~= views(patterns@).take(i as int));
                assert(views(patterns@).take(i + 1).last() == patterns@[i as int]@);
            }
            if !contains_str(self.exclude.patterns(), patterns[i].as_str()) && !contains_str(
                &unique,
                patterns[i].as_str(),
            ) {
                let ghost before = unique@;
                unique.push(patterns[i].clone());
                assert(views(unique@) =~= views(before).push(patterns@[i as int]@));
            }
            i = i + 1;
        }
        assert(views(patterns@).take(patterns.len() as int) =~= views(patterns@));
        let mut j: usize = 0;
        while j < unique.len()
            invariant
                j <= unique.len(),
                self@ == with_exclude(
                    old(self)@,
                    ExcludeModel {
                        patterns: old(self)@.exclude.patterns + views(unique@).take(j as int),
                        ..old(self)@.exclude
                    },
                ),
            decreases unique.len() - j,
        {
            self.exclude.add(unique[j].clone());
            assert(old(self)@.exclude.patterns + views(unique@).take(j + 1) =~= (
            old(self)@.exclude.patterns + views(unique@).take(j as int)).push(unique@[j as int]@));
            j = j + 1;
        }
        assert(views(unique@).take(unique.len() as int) =~= views(unique@));
        self.overlay.add_patterns(patterns);
        Ok(unique)
    }

    /// Removes every pattern of the private ignore file. Fails, changing
    /// nothing, when the repository is not initialized.
    pub fn clear_patterns(&mut self) -> (r: Result<(), String>)
        ensures
            r is Ok <==> old(self)@.config.exists,
            r is Err ==> final(self)@ == old(self)@,
            r matches Err(m) ==> m@ == not_initialized_text(old(self)@.root),
            r is Ok ==> final(self)@ == with_exclude(
                old(self)@,
                ExcludeModel { patterns: seq![], ..old(self)@.exclude },
            ),
    {
        if let Err(e) = self.ensure_initialized() {
            return Err(e);
        }
        self.exclude.clear();
        Ok(())
    }

    /// Removes each pattern from the private ignore file and from the
    /// overlay directory's patterns. Fails, changing nothing, when the
    /// repository is not initialized.
    pub fn remove_patterns(&mut self, patterns: &Vec<String>) -> (r: Result<(), String>)
        ensures
            r is Ok <==> old(self)@.config.exists,
            r is Err ==> final(self)@ == old(self)@,
            r matches Err(m) ==> m@ == not_initialized_text(old(self)@.root),
            r is Ok ==> final(self)@ == with_overlay_patterns(
                with_exclude(
                    old(self)@,
                    ExcludeModel {
                        patterns: removed_all(old(self)@.exclude.patterns, views(patterns@)),
                        ..old(self)@.exclude
                    },
                ),
                removed_all(old(self)@.overlay.config.ignore_patterns, views(patterns@)),
            ),
    {
        if let Err(e) = self.ensure_initialized() {
            return Err(e);
        }
        self.remove_exclude_patterns(patterns);
        self.overlay.remove_patterns(patterns);
        Ok(())
    }

    /// Removes each pattern from the private ignore file.
    fn remove_exclude_patterns(&mut self, patterns: &Vec<String>)
        ensures
            final(self)@ == with_exclude(
                old(self)@,
                ExcludeModel {
                    patterns: removed_all(old(self)@.exclude.patterns, views(patterns@)),
                    ..old(self)@.exclude
                },
            ),
    {
        let mut i: usize = 0;
        while i < patterns.len()
            invariant
                i <= patterns.len(),
                self@ == with_exclude(
                    old(self)@,
                    ExcludeModel {
                        patterns: removed_all(
                            old(self)@.exclude.patterns,
                            views(patterns@).take(i as int),
                        ),
                        ..old(self)@.exclude
                    },
                ),
            decreases patterns.len() - i,
        {
            proof {
                assert(views(patterns@).take(i + 1).drop_last() =~= views(patterns@).take(i as int));
                assert(views(patterns@).take(i + 1).last() == patterns@[i as int]@);
            }
            self.exclude.remove(patterns[i].as_str());
            i = i + 1;
        }
        assert(views(patterns@).take(patterns.len() as int) =~= views(patterns@));
    }

    /// Adds personal ignore patterns: each becomes a line of the private
    /// ignore file outside the managed region (unless it already is one) and
    /// an ignore pattern of the overlay directory. Fails, changing nothing,
    /// when the repository is not initialized.
    pub fn add_ignores(&mut self, patterns: &Vec<String>) -> (r: Result<(), String>)
        ensures
            r is Ok <==> old(self)@.config.exists,
            r is Err ==> final(self)@ == old(self)@,
            r matches Err(m) ==> m@ == not_initialized_text(old(self)@.root),
            r is Ok ==> final(self)@ == (BaseModel {
                exclude: with_ignores(old(self)@.exclude, views(patterns@)),
                overlay: OverlayModel {
                    config: DirectoryConfigModel {
                        ignore_patterns: inserted_all(
                            old(self)@.overlay.config.ignore_patterns,
                            views(patterns@),
                        ),
                        ..old(self)@.overlay.config
                    },
                    ..old(self)@.overlay
                },
                ..old(self)@
            }),
    {
        if let Err(e) = self.ensure_initialized() {
            return Err(e);
        }
        self.fold_ignores_into_exclude(patterns);
        self.overlay.add_patterns(patterns);
        Ok(())
    }

    /// Makes each pattern a line of the exclude file outside the managed
    /// region.
    fn fold_ignores_into_exclude(&mut self, patterns: &Vec<String>)
        ensures
            final(self)@ == with_exclude(old(self)@, with_ignores(old(self)@.exclude, views(patterns@))),
    {
        let mut i: usize = 0;
        while i < patterns.len()
            invariant
                i <= patterns.len(),
                self@ == with_exclude(
                    old(self)@,
                    with_ignores(old(self)@.exclude, views(patterns@).take(i as int)),
                ),
            decreases patterns.len() - i,
        {
            proof {
                assert(views(patterns@).take(i + 1).drop_last() =~= views(patterns@).take(i as int));
                assert(views(patterns@).take(i + 1).last() == patterns@[i as int]@);
            }
            self.exclude.add_ignore(patterns[i].as_str());
            i = i + 1;
        }
        assert(views(patterns@).take(patterns.len() as int) =~= views(patterns@));
    }

    /// Removes personal ignore patterns: their lines outside the managed
    /// region of the private ignore file are dropped, and they are removed
    /// from the overlay's ignore patterns. Fails, changing nothing, when the
    /// repository is not initialized.
    pub fn remove_ignores(&mut self, patterns: &Vec<String>) -> (r: Result<(), String>)
        ensures
            r is Ok <==> old(self)@.config.exists,
            r is Err ==> final(self)@ == old(self)@,
            r matches Err(m) ==> m@ == not_initialized_text(old(self)@.root),
            r is Ok ==> final(self)@ == (BaseModel {
                exclude: without_ignores(old(self)@.exclude, views(patterns@)),
                overlay: OverlayModel {
                    config: DirectoryConfigModel {
                        ignore_patterns: removed_all(
                            old(self)@.overlay.config.ignore_patterns,
                            views(patterns@),
                        ),
                        ..old(self)@.overlay.config
                    },
                    ..old(self)@.overlay
                },
                ..old(self)@
            }),
    {
        if let Err(e) = self.ensure_initialized() {
            return Err(e);
        }
        let mut i: usize = 0;
        while i < patterns.len()
            invariant
                i <= patterns.len(),
                self@ == with_exclude(
                    old(self)@,
                    without_ignores(old(self)@.exclude, views(patterns@).take(i as int)),
                ),
            decreases patterns.len() - i,
        {
            proof {
                assert(views(patterns@).take(i + 1).drop_last() =~= views(patterns@).take(i as int));
                assert(views(patterns@).take(i + 1).last() == patterns@[i as int]@);
            }
            self.exclude.remove_ignore(patterns[i].as_str());
            i = i + 1;
        }
        assert(views(patterns@).take(patterns.len() as int) =~= views(patterns@));
        self.overlay.remove_patterns(patterns);
        Ok(())
    }

    /// The absolute paths of the repository's files, met by a walk of it,
    /// that the patterns of its private ignore file match. It fails when the
    /// patterns do not build a matcher.
    pub fn excluded_files(&self, entries: &Vec<WalkEntry>) -> (r: Result<Vec<String>, String>)
        ensures
            r is Ok <==> matcher_builds(self@.exclude.patterns),
            r matches Ok(v) ==> views(v@) == matching_paths(
                self@.root,
                self@.exclude.patterns,
                entry_views(entries@),
            ),
            r matches Err(m) ==> build_error_prefix("exclude"@, "exclude"@, self@.exclude.patterns).is_prefix_of(
                m@,
            ),
    {
        matching_files(self.repo_root_abs.as_str(), self.exclude.patterns(), entries)
    }

    /// The relative paths that are not managed files yet, in order.
    pub fn unmanaged(&self, rels: &Vec<String>) -> (out: Vec<String>)
        ensures
            views(out@) == absent_from(views(rels@), self@.config.managed_files),
    {
        keep_absent(rels, self.config.managed_files())
    }

    /// The files of `managed` (the managed files when synchronization
    /// started) that are no longer among the `excluded` files, in order:
    /// those to drop from the overlay directory.
    pub fn files_to_drop(managed: &Vec<String>, excluded: &Vec<String>) -> (out: Vec<String>)
        ensures
            views(out@) == absent_from(views(managed@), views(excluded@)),
    {
        keep_absent(managed, excluded)
    }

    /// Decides, for each repository file that the exclude patterns match and
    /// that is not managed yet, what to do with it given what was found on
    /// disk, and registers as managed each file the action leaves managed.
    pub fn sync_added(
        &mut self,
        candidates: &Vec<String>,
        states: &Vec<PairState>,
        force: Option<ForceSide>,
    ) -> (actions: Vec<LinkAction>)
        requires
            states.len() == candidates.len(),
        ensures
            actions.len() == candidates.len(),
            forall|i: int|
                0 <= i < candidates.len() ==> actions@[i] == repo_file_action(
                    #[trigger] states@[i],
                    force,
                ),
            final(self)@ == with_managed_files(
                old(self)@,
                inserted_all(
                    old(self)@.config.managed_files,
                    managed_by(views(candidates@), actions@),
                ),
            ),
    {
        let mut actions: Vec<LinkAction> = Vec::new();
        let mut i: usize = 0;
        while i < candidates.len()
            invariant
                i <= candidates.len() == states.len(),
                actions.len() == i,
                forall|j: int|
                    0 <= j < i ==> actions@[j] == repo_file_action(#[trigger] states@[j], force),
                self@ == with_managed_files(
                    old(self)@,
                    inserted_all(
                        old(self)@.config.managed_files,
                        managed_by(views(candidates@).take(i as int), actions@),
                    ),
                ),
            decreases candidates.len() - i,
        {
            let a = decide_repo_file(states[i], force);
            let ghost before = actions@;
            actions.push(a);
            proof {
                assert(views(candidates@).take(i + 1).drop_last() =~= views(candidates@).take(
                    i as int,
                ));
                assert(views(candidates@).take(i + 1).last() == candidates@[i as int]@);
                assert(actions@.drop_last() =~= before);
            }
            if action_manages(a) {
                self.config.add_managed_file(candidates[i].clone());
                proof {
                    assert(managed_by(views(candidates@).take(i + 1), actions@) =~= managed_by(
                        views(candidates@).take(i as int),
                        before,
                    ).push(candidates@[i as int]@));
                    assert(managed_by(views(candidates@).take(i as int), before).push(
                        candidates@[i as int]@,
                    ).drop_last() =~= managed_by(views(candidates@).take(i as int), before));
                }
            } else {
                assert(managed_by(views(candidates@).take(i + 1), actions@) =~= managed_by(
                    views(candidates@).take(i as int),
                    before,
                ));
            }
            i = i + 1;
        }
        assert(views(candidates@).take(candidates.len() as int) =~= views(candidates@));
        actions
    }

    /// Decides, for each file of the overlay directory (by relative path),
    /// what to do with it given what was found on disk, and registers as
    /// managed each file the action leaves managed.
    pub fn sync_overlay_files(
        &mut self,
        rels: &Vec<String>,
        states: &Vec<PairState>,
        force: Option<ForceSide>,
    ) -> (actions: Vec<LinkAction>)
        requires
            states.len() == rels.len(),
        ensures
            actions.len() == rels.len(),
            forall|i: int|
                0 <= i < rels.len() ==> actions@[i] == overlay_file_action(
                    #[trigger] states@[i],
                    force,
                ),
            final(self)@ == with_managed_files(
                old(self)@,
                inserted_all(old(self)@.config.managed_files, managed_by(views(rels@), actions@)),
            ),
    {
        let mut actions: Vec<LinkAction> = Vec::new();
        let mut i: usize = 0;
        while i < rels.len()
            invariant
                i <= rels.len() == states.len(),
                actions.len() == i,
                forall|j: int|
                    0 <= j < i ==> actions@[j] == overlay_file_action(#[trigger] states@[j], force),
                self@ == with_managed_files(
                    old(self)@,
                    inserted_all(
                        old(self)@.config.managed_files,
                        managed_by(views(rels@).take(i as int), actions@),
                    ),
                ),
            decreases rels.len() - i,
        {
            let a = decide_overlay_file(states[i], force);
            let ghost before = actions@;
            actions.push(a);
            proof {
                assert(views(rels@).take(i + 1).drop_last() =~= views(rels@).take(i as int));
                assert(views(rels@).take(i + 1).last() == rels@[i as int]@);
                assert(actions@.drop_last() =~= before);
            }
            if action_manages(a) {
                self.config.add_managed_file(rels[i].clone());
                proof {
                    assert(managed_by(views(rels@).take(i + 1), actions@) =~= managed_by(
                        views(rels@).take(i as int),
                        before,
                    ).push(rels@[i as int]@));
                    assert(managed_by(views(rels@).take(i as int), before).push(
                        rels@[i as int]@,
                    ).drop_last() =~= managed_by(views(rels@).take(i as int), before));
                }
            } else {
                assert(managed_by(views(rels@).take(i + 1), actions@) =~= managed_by(
                    views(rels@).take(i as int),
                    before,
                ));
            }
            i = i + 1;
        }
        assert(views(rels@).take(rels.len() as int) =~= views(rels@));
        actions
    }

    /// Unregisters each dropped file: it leaves the managed files, and a
    /// pattern naming exactly it leaves the overlay directory's patterns, so
    /// that the overlay's configuration no longer names it. The private
    /// ignore file is left as it is.
    pub fn drop_managed(&mut self, rels: &Vec<String>)
        ensures
            final(self)@ == with_managed_files(
                with_overlay_patterns(
                    old(self)@,
                    removed_all(old(self)@.overlay.config.ignore_patterns, views(rels@)),
                ),
                removed_all(old(self)@.config.managed_files, views(rels@)),
            ),
    {
        self.overlay.remove_patterns(rels);
        let mut i: usize = 0;
        let ghost mid = self@;
        while i < rels.len()
            invariant
                i <= rels.len(),
                self@ == with_managed_files(
                    mid,
                    removed_all(mid.config.managed_files, views(rels@).take(i as int)),
                ),
            decreases rels.len() - i,
        {
            proof {
                assert(views(rels@).take(i + 1).drop_last() =~= views(rels@).take(i as int));
                assert(views(rels@).take(i + 1).last() == rels@[i as int]@);
            }
            self.config.remove_managed_file(rels[i].as_str());
            i = i + 1;
        }
        assert(views(rels@).take(rels.len() as int) =~= views(rels@));
    }

    /// Pins the overlay directory's stray files (see
    /// [`OverlayDirectory::fix_patterns`]).
    pub fn fix_overlay_patterns(&mut self, files: &Vec<String>) -> (r: Result<(), String>)
        ensures
            r is Ok <==> matcher_builds(covering_patterns(old(self)@.overlay.config))
                && strip_dir_all(
                old(self)@.overlay.root,
                unmatched_paths(
                    old(self)@.overlay.root,
                    covering_patterns(old(self)@.overlay.config),
                    views(files@),
                ),
            ) is Some,
            r is Ok ==> final(self)@ == with_overlay_patterns(
                old(self)@,
                inserted_all(
                    old(self)@.overlay.config.ignore_patterns,
                    strip_dir_all(
                        old(self)@.overlay.root,
                        unmatched_paths(
                            old(self)@.overlay.root,
                            covering_patterns(old(self)@.overlay.config),
                            views(files@),
                        ),
                    ).unwrap(),
                ),
            ),
            r is Err ==> final(self)@ == old(self)@,
            r matches Err(m) ==> if matcher_builds(covering_patterns(old(self)@.overlay.config)) {
                relativize_failure(
                    old(self)@.overlay.root,
                    unmatched_paths(
                        old(self)@.overlay.root,
                        covering_patterns(old(self)@.overlay.config),
                        views(files@),
                    ),
                    m@,
                )
            } else {
                build_error_prefix(
                    "ignore"@,
                    "overlay ignore"@,
                    covering_patterns(old(self)@.overlay.config),
                ).is_prefix_of(m@)
            },
    {
        self.overlay.fix_patterns(files)
    }

    /// Folds the overlay directory's managed patterns and its patterns (its
    /// configuration's ignore patterns), in that order, into the private
    /// ignore file: those the file lacks, in its managed region and as lines
    /// outside it, are appended to the managed region, once each. A personal ignore pattern, a line
    /// outside the region, is not folded in, so its files stay out of
    /// synchronization.
    pub fn sync_overlay_patterns(&mut self)
        ensures
            final(self)@ == with_exclude(
                old(self)@,
                ExcludeModel {
                    patterns: old(self)@.exclude.patterns + unfolded(
                        old(self)@.overlay.config.managed_patterns
                            + old(self)@.overlay.config.ignore_patterns,
                        old(self)@.exclude,
                    ),
                    ..old(self)@.exclude
                },
            ),
    {
        let mut ps = self.overlay.config().managed_patterns().clone();
        let ignores = self.overlay.list_patterns();
        let mut t: usize = 0;
        while t < ignores.len()
            invariant
                t <= ignores.len(),
                views(ignores@) == self@.overlay.config.ignore_patterns,
                views(ps@) == self@.overlay.config.managed_patterns + views(ignores@).take(t as int),
            decreases ignores.len() - t,
        {
            let ghost before = ps@;
            ps.push(ignores[t].clone());
            assert(views(ps@) =~= views(before).push(ignores@[t as int]@));
            assert(views(ignores@).take(t + 1) =~= views(ignores@).take(t as int).push(
                ignores@[t as int]@,
            ));
            t = t + 1;
        }
        assert(views(ignores@).take(ignores.len() as int) =~= views(ignores@));
        let mut missing: Vec<String> = Vec::new();
        let mut k: usize = 0;
        while k < ps.len()
            invariant
                k <= ps.len(),
                views(ps@) == self@.overlay.config.managed_patterns
                    + self@.overlay.config.ignore_patterns,
                views(missing@) == unfolded(views(ps@).take(k as int), self@.exclude),
            decreases ps.len() - k,
        {
            proof {
                assert(views(ps@).take(k + 1).drop_last() =~= views(ps@).take(k as int));
                assert(views(ps@).take(k + 1).last() == ps@[k as int]@);
            }
            if !contains_str(self.exclude.patterns(), ps[k].as_str()) && !contains_str(
                &missing,
                ps[k].as_str(),
            ) && !self.exclude.has_outside_line(ps[k].as_str()) {
                let ghost before = missing@;
                missing.push(ps[k].clone());
                assert(views(missing@) =~= views(before).push(ps@[k as int]@));
            }
            k = k + 1;
        }
        assert(views(ps@).take(ps.len() as int) =~= views(ps@));
        let mut i: usize = 0;
        while i < missing.len()
            invariant
                i <= missing.len(),
                self@ == with_exclude(
                    old(self)@,
                    ExcludeModel {
                        patterns: old(self)@.exclude.patterns + views(missing@).take(i as int),
                        ..old(self)@.exclude
                    },
                ),
            decreases missing.len() - i,
        {
            self.exclude.add(missing[i].clone());
            assert(old(self)@.exclude.patterns + views(missing@).take(i + 1) =~= (
            old(self)@.exclude.patterns + views(missing@).take(i as int)).push(missing@[i as int]@));
            i = i + 1;
        }
        assert(views(missing@).take(missing.len() as int) =~= views(missing@));
    }
}

/// The patterns of `ps` that the exclude file `e` lacks: neither among its
/// patterns nor a line outside its managed region, in order and once each.
pub open spec fn unfolded(ps: Seq<Seq<char>>, e: ExcludeModel) -> Seq<Seq<char>>
    decreases ps.len(),
{
    if ps.len() == 0 {
        seq![]
    } else {
        let rest = unfolded(ps.drop_last(), e);
        let p = ps.last();
        if e.patterns.contains(p) || rest.contains(p) || has_line(e.head, p) || has_line(e.tail, p) {
            rest
        } else {
            rest.push(p)
        }
    }
}

/// A list holds no entry twice.
pub open spec fn no_duplicates(s: Seq<Seq<char>>) -> bool {
    forall|i: int, j: int| 0 <= i < j < s.len() ==> s[i] != s[j]
}

/// Each new pattern is a pattern of the batch that the existing list lacks.
proof fn lemma_new_patterns_members(existing: Seq<Seq<char>>, batch: Seq<Seq<char>>)
    ensures
        forall|x: Seq<char>|
            new_patterns(existing, batch).contains(x) ==> batch.contains(x) && !existing.contains(
                x,
            ),
        no_duplicates(new_patterns(existing, batch)),
        forall|x: Seq<char>|
            batch.contains(x) ==> existing.contains(x) || new_patterns(existing, batch).contains(x),
    decreases batch.len(),
{
    if batch.len() > 0 {
        let b0 = batch.drop_last();
        let prev = new_patterns(existing, b0);
        let p = batch.last();
        lemma_new_patterns_members(existing, b0);
        assert forall|x: Seq<char>| new_patterns(existing, batch).contains(x) implies batch.contains(
            x,
        ) && !existing.contains(x) by {
            let np = new_patterns(existing, batch);
            let i = choose|i: int| 0 <= i < np.len() && np[i] == x;
            if existing.contains(p) || prev.contains(p) {
                assert(np == prev);
            } else {
                assert(np == prev.push(p));
            }
            if i < prev.len() {
                assert(np[i] == prev[i]);
                assert(prev[i] == x);
                assert(prev.contains(x));
                assert(new_patterns(existing, b0).contains(x));
                assert(b0.contains(x));
                let k = choose|k: int| 0 <= k < b0.len() && b0[k] == x;
                assert(batch[k] == x);
            } else {
                assert(batch[batch.len() - 1] == x);
            }
        }
        assert forall|x: Seq<char>| batch.contains(x) implies existing.contains(x) || new_patterns(
            existing,
            batch,
        ).contains(x) by {
            let i = choose|i: int| 0 <= i < batch.len() && batch[i] == x;
            if i < batch.len() - 1 {
                assert(b0[i] == x);
                assert(b0.contains(x));
            }
            if existing.contains(p) || prev.contains(p) {
            } else {
                assert(prev.push(p)[prev.len() as int] == p);
            }
            if prev.contains(x) {
                let k = choose|k: int| 0 <= k < prev.len() && prev[k] == x;
                assert(new_patterns(existing, batch)[k] == x);
            }
        }
    }
}

/// After adding a batch, the exclude patterns hold every pattern of the
/// batch, hold no pattern twice when they held none twice before, and
/// adding the same batch again adds nothing.
pub proof fn lemma_add_patterns_idempotent(existing: Seq<Seq<char>>, batch: Seq<Seq<char>>)
    ensures
        forall|i: int|
            0 <= i < batch.len() ==> (existing + new_patterns(existing, batch)).contains(
                #[trigger] batch[i],
            ),
        no_duplicates(existing) ==> no_duplicates(existing + new_patterns(existing, batch)),
        new_patterns(existing + new_patterns(existing, batch), batch) == Seq::<Seq<char>>::empty(),
{
    let added = new_patterns(existing, batch);
    let after = existing + added;
    lemma_new_patterns_members(existing, batch);
    assert forall|i: int| 0 <= i < batch.len() implies after.contains(#[trigger] batch[i]) by {
        assert(batch.contains(batch[i]));
        if existing.contains(batch[i]) {
            let k = choose|k: int| 0 <= k < existing.len() && existing[k] == batch[i];
            assert(after[k] == batch[i]);
        } else {
            let k = choose|k: int| 0 <= k < added.len() && added[k] == batch[i];
            assert(after[existing.len() + k] == batch[i]);
        }
    }
    if no_duplicates(existing) {
        assert forall|i: int, j: int| 0 <= i < j < after.len() implies after[i] != after[j] by {
            if j >= existing.len() && i < existing.len() {
                assert(added[j - existing.len()] == after[j]);
                assert(added.contains(after[j]));
                assert(existing.contains(after[i]));
            } else if i >= existing.len() {
                assert(after[i] == added[i - existing.len()]);
                assert(after[j] == added[j - existing.len()]);
            }
        }
    }
    lemma_new_patterns_none(after, batch);
}

/// Nothing is new in a batch whose patterns the list already holds.
proof fn lemma_new_patterns_none(existing: Seq<Seq<char>>, batch: Seq<Seq<char>>)
    requires
        forall|i: int| 0 <= i < batch.len() ==> existing.contains(#[trigger] batch[i]),
    ensures
        new_patterns(existing, batch) == Seq::<Seq<char>>::empty(),
    decreases batch.len(),
{
    if batch.len() > 0 {
        let b0 = batch.drop_last();
        assert forall|i: int| 0 <= i < b0.len() implies existing.contains(#[trigger] b0[i]) by {
            assert(b0[i] == batch[i]);
        }
        lemma_new_patterns_none(existing, b0);
        assert(existing.contains(batch[batch.len() - 1]));
    }
}

/// A pattern is left to fold in exactly when the overlay has it and the
/// exclude file lacks it, in its region and as a line outside it.
proof fn lemma_unfolded_contains(ps: Seq<Seq<char>>, e: ExcludeModel)
    ensures
        forall|x: Seq<char>|
            unfolded(ps, e).contains(x) <==> (ps.contains(x) && !e.patterns.contains(x) && !has_line(
                e.head,
                x,
            ) && !has_line(e.tail, x)),
    decreases ps.len(),
{
    if ps.len() > 0 {
        lemma_unfolded_contains(ps.drop_last(), e);
        let rest = unfolded(ps.drop_last(), e);
        let last = ps.last();
        let keep = !(e.patterns.contains(last) || rest.contains(last) || has_line(e.head, last)
            || has_line(e.tail, last));
        assert forall|x: Seq<char>| unfolded(ps, e).contains(x) <==> (ps.contains(x)
            && !e.patterns.contains(x) && !has_line(e.head, x) && !has_line(e.tail, x)) by {
            let in_prefix = ps.drop_last().contains(x);
            assert(ps.contains(x) <==> (in_prefix || x == last)) by {
                if ps.contains(x) {
                    let i = choose|i: int| 0 <= i < ps.len() && ps[i] == x;
                    if i < ps.len() - 1 {
                        assert(ps.drop_last()[i] == x);
                    }
                }
                if in_prefix {
                    let i = choose|i: int| 0 <= i < ps.drop_last().len() && ps.drop_last()[i] == x;
                    assert(ps[i] == x);
                }
                if x == last {
                    assert(ps[ps.len() - 1] == x);
                }
            }
            if keep {
                assert(rest.push(last).contains(x) <==> (rest.contains(x) || x == last)) by {
                    if rest.push(last).contains(x) {
                        let i = choose|i: int| 0 <= i < rest.push(last).len() && rest.push(last)[i]
                            == x;
                        if i < rest.len() {
                            assert(rest[i] == x);
                        }
                    }
                    if rest.contains(x) {
                        let i = choose|i: int| 0 <= i < rest.len() && rest[i] == x;
                        assert(rest.push(last)[i] == x);
                    }
                    if x == last {
                        assert(rest.push(last)[rest.len() as int] == x);
                    }
                }
            }
        }
    }
}

/// Folding the overlay directory's patterns into the exclude file keeps the
/// former exclude patterns first and in order, leaves every pattern of the
/// overlay either among the exclude patterns or a line outside the managed
/// region, and folding again adds nothing.
pub proof fn lemma_fold_covers_overlay_patterns(e: ExcludeModel, ps: Seq<Seq<char>>)
    ensures
        (e.patterns + unfolded(ps, e)).take(e.patterns.len() as int) == e.patterns,
        forall|p: Seq<char>|
            ps.contains(p) ==> (e.patterns + unfolded(ps, e)).contains(p) || has_line(e.head, p)
                || has_line(e.tail, p),
        unfolded(ps, ExcludeModel { patterns: e.patterns + unfolded(ps, e), ..e })
            == Seq::<Seq<char>>::empty(),
{
    let added = unfolded(ps, e);
    let after = e.patterns + added;
    let e2 = ExcludeModel { patterns: after, ..e };
    lemma_unfolded_contains(ps, e);
    assert(after.take(e.patterns.len() as int) =~= e.patterns);
    assert forall|p: Seq<char>| ps.contains(p) implies after.contains(p) || has_line(e.head, p)
        || has_line(e.tail, p) by {
        if e.patterns.contains(p) {
            let k = choose|k: int| 0 <= k < e.patterns.len() && e.patterns[k] == p;
            assert(after[k] == p);
        } else if !has_line(e.head, p) && !has_line(e.tail, p) {
            assert(added.contains(p));
            let k = choose|k: int| 0 <= k < added.len() && added[k] == p;
            assert(after[e.patterns.len() + k] == p);
        }
    }
    lemma_unfolded_contains(ps, e2);
    let again = unfolded(ps, e2);
    if again.len() > 0 {
        let q = again[0];
        assert(again.contains(q));
        assert(ps.contains(q) && !e2.patterns.contains(q) && !has_line(e2.head, q) && !has_line(
            e2.tail,
            q,
        ));
        assert(e2.patterns == after && e2.head == e.head && e2.tail == e.tail);
    }
    assert(again =~= Seq::<Seq<char>>::empty());
}

/// Synchronization registers as managed only paths whose action leaves them
/// managed: a file left in conflict, or skipped, is never registered, and
/// every path whose action manages it is.
pub proof fn lemma_managed_by_members(paths: Seq<Seq<char>>, actions: Seq<LinkAction>)
    requires
        actions.len() == paths.len(),
    ensures
        forall|f: Seq<char>|
            managed_by(paths, actions).contains(f) ==> exists|i: int|
                0 <= i < paths.len() && paths[i] == f && manages(#[trigger] actions[i]),
        forall|i: int|
            0 <= i < paths.len() && manages(#[trigger] actions[i]) ==> managed_by(
                paths,
                actions,
            ).contains(paths[i]),
    decreases paths.len(),
{
    if paths.len() > 0 {
        let p0 = paths.drop_last();
        let a0 = actions.drop_last();
        lemma_managed_by_members(p0, a0);
        let rest = managed_by(p0, a0);
        let n = paths.len() - 1;
        assert forall|f: Seq<char>| managed_by(paths, actions).contains(f) implies exists|i: int|
            0 <= i < paths.len() && paths[i] == f && manages(#[trigger] actions[i]) by {
            let m = managed_by(paths, actions);
            let k = choose|k: int| 0 <= k < m.len() && m[k] == f;
            if k < rest.len() {
                assert(rest[k] == f);
                assert(rest.contains(f));
                let i = choose|i: int| 0 <= i < p0.len() && p0[i] == f && manages(#[trigger] a0[i]);
                assert(paths[i] == f && actions[i] == a0[i]);
            } else {
                assert(paths[n] == f && manages(actions[n]));
            }
        }
        assert forall|i: int| 0 <= i < paths.len() && manages(#[trigger] actions[i]) implies managed_by(
            paths,
            actions,
        ).contains(paths[i]) by {
            if i < n {
                assert(a0[i] == actions[i]);
                assert(rest.contains(p0[i]));
                let k = choose|k: int| 0 <= k < rest.len() && rest[k] == p0[i];
                assert(rest.push(paths.last())[k] == paths[i]);
            } else {
                assert(rest.push(paths.last())[rest.len() as int] == paths[i]);
            }
        }
    }
}

/// A file stays managed as long as some active pattern still matches it:
/// synchronization drops exactly the formerly managed files that are no
/// longer among the matched files.
pub proof fn lemma_drop_only_unmatched(managed: Seq<Seq<char>>, excluded: Seq<Seq<char>>)
    ensures
        forall|f: Seq<char>|
            absent_from(managed, excluded).contains(f) <==> (managed.contains(f)
                && !excluded.contains(f)),
{
    crate::strlist::lemma_absent_from_contains(managed, excluded);
}

/// After removing patterns, neither the exclude patterns nor the overlay
/// directory's patterns hold any of them, and every other pattern stays.
pub proof fn lemma_remove_patterns_gone(
    exclude_patterns: Seq<Seq<char>>,
    overlay_patterns: Seq<Seq<char>>,
    removed: Seq<Seq<char>>,
)
    ensures
        forall|x: Seq<char>|
            removed.contains(x) ==> !removed_all(exclude_patterns, removed).contains(x)
                && !removed_all(overlay_patterns, removed).contains(x),
        forall|y: Seq<char>|
            !removed.contains(y) ==> (removed_all(exclude_patterns, removed).contains(y)
                <==> exclude_patterns.contains(y)),
{
    crate::strlist::lemma_removed_all_contains(exclude_patterns, removed);
    crate::strlist::lemma_removed_all_contains(overlay_patterns, removed);
}

/// Synchronization never moves a file that is already managed: the
/// candidates left by [`BaseRepository::unmanaged`] hold no managed file.
pub proof fn lemma_unmanaged_excludes_managed(rels: Seq<Seq<char>>, managed: Seq<Seq<char>>)
    ensures
        forall|f: Seq<char>| absent_from(rels, managed).contains(f) ==> !managed.contains(f),
{
    crate::strlist::lemma_absent_from_contains(rels, managed);
}

} // verus!
