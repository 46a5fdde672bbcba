//! An overlay directory: its root on disk and its configuration.
use vstd::prelude::*;
use crate::directory_config::{DirectoryConfig, DirectoryConfigModel, directory_config_name};
use crate::matcher::{
    PatternMatcher, WalkEntry, build_error_prefix, entry_views, gitignore_line_accepted,
    gitignore_lines_build, kept_lines, unmatched_paths,
};
use crate::paths::{
    path_join, relativize_all, relativize_failure, strip_dir_all,
};
use crate::strlist::{inserted_all, removed_all, str_eq, views};

verus! {

/// The abstract state of an [`OverlayDirectory`].
pub struct OverlayModel {
    pub root: Seq<char>,
    pub config: DirectoryConfigModel,
}

/// Whether a matcher can be built from `lines`: each is a valid gitignore
/// line and what the builder keeps of them builds.
pub open spec fn matcher_builds(lines: Seq<Seq<char>>) -> bool {
    (forall|i: int| 0 <= i < lines.len() ==> gitignore_line_accepted(#[trigger] lines[i]))
        && gitignore_lines_build(kept_lines(lines))
}

/// The files of an overlay directory met by a walk: the entries that are
/// not directories, without the directory's own configuration file.
pub open spec fn overlay_files(root: Seq<char>, es: Seq<(Seq<char>, bool)>) -> Seq<Seq<char>>
    decreases es.len(),
{
    if es.len() == 0 {
        seq![]
    } else {
        let rest = overlay_files(root, es.drop_last());
        let e = es.last();
        if !e.1 && e.0 != path_join(root, directory_config_name()) {
            rest.push(e.0)
        } else {
            rest
        }
    }
}

/// The patterns that keep a file of the overlay directory out of pinning:
/// the directory's patterns (its configuration's ignore patterns).
pub open spec fn covering_patterns(config: DirectoryConfigModel) -> Seq<Seq<char>> {
    config.ignore_patterns
}

/// State associated with an overlay directory.
pub struct OverlayDirectory {
    root: String,
    config: DirectoryConfig,
}

impl View for OverlayDirectory {
    type V = OverlayModel;

    closed spec fn view(&self) -> OverlayModel {
        OverlayModel { root: self.root@, config: self.config@ }
    }
}

impl OverlayDirectory {
    /// The overlay directory rooted at the absolute path `root`, with its
    /// loaded configuration.
    pub fn new(root: String, config: DirectoryConfig) -> (d: Self)
        ensures
            d@ == (OverlayModel { root: root@, config: config@ }),
    {
        OverlayDirectory { root, config }
    }

    /// Absolute path to the overlay directory root on disk.
    pub fn root(&self) -> (r: &str)
        ensures
            r@ == self@.root,
    {
        self.root.as_str()
    }

    /// The directory's configuration.
    pub fn config(&self) -> (r: &DirectoryConfig)
        ensures
            r@ == self@.config,
    {
        &self.config
    }

    /// The directory's patterns: its configuration's ignore patterns, those
    /// of the files it holds.
    pub fn list_patterns(&self) -> (r: &Vec<String>)
        ensures
            views(r@) == self@.config.ignore_patterns,
    {
        self.config.ignore_patterns()
    }

    /// The absolute paths of the files of the directory met by a walk of it,
    /// without the directory's own configuration file.
    pub fn files(&self, entries: &Vec<WalkEntry>) -> (out: Vec<String>)
        ensures
            views(out@) == overlay_files(self@.root, entry_views(entries@)),
    {
        let config_path = DirectoryConfig::path(self.root.as_str());
        let mut out: Vec<String> = Vec::new();
        let mut i: usize = 0;
        while i < entries.len()
            invariant
                i <= entries.len(),
                config_path@ == path_join(self@.root, directory_config_name()),
                views(out@) == overlay_files(self@.root, entry_views(entries@).take(i as int)),
            decreases entries.len() - i,
        {
            proof {
                assert(entry_views(entries@).take(i + 1).drop_last() =~= entry_views(entries@).take(
                    i as int,
                ));
                assert(entry_views(entries@).take(i + 1).last() == (
                    entries@[i as int].path@,
                    entries@[i as int].is_dir,
                ));
            }
            if !entries[i].is_dir && !str_eq(entries[i].path.as_str(), config_path.as_str()) {
                let ghost before = out@;
                out.push(entries[i].path.clone());
                assert(views(out@) =~= views(before).push(entries@[i as int].path@));
            }
            i = i + 1;
        }
        assert(entry_views(entries@).take(entries.len() as int) =~= entry_views(entries@));
        out
    }

    /// Adds each pattern to the directory's patterns (its configuration's
    /// ignore patterns), if not already present.
    pub fn add_patterns(&mut self, patterns: &Vec<String>)
        ensures
            final(self)@ == (OverlayModel {
                config: DirectoryConfigModel {
                    ignore_patterns: inserted_all(
                        old(self)@.config.ignore_patterns,
                        views(patterns@),
                    ),
                    ..old(self)@.config
                },
                ..old(self)@
            }),
    {
        let mut i: usize = 0;
        while i < patterns.len()
            invariant
                i <= patterns.len(),
                self@ == (OverlayModel {
                    config: DirectoryConfigModel {
                        ignore_patterns: inserted_all(
                            old(self)@.config.ignore_patterns,
                            views(patterns@).take(i as int),
                        ),
                        ..old(self)@.config
                    },
                    ..old(self)@
                }),
            decreases patterns.len() - i,
        {
            proof {
                assert(views(patterns@).take(i + 1).drop_last() =~= views(patterns@).take(i as int));
                assert(views(patterns@).take(i + 1).last() == patterns@[i as int]@);
            }
            self.config.add_ignore_pattern(patterns[i].clone());
            i = i + 1;
        }
        assert(views(patterns@).take(patterns.len() as int) =~= views(patterns@));
    }

    /// Removes every copy of each pattern from the directory's patterns
    /// (its configuration's ignore patterns).
    pub fn remove_patterns(&mut self, patterns: &Vec<String>)
        ensures
            final(self)@ == (OverlayModel {
                config: DirectoryConfigModel {
                    ignore_patterns: removed_all(
                        old(self)@.config.ignore_patterns,
                        views(patterns@),
                    ),
                    ..old(self)@.config
                },
                ..old(self)@
            }),
    {
        let mut i: usize = 0;
        while i < patterns.len()
            invariant
                i <= patterns.len(),
                self@ == (OverlayModel {
                    config: DirectoryConfigModel {
                        ignore_patterns: removed_all(
                            old(self)@.config.ignore_patterns,
                            views(patterns@).take(i as int),
                        ),
                        ..old(self)@.config
                    },
                    ..old(self)@
                }),
            decreases patterns.len() - i,
        {
            proof {
                assert(views(patterns@).take(i + 1).drop_last() =~= views(patterns@).take(i as int));
                assert(views(patterns@).take(i + 1).last() == patterns@[i as int]@);
            }
            self.config.remove_ignore_pattern(patterns[i].as_str());
            i = i + 1;
        }
        assert(views(patterns@).take(patterns.len() as int) =~= views(patterns@));
    }

    /// Pins stray files: each of `files` (absolute paths of the directory's
    /// files) that none of the directory's patterns covers is added, as its
    /// path relative to the root, to those patterns, so that it is
    /// acknowledged as managed. It fails, leaving the patterns as they were,
    /// when the patterns do not build a matcher or a file lies outside the
    /// root.
    pub fn fix_patterns(&mut self, files: &Vec<String>) -> (r: Result<(), String>)
        ensures
            r is Ok <==> matcher_builds(covering_patterns(old(self)@.config)) && strip_dir_all(
                old(self)@.root,
                unmatched_paths(
                    old(self)@.root,
                    covering_patterns(old(self)@.config),
                    views(files@),
                ),
            ) is Some,
            r is Ok ==> final(self)@ == (OverlayModel {
                config: DirectoryConfigModel {
                    ignore_patterns: inserted_all(
                        old(self)@.config.ignore_patterns,
                        strip_dir_all(
                            old(self)@.root,
                            unmatched_paths(
                                old(self)@.root,
                                covering_patterns(old(self)@.config),
                                views(files@),
                            ),
                        ).unwrap(),
                    ),
                    ..old(self)@.config
                },
                ..old(self)@
            }),
            r is Err ==> final(self)@ == old(self)@,
            r matches Err(m) ==> if matcher_builds(covering_patterns(old(self)@.config)) {
                relativize_failure(
                    old(self)@.root,
                    unmatched_paths(
                        old(self)@.root,
                        covering_patterns(old(self)@.config),
                        views(files@),
                    ),
                    m@,
                )
            } else {
                build_error_prefix(
                    "ignore"@,
                    "overlay ignore"@,
                    covering_patterns(old(self)@.config),
                ).is_prefix_of(m@)
            },
    {
        let lines = self.config.ignore_patterns().clone();
        assert(views(lines@) == covering_patterns(self@.config));
        let matcher = match PatternMatcher::build(self.root.as_str(), &lines, "ignore", "overlay ignore") {
            Ok(m) => m,
            Err(e) => {
                assert(!matcher_builds(views(lines@))) by {
                    if matcher_builds(views(lines@)) {
                        assert forall|j: int| 0 <= j < lines.len() implies gitignore_line_accepted(
                            #[trigger] lines@[j]@,
                        ) by {
                            assert(views(lines@)[j] == lines@[j]@);
                        }
                    }
                }
                return Err(e);
            },
        };
        assert(matcher_builds(views(lines@))) by {
            assert forall|j: int| 0 <= j < views(lines@).len() implies gitignore_line_accepted(
                #[trigger] views(lines@)[j],
            ) by {
                assert(views(lines@)[j] == lines@[j]@);
            }
        }
        let stray = matcher.unmatched(files);
        let rels = relativize_all(self.root.as_str(), &stray)?;
        self.add_patterns(&rels);
        Ok(())
    }

    /// Records that the configuration file now exists on disk.
    pub fn mark_saved(&mut self)
        ensures
            final(self)@ == (OverlayModel {
                config: DirectoryConfigModel { exists: true, ..old(self)@.config },
                ..old(self)@
            }),
    {
        self.config.mark_saved();
    }
}

} // verus!
