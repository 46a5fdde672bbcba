//! A repository located inside a common root of repositories, with the
//! working directory inside it.
use vstd::prelude::*;
use crate::base_repository::{BaseModel, matching_files};
use crate::exclude::{ExcludeFile, ExcludeModel, string_of_str};
use crate::matcher::{WalkEntry, build_error_prefix, entry_views, matching_paths};
use crate::overlay_directory::matcher_builds;
use crate::paths::{
    components, components_of, join_slash, lemma_components_of_joined,
    lemma_components_of_path_join, lemma_components_plain, path_join, plain_component,
};
use crate::strlist::{str_eq, views};
use crate::text::push_str;

verus! {

/// The components of `path` after those of `base`, when the components of
/// `base` begin those of `path` (`Path::strip_prefix`); `None` otherwise.
pub open spec fn strip_components(base: Seq<char>, path: Seq<char>) -> Option<Seq<Seq<char>>> {
    let bc = components(base);
    let pc = components(path);
    if bc.len() <= pc.len() && pc.take(bc.len() as int) == bc {
        Some(pc.skip(bc.len() as int))
    } else {
        None
    }
}

/// `path` below (or equal to) `base` (see [`strip_components`]), as a
/// relative path.
pub fn strip_prefix(base: &str, path: &str) -> (r: Option<String>)
    ensures
        match r {
            Some(rel) => strip_components(base@, path@) matches Some(rest) && rel@ == join_slash(
                rest,
            ),
            None => strip_components(base@, path@) is None,
        },
{
    let bc = components_of(base);
    let pc = components_of(path);
    if bc.len() > pc.len() {
        return None;
    }
    let mut i: usize = 0;
    while i < bc.len()
        invariant
            i <= bc.len() <= pc.len(),
            views(bc@) == components(base@),
            views(pc@) == components(path@),
            forall|j: int| 0 <= j < i ==> bc@[j]@ == pc@[j]@,
        decreases bc.len() - i,
    {
        if !str_eq(bc[i].as_str(), pc[i].as_str()) {
            assert(views(pc@).take(bc.len() as int)[i as int] != views(bc@)[i as int]);
            assert(views(pc@).take(bc.len() as int) != views(bc@));
            return None;
        }
        i = i + 1;
    }
    assert(views(pc@).take(bc.len() as int) =~= views(bc@));
    let mut out = String::new();
    let mut k = bc.len();
    let ghost rest = views(pc@).skip(bc.len() as int);
    while k < pc.len()
        invariant
            bc.len() <= k <= pc.len(),
            rest == views(pc@).skip(bc.len() as int),
            out@ == join_slash(rest.take(k - bc.len())),
        decreases pc.len() - k,
    {
        proof {
            assert(rest.take(k - bc.len() + 1).drop_last() =~= rest.take(k - bc.len()));
            assert(rest.take(k - bc.len() + 1).last() == pc@[k as int]@);
        }
        if k > bc.len() {
            out.push('/');
        } else {
            assert(rest.take(0) =~= seq![]);
        }
        push_str(&mut out, pc[k].as_str());
        proof {
            if k == bc.len() {
                assert(out@ =~= rest.take(1)[0]);
            } else {
                assert(out@ =~= join_slash(rest.take(k - bc.len())) + seq!['/'] + pc@[k as int]@);
            }
        }
        k = k + 1;
    }
    assert(rest.take(pc.len() - bc.len()) =~= rest);
    Some(out)
}

/// Whether `directory` is under (or equal to) `root`, component by
/// component (`Path::starts_with`).
pub fn path_contains(root: &str, directory: &str) -> (b: bool)
    ensures
        b == strip_components(root@, directory@) is Some,
{
    strip_prefix(root, directory).is_some()
}

/// The abstract state of an [`OverlayTarget`].
pub struct OverlayTargetModel {
    pub repo_root: Seq<char>,
    pub repo_root_abs: Seq<char>,
    pub directory: Seq<char>,
    pub exclude: ExcludeModel,
}

/// A repository to be overlaid, located inside a common root of
/// repositories.
pub struct OverlayTarget {
    repo_root: String,
    repo_root_abs: String,
    directory: String,
    exclude: ExcludeFile,
}

impl View for OverlayTarget {
    type V = OverlayTargetModel;

    closed spec fn view(&self) -> OverlayTargetModel {
        OverlayTargetModel {
            repo_root: self.repo_root@,
            repo_root_abs: self.repo_root_abs@,
            directory: self.directory@,
            exclude: self.exclude@,
        }
    }
}

impl OverlayTarget {
    /// Rejects a working directory outside the common root, before Git is
    /// asked about it; both paths are resolved.
    pub fn check_inside(repository_root: &str, dir: &str) -> (r: Result<(), String>)
        ensures
            r is Ok <==> strip_components(repository_root@, dir@) is Some,
            r matches Err(m) ==> m@ == "current directory "@ + dir@ + " is not inside repository_root "@
                + repository_root@,
    {
        if !path_contains(repository_root, dir) {
            let mut msg = string_of_str("current directory ");
            push_str(&mut msg, dir);
            push_str(&mut msg, " is not inside repository_root ");
            push_str(&mut msg, repository_root);
            return Err(msg);
        }
        Ok(())
    }

    /// The target for the Git repository whose resolved top-level directory
    /// is `toplevel`, inside the resolved common root `repository_root`,
    /// with the resolved working directory `dir` and the repository's loaded
    /// exclude file. It fails when the repository lies outside the common
    /// root or the working directory outside the repository.
    pub fn new(repository_root: &str, dir: &str, toplevel: &str, exclude: ExcludeFile) -> (r:
        Result<Self, String>)
        ensures
            r is Ok <==> strip_components(repository_root@, toplevel@) is Some && strip_components(
                toplevel@,
                dir@,
            ) is Some,
            r matches Err(m) ==> m@ == (if strip_components(repository_root@, toplevel@) is None {
                "Git repository root "@ + toplevel@ + " is outside repository_root "@ + repository_root@
            } else {
                "current directory "@ + dir@ + " is outside Git repository root "@ + toplevel@
            }),
            r matches Ok(t) ==> {
                &&& t@.repo_root == join_slash(strip_components(repository_root@, toplevel@).unwrap())
                &&& t@.repo_root_abs == toplevel@
                &&& t@.directory == join_slash(strip_components(toplevel@, dir@).unwrap())
                &&& t@.exclude == exclude@
            },
    {
        let repo_root = match strip_prefix(repository_root, toplevel) {
            Some(r) => r,
            None => {
                let mut msg = string_of_str("Git repository root ");
                push_str(&mut msg, toplevel);
                push_str(&mut msg, " is outside repository_root ");
                push_str(&mut msg, repository_root);
                return Err(msg);
            },
        };
        let directory = match strip_prefix(toplevel, dir) {
            Some(d) => d,
            None => {
                let mut msg = string_of_str("current directory ");
                push_str(&mut msg, dir);
                push_str(&mut msg, " is outside Git repository root ");
                push_str(&mut msg, toplevel);
                return Err(msg);
            },
        };
        Ok(OverlayTarget { repo_root, repo_root_abs: string_of_str(toplevel), directory, exclude })
    }

    /// Relative path to the repository root from the common root.
    pub fn repo_root(&self) -> (r: &str)
        ensures
            r@ == self@.repo_root,
    {
        self.repo_root.as_str()
    }

    /// Absolute path to the repository root.
    pub fn repo_root_abs(&self) -> (r: &str)
        ensures
            r@ == self@.repo_root_abs,
    {
        self.repo_root_abs.as_str()
    }

    /// Relative path of the working directory inside the repository.
    pub fn directory(&self) -> (r: &str)
        ensures
            r@ == self@.directory,
    {
        self.directory.as_str()
    }

    /// The repository's private ignore file.
    pub fn exclude(&self) -> (r: &ExcludeFile)
        ensures
            r@ == self@.exclude,
    {
        &self.exclude
    }

    /// Mutable access to the repository's private ignore file.
    pub fn exclude_mut(&mut self) -> (r: &mut ExcludeFile)
        ensures
            r@ == old(self)@.exclude,
            final(self)@ == (OverlayTargetModel { exclude: final(r)@, ..old(self)@ }),
    {
        &mut self.exclude
    }

    /// The absolute paths of the repository's files, met by a walk of it,
    /// that the patterns of its private ignore file match. It fails when the
    /// patterns do not build a matcher.
    pub fn excluded_files(&self, entries: &Vec<WalkEntry>) -> (r: Result<Vec<String>, String>)
        ensures
            r is Ok <==> matcher_builds(self@.exclude.patterns),
            r matches Ok(v) ==> views(v@) == matching_paths(
                self@.repo_root_abs,
                self@.exclude.patterns,
                entry_views(entries@),
            ),
            r matches Err(m) ==> build_error_prefix("exclude"@, "exclude"@, self@.exclude.patterns).is_prefix_of(
                m@,
            ),
    {
        matching_files(self.repo_root_abs.as_str(), self.exclude.patterns(), entries)
    }
}

/// A path taken below a base puts back together: the base's components
/// followed by the components left over are the path's components.
pub proof fn lemma_strip_components_rejoin(base: Seq<char>, path: Seq<char>)
    ensures
        strip_components(base, path) matches Some(rest) ==> components(path) == components(base)
            + rest,
{
    let bc = components(base);
    let pc = components(path);
    if bc.len() <= pc.len() && pc.take(bc.len() as int) == bc {
        assert(pc =~= pc.take(bc.len() as int) + pc.skip(bc.len() as int));
    }
}

/// Where a target's paths lead, on resolved paths `repository_root`, `dir`
/// and `toplevel`: the target exists exactly when the repository lies under
/// the common root and the working directory under the repository; then its
/// absolute root is `toplevel`, its root and directory are relative paths
/// (each empty, or not starting with `'/'`), the common root followed by the
/// target's root is the repository, and the repository followed by the
/// target's directory is the working directory (`Path::join`), compared
/// component by component as `Path` compares paths.
pub proof fn lemma_overlay_target_paths(
    repository_root: Seq<char>,
    dir: Seq<char>,
    toplevel: Seq<char>,
    t: OverlayTargetModel,
)
    requires
        strip_components(repository_root, toplevel) is Some,
        strip_components(toplevel, dir) is Some,
        t.repo_root == join_slash(strip_components(repository_root, toplevel).unwrap()),
        t.repo_root_abs == toplevel,
        t.directory == join_slash(strip_components(toplevel, dir).unwrap()),
    ensures
        t.repo_root_abs == toplevel,
        components(path_join(repository_root, t.repo_root)) == components(t.repo_root_abs),
        components(path_join(t.repo_root_abs, t.directory)) == components(dir),
        t.repo_root.len() == 0 || t.repo_root[0] != '/',
        t.directory.len() == 0 || t.directory[0] != '/',
{
    lemma_strip_components_rejoin(repository_root, toplevel);
    lemma_strip_components_rejoin(toplevel, dir);
    lemma_rest_plain(repository_root, toplevel);
    lemma_rest_plain(toplevel, dir);
    let a = strip_components(repository_root, toplevel).unwrap();
    let b = strip_components(toplevel, dir).unwrap();
    lemma_components_of_joined(a);
    lemma_components_of_joined(b);
    if a.len() == 0 {
        assert(join_slash(a).len() == 0);
    }
    if b.len() == 0 {
        assert(join_slash(b).len() == 0);
    }
    lemma_components_of_path_join(repository_root, t.repo_root);
    lemma_components_of_path_join(toplevel, t.directory);
}

/// What is left once a base is taken off a path is plain components.
proof fn lemma_rest_plain(base: Seq<char>, path: Seq<char>)
    ensures
        strip_components(base, path) matches Some(rest) ==> forall|i: int|
            0 <= i < rest.len() ==> plain_component(#[trigger] rest[i]),
{
    let bc = components(base);
    let pc = components(path);
    lemma_components_plain(path);
    if bc.len() <= pc.len() && pc.take(bc.len() as int) == bc {
        let rest = pc.skip(bc.len() as int);
        assert forall|i: int| 0 <= i < rest.len() implies plain_component(#[trigger] rest[i]) by {
            assert(rest[i] == pc[bc.len() + i]);
        }
    }
}

/// A target and a repository with the same root and the same exclude
/// patterns select the same files from a walk, and fail on the same
/// patterns: both are [`matching_files`].
pub proof fn lemma_excluded_files_agree(t: OverlayTargetModel, m: BaseModel)
    requires
        t.repo_root_abs == m.root,
        t.exclude.patterns == m.exclude.patterns,
    ensures
        forall|es: Seq<(Seq<char>, bool)>|
            #[trigger] matching_paths(t.repo_root_abs, t.exclude.patterns, es) == matching_paths(
                m.root,
                m.exclude.patterns,
                es,
            ),
        matcher_builds(t.exclude.patterns) == matcher_builds(m.exclude.patterns),
        build_error_prefix("exclude"@, "exclude"@, t.exclude.patterns) == build_error_prefix(
            "exclude"@,
            "exclude"@,
            m.exclude.patterns,
        ),
{
}

} // verus!
