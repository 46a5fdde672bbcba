//! Directory-scoped configuration of an overlay directory, stored as
//! `.git-overlay.yml` inside it: the managed patterns and the ignore
//! patterns.
use vstd::prelude::*;
use crate::paths::{join_path, path_join};
use crate::strlist::{inserted, insert_str, removed, remove_str, views};
use crate::exclude::string_of_str;

verus! {

/// Relative location of the configuration file under the directory root.
pub open spec fn directory_config_name() -> Seq<char> {
    ".git-overlay.yml"@
}

/// The abstract state of a [`DirectoryConfig`].
pub struct DirectoryConfigModel {
    pub root: Seq<char>,
    pub exists: bool,
    pub managed_patterns: Seq<Seq<char>>,
    pub ignore_patterns: Seq<Seq<char>>,
}

/// Directory-scoped configuration stored as a YAML file inside an overlay
/// directory. Its ignore patterns are the overlay directory's patterns: those
/// of the files it holds, including the stray files pinned by path, and the
/// personal ignore patterns. Its managed patterns are kept as stored.
pub struct DirectoryConfig {
    root: String,
    exists: bool,
    managed_patterns: Vec<String>,
    ignore_patterns: Vec<String>,
}

impl View for DirectoryConfig {
    type V = DirectoryConfigModel;

    closed spec fn view(&self) -> DirectoryConfigModel {
        DirectoryConfigModel {
            root: self.root@,
            exists: self.exists,
            managed_patterns: views(self.managed_patterns@),
            ignore_patterns: views(self.ignore_patterns@),
        }
    }
}

impl DirectoryConfig {
    /// A default configuration rooted at `root`, with no patterns, whose
    /// file does not exist yet.
    pub fn default_with(root: &str) -> (c: Self)
        ensures
            c@ == (DirectoryConfigModel {
                root: root@,
                exists: false,
                managed_patterns: seq![],
                ignore_patterns: seq![],
            }),
    {
        let c = DirectoryConfig {
            root: string_of_str(root),
            exists: false,
            managed_patterns: Vec::new(),
            ignore_patterns: Vec::new(),
        };
        assert(views(c.managed_patterns@) =~= seq![]);
        assert(views(c.ignore_patterns@) =~= seq![]);
        c
    }

    /// Location of the configuration file under `root`.
    pub fn path(root: &str) -> (p: String)
        ensures
            p@ == path_join(root@, directory_config_name()),
    {
        join_path(root, ".git-overlay.yml")
    }

    /// The configuration of the directory rooted at `root`, from what was
    /// found on disk: `None` when the file does not exist (an empty default
    /// configuration), or the managed and ignore patterns it holds.
    pub fn load(root: &str, stored: Option<(Vec<String>, Vec<String>)>) -> (c: Self)
        ensures
            c@.root == root@,
            match stored {
                None => c@ == DirectoryConfig::default_with_spec(root@),
                Some((m, i)) => c@ == (DirectoryConfigModel {
                    root: root@,
                    exists: true,
                    managed_patterns: views(m@),
                    ignore_patterns: views(i@),
                }),
            },
    {
        match stored {
            None => Self::default_with(root),
            Some((m, i)) => DirectoryConfig {
                root: string_of_str(root),
                exists: true,
                managed_patterns: m,
                ignore_patterns: i,
            },
        }
    }

    /// The model of [`DirectoryConfig::default_with`].
    pub open spec fn default_with_spec(root: Seq<char>) -> DirectoryConfigModel {
        DirectoryConfigModel { root, exists: false, managed_patterns: seq![], ignore_patterns: seq![] }
    }

    /// The directory root this configuration belongs to.
    pub fn root(&self) -> (r: &str)
        ensures
            r@ == self@.root,
    {
        self.root.as_str()
    }

    /// Whether the configuration file existed on disk when this instance was
    /// loaded (or has been written since).
    pub fn exists_on_disk(&self) -> (b: bool)
        ensures
            b == self@.exists,
    {
        self.exists
    }

    /// Records that the configuration file now exists on disk.
    pub fn mark_saved(&mut self)
        ensures
            final(self)@ == (DirectoryConfigModel { exists: true, ..old(self)@ }),
    {
        self.exists = true;
    }

    /// The managed patterns of the overlay directory.
    pub fn managed_patterns(&self) -> (r: &Vec<String>)
        ensures
            views(r@) == self@.managed_patterns,
    {
        &self.managed_patterns
    }

    /// Appends a managed pattern, if not already present.
    pub fn add_managed_pattern(&mut self, pattern: String)
        ensures
            final(self)@ == (DirectoryConfigModel {
                managed_patterns: inserted(old(self)@.managed_patterns, pattern@),
                ..old(self)@
            }),
    {
        insert_str(&mut self.managed_patterns, pattern);
    }

    /// Removes every copy of `pattern` from the managed patterns.
    pub fn remove_managed_pattern(&mut self, pattern: &str)
        ensures
            final(self)@ == (DirectoryConfigModel {
                managed_patterns: removed(old(self)@.managed_patterns, pattern@),
                ..old(self)@
            }),
    {
        remove_str(&mut self.managed_patterns, pattern);
    }

    /// The ignore patterns of the overlay directory.
    pub fn ignore_patterns(&self) -> (r: &Vec<String>)
        ensures
            views(r@) == self@.ignore_patterns,
    {
        &self.ignore_patterns
    }

    /// Appends an ignore pattern, if not already present.
    pub fn add_ignore_pattern(&mut self, pattern: String)
        ensures
            final(self)@ == (DirectoryConfigModel {
                ignore_patterns: inserted(old(self)@.ignore_patterns, pattern@),
                ..old(self)@
            }),
    {
        insert_str(&mut self.ignore_patterns, pattern);
    }

    /// Removes every copy of `pattern` from the ignore patterns.
    pub fn remove_ignore_pattern(&mut self, pattern: &str)
        ensures
            final(self)@ == (DirectoryConfigModel {
                ignore_patterns: removed(old(self)@.ignore_patterns, pattern@),
                ..old(self)@
            }),
    {
        remove_str(&mut self.ignore_patterns, pattern);
    }
}

impl Default for DirectoryConfig {
    /// The default configuration, rooted at the empty path.
    fn default() -> (c: Self)
        ensures
            c@ == DirectoryConfig::default_with_spec(Seq::<char>::empty()),
    {
        let c = Self::default_with("");
        proof {
            reveal_strlit("");
            assert(""@ =~= Seq::<char>::empty());
        }
        c
    }
}

} // verus!
