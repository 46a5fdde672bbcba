//! Repository-scoped configuration stored as `.git/overlay.yml`: the
//! overlay directory and the files currently managed.
use vstd::prelude::*;
use crate::paths::{join_path, path_join};
use crate::strlist::{inserted, insert_str, removed, remove_str, views};
use crate::exclude::string_of_str;

verus! {

/// Relative location of the configuration file under the repository root.
pub open spec fn repo_config_name() -> Seq<char> {
    ".git/overlay.yml"@
}

/// The abstract state of a [`RepositoryConfiguration`].
pub struct RepositoryConfigurationModel {
    pub root: Seq<char>,
    pub exists: bool,
    pub overlay_directory: Seq<char>,
    pub managed_files: Seq<Seq<char>>,
}

/// Repository-scoped configuration stored as a YAML file inside the base
/// repository: the overlay directory (relative to the repository root, or
/// absolute) and the files managed by the tool.
pub struct RepositoryConfiguration {
    root: String,
    exists: bool,
    overlay_directory: String,
    managed_files: Vec<String>,
}

impl View for RepositoryConfiguration {
    type V = RepositoryConfigurationModel;

    closed spec fn view(&self) -> RepositoryConfigurationModel {
        RepositoryConfigurationModel {
            root: self.root@,
            exists: self.exists,
            overlay_directory: self.overlay_directory@,
            managed_files: views(self.managed_files@),
        }
    }
}

impl RepositoryConfiguration {
    /// The model of [`RepositoryConfiguration::default_with`].
    pub open spec fn default_with_spec(root: Seq<char>) -> RepositoryConfigurationModel {
        RepositoryConfigurationModel {
            root,
            exists: false,
            overlay_directory: seq![],
            managed_files: seq![],
        }
    }

    /// A default configuration rooted at `root`, with no overlay directory
    /// set and no managed files, whose file does not exist yet.
    pub fn default_with(root: &str) -> (c: Self)
        ensures
            c@ == Self::default_with_spec(root@),
    {
        let c = RepositoryConfiguration {
            root: string_of_str(root),
            exists: false,
            overlay_directory: String::new(),
            managed_files: Vec::new(),
        };
        assert(views(c.managed_files@) =~= seq![]);
        c
    }

    /// Location of the configuration file under `root`.
    pub fn path(root: &str) -> (p: String)
        ensures
            p@ == path_join(root@, repo_config_name()),
    {
        join_path(root, ".git/overlay.yml")
    }

    /// The configuration of the repository rooted at `root`, from what was
    /// found on disk: `None` when the file does not exist (an empty default
    /// configuration), or the overlay directory and managed files it holds.
    pub fn load(root: &str, stored: Option<(String, Vec<String>)>) -> (c: Self)
        ensures
            match stored {
                None => c@ == Self::default_with_spec(root@),
                Some((d, m)) => c@ == (RepositoryConfigurationModel {
                    root: root@,
                    exists: true,
                    overlay_directory: d@,
                    managed_files: views(m@),
                }),
            },
    {
        match stored {
            None => Self::default_with(root),
            Some((d, m)) => RepositoryConfiguration {
                root: string_of_str(root),
                exists: true,
                overlay_directory: d,
                managed_files: m,
            },
        }
    }

    /// The repository root this configuration belongs to.
    pub fn root(&self) -> (r: &str)
        ensures
            r@ == self@.root,
    {
        self.root.as_str()
    }

    /// The overlay directory path, relative to the repository root (or
    /// absolute).
    pub fn overlay_directory(&self) -> (r: &str)
        ensures
            r@ == self@.overlay_directory,
    {
        self.overlay_directory.as_str()
    }

    /// Sets the overlay directory path.
    pub fn set_overlay_directory(&mut self, path: String)
        ensures
            final(self)@ == (RepositoryConfigurationModel {
                overlay_directory: path@,
                ..old(self)@
            }),
    {
        self.overlay_directory = path;
    }

    /// Whether the configuration file existed on disk when this instance was
    /// loaded (or has been written since).
    pub fn exists_on_disk(&self) -> (b: bool)
        ensures
            b == self@.exists,
    {
        self.exists
    }

    /// Records that the configuration file now exists on disk.
    pub fn mark_saved(&mut self)
        ensures
            final(self)@ == (RepositoryConfigurationModel { exists: true, ..old(self)@ }),
    {
        self.exists = true;
    }

    /// The files managed by the overlay tool, relative to the repository
    /// root.
    pub fn managed_files(&self) -> (r: &Vec<String>)
        ensures
            views(r@) == self@.managed_files,
    {
        &self.managed_files
    }

    /// Registers a file as managed, if not already present.
    pub fn add_managed_file(&mut self, file: String)
        ensures
            final(self)@ == (RepositoryConfigurationModel {
                managed_files: inserted(old(self)@.managed_files, file@),
                ..old(self)@
            }),
    {
        insert_str(&mut self.managed_files, file);
    }

    /// Removes every copy of `file` from the managed files.
    pub fn remove_managed_file(&mut self, file: &str)
        ensures
            final(self)@ == (RepositoryConfigurationModel {
                managed_files: removed(old(self)@.managed_files, file@),
                ..old(self)@
            }),
    {
        remove_str(&mut self.managed_files, file);
    }
}

impl Default for RepositoryConfiguration {
    /// The default configuration, rooted at the empty path.
    fn default() -> (c: Self)
        ensures
            c@ == RepositoryConfiguration::default_with_spec(Seq::<char>::empty()),
    {
        let c = Self::default_with("");
        proof {
            reveal_strlit("");
            assert(""@ =~= Seq::<char>::empty());
        }
        c
    }
}

} // verus!
