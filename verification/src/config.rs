//! The configuration surface the rest of the library consumes: defaults and
//! the resolution of a new working tree's path. Reading and writing the
//! configuration file happens outside the library.

use vstd::prelude::*;
use crate::text::views_of;

verus! {

/// The default location for new working trees, inside the repository's
/// metadata directory.
pub fn default_worktree_path() -> (r: String)
    ensures
        r@ == ".git/.wkit-worktrees"@,
{
    ".git/.wkit-worktrees".to_owned()
}

/// The default integration strategy for syncing a working tree.
pub fn default_sync_strategy() -> (r: String)
    ensures
        r@ == "merge"@,
{
    "merge".to_owned()
}

/// The default name of the main branch.
pub fn default_main_branch() -> (r: String)
    ensures
        r@ == "main"@,
{
    "main".to_owned()
}

/// The default set of files offered for copying into a fresh working tree.
pub fn default_copy_files() -> (r: Vec<String>)
    ensures
        views_of(r@) == seq![
            ".envrc"@,
            "compose.override.yaml"@,
            ".env.local"@,
            "config/local.yaml"@,
        ],
{
    let mut v: Vec<String> = Vec::new();
    v.push(".envrc".to_owned());
    v.push("compose.override.yaml".to_owned());
    v.push(".env.local".to_owned());
    v.push("config/local.yaml".to_owned());
    proof {
        assert(views_of(v@) =~= seq![
            ".envrc"@,
            "compose.override.yaml"@,
            ".env.local"@,
            "config/local.yaml"@,
        ]);
    }
    v
}

/// The file-copy convenience settings: whether copying is on, and which
/// files are copied into a fresh working tree.
#[derive(Debug)]
pub struct CopyFiles {
    pub enabled: bool,
    pub files: Vec<String>,
}

impl Clone for CopyFiles {
    fn clone(&self) -> (r: Self)
        ensures
            r.enabled == self.enabled,
            views_of(r.files@) == views_of(self.files@),
    {
        let mut files: Vec<String> = Vec::new();
        let n = self.files.len();
        let mut i: usize = 0;
        while i < n
            invariant
                i <= n,
                n == self.files@.len(),
                views_of(files@) == views_of(self.files@).subrange(0, i as int),
            decreases n - i,
        {
            let ghost prev = views_of(files@);
            files.push(self.files[i].clone());
            proof {
                assert(views_of(self.files@)[i as int] == self.files@[i as int]@);
                assert(views_of(files@) =~= prev.push(self.files@[i as int]@));
                assert(views_of(self.files@).subrange(0, i + 1) =~= views_of(
                    self.files@,
                ).subrange(0, i as int).push(views_of(self.files@)[i as int]));
            }
            i = i + 1;
        }
        proof {
            assert(views_of(self.files@).subrange(0, n as int) =~= views_of(self.files@));
        }
        CopyFiles { enabled: self.enabled, files }
    }
}

impl Default for CopyFiles {
    fn default() -> (r: Self)
        ensures
            !r.enabled,
            views_of(r.files@) == seq![
                ".envrc"@,
                "compose.override.yaml"@,
                ".env.local"@,
                "config/local.yaml"@,
            ],
    {
        CopyFiles { enabled: false, files: default_copy_files() }
    }
}

/// The settings the lifecycle manager consults: where new working trees go,
/// whether cleanup and index integration are on, how syncing integrates, and
/// the name of the main branch.
#[derive(Debug)]
pub struct Config {
    pub default_worktree_path: String,
    pub auto_cleanup: bool,
    pub z_integration: bool,
    pub default_sync_strategy: String,
    pub main_branch: String,
    pub copy_files: CopyFiles,
}

impl Clone for Config {
    fn clone(&self) -> (r: Self)
        ensures
            r.default_worktree_path@ == self.default_worktree_path@,
            r.auto_cleanup == self.auto_cleanup,
            r.z_integration == self.z_integration,
            r.default_sync_strategy@ == self.default_sync_strategy@,
            r.main_branch@ == self.main_branch@,
            r.copy_files.enabled == self.copy_files.enabled,
            views_of(r.copy_files.files@) == views_of(self.copy_files.files@),
    {
        Config {
            default_worktree_path: self.default_worktree_path.clone(),
            auto_cleanup: self.auto_cleanup,
            z_integration: self.z_integration,
            default_sync_strategy: self.default_sync_strategy.clone(),
            main_branch: self.main_branch.clone(),
            copy_files: self.copy_files.clone(),
        }
    }
}

impl Default for Config {
    fn default() -> (r: Self)
        ensures
            r.default_worktree_path@ == ".git/.wkit-worktrees"@,
            !r.auto_cleanup,
            r.z_integration,
            r.default_sync_strategy@ == "merge"@,
            r.main_branch@ == "main"@,
            !r.copy_files.enabled,
            views_of(r.copy_files.files@) == seq![
                ".envrc"@,
                "compose.override.yaml"@,
                ".env.local"@,
                "config/local.yaml"@,
            ],
    {
        Config {
            default_worktree_path: default_worktree_path(),
            auto_cleanup: false,
            z_integration: true,
            default_sync_strategy: default_sync_strategy(),
            main_branch: default_main_branch(),
            copy_files: CopyFiles::default(),
        }
    }
}

impl Config {
    /// Where the working tree for `branch` goes: the explicit path when one
    /// is given, else the branch's directory under the default location.
    pub fn resolve_worktree_path(&self, branch: &str, provided_path: Option<&str>) -> (r: String)
        ensures
            r@ == match provided_path {
                Some(p) => p@,
                None => self.default_worktree_path@ + seq!['/'] + branch@,
            },
    {
        match provided_path {
            Some(p) => p.to_owned(),
            None => {
                proof {
                    reveal_strlit("/");
                }
                let mut s = self.default_worktree_path.clone();
                s.append("/");
                s.append(branch);
                proof {
                    assert(s@ =~= self.default_worktree_path@ + seq!['/'] + branch@);
                }
                s
            },
        }
    }
}

} // verus!
