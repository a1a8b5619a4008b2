//! The fixed argument vectors handed to the external version-control tool,
//! parameterized only by branch names and paths and passed as discrete
//! tokens, never through a shell.

use vstd::prelude::*;
use crate::text::views_of;

verus! {

/// Arguments that list the working trees in porcelain form.
pub fn list_worktrees_args() -> (r: Vec<String>)
    ensures
        views_of(r@) == seq!["worktree"@, "list"@, "--porcelain"@],
{
    let mut v: Vec<String> = Vec::new();
    v.push("worktree".to_owned());
    v.push("list".to_owned());
    v.push("--porcelain".to_owned());
    proof {
        assert(views_of(v@) =~= seq!["worktree"@, "list"@, "--porcelain"@]);
    }
    v
}

/// Arguments that create a working tree at `target_path`: attached to the
/// existing branch, or with `-b` creating the branch first.
pub fn add_worktree_args(branch: &str, target_path: &str, branch_exists: bool) -> (r: Vec<String>)
    ensures
        views_of(r@) == if branch_exists {
            seq!["worktree"@, "add"@, target_path@, branch@]
        } else {
            seq!["worktree"@, "add"@, "-b"@, branch@, target_path@]
        },
{
    let mut v: Vec<String> = Vec::new();
    v.push("worktree".to_owned());
    v.push("add".to_owned());
    if branch_exists {
        v.push(target_path.to_owned());
        v.push(branch.to_owned());
        proof {
            assert(views_of(v@) =~= seq!["worktree"@, "add"@, target_path@, branch@]);
        }
    } else {
        v.push("-b".to_owned());
        v.push(branch.to_owned());
        v.push(target_path.to_owned());
        proof {
            assert(views_of(v@) =~= seq!["worktree"@, "add"@, "-b"@, branch@, target_path@]);
        }
    }
    v
}

/// Arguments that remove the working tree at `path`.
pub fn remove_worktree_args(path: &str) -> (r: Vec<String>)
    ensures
        views_of(r@) == seq!["worktree"@, "remove"@, path@],
{
    let mut v: Vec<String> = Vec::new();
    v.push("worktree".to_owned());
    v.push("remove".to_owned());
    v.push(path.to_owned());
    proof {
        assert(views_of(v@) =~= seq!["worktree"@, "remove"@, path@]);
    }
    v
}

/// Arguments that quietly test whether the local branch exists.
pub fn branch_exists_args(branch: &str) -> (r: Vec<String>)
    ensures
        views_of(r@) == seq!["show-ref"@, "--verify"@, "--quiet"@, "refs/heads/"@ + branch@],
{
    proof {
        reveal_strlit("refs/heads/");
    }
    let mut refname = "refs/heads/".to_owned();
    refname.append(branch);
    let mut v: Vec<String> = Vec::new();
    v.push("show-ref".to_owned());
    v.push("--verify".to_owned());
    v.push("--quiet".to_owned());
    v.push(refname);
    proof {
        assert(views_of(v@) =~= seq![
            "show-ref"@,
            "--verify"@,
            "--quiet"@,
            "refs/heads/"@ + branch@,
        ]);
    }
    v
}

/// Arguments that query short-format status with ahead/behind information.
pub fn status_args() -> (r: Vec<String>)
    ensures
        views_of(r@) == seq!["status"@, "--porcelain"@, "--ahead-behind"@],
{
    let mut v: Vec<String> = Vec::new();
    v.push("status".to_owned());
    v.push("--porcelain".to_owned());
    v.push("--ahead-behind".to_owned());
    proof {
        assert(views_of(v@) =~= seq!["status"@, "--porcelain"@, "--ahead-behind"@]);
    }
    v
}

/// Arguments that list the branches merged into `main_branch`.
pub fn merged_branches_args(main_branch: &str) -> (r: Vec<String>)
    ensures
        views_of(r@) == seq!["branch"@, "--merged"@, main_branch@],
{
    let mut v: Vec<String> = Vec::new();
    v.push("branch".to_owned());
    v.push("--merged".to_owned());
    v.push(main_branch.to_owned());
    proof {
        assert(views_of(v@) =~= seq!["branch"@, "--merged"@, main_branch@]);
    }
    v
}

/// Arguments that list the branch's head on the remote named `origin`.
pub fn remote_heads_args(branch: &str) -> (r: Vec<String>)
    ensures
        views_of(r@) == seq!["ls-remote"@, "--heads"@, "origin"@, branch@],
{
    let mut v: Vec<String> = Vec::new();
    v.push("ls-remote".to_owned());
    v.push("--heads".to_owned());
    v.push("origin".to_owned());
    v.push(branch.to_owned());
    proof {
        assert(views_of(v@) =~= seq!["ls-remote"@, "--heads"@, "origin"@, branch@]);
    }
    v
}

/// Arguments that query the URL of the remote named `origin`.
pub fn remote_url_args() -> (r: Vec<String>)
    ensures
        views_of(r@) == seq!["remote"@, "get-url"@, "origin"@],
{
    let mut v: Vec<String> = Vec::new();
    v.push("remote".to_owned());
    v.push("get-url".to_owned());
    v.push("origin".to_owned());
    proof {
        assert(views_of(v@) =~= seq!["remote"@, "get-url"@, "origin"@]);
    }
    v
}

/// Arguments that fetch updates for the remote named `origin`.
pub fn fetch_args() -> (r: Vec<String>)
    ensures
        views_of(r@) == seq!["fetch"@, "origin"@],
{
    let mut v: Vec<String> = Vec::new();
    v.push("fetch".to_owned());
    v.push("origin".to_owned());
    proof {
        assert(views_of(v@) =~= seq!["fetch"@, "origin"@]);
    }
    v
}

/// Arguments that integrate `origin/<main_branch>` into the current branch,
/// by rebase or by merge.
pub fn sync_args(main_branch: &str, use_rebase: bool) -> (r: Vec<String>)
    ensures
        views_of(r@) == seq![
            if use_rebase {
                "rebase"@
            } else {
                "merge"@
            },
            "origin/"@ + main_branch@,
        ],
{
    proof {
        reveal_strlit("origin/");
    }
    let mut target = "origin/".to_owned();
    target.append(main_branch);
    let mut v: Vec<String> = Vec::new();
    if use_rebase {
        v.push("rebase".to_owned());
    } else {
        v.push("merge".to_owned());
    }
    v.push(target);
    proof {
        assert(views_of(v@) =~= seq![
            if use_rebase {
                "rebase"@
            } else {
                "merge"@
            },
            "origin/"@ + main_branch@,
        ]);
    }
    v
}

} // verus!
