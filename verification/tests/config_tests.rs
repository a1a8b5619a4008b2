use wkit::config::Config;
use wkit::commands::{
    add_worktree_args, branch_exists_args, fetch_args, list_worktrees_args, merged_branches_args,
    remote_heads_args, remote_url_args, remove_worktree_args, status_args, sync_args,
};

#[test]
fn test_default_config() {
    let config = Config::default();
    assert_eq!(config.default_worktree_path, ".git/.wkit-worktrees");
    assert!(!config.auto_cleanup);
    assert!(config.z_integration);
}

#[test]
fn test_default_config_strategy_and_branch() {
    let config = Config::default();
    assert_eq!(config.default_sync_strategy, "merge");
    assert_eq!(config.main_branch, "main");
    assert!(!config.copy_files.enabled);
    assert_eq!(config.copy_files.files.len(), 4);
    assert_eq!(config.copy_files.files[0], ".envrc");
}

#[test]
fn test_resolve_worktree_path_with_provided_path() {
    let config = Config::default();
    let result = config.resolve_worktree_path("feature", Some("/custom/path"));
    assert_eq!(result, "/custom/path");
}

#[test]
fn test_resolve_worktree_path_with_default_relative() {
    let config = Config::default();
    let result = config.resolve_worktree_path("feature", None);
    assert_eq!(result, ".git/.wkit-worktrees/feature");
}

#[test]
fn test_resolve_worktree_path_with_absolute_default() {
    let mut config = Config::default();
    config.default_worktree_path = "/absolute/path".to_string();
    let result = config.resolve_worktree_path("feature", None);
    assert_eq!(result, "/absolute/path/feature");
}

#[test]
fn test_gateway_argument_vectors() {
    assert_eq!(list_worktrees_args(), vec!["worktree", "list", "--porcelain"]);
    assert_eq!(remove_worktree_args("/w"), vec!["worktree", "remove", "/w"]);
    assert_eq!(
        branch_exists_args("topic"),
        vec!["show-ref", "--verify", "--quiet", "refs/heads/topic"]
    );
    assert_eq!(status_args(), vec!["status", "--porcelain", "--ahead-behind"]);
    assert_eq!(merged_branches_args("main"), vec!["branch", "--merged", "main"]);
    assert_eq!(remote_heads_args("topic"), vec!["ls-remote", "--heads", "origin", "topic"]);
    assert_eq!(remote_url_args(), vec!["remote", "get-url", "origin"]);
    assert_eq!(fetch_args(), vec!["fetch", "origin"]);
}

#[test]
fn test_add_worktree_args_depend_on_branch_existence() {
    assert_eq!(
        add_worktree_args("topic", "/w", true),
        vec!["worktree", "add", "/w", "topic"]
    );
    assert_eq!(
        add_worktree_args("topic", "/w", false),
        vec!["worktree", "add", "-b", "topic", "/w"]
    );
}

#[test]
fn test_sync_args_merge_or_rebase() {
    assert_eq!(sync_args("main", false), vec!["merge", "origin/main"]);
    assert_eq!(sync_args("main", true), vec!["rebase", "origin/main"]);
}
