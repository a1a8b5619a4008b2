use wkit::worktree::{RemovalReason, WorktreeManager};

#[test]
fn test_parse_worktree_list_empty() {
    let manager = WorktreeManager::new();
    let result = manager.parse_worktree_list("");
    assert!(result.is_empty());
}

#[test]
fn test_parse_worktree_list_single() {
    let manager = WorktreeManager::new();
    let output = "worktree /path/to/repo\nHEAD abcd1234\nbranch refs/heads/main\n";
    let result = manager.parse_worktree_list(output);

    assert_eq!(result.len(), 1);
    assert_eq!(result[0].path, "/path/to/repo");
    assert_eq!(result[0].branch, "main");
    assert_eq!(result[0].head, "abcd1234");
    assert!(!result[0].is_bare);
}

#[test]
fn test_parse_worktree_list_multiple() {
    let manager = WorktreeManager::new();
    let output = "worktree /path/to/repo
HEAD abcd1234
branch refs/heads/main

worktree /path/to/feature
HEAD efgh5678
branch refs/heads/feature-branch

worktree /path/to/bare
HEAD ijkl9012
bare
";
    let result = manager.parse_worktree_list(output);

    assert_eq!(result.len(), 3);

    assert_eq!(result[0].branch, "main");
    assert!(!result[0].is_bare);

    assert_eq!(result[1].branch, "feature-branch");
    assert!(!result[1].is_bare);

    assert_eq!(result[2].head, "ijkl9012");
    assert!(result[2].is_bare);
}

#[test]
fn test_parse_worktree_list_detached_head() {
    let manager = WorktreeManager::new();
    let output = "worktree /path/to/repo\nHEAD abcd1234\ndetached\n";
    let result = manager.parse_worktree_list(output);

    assert_eq!(result.len(), 1);
    assert_eq!(result[0].branch, "");
    assert_eq!(result[0].head, "abcd1234");
}

#[test]
fn test_parse_worktree_list_branch_without_ref_prefix() {
    let manager = WorktreeManager::new();
    let output = "worktree /w\nHEAD 1111\nbranch topic\n";
    let result = manager.parse_worktree_list(output);
    assert_eq!(result.len(), 1);
    assert_eq!(result[0].branch, "topic");
}

#[test]
fn test_parse_worktree_list_ignores_unknown_lines() {
    let manager = WorktreeManager::new();
    let output = "noise\nworktree /w\nlocked\nHEAD 1111\n";
    let result = manager.parse_worktree_list(output);
    assert_eq!(result.len(), 1);
    assert_eq!(result[0].path, "/w");
    assert_eq!(result[0].head, "1111");
}

#[test]
fn test_status_added_only() {
    let manager = WorktreeManager::new();
    let status = manager.parse_git_status("A  file\n");
    assert_eq!(status.added, 1);
    assert_eq!(status.modified, 0);
    assert_eq!(status.deleted, 0);
    assert_eq!(status.untracked, 0);
    assert!(!status.is_clean);
}

#[test]
fn test_status_modified_either_column() {
    let manager = WorktreeManager::new();
    let unstaged = manager.parse_git_status(" M file\n");
    assert_eq!(unstaged.modified, 1);
    assert_eq!(unstaged.added, 0);
    let staged = manager.parse_git_status("M  file\n");
    assert_eq!(staged.modified, 1);
    assert_eq!(staged.added, 0);
}

#[test]
fn test_status_untracked() {
    let manager = WorktreeManager::new();
    let status = manager.parse_git_status("?? file\n");
    assert_eq!(status.untracked, 1);
    assert_eq!(status.modified, 0);
}

#[test]
fn test_status_deleted_and_short_lines_skipped() {
    let manager = WorktreeManager::new();
    let status = manager.parse_git_status("D  gone\n \nx\n");
    assert_eq!(status.deleted, 1);
    assert_eq!(status.modified, 0);
    assert_eq!(status.added, 0);
    assert_eq!(status.untracked, 0);
}

#[test]
fn test_status_clean_when_empty() {
    let manager = WorktreeManager::new();
    let status = manager.parse_git_status("");
    assert!(status.is_clean);
    assert_eq!(status.ahead, 0);
    assert_eq!(status.behind, 0);
}

#[test]
fn test_find_worktree_by_branch_then_path() {
    let manager = WorktreeManager::new();
    let output = "worktree /repos/alpha\nHEAD 1\nbranch refs/heads/alpha\n\nworktree /repos/beta-dir\nHEAD 2\nbranch refs/heads/beta\n";
    let trees = manager.parse_worktree_list(output);

    let by_branch = manager.find_worktree_by_name(&trees, "beta").unwrap();
    assert_eq!(by_branch.path, "/repos/beta-dir");

    let by_path = manager.find_worktree_by_name(&trees, "beta-d").unwrap();
    assert_eq!(by_path.path, "/repos/beta-dir");

    assert!(manager.find_worktree_by_name(&trees, "gamma").is_none());
}

#[test]
fn test_is_branch_merged_into_markers() {
    let manager = WorktreeManager::new();
    let listing = "  main\n* feature\n  other\n";
    assert!(manager.is_branch_merged_into("main", listing));
    assert!(manager.is_branch_merged_into("feature", listing));
    assert!(!manager.is_branch_merged_into("missing", listing));
}

#[test]
fn test_find_unnecessary_worktrees() {
    let manager = WorktreeManager::new();
    let output = "worktree /repos/merged-tree
HEAD 1
branch refs/heads/merged-branch

worktree /repos/vanished
HEAD 2
branch refs/heads/keep-remote

worktree /repos/current
HEAD 3
branch refs/heads/current-work
";
    let trees = manager.parse_worktree_list(output);
    let merged_listing = "  main\n  merged-branch\n";
    let path_exists = vec![true, false, true];
    let remote_gone = vec![false, false, false];

    let result = manager.find_unnecessary_worktrees_with_main(
        &trees,
        "main",
        merged_listing,
        &path_exists,
        &remote_gone,
    );

    assert_eq!(result.len(), 2);
    assert_eq!(result[0].0.path, "/repos/merged-tree");
    assert_eq!(result[0].1, RemovalReason::MergedIntoMain);
    assert_eq!(result[1].0.path, "/repos/vanished");
    assert_eq!(result[1].1, RemovalReason::PathMissing);
}

#[test]
fn test_find_unnecessary_skips_bare_and_main() {
    let manager = WorktreeManager::new();
    let output = "worktree /repos/bare-tree
HEAD 1
bare

worktree /repos/main-tree
HEAD 2
branch refs/heads/main
";
    let trees = manager.parse_worktree_list(output);
    // both would otherwise be flagged: paths missing and remotes gone
    let result = manager.find_unnecessary_worktrees_with_main(
        &trees,
        "main",
        "",
        &vec![false, false],
        &vec![true, true],
    );
    assert!(result.is_empty());
}

#[test]
fn test_find_unnecessary_remote_deleted() {
    let manager = WorktreeManager::new();
    let output = "worktree /repos/stale\nHEAD 1\nbranch refs/heads/stale-branch\n";
    let trees = manager.parse_worktree_list(output);
    let result = manager.find_unnecessary_worktrees_with_main(
        &trees,
        "main",
        "",
        &vec![true],
        &vec![true],
    );
    assert_eq!(result.len(), 1);
    assert_eq!(result[0].1, RemovalReason::RemoteDeleted);
}
