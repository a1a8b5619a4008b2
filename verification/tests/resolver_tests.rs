use wkit::resolver::{extract_project_from_remote, project_name};
use wkit::worktree::remote_branch_absent;

#[test]
fn test_extract_project_from_remote() {
    assert_eq!(
        extract_project_from_remote("git@github.com:user/project.git"),
        Some("project".to_string())
    );

    assert_eq!(
        extract_project_from_remote("https://github.com/user/project.git"),
        Some("project".to_string())
    );

    assert_eq!(
        extract_project_from_remote("https://github.com/user/project"),
        Some("project".to_string())
    );
}

#[test]
fn test_extract_project_generic_remote() {
    assert_eq!(
        extract_project_from_remote("ssh://host/team/widget.git"),
        Some("widget".to_string())
    );
    assert_eq!(
        extract_project_from_remote("git@github.com:acme/widget.git\n"),
        Some("widget".to_string())
    );
}

#[test]
fn test_project_name_prefers_remote() {
    assert_eq!(
        project_name(Some("git@github.com:acme/widget.git"), "/repos/elsewhere"),
        "widget"
    );
}

#[test]
fn test_project_name_directory_fallback() {
    assert_eq!(project_name(None, "/repos/widget"), "widget");
    assert_eq!(project_name(None, "/repos/widget/"), "widget");
    assert_eq!(project_name(None, ""), "unknown");
    assert_eq!(project_name(None, "/"), "unknown");
}

#[test]
fn test_remote_branch_absent() {
    assert!(remote_branch_absent("   \n"));
    assert!(remote_branch_absent(""));
    assert!(!remote_branch_absent("abc123\trefs/heads/topic\n"));
}
