use rush::worktree::{find_worktree_for_path, generate_worktree_path, parse_worktree_line, parse_worktree_list, WorktreeData};

fn wt(path: &str, branch: &str, is_main: bool) -> WorktreeData {
    WorktreeData { path: path.to_string(), branch: branch.to_string(), is_main }
}

#[test]
fn worktree_test_parse_single_worktree() {
    let output = "/Users/chris/projects/rustation  abc1234 [main]";
    let result = parse_worktree_list(output, "/Users/chris/projects/rustation").unwrap();
    assert_eq!(result.len(), 1);
    assert_eq!(result[0].path, "/Users/chris/projects/rustation");
    assert_eq!(result[0].branch, "main");
    assert!(result[0].is_main);
}

#[test]
fn worktree_test_parse_multiple_worktrees() {
    let output = r#"/Users/chris/projects/rustation         abc1234 [main]
/Users/chris/projects/rustation-feature def5678 [feature/auth]
/Users/chris/projects/rustation-fix     ghi9012 [fix/bug-123]"#;
    let result = parse_worktree_list(output, "/Users/chris/projects/rustation").unwrap();
    assert_eq!(result.len(), 3);
    assert_eq!(result[0].path, "/Users/chris/projects/rustation");
    assert_eq!(result[0].branch, "main");
    assert!(result[0].is_main);
    assert_eq!(result[1].path, "/Users/chris/projects/rustation-feature");
    assert_eq!(result[1].branch, "feature/auth");
    assert!(!result[1].is_main);
    assert_eq!(result[2].path, "/Users/chris/projects/rustation-fix");
    assert_eq!(result[2].branch, "fix/bug-123");
    assert!(!result[2].is_main);
}

#[test]
fn worktree_test_parse_detached_head() {
    let output = "/Users/chris/projects/rustation  abc1234 (detached HEAD)";
    let result = parse_worktree_list(output, "/Users/chris/projects/rustation").unwrap();
    assert_eq!(result.len(), 1);
    assert_eq!(result[0].branch, "HEAD (detached)");
}

#[test]
fn worktree_test_empty_output_creates_default() {
    let result = parse_worktree_list("", "/Users/chris/projects/rustation").unwrap();
    assert_eq!(result.len(), 1);
    assert_eq!(result[0].path, "/Users/chris/projects/rustation");
    assert_eq!(result[0].branch, "main");
    assert!(result[0].is_main);
}

#[test]
fn worktree_test_parse_worktree_line() {
    let line = "/path/to/worktree  abc1234 [feature/test]";
    let result = parse_worktree_line(line, "/path/main").unwrap();
    assert_eq!(result.path, "/path/to/worktree");
    assert_eq!(result.branch, "feature/test");
    assert!(!result.is_main);
}

#[test]
fn worktree_test_parse_worktree_line_main() {
    let line = "/path/main  abc1234 [main]";
    let result = parse_worktree_line(line, "/path/main").unwrap();
    assert!(result.is_main);
}

#[test]
fn worktree_test_find_worktree_for_path_exact_match() {
    let worktrees = vec![wt("/projects/main", "main", true), wt("/projects/feature", "feature/test", false)];
    assert_eq!(find_worktree_for_path("/projects/main", &worktrees), Some(0));
    assert_eq!(find_worktree_for_path("/projects/feature", &worktrees), Some(1));
}

#[test]
fn worktree_test_find_worktree_for_path_subdirectory() {
    let worktrees = vec![wt("/projects/main", "main", true)];
    assert_eq!(find_worktree_for_path("/projects/main/src/lib.rs", &worktrees), Some(0));
    assert_eq!(find_worktree_for_path("/projects/main/packages/core", &worktrees), Some(0));
}

#[test]
fn worktree_test_find_worktree_for_path_no_match() {
    let worktrees = vec![wt("/projects/main", "main", true)];
    assert_eq!(find_worktree_for_path("/other/project", &worktrees), None);
    assert_eq!(find_worktree_for_path("/projects/other", &worktrees), None);
}

#[test]
fn test_generate_worktree_path() {
    let path = generate_worktree_path("/Users/chris/projects/rustation", "feature-auth");
    assert_eq!(path, "/Users/chris/projects/rustation-feature-auth");
    let path = generate_worktree_path("/Users/chris/projects/rustation", "feature/auth");
    assert_eq!(path, "/Users/chris/projects/rustation-feature-auth");
    let path = generate_worktree_path("/Users/chris/projects/rustation", "fix/bug/123");
    assert_eq!(path, "/Users/chris/projects/rustation-fix-bug-123");
}

#[test]
fn test_generate_worktree_path_preserves_parent() {
    let path = generate_worktree_path("/home/user/code/myproject", "develop");
    assert_eq!(path, "/home/user/code/myproject-develop");
}

#[test]
fn bare_and_blank_lines_are_skipped() {
    let out = "/repo.git (bare)\n\n   \n/repo/wt  abc [topic]\n";
    let result = parse_worktree_list(out, "/repo").unwrap();
    assert_eq!(result.len(), 1);
    assert_eq!(result[0].branch, "topic");
    assert!(parse_worktree_line("/x  abc", "/y").unwrap().branch == "unknown");
    assert!(parse_worktree_line("/main/  abc [m]", "/main").unwrap().is_main);
}

#[test]
fn prefix_match_is_by_whole_component() {
    let worktrees = vec![wt("/projects/main", "main", true)];
    assert_eq!(find_worktree_for_path("/projects/mainline", &worktrees), None);
    assert_eq!(find_worktree_for_path("/projects//main/", &worktrees), Some(0));
}

#[test]
fn components_follow_path_rules() {
    let wts = vec![wt("a", "x", false)];
    assert_eq!(find_worktree_for_path("./a", &wts), None);
    assert_eq!(find_worktree_for_path("a/b", &wts), Some(0));
    let root_any = vec![wt("", "x", false)];
    assert_eq!(find_worktree_for_path("/a", &root_any), Some(0));
    let main = vec![wt("/projects/main", "m", true)];
    assert_eq!(find_worktree_for_path("/projects/./main/x", &main), Some(0));
}
