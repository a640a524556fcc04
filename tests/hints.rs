use rush::hint::{latest_with_prefix, RushHinter};

#[test]
fn hint_is_the_rest_of_the_latest_match() {
    let history = vec!["git status".to_string(), "git commit -m x".to_string(), "ls".to_string()];
    let found = latest_with_prefix(&history, "git");
    assert_eq!(found, Some("git commit -m x".to_string()));
    let mut h = RushHinter::new();
    assert_eq!(h.handle("git", 3, found), " commit -m x");
    assert_eq!(h.complete_hint(), " commit -m x");
    assert_eq!(h.next_hint_token(), "commit");
}

#[test]
fn no_hint_mid_line_empty_or_exact() {
    let mut h = RushHinter::new();
    assert_eq!(h.handle("git", 1, Some("git status".to_string())), "");
    assert_eq!(h.handle("", 0, Some("git".to_string())), "");
    assert_eq!(h.handle("ls", 2, Some("ls".to_string())), "");
    assert_eq!(h.next_hint_token(), "");
    assert_eq!(latest_with_prefix(&vec!["a".to_string()], "b"), None);
}
