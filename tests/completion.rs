use rush::completion::{command_completions, completion_context, CompletionType, PathCompleter};

#[test]
fn test_completion_types() {
    let types = vec![CompletionType::Command, CompletionType::Path, CompletionType::Flag];
    assert_eq!(types.len(), 3);
}

#[test]
fn test_completion_types_equality() {
    assert_eq!(CompletionType::Command, CompletionType::Command);
    assert_ne!(CompletionType::Command, CompletionType::Path);
    assert_ne!(CompletionType::Path, CompletionType::Flag);
}

#[test]
fn test_path_completer_new() {
    let completer = PathCompleter::new();
    assert!(completer.case_sensitive());
}

#[test]
fn test_split_path_and_prefix() {
    let completer = PathCompleter::new();
    assert_eq!(completer.split_path_and_prefix("src/main.rs"), ("src/".to_string(), "main.rs".to_string()));
    assert_eq!(completer.split_path_and_prefix("main.rs"), ("./".to_string(), "main.rs".to_string()));
    assert_eq!(completer.split_path_and_prefix("/usr/bin/git"), ("/usr/bin/".to_string(), "git".to_string()));
    assert_eq!(completer.split_path_and_prefix(""), ("./".to_string(), String::new()));
}

#[test]
fn test_extract_partial_path() {
    let completer = PathCompleter::new();
    assert_eq!(completer.extract_partial_path("ls src/m", 8), Some("src/m".to_string()));
    assert_eq!(completer.extract_partial_path("ls", 2), None);
    assert_eq!(completer.extract_partial_path("ls src/main.rs other", 14), Some("src/main.rs".to_string()));
}

#[test]
fn test_path_completer_default() {
    let completer = PathCompleter::default();
    assert!(completer.case_sensitive());
}

#[test]
fn test_matches_prefix() {
    let completer = PathCompleter::new();
    assert!(completer.matches_prefix("README.md", "README"));
    assert!(!completer.matches_prefix("README.md", "readme"));
}

#[test]
fn test_case_sensitive_path_matching() {
    let completer = PathCompleter::new();
    assert!(completer.matches_prefix("readme.md", "readme"));
    assert!(!completer.matches_prefix("README.md", "readme"));
}

#[test]
fn case_insensitive_matching_lowercases_both() {
    let completer = PathCompleter::with_case_sensitivity(false);
    assert!(completer.matches_prefix("README.md", "readme"));
    assert!(!completer.matches_prefix("notes", "readme"));
}

#[test]
fn listing_marks_dirs_quotes_spaces_and_hides_dotfiles() {
    let completer = PathCompleter::new();
    let entries = vec![
        ("zeta".to_string(), false),
        ("file with space.txt".to_string(), false),
        ("subdir".to_string(), true),
        (".hidden".to_string(), false),
    ];
    assert_eq!(
        completer.list_matches(&entries, ""),
        vec!["\"file with space.txt\"", "subdir/", "zeta"]
    );
    assert_eq!(completer.list_matches(&entries, "."), vec![".hidden"]);
}

#[test]
fn suggestions_replace_the_word_and_cap_at_fifty() {
    let completer = PathCompleter::new();
    let entries = vec![("main.rs".to_string(), false), ("mod.rs".to_string(), false)];
    let s = completer.suggestions("ls src/m", 8, Some(entries));
    let values: Vec<String> = s.iter().map(|x| x.value.clone()).collect();
    assert_eq!(values, vec!["src/main.rs", "src/mod.rs"]);
    assert!(s.iter().all(|x| x.start == 3 && x.end == 8));
    let many: Vec<(String, bool)> = (0..55).map(|i| (format!("file_{:03}.txt", i), false)).collect();
    assert!(completer.suggestions("ls /tmp/x/", 10, Some(many)).is_empty());
    assert!(completer.suggestions("ls", 2, Some(vec![("ls".to_string(), false)])).is_empty());
    assert!(completer.suggestions("ls /nope/", 9, None).is_empty());
}

#[test]
fn tilde_expands_with_a_home() {
    let completer = PathCompleter::new();
    assert_eq!(completer.expand_tilde_with("~/Documents", Some("/home/u")), "/home/u/Documents");
    assert_eq!(completer.expand_tilde_with("~", Some("/home/u")), "/home/u");
    assert_eq!(completer.expand_tilde_with("./test", Some("/home/u")), "./test");
    assert_eq!(completer.expand_tilde("/usr/local"), "/usr/local");
}

#[test]
fn context_depends_on_the_word() {
    assert_eq!(completion_context("gi", 2), CompletionType::Command);
    assert_eq!(completion_context("git -", 5), CompletionType::Flag);
    assert_eq!(completion_context("git sr", 6), CompletionType::Path);
    assert_eq!(completion_context("git ", 4), CompletionType::Path);
}

#[test]
fn command_names_include_builtins_once_sorted() {
    let exes = vec!["ls".to_string(), "exa".to_string(), "echo".to_string(), "less".to_string()];
    assert_eq!(command_completions("e", &exes), vec!["echo", "exa", "exit", "export"]);
    assert_eq!(command_completions("l", &exes), vec!["less", "ls"]);
    assert!(command_completions("zz", &exes).is_empty());
}

#[test]
fn tilde_with_the_machine_home() {
    let completer = PathCompleter::new();
    let r = completer.expand_tilde("~/x");
    assert!(r == "~/x" || (r.ends_with("/x") && r.len() > 2));
    let d = completer.directory_to_list("ls src/ma", 9);
    assert_eq!(d, Some("src/".to_string()));
    assert_eq!(completer.directory_to_list("ls", 2), None);
}
