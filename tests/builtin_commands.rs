use rush::builtins::{job_id_arg, run_export, run_set, BuiltinOutput};
use rush::completion::PathCompleter;
use rush::hint::RushHinter;
use rush::jobs::JobTable;
use rush::parser::parse_line;
use rush::variables::VariableManager;
use rush::words::expand_word;

/// Runs `export <args>` the way the shell does: parse, expand, run.
fn export(vm: &mut VariableManager, args: &str) -> BuiltinOutput {
    let line = format!("export {}", args);
    let p = parse_line(&line).unwrap().unwrap();
    let mut errors = Vec::new();
    let mut argv = Vec::new();
    for w in &p.commands[0].words {
        argv.extend(expand_word(w, vm, None, 0, 1, &mut errors));
    }
    run_export(vm, &argv)
}

fn set_var(vm: &mut VariableManager, k: &str, v: &str) {
    vm.set(k.to_string(), v.to_string()).unwrap();
}

#[test]
fn test_export_var_value_parsing() {
    let mut vm = VariableManager::new();
    let result = export(&mut vm, "FOO=bar");
    assert_eq!(result.code, 0);
    assert_eq!(vm.get("FOO"), Some("bar"));
}

#[test]
fn test_export_no_args_lists_variables() {
    let mut vm = VariableManager::new();
    vm.export_var("EXPORT_TEST".to_string(), "value".to_string()).unwrap();
    let result = run_export(&mut vm, &vec!["export".to_string()]);
    assert_eq!(result.code, 0);
    assert_eq!(result.stdout, vec!["EXPORT_TEST=value".to_string()]);
}

#[test]
fn test_export_invalid_variable_name() {
    let mut vm = VariableManager::new();
    let result = export(&mut vm, "123VAR=value");
    assert_ne!(result.code, 0);
    assert!(result.stderr[0].contains("Invalid variable name"));
}

#[test]
fn test_export_var_with_expansion() {
    let mut vm = VariableManager::new();
    set_var(&mut vm, "SOURCE", "source_value");
    let result = export(&mut vm, "TARGET=$SOURCE");
    assert_eq!(result.code, 0);
    assert_eq!(vm.get("TARGET"), Some("source_value"));
}

#[test]
fn test_export_empty_value() {
    let mut vm = VariableManager::new();
    let result = export(&mut vm, "EMPTY=");
    assert_eq!(result.code, 0);
    assert_eq!(vm.get("EMPTY"), Some(""));
}

#[test]
fn test_export_multiple_vars() {
    let mut vm = VariableManager::new();
    let result = export(&mut vm, "A=1 B=2");
    assert_eq!(result.code, 0);
    assert_eq!(vm.get("A"), Some("1"));
    assert_eq!(vm.get("B"), Some("2"));
}

#[test]
fn test_export_missing_equals() {
    let mut vm = VariableManager::new();
    let result = export(&mut vm, "NOEQUALS");
    assert_ne!(result.code, 0);
    assert!(result.stderr[0].contains("expected VAR=value"));
}

#[test]
fn test_export_value_with_equals() {
    let mut vm = VariableManager::new();
    let result = export(&mut vm, "KEY=a=b=c");
    assert_eq!(result.code, 0);
    assert_eq!(vm.get("KEY"), Some("a=b=c"));
}

#[test]
fn test_export_invalid_name_with_dash() {
    let mut vm = VariableManager::new();
    let result = export(&mut vm, "MY-VAR=value");
    assert_ne!(result.code, 0);
}

#[test]
fn test_export_underscore_prefix() {
    let mut vm = VariableManager::new();
    let result = export(&mut vm, "_PRIVATE=secret");
    assert_eq!(result.code, 0);
    assert_eq!(vm.get("_PRIVATE"), Some("secret"));
}

#[test]
fn test_export_path_append() {
    let mut vm = VariableManager::new();
    set_var(&mut vm, "PATH", "/usr/bin");
    let result = export(&mut vm, "PATH=$PATH:/custom/bin");
    assert_eq!(result.code, 0);
    assert_eq!(vm.get("PATH"), Some("/usr/bin:/custom/bin"));
}

#[test]
fn test_export_braced_expansion() {
    let mut vm = VariableManager::new();
    set_var(&mut vm, "BASE", "/home");
    let result = export(&mut vm, "MYDIR=${BASE}/mydir");
    assert_eq!(result.code, 0);
    assert_eq!(vm.get("MYDIR"), Some("/home/mydir"));
}

#[test]
fn test_set_output_format() {
    let mut vm = VariableManager::new();
    set_var(&mut vm, "TEST_SET_VAR", "test_value");
    let result = run_set(&vm);
    assert_eq!(result.code, 0);
    assert!(result.stdout.contains(&"TEST_SET_VAR=test_value".to_string()));
}

#[test]
fn test_set_returns_zero() {
    let vm = VariableManager::new();
    assert_eq!(run_set(&vm).code, 0);
}

#[test]
fn test_set_with_args_ignored() {
    let mut vm = VariableManager::new();
    set_var(&mut vm, "A", "1");
    let out = run_set(&vm);
    assert_eq!(out.code, 0);
    assert_eq!(out.stdout, vec!["A=1".to_string()]);
}

#[test]
fn test_fg_no_jobs() {
    let t = JobTable::new();
    let result = job_id_arg(&vec!["fg".to_string()], t.most_recent());
    assert!(result.is_err());
    assert!(result.unwrap_err().message().contains("no current job"));
}

#[test]
fn test_fg_invalid_job_id() {
    let mut t = JobTable::new();
    t.add_job(1234, "echo test".to_string(), vec![1234]);
    let id = job_id_arg(&vec!["fg".to_string(), "999".to_string()], t.most_recent()).unwrap();
    assert!(t.get(id).is_none());
}

#[test]
fn test_fg_parse_error() {
    let mut t = JobTable::new();
    t.add_job(1234, "echo test".to_string(), vec![1234]);
    let result = job_id_arg(&vec!["fg".to_string(), "not_a_number".to_string()], t.most_recent());
    assert!(result.is_err());
}

#[test]
fn test_new() {
    let hinter = RushHinter::new();
    assert_eq!(hinter.complete_hint(), "");
}

#[test]
fn test_default() {
    let hinter = RushHinter::default();
    assert_eq!(hinter.complete_hint(), "");
}

#[test]
fn test_complete_hint() {
    let mut hinter = RushHinter::new();
    hinter.handle("x", 1, Some("xfull hint text".to_string()));
    assert_eq!(hinter.complete_hint(), "full hint text");
}

#[test]
fn test_next_hint_token() {
    let mut hinter = RushHinter::new();
    hinter.handle("x", 1, Some("xfirst second third".to_string()));
    assert_eq!(hinter.next_hint_token(), "first");
}

#[test]
fn test_next_hint_token_empty() {
    let hinter = RushHinter::new();
    assert_eq!(hinter.next_hint_token(), "");
}

#[test]
fn test_complete_returns_empty_for_first_word() {
    let completer = PathCompleter::new();
    let suggestions = completer.suggestions("ls", 2, Some(vec![("ls".to_string(), false)]));
    assert!(suggestions.is_empty());
}

#[test]
fn test_expand_tilde() {
    let completer = PathCompleter::new();
    let expanded = completer.expand_tilde("~/Documents");
    assert!(expanded.contains("Documents"));
    assert!(!expanded.starts_with("~"));
    assert_eq!(completer.expand_tilde("./test"), "./test");
    assert_eq!(completer.expand_tilde("/usr/local"), "/usr/local");
}

#[test]
fn test_expand_tilde_exact() {
    let completer = PathCompleter::new();
    let expanded = completer.expand_tilde("~");
    assert!(!expanded.starts_with("~"));
    assert!(!expanded.is_empty());
}

#[test]
fn one_kind_of_value_per_name() {
    let mut vm = VariableManager::new();
    set_var(&mut vm, "x", "1");
    vm.set_array("x".to_string(), vec!["a".to_string()]).unwrap();
    assert_eq!(vm.get("x"), None);
    set_var(&mut vm, "x", "2");
    assert_eq!(vm.get_array("x"), None);
    assert_eq!(vm.get("x"), Some("2"));
}
