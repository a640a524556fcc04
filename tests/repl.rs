use rush::builtins::{builtin_of, cd_target, echo_output, exec_candidates, exit_code_arg, job_id_arg, run_export, run_set, runs_in_shell, Builtin};
use rush::repl::{Config, ReadResult, Repl, ReplAction};
use rush::variables::VariableManager;

fn strings(v: &[&str]) -> Vec<String> {
    v.iter().map(|s| s.to_string()).collect()
}

#[test]
fn test_repl_initialization() {
    let repl = Repl::new();
    assert!(repl.is_ok(), "REPL should initialize successfully");
}

#[test]
fn test_repl_with_custom_config() {
    let mut config = Config::default();
    config.history_size = 5000;
    config.prompt = ">> ".to_string();
    let repl = Repl::with_config(config);
    assert!(repl.is_ok(), "REPL should initialize with custom config");
}

#[test]
fn test_config_default_values() {
    let config = Config::default();
    assert_eq!(config.history_size, 10_000);
    assert_eq!(config.prompt, "$ ");
    assert_eq!(config.completion_timeout_ms, 100);
    assert_eq!(config.suggestion_delay_ms, 50);
}

#[test]
fn test_config_custom_values() {
    let mut config = Config::default();
    config.history_size = 50_000;
    config.prompt = "λ ".to_string();
    config.completion_timeout_ms = 200;
    config.suggestion_delay_ms = 100;
    assert_eq!(config.history_size, 50_000);
    assert_eq!(config.prompt, "λ ");
    assert_eq!(config.completion_timeout_ms, 200);
    assert_eq!(config.suggestion_delay_ms, 100);
}

#[test]
fn test_config_load_creates_directories() {
    let config = Config::load();
    assert_eq!(config.history_size, 10_000);
}

#[test]
fn blank_line_changes_nothing() {
    let mut r = Repl::new().unwrap();
    r.finish(7);
    assert!(matches!(r.step(ReadResult::Line("   ".to_string())), ReplAction::Prompt));
    assert!(matches!(r.step(ReadResult::Line(String::new())), ReplAction::Prompt));
    assert_eq!(r.last_exit_code(), 7);
    assert!(r.history().is_empty());
}

#[test]
fn interrupt_keeps_exit_code() {
    let mut r = Repl::new().unwrap();
    r.finish(3);
    assert!(matches!(r.step(ReadResult::Interrupt), ReplAction::Prompt));
    assert_eq!(r.last_exit_code(), 3);
}

#[test]
fn eof_exits_zero_and_parse_error_sets_two() {
    let mut r = Repl::new().unwrap();
    assert!(matches!(r.step(ReadResult::Eof), ReplAction::Exit(0)));
    assert!(matches!(r.step(ReadResult::Line("cmd & cmd2".to_string())), ReplAction::ParseError(_)));
    assert_eq!(r.last_exit_code(), 2);
    assert!(r.history().is_empty());
}

#[test]
fn accepted_line_goes_to_history() {
    let mut r = Repl::new().unwrap();
    match r.step(ReadResult::Line("echo a | cat".to_string())) {
        ReplAction::Execute(p) => assert_eq!(p.commands.len(), 2),
        _ => panic!("expected a pipeline"),
    }
    assert_eq!(r.history(), &vec!["echo a | cat".to_string()]);
    r.finish(0);
    assert_eq!(r.last_exit_code(), 0);
}

#[test]
fn history_is_capacity_bounded() {
    let mut config = Config::default();
    config.history_size = 2;
    let mut r = Repl::with_config(config).unwrap();
    for l in ["a", "b", "c"] {
        r.step(ReadResult::Line(l.to_string()));
    }
    assert_eq!(r.history(), &vec!["b".to_string(), "c".to_string()]);
}

#[test]
fn inherited_environment_is_exported() {
    let mut r = Repl::new().unwrap();
    r.inherit_environment(&vec![("HOME".to_string(), "/h".to_string()), ("BAD-NAME".to_string(), "x".to_string())]);
    assert_eq!(r.vars.get("HOME"), Some("/h"));
    assert!(r.vars.is_exported("HOME"));
    assert_eq!(r.vars.get("BAD-NAME"), None);
}

#[test]
fn builtin_names() {
    assert_eq!(builtin_of("cd"), Some(Builtin::Cd));
    assert_eq!(builtin_of("set"), Some(Builtin::ShowVars));
    assert_eq!(builtin_of("pwd"), Some(Builtin::Pwd));
    assert_eq!(builtin_of("ls"), None);
}

#[test]
fn echo_joins_with_spaces() {
    assert_eq!(echo_output(&strings(&["echo", "a", "b"])), "a b\n");
    assert_eq!(echo_output(&strings(&["echo"])), "\n");
}

#[test]
fn test_set_sorted_output() {
    let mut vm = VariableManager::new();
    vm.set("ZEBRA".to_string(), "z".to_string()).unwrap();
    vm.set("APPLE".to_string(), "a".to_string()).unwrap();
    vm.set("MANGO".to_string(), "m".to_string()).unwrap();
    let out = run_set(&vm);
    let names: Vec<&str> = out.stdout.iter().map(|l| l.split('=').next().unwrap()).collect();
    let apple_idx = names.iter().position(|&n| n == "APPLE").unwrap();
    let mango_idx = names.iter().position(|&n| n == "MANGO").unwrap();
    let zebra_idx = names.iter().position(|&n| n == "ZEBRA").unwrap();
    assert!(apple_idx < mango_idx);
    assert!(mango_idx < zebra_idx);
    assert_eq!(out.code, 0);
}

#[test]
fn export_builtin_sets_lists_and_rejects() {
    let mut vm = VariableManager::new();
    let out = run_export(&mut vm, &strings(&["export", "A=1=2", "B=", "bad-name=x"]));
    assert_eq!(out.code, 1);
    assert_eq!(vm.get("A"), Some("1=2"));
    assert_eq!(vm.get("B"), Some(""));
    assert!(vm.is_exported("A"));
    assert_eq!(vm.get("bad-name"), None);
    vm.set("LOCAL".to_string(), "l".to_string()).unwrap();
    let list = run_export(&mut vm, &strings(&["export"]));
    assert_eq!(list.stdout, vec!["A=1=2".to_string(), "B=".to_string()]);
    assert_eq!(run_export(&mut vm, &strings(&["export", "MISSING"])).code, 1);
}

#[test]
fn exit_and_cd_and_job_arguments() {
    assert_eq!(exit_code_arg(&strings(&["exit"]), 5), Some(5));
    assert_eq!(exit_code_arg(&strings(&["exit", "3"]), 5), Some(3));
    assert_eq!(exit_code_arg(&strings(&["exit", "x"]), 5), None);
    let mut vm = VariableManager::new();
    assert_eq!(cd_target(&strings(&["cd"]), &vm), None);
    vm.set("HOME".to_string(), "/home/u".to_string()).unwrap();
    assert_eq!(cd_target(&strings(&["cd"]), &vm), Some("/home/u".to_string()));
    assert_eq!(cd_target(&strings(&["cd", "/tmp"]), &vm), Some("/tmp".to_string()));
    assert_eq!(job_id_arg(&strings(&["fg", "%2"]), Some(5)).unwrap(), 2);
    assert_eq!(job_id_arg(&strings(&["fg"]), Some(5)).unwrap(), 5);
    assert!(job_id_arg(&strings(&["fg"]), None).is_err());
    assert!(job_id_arg(&strings(&["fg", "x"]), None).is_err());
}

#[test]
fn path_search_order() {
    assert_eq!(exec_candidates("ls", "/usr/bin:/bin"), vec!["/usr/bin/ls", "/bin/ls"]);
    assert_eq!(exec_candidates("ls", "/a::/b"), vec!["/a/ls", "./ls", "/b/ls"]);
    assert_eq!(exec_candidates("./run.sh", "/usr/bin"), vec!["./run.sh"]);
}

#[test]
fn only_lone_foreground_builtins_run_in_the_shell() {
    assert_eq!(runs_in_shell("cd", 1, false), Some(Builtin::Cd));
    assert_eq!(runs_in_shell("cd", 1, true), None);
    assert_eq!(runs_in_shell("echo", 3, false), None);
    assert_eq!(runs_in_shell("ls", 1, false), None);
}

#[test]
fn export_arguments_apply_in_order() {
    let mut vm = VariableManager::new();
    let out = run_export(&mut vm, &strings(&["export", "A=1", "A=2", "B"]));
    assert_eq!(out.code, 1);
    assert_eq!(vm.get("A"), Some("2"));
    assert_eq!(out.stderr.len(), 1);
}

#[test]
fn later_environment_pair_wins_and_others_stay() {
    let mut r = Repl::new().unwrap();
    r.vars.set("KEEP".to_string(), "k".to_string()).unwrap();
    r.inherit_environment(&vec![("A".to_string(), "1".to_string()), ("A".to_string(), "2".to_string())]);
    assert_eq!(r.vars.get("A"), Some("2"));
    assert_eq!(r.vars.get("KEEP"), Some("k"));
    assert!(!r.vars.is_exported("KEEP"));
}
