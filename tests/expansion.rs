use rush::expansion::{expand_into, expand_variables, expand_variables_mut};
use rush::variables::VariableManager;

fn vars() -> VariableManager {
    VariableManager::new()
}

fn with(pairs: &[(&str, &str)]) -> VariableManager {
    let mut vm = VariableManager::new();
    for (k, v) in pairs {
        vm.set(k.to_string(), v.to_string()).unwrap();
    }
    vm
}

fn with_array(name: &str, items: &[&str]) -> VariableManager {
    let mut vm = VariableManager::new();
    vm.set_array(name.to_string(), items.iter().map(|s| s.to_string()).collect()).unwrap();
    vm
}

const PID: u32 = 4242;

#[test]
fn test_no_expansion() {
    assert_eq!(expand_variables("echo hello world", &vars(), 0, PID), "echo hello world");
}

#[test]
fn test_simple_variable() {
    assert_eq!(expand_variables("echo $greeting", &with(&[("greeting", "hello")]), 0, PID), "echo hello");
}

#[test]
fn test_variable_with_braces() {
    assert_eq!(expand_variables("echo ${name}!", &with(&[("name", "world")]), 0, PID), "echo world!");
}

#[test]
fn test_multiple_variables() {
    let vm = with(&[("first", "hello"), ("second", "world")]);
    assert_eq!(expand_variables("echo $first $second", &vm, 0, PID), "echo hello world");
}

#[test]
fn test_nonexistent_variable() {
    assert_eq!(expand_variables("echo $nonexistent", &vars(), 0, PID), "echo ");
}

#[test]
fn test_escaped_dollar() {
    assert_eq!(expand_variables("echo \\$var", &vars(), 0, PID), "echo $var");
}

#[test]
fn test_special_variable_pid() {
    let result = expand_variables("echo $$", &vars(), 0, PID);
    assert!(result.starts_with("echo "));
    let pid_str = &result[5..];
    assert!(!pid_str.is_empty());
    assert!(pid_str.chars().all(|c| c.is_numeric()));
    assert_eq!(pid_str, "4242");
}

#[test]
fn test_special_variable_exit_code() {
    assert_eq!(expand_variables("echo $?", &vars(), 42, PID), "echo 42");
}

#[test]
fn test_special_variable_shell_name() {
    assert_eq!(expand_variables("echo $0", &vars(), 0, PID), "echo rush");
}

#[test]
fn test_special_variable_arg_count() {
    assert_eq!(expand_variables("echo $#", &vars(), 0, PID), "echo 0");
}

#[test]
fn test_dollar_at_end() {
    assert_eq!(expand_variables("echo $", &vars(), 0, PID), "echo $");
}

#[test]
fn test_variable_adjacent_text() {
    let vm = with(&[("VAR", "value")]);
    assert_eq!(expand_variables("test$VARmore", &vm, 0, PID), "test");
    assert_eq!(expand_variables("test${VAR}more", &vm, 0, PID), "testvaluemore");
}

#[test]
fn test_variable_with_underscore() {
    assert_eq!(expand_variables("echo $MY_VAR", &with(&[("MY_VAR", "test")]), 0, PID), "echo test");
}

#[test]
fn test_unclosed_braces() {
    assert_eq!(expand_variables("echo ${incomplete", &vars(), 0, PID), "echo ");
}

#[test]
fn test_empty_variable_name() {
    assert_eq!(expand_variables("echo ${}", &vars(), 0, PID), "echo ");
}

#[test]
fn test_array_index_zero() {
    let vm = with_array("arr", &["first", "second", "third"]);
    assert_eq!(expand_variables("echo ${arr[0]}", &vm, 0, PID), "echo first");
}

#[test]
fn test_array_index_nonzero() {
    let vm = with_array("arr", &["a", "b", "c"]);
    assert_eq!(expand_variables("echo ${arr[2]}", &vm, 0, PID), "echo c");
}

#[test]
fn test_array_index_out_of_bounds() {
    let vm = with_array("arr", &["only"]);
    assert_eq!(expand_variables("echo ${arr[99]}", &vm, 0, PID), "echo ");
}

#[test]
fn test_array_all_words() {
    let vm = with_array("arr", &["one", "two", "three"]);
    assert_eq!(expand_variables("echo ${arr[@]}", &vm, 0, PID), "echo one two three");
}

#[test]
fn test_array_all_as_one() {
    let vm = with_array("arr", &["one", "two", "three"]);
    assert_eq!(expand_variables("echo ${arr[*]}", &vm, 0, PID), "echo one two three");
}

#[test]
fn test_array_nonexistent() {
    assert_eq!(expand_variables("echo ${nonexistent[@]}", &vars(), 0, PID), "echo ");
}

#[test]
fn test_array_empty() {
    let vm = with_array("arr", &[]);
    assert_eq!(expand_variables("echo ${arr[@]}", &vm, 0, PID), "echo ");
}

#[test]
fn test_array_single_element() {
    let vm = with_array("arr", &["single"]);
    assert_eq!(expand_variables("echo ${arr[@]}", &vm, 0, PID), "echo single");
}

#[test]
fn test_array_mixed_with_regular_vars() {
    let mut vm = with(&[("prefix", "PREFIX"), ("suffix", "SUFFIX")]);
    vm.set_array("arr".to_string(), vec!["a".to_string(), "b".to_string()]).unwrap();
    assert_eq!(expand_variables("${prefix} ${arr[@]} ${suffix}", &vm, 0, PID), "PREFIX a b SUFFIX");
}

#[test]
fn test_array_with_spaces_in_elements() {
    let vm = with_array("arr", &["hello world", "foo bar"]);
    assert_eq!(expand_variables("echo ${arr[@]}", &vm, 0, PID), "echo hello world foo bar");
}

#[test]
fn test_multiple_array_refs() {
    let vm = with_array("arr", &["x", "y", "z"]);
    assert_eq!(expand_variables("${arr[0]}+${arr[1]}+${arr[2]}", &vm, 0, PID), "x+y+z");
}

#[test]
fn test_default_value_unset() {
    assert_eq!(expand_variables("echo ${unset:-default}", &vars(), 0, PID), "echo default");
}

#[test]
fn test_default_value_set() {
    assert_eq!(expand_variables("echo ${var:-default}", &with(&[("var", "value")]), 0, PID), "echo value");
}

#[test]
fn test_default_value_empty() {
    assert_eq!(expand_variables("echo ${var:-default}", &with(&[("var", "")]), 0, PID), "echo default");
}

#[test]
fn test_default_no_colon_empty() {
    assert_eq!(expand_variables("echo ${var-default}", &with(&[("var", "")]), 0, PID), "echo ");
}

#[test]
fn test_assign_default_unset() {
    let mut vm = vars();
    let result = expand_variables_mut("echo ${newvar:=assigned}", &mut vm, 0, PID);
    assert_eq!(result, "echo assigned");
    assert_eq!(vm.get("newvar"), Some("assigned"));
}

#[test]
fn test_assign_default_set() {
    let mut vm = with(&[("var", "existing")]);
    let result = expand_variables_mut("echo ${var:=ignored}", &mut vm, 0, PID);
    assert_eq!(result, "echo existing");
    assert_eq!(vm.get("var"), Some("existing"));
}

#[test]
fn test_alternate_value_set() {
    assert_eq!(expand_variables("echo ${var:+alternate}", &with(&[("var", "value")]), 0, PID), "echo alternate");
}

#[test]
fn test_alternate_value_unset() {
    assert_eq!(expand_variables("echo ${unset:+alternate}", &vars(), 0, PID), "echo ");
}

#[test]
fn test_string_length() {
    assert_eq!(expand_variables("echo ${#var}", &with(&[("var", "hello")]), 0, PID), "echo 5");
}

#[test]
fn test_string_length_empty() {
    assert_eq!(expand_variables("echo ${#var}", &with(&[("var", "")]), 0, PID), "echo 0");
}

#[test]
fn test_string_length_unset() {
    assert_eq!(expand_variables("echo ${#unset}", &vars(), 0, PID), "echo 0");
}

#[test]
fn test_substring_from_offset() {
    assert_eq!(expand_variables("echo ${var:6}", &with(&[("var", "hello world")]), 0, PID), "echo world");
}

#[test]
fn test_substring_with_length() {
    assert_eq!(expand_variables("echo ${var:0:5}", &with(&[("var", "hello world")]), 0, PID), "echo hello");
}

#[test]
fn test_substring_negative_offset() {
    assert_eq!(expand_variables("echo ${var:6:5}", &with(&[("var", "hello world")]), 0, PID), "echo world");
}

#[test]
fn test_error_if_unset() {
    assert_eq!(expand_variables("echo ${unset:?variable not set}", &vars(), 0, PID), "echo ");
}

#[test]
fn test_error_if_set() {
    assert_eq!(expand_variables("echo ${var:?should not appear}", &with(&[("var", "value")]), 0, PID), "echo value");
}

#[test]
fn test_multiple_param_expansions() {
    assert_eq!(expand_variables("${greeting:-hello} ${name}!", &with(&[("name", "world")]), 0, PID), "hello world!");
}

#[test]
fn test_nested_default_values() {
    assert_eq!(expand_variables("${a:-${b:-final}}", &vars(), 0, PID), "${b:-final}");
}

#[test]
fn error_forms_report_their_message() {
    let mut vm = vars();
    let out = expand_into("a${u:?gone}b${v?}", &mut vm, 0, PID, true, true);
    assert_eq!(out.text, "ab");
    assert_eq!(out.errors, vec!["u: gone".to_string(), "v: parameter null or not set".to_string()]);
}

#[test]
fn length_counts_utf8_bytes() {
    assert_eq!(expand_variables("${#v}", &with(&[("v", "héllo")]), 0, PID), "6");
    assert_eq!(expand_variables("${#v}", &with(&[("v", "日本")]), 0, PID), "6");
}

#[test]
fn negative_exit_code_and_plus_forms() {
    assert_eq!(expand_variables("$?", &vars(), -3, PID), "-3");
    assert_eq!(expand_variables("${v+set}|${u+set}", &with(&[("v", "")]), 0, PID), "set|");
    assert_eq!(expand_variables("${v=x}", &with(&[("v", "")]), 0, PID), "");
}

#[test]
fn substring_clamps_past_the_end() {
    let vm = with(&[("v", "abc")]);
    assert_eq!(expand_variables("${v:10}", &vm, 0, PID), "");
    assert_eq!(expand_variables("${v:1:100}", &vm, 0, PID), "bc");
}

#[test]
fn defaults_and_length_scenario() {
    let vm = with(&[("X", "foo")]);
    assert_eq!(expand_variables("echo ${X:-bar} ${Y:-bar} ${#X}", &vm, 0, PID), "echo foo bar 3");
}

#[test]
fn assignment_is_seen_later_in_the_same_text() {
    let mut vm = vars();
    assert_eq!(expand_variables_mut("${x:=1}-$x", &mut vm, 0, PID), "1-1");
    let vm2 = vars();
    assert_eq!(expand_variables("${x:=1}-$x", &vm2, 0, PID), "1-");
}

#[test]
fn negative_length_counts_from_the_end() {
    let vm = with(&[("v", "abc")]);
    assert_eq!(expand_variables("${v:1:-1}", &vm, 0, PID), "b");
    assert_eq!(expand_variables("${v:0:-2}", &vm, 0, PID), "a");
    assert_eq!(expand_variables("${v:-2}", &vm, 0, PID), "abc");
    assert_eq!(expand_variables("${u:-2}", &vm, 0, PID), "2");
}

#[test]
fn single_quotes_keep_text() {
    let vm = with(&[("HOME", "/h"), ("X", "x")]);
    assert_eq!(expand_variables("'$HOME'", &vm, 0, PID), "'$HOME'");
    assert_eq!(expand_variables("echo '$X' \"$X\" $X", &vm, 0, PID), "echo '$X' \"x\" x");
    assert_eq!(expand_variables("\"it's $X\"", &vm, 0, PID), "\"it's x\"");
    assert_eq!(expand_variables("a\\'$X", &vm, 0, PID), "a\\'x");
    assert_eq!(expand_variables("'open $X", &vm, 0, PID), "'open $X");
    let mut vm2 = vars();
    assert_eq!(expand_variables_mut("'${y:=1}'$y", &mut vm2, 0, PID), "'${y:=1}'");
    assert_eq!(vm2.get("y"), None);
}

#[test]
fn blank_before_offset_reads_a_negative_offset() {
    let vm = with(&[("v", "hello")]);
    assert_eq!(expand_variables("${v: -2}", &vm, 0, PID), "lo");
    assert_eq!(expand_variables("${v:1: -1}", &vm, 0, PID), "ell");
}
