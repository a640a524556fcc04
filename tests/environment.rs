use rush::environment::EnvironmentManager;
use rush::names::is_valid_variable_name;

fn inherited() -> EnvironmentManager {
    let vars = vec![
        ("PATH".to_string(), "/usr/local/bin:/usr/bin:/bin".to_string()),
        ("HOME".to_string(), "/home/user".to_string()),
        ("SHELL".to_string(), "/bin/rush".to_string()),
    ];
    EnvironmentManager::from_vars(vars)
}

#[test]
fn test_environment_manager_new() {
    let env = inherited();
    assert!(env.get("PATH").is_some() || env.get("HOME").is_some());
}

#[test]
fn test_environment_manager_default() {
    let env = inherited();
    assert!(!env.is_empty());
}

#[test]
fn test_get_existing_variable() {
    let env = inherited();
    if let Some(path) = env.get("PATH") {
        assert!(!path.is_empty());
    }
}

#[test]
fn test_get_nonexistent_variable() {
    let env = inherited();
    assert!(env.get("THIS_VAR_DOES_NOT_EXIST_12345").is_none());
}

#[test]
fn test_set_valid_variable() {
    let mut env = inherited();
    let result = env.set("MY_TEST_VAR".to_string(), "test_value".to_string());
    assert!(result.is_ok());
    assert_eq!(env.get("MY_TEST_VAR"), Some("test_value"));
}

#[test]
fn test_set_empty_name() {
    let mut env = inherited();
    let result = env.set("".to_string(), "value".to_string());
    assert!(result.is_err());
    assert!(result.unwrap_err().message().contains("cannot be empty"));
}

#[test]
fn test_set_invalid_name_starts_with_number() {
    let mut env = inherited();
    let result = env.set("123VAR".to_string(), "value".to_string());
    assert!(result.is_err());
    assert!(result.unwrap_err().message().contains("Invalid variable name"));
}

#[test]
fn test_set_invalid_name_with_dash() {
    let mut env = inherited();
    let result = env.set("MY-VAR".to_string(), "value".to_string());
    assert!(result.is_err());
}

#[test]
fn test_set_valid_name_with_underscore() {
    let mut env = inherited();
    let result = env.set("_MY_VAR".to_string(), "value".to_string());
    assert!(result.is_ok());
    assert_eq!(env.get("_MY_VAR"), Some("value"));
}

#[test]
fn test_set_valid_name_with_numbers() {
    let mut env = inherited();
    let result = env.set("VAR123".to_string(), "value".to_string());
    assert!(result.is_ok());
}

#[test]
fn test_set_overwrites_existing() {
    let mut env = inherited();
    env.set("TEST_VAR".to_string(), "old".to_string()).unwrap();
    env.set("TEST_VAR".to_string(), "new".to_string()).unwrap();
    assert_eq!(env.get("TEST_VAR"), Some("new"));
}

#[test]
fn test_remove_existing() {
    let mut env = inherited();
    env.set("TO_REMOVE".to_string(), "value".to_string()).unwrap();
    let removed = env.remove("TO_REMOVE");
    assert_eq!(removed, Some("value".to_string()));
    assert!(env.get("TO_REMOVE").is_none());
}

#[test]
fn environment_test_remove_nonexistent() {
    let mut env = inherited();
    let removed = env.remove("NONEXISTENT_VAR");
    assert!(removed.is_none());
}

#[test]
fn test_iter() {
    let mut env = inherited();
    env.set("ITER_TEST".to_string(), "value".to_string()).unwrap();
    let found = env.iter().iter().any(|(k, v)| k == "ITER_TEST" && v == "value");
    assert!(found);
}

#[test]
fn test_as_env_map() {
    let mut env = inherited();
    env.set("MAP_TEST".to_string(), "value".to_string()).unwrap();
    let map = env.as_env_map();
    let got = map.iter().find(|(k, _)| k == "MAP_TEST").map(|(_, v)| v);
    assert_eq!(got, Some(&"value".to_string()));
}

#[test]
fn test_len() {
    let mut env = inherited();
    let initial_len = env.len();
    env.set("NEW_VAR".to_string(), "value".to_string()).unwrap();
    assert_eq!(env.len(), initial_len + 1);
}

#[test]
fn test_is_empty() {
    let env = inherited();
    assert!(!env.is_empty());
}

#[test]
fn environment_test_valid_names() {
    assert!(is_valid_variable_name("HOME"));
    assert!(is_valid_variable_name("PATH"));
    assert!(is_valid_variable_name("_private"));
    assert!(is_valid_variable_name("VAR_123"));
    assert!(is_valid_variable_name("a"));
    assert!(is_valid_variable_name("A"));
    assert!(is_valid_variable_name("_"));
    assert!(is_valid_variable_name("__"));
    assert!(is_valid_variable_name("var123"));
}

#[test]
fn environment_test_invalid_names() {
    assert!(!is_valid_variable_name(""));
    assert!(!is_valid_variable_name("123"));
    assert!(!is_valid_variable_name("123var"));
    assert!(!is_valid_variable_name("-foo"));
    assert!(!is_valid_variable_name("var-name"));
    assert!(!is_valid_variable_name("foo.bar"));
    assert!(!is_valid_variable_name("foo bar"));
    assert!(!is_valid_variable_name("$VAR"));
}

#[test]
fn from_vars_later_pair_wins() {
    let env = EnvironmentManager::from_vars(vec![
        ("A".to_string(), "1".to_string()),
        ("A".to_string(), "2".to_string()),
    ]);
    assert_eq!(env.len(), 1);
    assert_eq!(env.get("A"), Some("2"));
}
