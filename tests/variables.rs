use rush::variables::VariableManager;

#[test]
fn test_set_and_get() {
    let mut vm = VariableManager::new();
    vm.set("name".to_string(), "value".to_string()).unwrap();
    assert_eq!(vm.get("name"), Some("value"));
}

#[test]
fn test_get_nonexistent() {
    let vm = VariableManager::new();
    assert_eq!(vm.get("nonexistent"), None);
}

#[test]
fn test_remove() {
    let mut vm = VariableManager::new();
    vm.set("name".to_string(), "value".to_string()).unwrap();
    assert!(vm.remove("name"));
    assert_eq!(vm.get("name"), None);
}

#[test]
fn variables_test_remove_nonexistent() {
    let mut vm = VariableManager::new();
    assert!(!vm.remove("nonexistent"));
}

#[test]
fn test_export() {
    let mut vm = VariableManager::new();
    vm.set("name".to_string(), "value".to_string()).unwrap();
    vm.export("name").unwrap();
    assert!(vm.is_exported("name"));
}

#[test]
fn test_export_nonexistent() {
    let mut vm = VariableManager::new();
    assert!(vm.export("nonexistent").is_err());
}

#[test]
fn test_list() {
    let mut vm = VariableManager::new();
    vm.set("alpha".to_string(), "1".to_string()).unwrap();
    vm.set("beta".to_string(), "2".to_string()).unwrap();
    vm.set("gamma".to_string(), "3".to_string()).unwrap();
    let list = vm.list();
    assert_eq!(list.len(), 3);
    assert_eq!(list[0].0, "alpha");
    assert_eq!(list[1].0, "beta");
    assert_eq!(list[2].0, "gamma");
}

#[test]
fn test_list_exported() {
    let mut vm = VariableManager::new();
    vm.set("local".to_string(), "1".to_string()).unwrap();
    vm.set("exported".to_string(), "2".to_string()).unwrap();
    vm.export("exported").unwrap();
    let exported = vm.list_exported();
    assert_eq!(exported.len(), 1);
    assert_eq!(exported[0].0, "exported");
}

#[test]
fn variables_test_invalid_names() {
    let mut vm = VariableManager::new();
    assert!(vm.set("1name".to_string(), "value".to_string()).is_err());
    assert!(vm.set("my-var".to_string(), "value".to_string()).is_err());
    assert!(vm.set("my var".to_string(), "value".to_string()).is_err());
}

#[test]
fn variables_test_valid_names() {
    let mut vm = VariableManager::new();
    assert!(vm.set("name".to_string(), "value".to_string()).is_ok());
    assert!(vm.set("_private".to_string(), "value".to_string()).is_ok());
    assert!(vm.set("var123".to_string(), "value".to_string()).is_ok());
    assert!(vm.set("MYVAR".to_string(), "value".to_string()).is_ok());
}

#[test]
fn test_update_variable() {
    let mut vm = VariableManager::new();
    vm.set("name".to_string(), "value1".to_string()).unwrap();
    assert_eq!(vm.get("name"), Some("value1"));
    vm.set("name".to_string(), "value2".to_string()).unwrap();
    assert_eq!(vm.get("name"), Some("value2"));
}

#[test]
fn test_remove_exported_variable() {
    let mut vm = VariableManager::new();
    vm.set("name".to_string(), "value".to_string()).unwrap();
    vm.export("name").unwrap();
    assert!(vm.is_exported("name"));
    vm.remove("name");
    assert!(!vm.is_exported("name"));
    assert_eq!(vm.get("name"), None);
}

#[test]
fn test_len_and_is_empty() {
    let mut vm = VariableManager::new();
    assert!(vm.is_empty());
    assert_eq!(vm.len(), 0);
    vm.set("name".to_string(), "value".to_string()).unwrap();
    assert!(!vm.is_empty());
    assert_eq!(vm.len(), 1);
    vm.remove("name");
    assert!(vm.is_empty());
    assert_eq!(vm.len(), 0);
}

#[test]
fn export_var_sets_and_exports() {
    let mut vm = VariableManager::new();
    vm.export_var("X".to_string(), "hello world".to_string()).unwrap();
    assert_eq!(vm.get("X"), Some("hello world"));
    assert!(vm.is_exported("X"));
}

#[test]
fn invalid_names_leave_store_unchanged() {
    let mut vm = VariableManager::new();
    vm.set("keep".to_string(), "1".to_string()).unwrap();
    for bad in ["", "9lives", "a-b", "a b"] {
        assert!(vm.set(bad.to_string(), "v".to_string()).is_err());
        assert!(vm.export_var(bad.to_string(), "v".to_string()).is_err());
    }
    assert_eq!(vm.len(), 1);
    assert_eq!(vm.get("keep"), Some("1"));
    assert!(!vm.is_exported("keep"));
}

#[test]
fn arrays_are_indexed_and_listed() {
    let mut vm = VariableManager::new();
    vm.set_array("arr".to_string(), vec!["a".to_string(), "b".to_string()]).unwrap();
    assert_eq!(vm.array_get("arr", 1), Some("b"));
    assert_eq!(vm.array_get("arr", 2), None);
    assert_eq!(vm.get_array("arr").map(|a| a.len()), Some(2));
    assert!(vm.set_array("1x".to_string(), vec![]).is_err());
    assert!(vm.remove("arr"));
    assert_eq!(vm.get_array("arr"), None);
}

#[test]
fn list_is_sorted_by_code_point() {
    let mut vm = VariableManager::new();
    vm.set("b".to_string(), "2".to_string()).unwrap();
    vm.set("B".to_string(), "1".to_string()).unwrap();
    vm.set("a".to_string(), "3".to_string()).unwrap();
    let names: Vec<String> = vm.list().into_iter().map(|(k, _)| k).collect();
    assert_eq!(names, vec!["B", "a", "b"]);
}
