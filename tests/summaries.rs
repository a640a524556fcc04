use rush::context_sync::{extract_json_from_response, format_architecture_updates, format_tech_stack_additions, ArchitectureUpdate, ContextSyncResponse, TechStackAddition};
use rush::test_summary::{extract_number, parse_test_output, TestResults};

#[test]
fn test_parse_output() {
    let output = "test result: ok. 670 passed; 0 failed; 0 ignored; 0 measured; 0 filtered out; finished in 0.89s";
    let results = parse_test_output(output, "").unwrap();
    assert_eq!(results.passed, 670);
    assert_eq!(results.failed, 0);
    assert_eq!(results.ignored, 0);
    assert_eq!(results.filtered_out, 0);
}

#[test]
fn test_parse_output_with_failures() {
    let output = "test result: FAILED. 668 passed; 2 failed; 0 ignored; 0 measured; 0 filtered out";
    let results = parse_test_output(output, "").unwrap();
    assert_eq!(results.passed, 668);
    assert_eq!(results.failed, 2);
}

#[test]
fn summary_found_in_stderr_and_totals() {
    let r = parse_test_output("compiling\n", "running 3 tests\ntest result: ok. 2 passed; 1 failed; 4 ignored; 0 measured; 5 filtered out").unwrap();
    assert_eq!((r.passed, r.failed, r.ignored, r.filtered_out), (2, 1, 4, 5));
    assert_eq!(r.total(), 3);
    let none = parse_test_output("nothing here", "").unwrap();
    assert_eq!(none.passed + none.failed + none.ignored + none.filtered_out, 0);
    let t = TestResults { passed: 4, failed: 6, ignored: 0, filtered_out: 0 };
    assert_eq!(t.total(), 10);
}

#[test]
fn number_before_keyword() {
    assert_eq!(extract_number("a 12 passed", "passed"), 12);
    assert_eq!(extract_number("x passed", "passed"), 0);
    assert_eq!(extract_number("no keyword", "passed"), 0);
}

#[test]
fn test_format_tech_stack_additions() {
    let additions = vec![TechStackAddition {
        name: "tokio".to_string(),
        version: "1.0".to_string(),
        purpose: "async runtime".to_string(),
    }];
    let formatted = format_tech_stack_additions(&additions);
    assert!(formatted.contains("| tokio | 1.0 | async runtime |"));
}

#[test]
fn test_format_architecture_updates() {
    let updates = vec![ArchitectureUpdate {
        component: "MCP Server".to_string(),
        description: "Handles MCP protocol".to_string(),
        location: "src/mcp/".to_string(),
    }];
    let formatted = format_architecture_updates(&updates);
    assert!(formatted.contains("### MCP Server"));
    assert!(formatted.contains("*Location: src/mcp/*"));
}

#[test]
fn formats_join_with_newlines_and_updates_are_detected() {
    let a = TechStackAddition { name: "a".to_string(), version: "1".to_string(), purpose: "x".to_string() };
    let b = TechStackAddition { name: "b".to_string(), version: "2".to_string(), purpose: "y".to_string() };
    assert_eq!(format_tech_stack_additions(&vec![a, b]), "| a | 1 | x |\n| b | 2 | y |");
    assert_eq!(format_tech_stack_additions(&vec![]), "");
    let empty = ContextSyncResponse {
        tech_stack_additions: vec![],
        architecture_updates: vec![],
        key_decisions: vec![],
        recent_change_summary: String::new(),
    };
    assert!(!empty.has_updates());
    let some = ContextSyncResponse { recent_change_summary: "did it".to_string(), ..empty };
    assert!(some.has_updates());
}

#[test]
fn test_extract_json_from_response_raw() {
    let response = r#"{"tech_stack_additions": [], "architecture_updates": [], "key_decisions": [], "recent_change_summary": "test"}"#;
    let json = extract_json_from_response(response);
    assert!(json.starts_with("{"));
    assert!(json.ends_with("}"));
}

#[test]
fn test_extract_json_from_response_code_block() {
    let response = r#"Here's the JSON:

```json
{
  "tech_stack_additions": [],
  "architecture_updates": [],
  "key_decisions": [],
  "recent_change_summary": "test"
}
```"#;
    let json = extract_json_from_response(response);
    assert!(json.contains("tech_stack_additions"));
    assert!(json.contains("recent_change_summary"));
}

#[test]
fn json_extraction_cases() {
    assert_eq!(extract_json_from_response("x ```json\n {\"a\":1} \n``` y"), "{\"a\":1}");
    assert_eq!(extract_json_from_response("```\n[1]\n```"), "[1]");
    assert_eq!(extract_json_from_response("say {x} and {y} ok"), "{x} and {y}");
    assert_eq!(extract_json_from_response("} no object {"), "} no object {");
    assert_eq!(extract_json_from_response("plain"), "plain");
}
