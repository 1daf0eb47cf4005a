use tessy::config::{TaskRegistry, TaskRegistryCreationError};
use tessy::tasks::{BaseTask, ExecuteTask, Task};
use tessy::yaml::YamlNode;

fn ids(config: &TaskRegistry) -> Vec<String> {
    config.get_tasks_iter().iter().map(|t| t.id()).collect()
}

#[test]
fn config_returns_error_on_invalid_yaml() {
    let invalid_yaml = "invalid: yaml: content: [unclosed";
    let result = TaskRegistry::try_from(invalid_yaml);
    assert!(result.is_err());
    assert!(matches!(result, Err(TaskRegistryCreationError::ParseError { .. })));
}

#[test]
fn config_returns_error_on_empty_file() {
    let empty_content = "";
    let result = TaskRegistry::try_from(empty_content);
    assert!(result.is_err());
    assert!(matches!(result, Err(TaskRegistryCreationError::MalformedConfig)));
}

#[test]
fn config_returns_error_when_top_level_is_not_map() {
    let yaml_with_list_top_level = "- item1\n- item2";
    let result = TaskRegistry::try_from(yaml_with_list_top_level);
    assert!(result.is_err());
    assert!(matches!(result, Err(TaskRegistryCreationError::TopLevelNotMap)));
}

#[test]
fn config_returns_error_when_top_level_is_scalar() {
    let yaml_with_scalar_top_level = "just a string";
    let result = TaskRegistry::try_from(yaml_with_scalar_top_level);
    assert!(result.is_err());
    assert!(matches!(result, Err(TaskRegistryCreationError::TopLevelNotMap)));
}

#[test]
fn config_returns_error_when_tasks_is_not_map() {
    let yaml_with_invalid_tasks = "tasks:\n  - invalid_task_format";
    let result = TaskRegistry::try_from(yaml_with_invalid_tasks);
    assert!(result.is_err());
    assert!(matches!(result, Err(TaskRegistryCreationError::TasksNotMap)));
}

#[test]
fn config_handles_empty_tasks_section() {
    let yaml_with_empty_tasks = "tasks: {}";
    let result = TaskRegistry::try_from(yaml_with_empty_tasks);
    assert!(result.is_ok());
    let config = result.unwrap();
    assert!(config.get_tasks_iter().is_empty());
}

#[test]
fn config_handles_missing_tasks_section() {
    let yaml_without_tasks = "other_config: value";
    let result = TaskRegistry::try_from(yaml_without_tasks);
    assert!(result.is_ok());
    let config = result.unwrap();
    assert!(config.get_tasks_iter().is_empty());
}

#[test]
fn config_skips_invalid_task_entries() {
    let yaml_with_mixed_entries = r#"
tasks:
  123: "invalid numeric key"
  valid_task:
    command: "echo hello"
  "another_invalid": "string value instead of map"
"#;
    let result = TaskRegistry::try_from(yaml_with_mixed_entries);
    assert!(result.is_ok());
    let config = result.unwrap();
    assert_eq!(ids(&config), vec!["valid_task".to_string()]);
    assert!(config.get_task_by_id("valid_task").is_some());
    assert!(config.get_task_by_id("another_invalid").is_none());
}

#[test]
fn config_handles_deeply_nested_invalid_structure() {
    let yaml_with_complex_invalid = r#"
tasks:
  nested:
    - invalid:
      - more: nesting
        even: deeper
"#;
    let result = TaskRegistry::try_from(yaml_with_complex_invalid);
    assert!(result.is_ok());
    assert!(result.unwrap().get_tasks_iter().is_empty());
}

#[test]
fn config_handles_null_values() {
    let yaml_with_nulls = r#"
tasks:
  null_task: null
  empty_task: {}
"#;
    let result = TaskRegistry::try_from(yaml_with_nulls);
    assert!(result.is_ok());
    assert!(result.unwrap().get_tasks_iter().is_empty());
}

#[test]
fn config_handles_very_large_task_names() {
    let long_task_name = "a".repeat(1000);
    let yaml_with_long_name = format!("tasks:\n  {}:\n    command: \"echo test\"", long_task_name);
    let result = TaskRegistry::try_from(yaml_with_long_name.as_str());
    assert!(result.is_ok());
    assert_eq!(ids(&result.unwrap()), vec![long_task_name]);
}

#[test]
fn config_handles_special_characters_in_task_names() {
    let yaml_with_special_chars = r#"
tasks:
  "task-with-dashes":
    command: "echo dash"
  "task_with_underscores":
    command: "echo underscore"
  "task.with.dots":
    command: "echo dots"
  "task with spaces":
    command: "echo spaces"
"#;
    let result = TaskRegistry::try_from(yaml_with_special_chars);
    assert!(result.is_ok());
    assert_eq!(
        ids(&result.unwrap()),
        vec!["task-with-dashes", "task_with_underscores", "task.with.dots", "task with spaces"]
    );
}

#[test]
fn config_handles_unicode_in_task_names() {
    let yaml_with_unicode = r#"
tasks:
  "тест":
    command: "echo unicode"
  "🚀rocket":
    command: "echo emoji"
"#;
    let result = TaskRegistry::try_from(yaml_with_unicode);
    assert!(result.is_ok());
    assert_eq!(ids(&result.unwrap()), vec!["тест", "🚀rocket"]);
}

#[test]
fn catalog_file_is_read_in_full() {
    let text = r#"
tasks:
  compile:
    type: execute
    command: "cc -c main.c"
    inputs: [main.c, 7, include]
  link:
    command: "cc -o app main.o"
    dependsOn: [compile, 1.5, compile]
  docs:
    type: render
    command: "render docs"
  no_command:
    dependsOn: [compile]
  typed_oddly:
    type: 3
    command: "true"
"#;
    let config = TaskRegistry::try_from(text).expect("a catalog");
    assert_eq!(ids(&config), vec!["compile", "link", "typed_oddly"]);
    match config.get_task_by_id("compile").unwrap() {
        Task::Execute(task) => {
            assert_eq!(task.command(), "cc -c main.c");
            assert_eq!(task.inputs(), &vec!["main.c", "include"]);
            assert!(task.dependencies().is_empty());
        }
    }
    match config.get_task_by_id("link").unwrap() {
        Task::Execute(task) => {
            assert_eq!(task.command(), "cc -o app main.o");
            assert_eq!(task.dependencies(), &vec!["compile", "compile"]);
            assert!(task.inputs().is_empty());
        }
    }
    assert!(config.get_task_by_id("docs").is_none());
    assert!(config.get_task_by_id("no_command").is_none());
}

#[test]
fn only_the_first_document_is_read() {
    let text = "tasks:\n  a:\n    command: one\n---\ntasks:\n  b:\n    command: two\n";
    let config = TaskRegistry::try_from(text).expect("a catalog");
    assert_eq!(ids(&config), vec!["a"]);
}

fn task(name: &str) -> Task {
    Task::Execute(ExecuteTask::new(
        BaseTask::new(name.to_string(), Vec::new(), Vec::new()),
        "true".to_string(),
    ))
}

#[test]
fn duplicate_identifiers_are_refused() {
    let result = TaskRegistry::from_tasks(vec![task("a"), task("b"), task("c"), task("b"), task("a")]);
    match result {
        Err(TaskRegistryCreationError::DuplicateTask { task_name }) => assert_eq!(task_name, "b"),
        other => panic!("expected a duplicate, got {:?}", other),
    }
    assert!(TaskRegistry::from_tasks(vec![task("a"), task("b")]).is_ok());
    assert!(TaskRegistry::from_tasks(vec![]).is_ok());
}

#[test]
fn documents_with_a_repeated_task_are_refused() {
    let body = |command: &str| {
        YamlNode::Mapping(vec![(YamlNode::Text("command".to_string()), YamlNode::Text(command.to_string()))])
    };
    let tasks = YamlNode::Mapping(vec![
        (YamlNode::Text("x".to_string()), body("one")),
        (YamlNode::Text("skipped".to_string()), YamlNode::Null),
        (YamlNode::Text("x".to_string()), body("two")),
    ]);
    let document = YamlNode::Mapping(vec![(YamlNode::Text("tasks".to_string()), tasks)]);
    match TaskRegistry::from_documents(&vec![document]) {
        Err(TaskRegistryCreationError::DuplicateTask { task_name }) => assert_eq!(task_name, "x"),
        other => panic!("expected a duplicate, got {:?}", other),
    }
    assert!(matches!(
        TaskRegistry::from_documents(&vec![]),
        Err(TaskRegistryCreationError::MalformedConfig)
    ));
    assert!(matches!(
        TaskRegistry::from_documents(&vec![YamlNode::Boolean(true)]),
        Err(TaskRegistryCreationError::TopLevelNotMap)
    ));
}

#[test]
fn tasks_are_found_by_identifier() {
    let config = TaskRegistry::from_tasks(vec![task("a"), task("b")]).unwrap();
    assert_eq!(config.get_task_by_id("b").map(|t| t.id()), Some("b".to_string()));
    assert!(config.get_task_by_id("c").is_none());
    assert_eq!(config.position(&"a".to_string()), Some(0));
    assert_eq!(config.position(&"zz".to_string()), None);
}

#[test]
fn a_deeply_nested_document_is_read() {
    let depth = 400;
    let mut text = String::from("tasks:\n  deep:\n    command: run\n    inputs: ");
    text.push_str(&"[".repeat(depth));
    text.push_str(&"]".repeat(depth));
    text.push_str("\nnested: ");
    text.push_str(&"- ".repeat(depth));
    text.push_str("leaf\n");
    match TaskRegistry::try_from(text.as_str()) {
        Ok(config) => assert_eq!(ids(&config), vec!["deep"]),
        Err(error) => assert!(matches!(error, TaskRegistryCreationError::ParseError { .. })),
    }
}
