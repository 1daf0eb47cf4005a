use std::hash::{DefaultHasher, Hash, Hasher};

use tessy::application::{LogLevel, RuntimeConfig, TracingLevel};
use tessy::cli::Cli;
use tessy::ext::PathComponent::{CurDir, ParentDir, RootDir};
use tessy::ext::{normalize_path, to_time, PathComponent, TimeOfDay};
use tessy::file_dependencies::dependency_tracker::get_standard_dependency_file_path;
use tessy::tasks::task::{color_from_hash, hash_of_id, output_line, output_prefix, output_record};
use tessy::tasks::{BaseTask, ExecuteTask, ExecuteTaskError, OsFamily, Task, TaskColor, TaskError};

#[test]
fn log_levels_select_their_threshold() {
    assert_eq!(LogLevel::Debug.to_tracing_level(), Some(TracingLevel::Debug));
    assert_eq!(LogLevel::Info.to_tracing_level(), Some(TracingLevel::Info));
    assert_eq!(LogLevel::Warn.to_tracing_level(), Some(TracingLevel::Warn));
    assert_eq!(LogLevel::Error.to_tracing_level(), Some(TracingLevel::Error));
    assert_eq!(LogLevel::Silent.to_tracing_level(), None);
    assert_eq!(LogLevel::default(), LogLevel::Warn);
}

#[test]
fn runtime_config_keeps_target_and_root() {
    let cli = Cli { target: "build".to_string(), log_level: LogLevel::Info, root: "/project".to_string() };
    let config = RuntimeConfig::from(cli);
    assert_eq!(config.target, "build");
    assert_eq!(config.root, "/project");
}

fn execute_task(name: &str, command: &str) -> ExecuteTask {
    ExecuteTask::new(BaseTask::new(name.to_string(), Vec::new(), Vec::new()), command.to_string())
}

#[test]
fn commands_run_in_the_shell_of_the_family() {
    let task = execute_task("t", "echo hi && exit 3");
    assert_eq!(task.full_command(OsFamily::Unix), ("sh", vec!["-c", "echo hi && exit 3"]));
    assert_eq!(task.full_command(OsFamily::Windows), ("cmd", vec!["/C", "echo hi && exit 3"]));
}

#[test]
fn exit_status_decides_the_completion() {
    let task = execute_task("t", "exit 3");
    assert_eq!(task.completion(true, Some(0)).unwrap(), "t");
    match task.completion(false, Some(3)) {
        Err(TaskError::ExecutionError {
            source: ExecuteTaskError::UnsuccessfulExecution { command, task_name, status },
        }) => {
            assert_eq!((command.as_str(), task_name.as_str(), status), ("exit 3", "t", 3));
        }
        other => panic!("unexpected {:?}", other),
    }
    match task.completion(false, None) {
        Err(TaskError::ExecutionError {
            source: ExecuteTaskError::UnsuccessfulExecution { status, .. },
        }) => assert_eq!(status, -1),
        other => panic!("unexpected {:?}", other),
    }
    match task.spawn_failure("no shell".to_string()) {
        TaskError::ExecutionError { source: ExecuteTaskError::SpawnError { command, task_name, source } } => {
            assert_eq!((command.as_str(), task_name.as_str(), source.as_str()), ("exit 3", "t", "no shell"));
        }
        other => panic!("unexpected {:?}", other),
    }
    match task.wait_failure("interrupted".to_string()) {
        TaskError::ExecutionError { source: ExecuteTaskError::WaitError { source, .. } } => {
            assert_eq!(source, "interrupted");
        }
        other => panic!("unexpected {:?}", other),
    }
}

#[test]
fn colour_is_the_low_three_bytes_of_the_hash() {
    assert_eq!(color_from_hash(0x1122_3344_55AA_BBCC), TaskColor { r: 0xCC, g: 0xBB, b: 0xAA });
    assert_eq!(color_from_hash(0), TaskColor { r: 0, g: 0, b: 0 });
    assert_eq!(color_from_hash(u64::MAX), TaskColor { r: 255, g: 255, b: 255 });
}

#[test]
fn colour_follows_the_standard_hash_of_the_identifier() {
    for name in ["build", "", "тест", "a much longer task identifier with spaces"] {
        let mut hasher = DefaultHasher::new();
        name.to_string().hash(&mut hasher);
        let hash = hasher.finish();
        assert_eq!(hash_of_id(&name.to_string()), hash);
        let task = Task::Execute(execute_task(name, "true"));
        assert_eq!(task.color(), color_from_hash(hash));
        assert_eq!(task.color(), task.clone().color());
    }
}

fn normal(name: &str) -> PathComponent {
    PathComponent::Normal(name.to_string())
}

#[test]
fn paths_are_normalised_without_the_filesystem() {
    assert_eq!(
        normalize_path(&vec![RootDir, normal("a"), CurDir, normal("b"), ParentDir, normal("c")]),
        vec![RootDir, normal("a"), normal("c")]
    );
    assert_eq!(normalize_path(&vec![RootDir, ParentDir, ParentDir, normal("a")]), vec![RootDir, normal("a")]);
    assert_eq!(normalize_path(&vec![ParentDir, normal("a")]), vec![normal("a")]);
    assert_eq!(normalize_path(&vec![normal("a"), ParentDir, ParentDir]), Vec::<PathComponent>::new());
    assert_eq!(
        normalize_path(&vec![PathComponent::Prefix("C:".to_string()), RootDir, normal("x"), ParentDir]),
        vec![PathComponent::Prefix("C:".to_string()), RootDir]
    );
    assert_eq!(
        normalize_path(&vec![PathComponent::Prefix("C:".to_string()), ParentDir]),
        Vec::<PathComponent>::new()
    );
    assert_eq!(normalize_path(&vec![]), Vec::<PathComponent>::new());
}

#[test]
fn times_of_day_wrap_at_midnight() {
    assert_eq!(to_time(Some((0, 0))), TimeOfDay { hour: 0, minute: 0, second: 0, nanosecond: 0 });
    assert_eq!(
        to_time(Some((86_399, 999_999_999))),
        TimeOfDay { hour: 23, minute: 59, second: 59, nanosecond: 999_999_999 }
    );
    assert_eq!(
        to_time(Some((1_700_000_000, 5))),
        TimeOfDay { hour: 22, minute: 13, second: 20, nanosecond: 5 }
    );
    assert_eq!(to_time(Some((3_661, 1_000_000_000))), TimeOfDay { hour: 0, minute: 0, second: 0, nanosecond: 0 });
    assert_eq!(to_time(None), TimeOfDay { hour: 0, minute: 0, second: 0, nanosecond: 0 });
    assert_eq!(to_time(Some((u64::MAX, 0))).hour, 7);
}

#[test]
fn the_cache_lives_below_the_project_root() {
    assert_eq!(get_standard_dependency_file_path(), ".tessy/dependencies.bincode.zstd");
}

#[test]
fn output_is_printed_line_by_line_behind_the_task_prefix() {
    assert_eq!(output_prefix("build"), "[build]");
    assert_eq!(output_line("  compiling main.c \t\r"), Some("compiling main.c".to_string()));
    assert_eq!(output_line("done"), Some("done".to_string()));
    assert_eq!(output_line(""), None);
    assert_eq!(output_line(" \t \u{3000} "), None);
    assert_eq!(output_record("[build]", "compiling main.c"), "[build]: compiling main.c");
    assert_eq!(
        output_record(&output_prefix("t"), &output_line(" x ").unwrap()),
        "[t]: x"
    );
}
