use std::collections::VecDeque;

use tessy::application::RuntimeConfig;
use tessy::config::TaskRegistry;
use tessy::executor::{DependencyGraph, Dispatch, DispatchStep, ExecutionError, Executor, Progress};
use tessy::file_dependencies::{DependencyTracker, FileFingerprint, PathProbe};
use tessy::tasks::{BaseTask, ExecuteTask, ExecuteTaskError, Task, TaskError};

fn strings(items: &[&str]) -> Vec<String> {
    items.iter().map(|s| s.to_string()).collect()
}

fn task(name: &str, deps: &[&str], command: &str) -> Task {
    Task::Execute(ExecuteTask::new(
        BaseTask::new(name.to_string(), strings(deps), Vec::new()),
        command.to_string(),
    ))
}

fn executor(tasks: Vec<Task>, target: &str, saved: DependencyTracker) -> Executor {
    let config = TaskRegistry::from_tasks(tasks).expect("unique identifiers");
    let graph = DependencyGraph::from_config(&config, &target.to_string());
    assert!(Executor::dependency_counts_fit(&config));
    let app_config = RuntimeConfig { target: target.to_string(), root: ".".to_string() };
    Executor::new(config, graph, app_config, saved).expect("executor")
}

/// Runs every dispatched task at once and delivers the results in dispatch order. A task
/// whose command is `exit 1` fails. Returns the outcome and the tasks that were run.
fn run(executor: &Executor, inputs: &Vec<PathProbe>) -> (Result<Vec<String>, ExecutionError>, Vec<String>) {
    let mut spawned: Vec<String> = Vec::new();
    let mut events: VecDeque<Result<String, TaskError>> = VecDeque::new();
    let (mut state, ready) = executor.execute();
    let mut pending: VecDeque<Task> = ready.into_iter().collect();
    loop {
        while let Some(task) = pending.pop_front() {
            match executor.dispatch_task(task, inputs) {
                Dispatch::Skip(id) => events.push_back(Ok(id)),
                Dispatch::Run(Task::Execute(run)) => {
                    spawned.push(run.id());
                    events.push_back(run.completion(run.command() != "exit 1", Some(1)));
                }
            }
        }
        let event = events.pop_front();
        if let Some(Ok(id)) = &event {
            assert!(state.is_in_flight(id));
        }
        match executor.process_task_results(&mut state, event) {
            Progress::Ready(tasks) => pending.extend(tasks),
            Progress::Finished(outcome) => return (outcome, spawned),
        }
    }
}

fn position(list: &[String], id: &str) -> usize {
    list.iter().position(|x| x == id).expect("present")
}

#[test]
fn linear_chain_completes_in_order() {
    let tasks = vec![task("a", &[], "true"), task("b", &["a"], "true"), task("c", &["b"], "true")];
    let exec = executor(tasks, "c", DependencyTracker::default());
    let (outcome, spawned) = run(&exec, &Vec::new());
    assert_eq!(outcome.unwrap(), strings(&["a", "b", "c"]));
    assert_eq!(spawned, strings(&["a", "b", "c"]));
}

#[test]
fn diamond_runs_the_root_first_and_the_target_last() {
    let tasks = vec![
        task("a", &[], "true"),
        task("b", &["a"], "true"),
        task("c", &["a"], "true"),
        task("d", &["b", "c"], "true"),
    ];
    let exec = executor(tasks, "d", DependencyTracker::default());
    let (outcome, _) = run(&exec, &Vec::new());
    let completed = outcome.unwrap();
    assert_eq!(completed.len(), 4);
    assert_eq!(completed[0], "a");
    assert_eq!(completed[3], "d");
    assert!(position(&completed, "b") < position(&completed, "d"));
    assert!(position(&completed, "c") < position(&completed, "d"));
}

#[test]
fn unrelated_tasks_are_pruned() {
    let tasks = vec![task("a", &[], "true"), task("b", &["a"], "true"), task("z", &[], "true")];
    let exec = executor(tasks, "b", DependencyTracker::default());
    let (outcome, spawned) = run(&exec, &Vec::new());
    let completed = outcome.unwrap();
    assert_eq!(completed, strings(&["a", "b"]));
    assert!(!completed.contains(&"z".to_string()));
    assert!(!spawned.contains(&"z".to_string()));
}

#[test]
fn failure_propagates_and_dependents_never_start() {
    let tasks = vec![task("a", &[], "exit 1"), task("b", &["a"], "true")];
    let exec = executor(tasks, "b", DependencyTracker::default());
    let (outcome, spawned) = run(&exec, &Vec::new());
    assert_eq!(spawned, strings(&["a"]));
    match outcome {
        Err(ExecutionError::TaskExecutionError {
            source: TaskError::ExecutionError {
                source: ExecuteTaskError::UnsuccessfulExecution { command, task_name, status },
            },
        }) => {
            assert_eq!(command, "exit 1");
            assert_eq!(task_name, "a");
            assert_eq!(status, 1);
        }
        other => panic!("expected a task execution error, got {:?}", other),
    }
}

#[test]
fn each_task_completes_once() {
    let tasks = vec![
        task("a", &[], "true"),
        task("b", &["a", "a"], "true"),
        task("c", &["a", "b"], "true"),
        task("d", &["b", "c", "a"], "true"),
    ];
    let exec = executor(tasks, "d", DependencyTracker::default());
    let (outcome, spawned) = run(&exec, &Vec::new());
    let completed = outcome.unwrap();
    assert_eq!(completed, strings(&["a", "b", "c", "d"]));
    assert_eq!(spawned, completed);
}

#[test]
fn dependencies_complete_before_dependents_are_dispatched() {
    let tasks = vec![
        task("a", &[], "true"),
        task("b", &["a"], "true"),
        task("c", &["a"], "true"),
        task("d", &["b", "c"], "true"),
    ];
    let exec = executor(tasks, "d", DependencyTracker::default());
    let (mut state, ready) = exec.execute();
    assert_eq!(ready.iter().map(|t| t.id()).collect::<Vec<_>>(), strings(&["a"]));
    let after_a = match exec.process_task_results(&mut state, Some(Ok("a".to_string()))) {
        Progress::Ready(tasks) => tasks.iter().map(|t| t.id()).collect::<Vec<_>>(),
        other => panic!("unexpected {:?}", other),
    };
    assert_eq!(after_a.len(), 2);
    assert!(after_a.contains(&"b".to_string()) && after_a.contains(&"c".to_string()));
    match exec.process_task_results(&mut state, Some(Ok("c".to_string()))) {
        Progress::Ready(tasks) => assert!(tasks.is_empty()),
        other => panic!("unexpected {:?}", other),
    }
    assert!(!state.is_in_flight(&"d".to_string()));
    match exec.process_task_results(&mut state, Some(Ok("b".to_string()))) {
        Progress::Ready(tasks) => {
            assert_eq!(tasks.iter().map(|t| t.id()).collect::<Vec<_>>(), strings(&["d"]))
        }
        other => panic!("unexpected {:?}", other),
    }
    assert_eq!(state.completed(), &strings(&["a", "c", "b"]));
}

#[test]
fn end_of_events_before_the_target_is_premature() {
    let tasks = vec![task("a", &[], "true"), task("b", &["a"], "true")];
    let exec = executor(tasks, "b", DependencyTracker::default());
    let (mut state, _) = exec.execute();
    match exec.process_task_results(&mut state, None) {
        Progress::Finished(Err(ExecutionError::ExecutionEndedPrematurely)) => {}
        other => panic!("unexpected {:?}", other),
    }
}

#[test]
fn canceled_task_fails_the_run() {
    let tasks = vec![task("a", &[], "true")];
    let exec = executor(tasks, "a", DependencyTracker::default());
    let (mut state, _) = exec.execute();
    match exec.process_task_results(&mut state, Some(Err(TaskError::CanceledError))) {
        Progress::Finished(Err(ExecutionError::TaskExecutionError {
            source: TaskError::CanceledError,
        })) => {}
        other => panic!("unexpected {:?}", other),
    }
}

#[test]
fn task_waiting_for_an_unknown_dependency_never_starts() {
    let tasks = vec![task("a", &["ghost"], "true")];
    let exec = executor(tasks, "a", DependencyTracker::default());
    let (mut state, ready) = exec.execute();
    assert!(ready.is_empty());
    match exec.process_task_results(&mut state, None) {
        Progress::Finished(Err(ExecutionError::ExecutionEndedPrematurely)) => {}
        other => panic!("unexpected {:?}", other),
    }
}

fn input_file(fingerprint: FileFingerprint) -> Vec<PathProbe> {
    vec![PathProbe::File { path: "/project/in.txt".to_string(), fingerprint: Some(fingerprint) }]
}

fn touch_task() -> Task {
    Task::Execute(ExecuteTask::new(
        BaseTask::new("t".to_string(), Vec::new(), strings(&["in.txt"])),
        "touch out".to_string(),
    ))
}

#[test]
fn up_to_date_task_is_skipped_on_the_second_run() {
    let unchanged = input_file(FileFingerprint::ModifiedTime { before_epoch: false, secs: 1_700_000_000, nanos: 5 });
    let first = executor(vec![touch_task()], "t", DependencyTracker::default());
    let (outcome, spawned) = run(&first, &unchanged);
    assert_eq!(outcome.unwrap(), strings(&["t"]));
    assert_eq!(spawned, strings(&["t"]));

    let mut saved = DependencyTracker::default();
    saved.add_tasks_dependencies(&vec![touch_task()], &vec![input_file(
        FileFingerprint::ModifiedTime { before_epoch: false, secs: 1_700_000_000, nanos: 5 },
    )]);
    let second = executor(vec![touch_task()], "t", saved);
    let (outcome, spawned) = run(&second, &unchanged);
    assert_eq!(outcome.unwrap(), strings(&["t"]));
    assert!(spawned.is_empty());
}

#[test]
fn changed_input_runs_the_task_again() {
    let mut saved = DependencyTracker::default();
    saved.add_tasks_dependencies(&vec![touch_task()], &vec![input_file(
        FileFingerprint::ModifiedTime { before_epoch: false, secs: 1_700_000_000, nanos: 5 },
    )]);
    let second = executor(vec![touch_task()], "t", saved);
    let changed = input_file(FileFingerprint::ModifiedTime { before_epoch: false, secs: 1_700_000_001, nanos: 5 });
    let (outcome, spawned) = run(&second, &changed);
    assert_eq!(outcome.unwrap(), strings(&["t"]));
    assert_eq!(spawned, strings(&["t"]));
}

#[test]
fn worker_count_follows_the_detected_parallelism() {
    assert_eq!(Executor::determine_worker_count(Some(8)), 8);
    assert_eq!(Executor::determine_worker_count(Some(0)), 1);
    assert_eq!(Executor::determine_worker_count(None), 1);
}

#[test]
fn counters_start_at_the_number_of_dependencies() {
    let tasks = vec![task("a", &[], "true"), task("b", &["a"], "true"), task("z", &["a", "b"], "true")];
    let exec = executor(tasks, "b", DependencyTracker::default());
    assert_eq!(exec.initialize_dependency_counts(), vec![0u32, 1, 2]);
}

#[test]
fn a_completion_lowers_the_counters_of_the_parents_and_no_other() {
    let tasks = vec![
        task("a", &[], "true"),
        task("b", &["a", "a"], "true"),
        task("c", &["a", "b"], "true"),
        task("z", &["a", "c"], "true"),
    ];
    let exec = executor(tasks, "c", DependencyTracker::default());
    let (mut state, _) = exec.execute();
    assert_eq!(state.dependency_counts(), &vec![0u32, 2, 2, 2]);
    match exec.process_task_results(&mut state, Some(Ok("a".to_string()))) {
        Progress::Ready(ready) => {
            assert_eq!(ready.iter().map(|t| t.id()).collect::<Vec<_>>(), strings(&["b"]))
        }
        other => panic!("unexpected {:?}", other),
    }
    // `z` is no part of the graph of `c`: its counter stays
    assert_eq!(state.dependency_counts(), &vec![0u32, 0, 1, 2]);
    match exec.process_task_results(&mut state, Some(Ok("b".to_string()))) {
        Progress::Ready(ready) => {
            assert_eq!(ready.iter().map(|t| t.id()).collect::<Vec<_>>(), strings(&["c"]))
        }
        other => panic!("unexpected {:?}", other),
    }
    assert_eq!(state.dependency_counts(), &vec![0u32, 0, 0, 2]);
}

#[test]
fn a_completion_that_is_not_in_flight_is_passed_over() {
    let tasks = vec![task("a", &[], "true"), task("b", &["a"], "true")];
    let exec = executor(tasks, "b", DependencyTracker::default());
    let (mut state, _) = exec.execute();
    for unknown in ["b", "nobody"] {
        match exec.accept_task_result(&mut state, Some(Ok(unknown.to_string()))) {
            Progress::Ready(ready) => assert!(ready.is_empty()),
            other => panic!("unexpected {:?}", other),
        }
        assert!(state.completed().is_empty());
        assert_eq!(state.dependency_counts(), &vec![0u32, 1]);
    }
    match exec.accept_task_result(&mut state, Some(Ok("a".to_string()))) {
        Progress::Ready(ready) => assert_eq!(ready.len(), 1),
        other => panic!("unexpected {:?}", other),
    }
    match exec.accept_task_result(&mut state, Some(Ok("a".to_string()))) {
        Progress::Ready(ready) => assert!(ready.is_empty()),
        other => panic!("unexpected {:?}", other),
    }
    assert_eq!(state.completed(), &strings(&["a"]));
    match exec.accept_task_result(&mut state, Some(Ok("b".to_string()))) {
        Progress::Finished(Ok(completed)) => assert_eq!(completed, strings(&["a", "b"])),
        other => panic!("unexpected {:?}", other),
    }
}

#[test]
fn a_task_without_saved_fingerprints_runs_without_its_inputs_being_looked_at() {
    let fresh = executor(vec![touch_task()], "t", DependencyTracker::default());
    assert!(matches!(fresh.begin_dispatch(touch_task()), DispatchStep::Run(_)));

    let mut saved = DependencyTracker::default();
    saved.add_tasks_dependencies(&vec![touch_task()], &vec![vec![]]);
    let recorded = executor(vec![touch_task()], "t", saved);
    match recorded.begin_dispatch(touch_task()) {
        DispatchStep::Compare(task) => assert_eq!(task.id(), "t"),
        other => panic!("unexpected {:?}", other),
    }
}

#[test]
fn a_refused_dispatch_names_the_task_and_the_reason() {
    match Executor::dispatch_failure(&"build".to_string(), "all threads are busy".to_string()) {
        ExecutionError::TaskDispatchError { task_id, error } => {
            assert_eq!(task_id, "build");
            assert_eq!(error, "all threads are busy");
        }
        other => panic!("unexpected {:?}", other),
    }
}

#[test]
fn the_executor_keeps_target_and_root() {
    let config = TaskRegistry::from_tasks(vec![task("a", &[], "true")]).unwrap();
    let graph = DependencyGraph::from_config(&config, &"a".to_string());
    let app_config = RuntimeConfig { target: "a".to_string(), root: "/project".to_string() };
    let exec = Executor::new(config, graph, app_config, DependencyTracker::default()).unwrap();
    assert_eq!(exec.app_config().target, "a");
    assert_eq!(exec.app_config().root, "/project");
    let (_, _, app_config, _) = exec.into_parts();
    assert_eq!(app_config.root, "/project");
}
