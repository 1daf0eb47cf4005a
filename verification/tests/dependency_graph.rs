use tessy::config::TaskRegistry;
use tessy::executor::DependencyGraph;
use tessy::tasks::{BaseTask, ExecuteTask, Task};

fn strings(items: &[&str]) -> Vec<String> {
    items.iter().map(|s| s.to_string()).collect()
}

fn task(name: &str, deps: &[&str]) -> Task {
    Task::Execute(ExecuteTask::new(
        BaseTask::new(name.to_string(), strings(deps), Vec::new()),
        "true".to_string(),
    ))
}

fn graph(tasks: Vec<Task>, target: &str) -> DependencyGraph {
    let config = TaskRegistry::from_tasks(tasks).unwrap();
    DependencyGraph::from_config(&config, &target.to_string())
}

fn nodes(graph: &DependencyGraph) -> Vec<String> {
    let mut ids: Vec<String> = graph.get_task_parents_iter().iter().map(|e| e.0.clone()).collect();
    ids.sort();
    ids
}

fn parents(graph: &DependencyGraph, id: &str) -> Vec<String> {
    let mut list = graph.get_parent_by_id(id).expect("in the graph").clone();
    list.sort();
    list
}

#[test]
fn graph_of_a_chain_holds_the_whole_chain() {
    let g = graph(vec![task("a", &[]), task("b", &["a"]), task("c", &["b"])], "c");
    assert_eq!(nodes(&g), strings(&["a", "b", "c"]));
    assert_eq!(parents(&g, "a"), strings(&["b"]));
    assert_eq!(parents(&g, "b"), strings(&["c"]));
    assert!(parents(&g, "c").is_empty());
}

#[test]
fn graph_of_a_diamond_lists_both_parents() {
    let g = graph(
        vec![task("a", &[]), task("b", &["a"]), task("c", &["a"]), task("d", &["b", "c"])],
        "d",
    );
    assert_eq!(nodes(&g), strings(&["a", "b", "c", "d"]));
    assert_eq!(parents(&g, "a"), strings(&["b", "c"]));
    assert_eq!(parents(&g, "b"), strings(&["d"]));
    assert_eq!(parents(&g, "c"), strings(&["d"]));
}

#[test]
fn graph_leaves_out_what_the_target_does_not_reach() {
    let g = graph(vec![task("a", &[]), task("b", &["a"]), task("z", &["a"]), task("y", &[])], "b");
    assert_eq!(nodes(&g), strings(&["a", "b"]));
    assert_eq!(parents(&g, "a"), strings(&["b"]));
    assert!(g.get_parent_by_id("z").is_none());
    assert!(g.get_parent_by_id("y").is_none());
}

#[test]
fn graph_holds_a_target_that_the_catalog_lacks() {
    let g = graph(vec![task("a", &[])], "missing");
    assert_eq!(nodes(&g), strings(&["missing"]));
    assert!(parents(&g, "missing").is_empty());
}

#[test]
fn graph_leaves_out_dependencies_that_the_catalog_lacks() {
    let g = graph(vec![task("a", &["ghost"])], "a");
    assert_eq!(nodes(&g), strings(&["a"]));
    assert!(g.get_parent_by_id("ghost").is_none());
    assert!(parents(&g, "a").is_empty());
}

#[test]
fn a_missing_dependency_does_not_hide_the_others() {
    let g = graph(vec![task("b", &["a", "ghost"]), task("a", &[])], "b");
    assert_eq!(nodes(&g), strings(&["a", "b"]));
    assert!(g.get_parent_by_id("ghost").is_none());
    assert_eq!(parents(&g, "a"), strings(&["b"]));
    assert!(parents(&g, "b").is_empty());
    assert_eq!(g.get_task_parents_iter().len(), 2);
}

#[test]
fn graph_of_a_cycle_is_finite() {
    let g = graph(vec![task("a", &["b"]), task("b", &["c"]), task("c", &["a"])], "a");
    assert_eq!(nodes(&g), strings(&["a", "b", "c"]));
    assert_eq!(parents(&g, "a"), strings(&["c"]));
    assert_eq!(parents(&g, "b"), strings(&["a"]));
    assert_eq!(parents(&g, "c"), strings(&["b"]));
    let own = graph(vec![task("s", &["s"])], "s");
    assert_eq!(nodes(&own), strings(&["s"]));
    assert_eq!(parents(&own, "s"), strings(&["s"]));
}

#[test]
fn a_dependency_named_twice_lists_its_parent_twice() {
    let g = graph(vec![task("a", &[]), task("b", &["a", "a"])], "b");
    assert_eq!(parents(&g, "a"), strings(&["b", "b"]));
}

#[test]
fn the_target_comes_first_and_dependencies_follow_depth_first() {
    let g = graph(
        vec![task("a", &[]), task("b", &["a"]), task("c", &[]), task("d", &["b", "c"])],
        "d",
    );
    let order: Vec<String> = g.get_task_parents_iter().iter().map(|e| e.0.clone()).collect();
    assert_eq!(order, strings(&["d", "b", "a", "c"]));
}
