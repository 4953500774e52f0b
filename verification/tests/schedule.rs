use rote::error::Error;
use rote::freshness::{Mtime, Snapshot};
use rote::graph::Graph;
use rote::schedule::Schedule;
use rote::task::Task;

fn task(name: &str, deps: &[&str]) -> Task {
    let mut out = Task::new(name).unwrap();
    for dep in deps {
        out = out.with_dependency(dep);
    }
    out
}

fn graph(tasks: Vec<Task>) -> Graph {
    let mut out = Graph::new();
    for task in tasks {
        assert!(out.insert(task));
    }
    out
}

fn names(items: &[&str]) -> Vec<String> {
    let mut out = Vec::new();
    for item in items {
        out.push(item.to_string());
    }
    out
}

fn snapshot(files: &[(&str, i64)]) -> Snapshot {
    let mut out = Snapshot::new();
    for (path, seconds) in files {
        out.record(path, Mtime::new(*seconds, 0));
    }
    out
}

fn order(graph: &Graph, respect: bool, files: &Snapshot) -> Vec<String> {
    graph.solve(respect, files).unwrap().task_names()
}

#[test]
fn empty_graph_has_the_empty_schedule() {
    let g = Graph::new();
    let schedule = g.solve(true, &Snapshot::new()).unwrap();
    assert!(schedule.is_empty());
    assert_eq!(schedule.len(), 0);
}

#[test]
fn linear_chain_all_stale() {
    let g = graph(vec![task("a", &["b"]), task("b", &["c"]), task("c", &[])]);
    assert_eq!(order(&g, true, &Snapshot::new()), names(&["c", "b", "a"]));
    assert_eq!(order(&g, false, &Snapshot::new()), names(&["c", "b", "a"]));
}

#[test]
fn ties_go_to_the_task_that_came_first() {
    let g = graph(vec![task("z", &[]), task("m", &[]), task("a", &[])]);
    assert_eq!(order(&g, false, &Snapshot::new()), names(&["z", "m", "a"]));
}

#[test]
fn earliest_ready_task_is_taken_at_every_step() {
    let g = graph(vec![
        task("root", &["x", "y"]),
        task("x", &["leaf"]),
        task("y", &[]),
        task("leaf", &[]),
        task("free", &[]),
    ]);
    assert_eq!(order(&g, false, &Snapshot::new()), names(&["y", "leaf", "x", "root", "free"]));
}

#[test]
fn dependency_outside_the_graph_is_no_constraint() {
    let g = graph(vec![task("a", &["elsewhere"]), task("b", &["a"])]);
    assert_eq!(order(&g, false, &Snapshot::new()), names(&["a", "b"]));
}

#[test]
fn cycle_is_reported_by_solve() {
    let g = graph(vec![task("ok", &[]), task("a", &["b"]), task("b", &["a"])]);
    assert_eq!(
        g.solve(false, &Snapshot::new()).err(),
        Some(Error::Cycle(names(&["a", "b", "a"])))
    );
}

#[test]
fn self_dependency_is_reported_by_solve() {
    let g = graph(vec![task("a", &["a"])]);
    assert_eq!(g.solve(true, &Snapshot::new()).err(), Some(Error::Cycle(names(&["a", "a"]))));
}

#[test]
fn cycle_behind_a_stuck_task_is_found() {
    let g = graph(vec![task("top", &["a"]), task("a", &["b"]), task("b", &["a"])]);
    assert_eq!(
        g.solve(false, &Snapshot::new()).err(),
        Some(Error::Cycle(names(&["a", "b", "a"])))
    );
}

#[test]
fn freshness_skip() {
    let build = Task::new("build").unwrap().with_input("src.txt").with_output("bin");
    let g = graph(vec![build]);
    let files = snapshot(&[("src.txt", 100), ("bin", 200)]);
    let schedule = g.solve(true, &files).unwrap();
    assert!(schedule.is_empty());
}

#[test]
fn fresh_task_runs_when_freshness_is_not_respected() {
    let build = Task::new("build").unwrap().with_input("src.txt").with_output("bin");
    let g = graph(vec![build]);
    let files = snapshot(&[("src.txt", 100), ("bin", 200)]);
    assert_eq!(order(&g, false, &files), names(&["build"]));
}

#[test]
fn transitive_dirty() {
    let pkg = Task::new("pkg").unwrap().with_dependency("build").with_input("bin").with_output("pkg.tar");
    let build = Task::new("build").unwrap().with_input("src.txt").with_output("bin");
    let g = graph(vec![pkg, build]);
    let files = snapshot(&[("src.txt", 300), ("bin", 200), ("pkg.tar", 250)]);
    assert_eq!(order(&g, true, &files), names(&["build", "pkg"]));
}

#[test]
fn dirt_spreads_through_a_fresh_task_in_between() {
    let top = Task::new("top").unwrap().with_dependency("mid").with_output("top.out");
    let mid = Task::new("mid").unwrap().with_dependency("low").with_output("mid.out");
    let low = Task::new("low").unwrap();
    let other = Task::new("other").unwrap().with_output("other.out");
    let g = graph(vec![top, mid, low, other]);
    let files = snapshot(&[("top.out", 1), ("mid.out", 1), ("other.out", 1)]);
    assert_eq!(order(&g, true, &files), names(&["low", "mid", "top"]));
}

#[test]
fn fresh_dependency_does_not_dirty_its_dependents() {
    let app = Task::new("app").unwrap().with_dependency("lib").with_input("lib.a").with_output("app.bin");
    let lib = Task::new("lib").unwrap().with_input("lib.c").with_output("lib.a");
    let docs = Task::new("docs").unwrap().with_dependency("lib");
    let g = graph(vec![app, lib, docs]);
    let files = snapshot(&[("lib.c", 10), ("lib.a", 20), ("app.bin", 30)]);
    assert_eq!(order(&g, true, &files), names(&["docs"]));
}

#[test]
fn same_oracle_answers_give_the_same_schedule() {
    let a = Task::new("a").unwrap().with_dependency("b").with_input("in").with_output("out");
    let b = Task::new("b").unwrap().with_output("gen");
    let g = graph(vec![a, b]);
    let early = snapshot(&[("in", 1), ("out", 2), ("gen", 3)]);
    let late = snapshot(&[("in", 1000), ("out", 2000), ("gen", 5)]);
    assert_eq!(order(&g, true, &early), order(&g, true, &late));
    assert_eq!(order(&g, true, &early), order(&g, true, &early));
    assert_eq!(order(&g, false, &early), names(&["b", "a"]));
}

#[test]
fn schedule_from_tasks_accepts_a_runnable_list() {
    let schedule = Schedule::from_tasks(vec![task("c", &[]), task("b", &["c"]), task("a", &["b", "c"])]).unwrap();
    assert_eq!(schedule.task_names(), names(&["c", "b", "a"]));
    assert_eq!(schedule.tasks().len(), 3);
    assert!(Schedule::from_tasks(Vec::new()).unwrap().is_empty());
    assert!(Schedule::from_tasks(vec![task("a", &["not-here"])]).is_some());
}

#[test]
fn schedule_from_tasks_rejects_a_repeated_name() {
    assert!(Schedule::from_tasks(vec![task("a", &[]), task("b", &[]), task("a", &[])]).is_none());
}

#[test]
fn schedule_from_tasks_rejects_a_task_before_its_dependency() {
    assert!(Schedule::from_tasks(vec![task("a", &["b"]), task("b", &[])]).is_none());
    assert!(Schedule::from_tasks(vec![task("a", &["a"])]).is_none());
}
