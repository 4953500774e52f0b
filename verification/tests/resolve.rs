use rote::error::Error;
use rote::graph::Graph;
use rote::registry::Registry;
use rote::resolve::resolve;
use rote::rule::Rule;
use rote::task::Task;

fn task(name: &str, deps: &[&str]) -> Task {
    let mut out = Task::new(name).unwrap();
    for dep in deps {
        out = out.with_dependency(dep);
    }
    out
}

fn registry(tasks: Vec<Task>) -> Registry {
    let mut out = Registry::new();
    for task in tasks {
        out.insert_task(task).unwrap();
    }
    out
}

fn roots(names: &[&str]) -> Vec<String> {
    let mut out = Vec::new();
    for name in names {
        out.push(name.to_string());
    }
    out
}

fn node_names(graph: &Graph) -> Vec<String> {
    let mut out = Vec::new();
    for task in graph.tasks() {
        out.push(task.name().clone());
    }
    out
}

#[test]
fn resolve_without_targets_gives_the_empty_graph() {
    let mut reg = registry(vec![task("a", &[])]);
    let graph = resolve(&mut reg, &roots(&[])).unwrap();
    assert_eq!(graph.len(), 0);
}

#[test]
fn resolve_follows_a_chain() {
    let mut reg = registry(vec![task("c", &[]), task("a", &["b"]), task("b", &["c"]), task("z", &[])]);
    let graph = resolve(&mut reg, &roots(&["a"])).unwrap();
    assert_eq!(node_names(&graph), roots(&["a", "b", "c"]));
    assert!(graph.contains("b"));
    assert!(!graph.contains("z"));
    assert_eq!(graph.get("b"), Some(task("b", &["c"])));
    assert_eq!(graph.get("z"), None);
}

#[test]
fn resolve_goes_depth_first_in_declared_order() {
    let mut reg = registry(vec![
        task("root", &["x", "y"]),
        task("x", &["x1", "shared"]),
        task("y", &["shared", "y1"]),
        task("x1", &[]),
        task("y1", &[]),
        task("shared", &[]),
    ]);
    let graph = resolve(&mut reg, &roots(&["root"])).unwrap();
    assert_eq!(node_names(&graph), roots(&["root", "x", "x1", "shared", "y", "y1"]));
}

#[test]
fn resolve_takes_each_task_once() {
    let mut reg = registry(vec![task("a", &["b", "b", "c"]), task("b", &["c"]), task("c", &[])]);
    let graph = resolve(&mut reg, &roots(&["a", "c", "a", "b"])).unwrap();
    assert_eq!(node_names(&graph), roots(&["a", "b", "c"]));
}

#[test]
fn resolve_several_targets_in_order() {
    let mut reg = registry(vec![task("a", &[]), task("b", &["a"]), task("c", &[])]);
    let graph = resolve(&mut reg, &roots(&["c", "b"])).unwrap();
    assert_eq!(node_names(&graph), roots(&["c", "b", "a"]));
}

#[test]
fn cycle_detection() {
    let mut reg = registry(vec![task("a", &["b"]), task("b", &["a"])]);
    assert_eq!(
        resolve(&mut reg, &roots(&["a"])).err(),
        Some(Error::Cycle(roots(&["a", "b", "a"])))
    );
}

#[test]
fn cycle_path_starts_where_the_cycle_closes() {
    let mut reg = registry(vec![
        task("top", &["a"]),
        task("a", &["b"]),
        task("b", &["c"]),
        task("c", &["a"]),
    ]);
    assert_eq!(
        resolve(&mut reg, &roots(&["top"])).err(),
        Some(Error::Cycle(roots(&["a", "b", "c", "a"])))
    );
}

#[test]
fn task_that_depends_on_itself_is_a_cycle() {
    let mut reg = registry(vec![task("a", &["a"])]);
    assert_eq!(resolve(&mut reg, &roots(&["a"])).err(), Some(Error::Cycle(roots(&["a", "a"]))));
}

#[test]
fn diamond_is_no_cycle() {
    let mut reg = registry(vec![
        task("top", &["l", "r"]),
        task("l", &["base"]),
        task("r", &["base"]),
        task("base", &[]),
    ]);
    let graph = resolve(&mut reg, &roots(&["top"])).unwrap();
    assert_eq!(node_names(&graph), roots(&["top", "l", "base", "r"]));
}

#[test]
fn unknown_target_fails() {
    let mut reg = registry(vec![task("a", &[])]);
    assert_eq!(
        resolve(&mut reg, &roots(&["nope"])).err(),
        Some(Error::UnknownTask("nope".to_string()))
    );
}

#[test]
fn unknown_dependency_fails() {
    let mut reg = registry(vec![task("a", &["b"]), task("b", &["missing"])]);
    assert_eq!(
        resolve(&mut reg, &roots(&["a"])).err(),
        Some(Error::UnknownTask("missing".to_string()))
    );
}

#[test]
fn rule_materialisation() {
    let mut reg = Registry::new();
    reg.insert_rule(Rule::new("*.o").with_dependency("$1.c"));
    let made = reg.get("foo.o").unwrap().unwrap();
    assert_eq!(made.name(), "foo.o");
    assert_eq!(made.dependencies(), &roots(&["foo.c"]));
    assert_eq!(
        resolve(&mut reg, &roots(&["foo.o"])).err(),
        Some(Error::UnknownTask("foo.c".to_string()))
    );
}

#[test]
fn rule_materialisation_with_a_known_source() {
    let mut reg = Registry::new();
    reg.insert_rule(Rule::new("*.o").with_dependency("$1.c"));
    reg.insert_rule(Rule::new("*.c"));
    let graph = resolve(&mut reg, &roots(&["foo.o"])).unwrap();
    assert_eq!(node_names(&graph), roots(&["foo.o", "foo.c"]));
    assert_eq!(graph.get("foo.o").unwrap().dependencies(), &roots(&["foo.c"]));
    assert_eq!(reg.tasks().len(), 2);
}

#[test]
fn failing_rule_fails_the_resolution() {
    let mut reg = registry(vec![task("a", &["x.o"])]);
    reg.insert_rule(Rule::new("*.o").with_dependency("$2"));
    assert_eq!(
        resolve(&mut reg, &roots(&["a"])).err(),
        Some(Error::RuleInstantiationFailed("*.o".to_string(), "x.o".to_string()))
    );
}

#[test]
fn cycle_through_rules_is_found() {
    let mut reg = Registry::new();
    reg.insert_rule(Rule::new("*.a").with_dependency("$1.b"));
    reg.insert_rule(Rule::new("*.b").with_dependency("$1.a"));
    assert_eq!(
        resolve(&mut reg, &roots(&["x.a"])).err(),
        Some(Error::Cycle(roots(&["x.a", "x.b", "x.a"])))
    );
}

#[test]
fn graph_insert_keeps_the_first_task_of_a_name() {
    let mut graph = Graph::new();
    assert!(graph.insert(task("a", &["b"])));
    assert!(graph.insert(task("b", &[])));
    assert!(!graph.insert(task("a", &[])));
    assert_eq!(graph.len(), 2);
    assert_eq!(graph.get("a"), Some(task("a", &["b"])));
}
