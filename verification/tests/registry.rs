use rote::error::Error;
use rote::registry::Registry;
use rote::rule::Rule;
use rote::task::Task;

fn names_of(tasks: &Vec<Task>) -> Vec<String> {
    let mut out = Vec::new();
    for task in tasks {
        out.push(task.name().clone());
    }
    out
}

#[test]
fn task_needs_a_name() {
    assert!(Task::new("").is_none());
    let task = Task::new("a").unwrap();
    assert_eq!(task.name(), "a");
    assert_eq!(task.description(), &None);
    assert!(task.dependencies().is_empty());
    assert!(task.inputs().is_empty());
    assert!(task.outputs().is_empty());
    assert_eq!(task.action(), None);
}

#[test]
fn task_builders_add_in_order() {
    let task = Task::new("pkg")
        .unwrap()
        .with_description("makes the package")
        .with_dependency("build")
        .with_dependency("docs")
        .with_dependency("build")
        .with_input("a.txt")
        .with_input("b.txt")
        .with_output("pkg.tar")
        .with_action(7);
    assert_eq!(task.name(), "pkg");
    assert_eq!(task.description(), &Some("makes the package".to_string()));
    assert_eq!(task.dependencies(), &vec!["build".to_string(), "docs".to_string(), "build".to_string()]);
    assert_eq!(task.inputs(), &vec!["a.txt".to_string(), "b.txt".to_string()]);
    assert_eq!(task.outputs(), &vec!["pkg.tar".to_string()]);
    assert_eq!(task.action(), Some(7));
    assert_eq!(task.clone(), task);
}

#[test]
fn new_registry_is_empty() {
    let mut registry = Registry::new();
    assert!(registry.tasks().is_empty());
    assert_eq!(registry.rule_count(), 0);
    assert_eq!(registry.default_task(), None);
    assert_eq!(registry.get("a"), Ok(None));
    assert_eq!(registry.get_task("a"), None);
}

#[test]
fn insert_task_rejects_a_duplicate() {
    let mut registry = Registry::new();
    assert_eq!(registry.insert_task(Task::new("a").unwrap().with_action(1)), Ok(()));
    assert_eq!(registry.insert_task(Task::new("b").unwrap()), Ok(()));
    assert_eq!(
        registry.insert_task(Task::new("a").unwrap().with_action(2)),
        Err(Error::Duplicate("a".to_string()))
    );
    assert_eq!(names_of(&registry.tasks()), vec!["a".to_string(), "b".to_string()]);
    assert_eq!(registry.get_task("a").unwrap().action(), Some(1));
}

#[test]
fn get_finds_a_registered_task() {
    let mut registry = Registry::new();
    let task = Task::new("a").unwrap().with_dependency("b").with_action(3);
    registry.insert_task(task.clone()).unwrap();
    assert_eq!(registry.get("a"), Ok(Some(task)));
    assert_eq!(registry.get("b"), Ok(None));
    assert_eq!(registry.tasks().len(), 1);
}

#[test]
fn registered_task_wins_over_a_matching_rule() {
    let mut registry = Registry::new();
    registry.insert_rule(Rule::new("*.o").with_dependency("$1.c").with_action(9));
    registry.insert_task(Task::new("foo.o").unwrap().with_dependency("special.c").with_action(1)).unwrap();
    let found = registry.get("foo.o").unwrap().unwrap();
    assert_eq!(found.action(), Some(1));
    assert_eq!(found.dependencies(), &vec!["special.c".to_string()]);
    let made = registry.get("bar.o").unwrap().unwrap();
    assert_eq!(made.action(), Some(9));
    assert_eq!(made.dependencies(), &vec!["bar.c".to_string()]);
}

#[test]
fn first_matching_rule_makes_the_task() {
    let mut registry = Registry::new();
    registry.insert_rule(Rule::new("lib*.o").with_action(1));
    registry.insert_rule(Rule::new("*.o").with_action(2));
    registry.insert_rule(Rule::new("libz.o").with_action(3));
    assert_eq!(registry.rule_count(), 3);
    assert_eq!(registry.get("libz.o").unwrap().unwrap().action(), Some(1));
    assert_eq!(registry.get("z.o").unwrap().unwrap().action(), Some(2));
    assert_eq!(registry.get("z.c"), Ok(None));
}

#[test]
fn task_made_by_a_rule_is_kept() {
    let mut registry = Registry::new();
    registry.insert_rule(Rule::new("*.o").with_dependency("$1.c"));
    assert_eq!(registry.get_task("foo.o"), None);
    let first = registry.get("foo.o").unwrap().unwrap();
    assert_eq!(names_of(&registry.tasks()), vec!["foo.o".to_string()]);
    assert_eq!(registry.get_task("foo.o"), Some(first.clone()));
    let second = registry.get("foo.o").unwrap().unwrap();
    assert_eq!(first, second);
    assert_eq!(registry.tasks().len(), 1);
    assert_eq!(
        registry.insert_task(Task::new("foo.o").unwrap()),
        Err(Error::Duplicate("foo.o".to_string()))
    );
}

#[test]
fn rule_that_cannot_make_the_task_fails_the_lookup() {
    let mut registry = Registry::new();
    registry.insert_rule(Rule::new("*.o").with_dependency("$2.c"));
    registry.insert_rule(Rule::new("*").with_action(1));
    assert_eq!(
        registry.get("foo.o"),
        Err(Error::RuleInstantiationFailed("*.o".to_string(), "foo.o".to_string()))
    );
    assert!(registry.tasks().is_empty());
    assert_eq!(registry.get("foo").unwrap().unwrap().action(), Some(1));
}

#[test]
fn rule_makes_no_task_without_a_name() {
    let mut registry = Registry::new();
    registry.insert_rule(Rule::new("*"));
    assert_eq!(
        registry.get(""),
        Err(Error::RuleInstantiationFailed("*".to_string(), String::new()))
    );
}

#[test]
fn default_task_is_what_was_set() {
    let mut registry = Registry::new();
    registry.set_default("build");
    assert_eq!(registry.default_task(), Some("build".to_string()));
    registry.set_default("all");
    assert_eq!(registry.default_task(), Some("all".to_string()));
}

#[test]
fn rule_matches_exactly_the_names_that_fit() {
    let rule = Rule::new("test-*");
    assert_eq!(rule.pattern(), "test-*");
    assert!(rule.matches("test-unit"));
    assert!(rule.matches("test-"));
    assert!(!rule.matches("test"));
    assert!(!rule.matches("test-a/b"));
    assert!(!rule.matches("a-test-b"));
}

#[test]
fn rule_fills_in_every_template() {
    let rule = Rule::new("*.o")
        .with_description("compiles one file")
        .with_dependency("headers")
        .with_dependency("$1.c")
        .with_input("src/$1.c")
        .with_output("out/$0")
        .with_action(4);
    let task = rule.create_task("foo.o").unwrap();
    let expected = Task::new("foo.o")
        .unwrap()
        .with_description("compiles one file")
        .with_dependency("headers")
        .with_dependency("foo.c")
        .with_input("src/foo.c")
        .with_output("out/foo.o")
        .with_action(4);
    assert_eq!(task, expected);
    assert_eq!(rule.clone(), rule);
}

#[test]
fn rule_fails_on_a_name_that_does_not_fit() {
    let rule = Rule::new("*.o").with_dependency("$1.c");
    assert_eq!(
        rule.create_task("foo.c"),
        Err(Error::RuleInstantiationFailed("*.o".to_string(), "foo.c".to_string()))
    );
}

#[test]
fn rule_fails_on_a_reference_without_capture() {
    let in_input = Rule::new("*.o").with_input("$3");
    assert_eq!(
        in_input.create_task("a.o"),
        Err(Error::RuleInstantiationFailed("*.o".to_string(), "a.o".to_string()))
    );
    let in_output = Rule::new("plain").with_output("$1");
    assert_eq!(
        in_output.create_task("plain"),
        Err(Error::RuleInstantiationFailed("plain".to_string(), "plain".to_string()))
    );
}
