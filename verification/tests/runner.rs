use rote::error::Error;
use rote::executor::{Dispatch, Slot};
use rote::freshness::{Mtime, Snapshot};
use rote::registry::Registry;
use rote::rule::Rule;
use rote::runner::{default_jobs, EnvironmentSpec, Runner};
use rote::task::Task;
use rote::worker::{progress_line, work_on, Work};

fn pair(name: &str, value: &str) -> (String, String) {
    (name.to_string(), value.to_string())
}

fn names(items: &[&str]) -> Vec<String> {
    let mut out = Vec::new();
    for item in items {
        out.push(item.to_string());
    }
    out
}

fn runner() -> Runner {
    Runner::assemble("/work/Rotefile", Some("/work".to_string()), 4).unwrap()
}

fn sample_registry() -> Registry {
    let mut registry = Registry::new();
    registry
        .insert_task(Task::new("pkg").unwrap().with_dependency("build").with_input("bin").with_output("pkg.tar").with_action(2))
        .unwrap();
    registry
        .insert_task(
            Task::new("build").unwrap().with_description("compiles").with_input("src.txt").with_output("bin").with_action(1),
        )
        .unwrap();
    registry.insert_task(Task::new("clean").unwrap().with_action(3)).unwrap();
    registry.insert_rule(Rule::new("*.o").with_dependency("$1.c").with_action(4));
    registry
}

#[test]
fn default_jobs_is_one_less_than_the_processors() {
    assert_eq!(default_jobs(8), 7);
    assert_eq!(default_jobs(3), 2);
    assert_eq!(default_jobs(2), 1);
}

#[test]
fn default_jobs_is_at_least_one() {
    assert_eq!(default_jobs(1), 1);
    assert_eq!(default_jobs(0), 1);
}

#[test]
fn default_jobs_at_the_largest_count() {
    assert_eq!(default_jobs(usize::MAX), usize::MAX - 1);
}

#[test]
fn assemble_sets_the_defaults() {
    let r = runner();
    assert_eq!(r.path(), "/work/Rotefile");
    assert_eq!(r.directory(), "/work");
    assert_eq!(r.job_budget(), 3);
    assert!(!r.spec().is_dry_run());
    assert!(!r.spec().is_always_run());
    assert!(r.spec().include_paths().is_empty());
    assert!(r.spec().variables().is_empty());
    assert!(!r.is_loaded());
    assert!(r.targets().is_empty());
    assert_eq!(r.graph().len(), 0);
}

#[test]
fn assemble_fails_without_a_directory() {
    assert_eq!(
        Runner::assemble("/", None, 4).err(),
        Some(Error::LoadFailure("failed to parse script directory".to_string()))
    );
}

#[test]
fn new_finds_the_directory_of_the_build_file() {
    let r = Runner::new("project/Rotefile").unwrap();
    assert_eq!(r.path(), "project/Rotefile");
    assert_eq!(r.directory(), "project");
    assert!(r.job_budget() >= 1);
    assert!(!r.is_loaded());
}

#[test]
fn new_fails_on_a_path_without_parent() {
    assert_eq!(
        Runner::new("").err(),
        Some(Error::LoadFailure("failed to parse script directory".to_string()))
    );
}

#[test]
fn settings_are_kept() {
    let mut r = runner();
    r.dry_run();
    r.jobs(12);
    r.include_path("lib");
    r.include_path("vendor/lib");
    r.set_var("mode", "release");
    r.set_var("mode", "debug");
    assert!(r.spec().is_dry_run());
    assert!(!r.spec().is_always_run());
    r.always_run();
    assert!(r.spec().is_always_run());
    assert_eq!(r.job_budget(), 12);
    assert_eq!(r.spec().include_paths(), &names(&["lib", "vendor/lib"]));
    assert_eq!(r.spec().variables(), &vec![pair("mode", "release"), pair("mode", "debug")]);
    assert_eq!(r.spec().clone(), *r.spec());
}

#[test]
fn globals_start_with_the_system() {
    let mut r = runner();
    r.set_var("a", "1");
    r.set_var("OS", "mine");
    assert_eq!(
        r.spec().globals(false),
        vec![pair("OS", "unix"), pair("a", "1"), pair("OS", "mine")]
    );
    assert_eq!(
        r.spec().globals(true),
        vec![pair("OS", "windows"), pair("a", "1"), pair("OS", "mine")]
    );
    assert_eq!(EnvironmentSpec::new("f", "d").globals(false), vec![pair("OS", "unix")]);
}

#[test]
fn load_keeps_the_first_registry() {
    let mut r = runner();
    let mut first = Registry::new();
    first.set_default("one");
    let mut second = Registry::new();
    second.set_default("two");
    r.load(first);
    assert!(r.is_loaded());
    r.load(second);
    assert_eq!(r.default_target(), Ok("one".to_string()));
}

#[test]
fn default_target_fails_without_a_default() {
    let mut r = runner();
    r.load(sample_registry());
    assert_eq!(r.default_target(), Err(Error::NoDefaultTask));
}

#[test]
fn task_list_is_in_the_order_of_the_names() {
    let mut r = runner();
    r.load(sample_registry());
    let list = r.task_list();
    let mut shown = Vec::new();
    for task in &list {
        shown.push(task.name().clone());
    }
    assert_eq!(shown, names(&["build", "clean", "pkg"]));
    assert_eq!(list[0].description(), &Some("compiles".to_string()));
}

#[test]
fn resolve_task_adds_to_the_graph() {
    let mut r = runner();
    r.load(sample_registry());
    assert_eq!(r.resolve_task("clean"), Ok(()));
    assert_eq!(r.resolve_task("pkg"), Ok(()));
    assert_eq!(r.targets(), &names(&["clean", "pkg"]));
    let mut nodes = Vec::new();
    for task in r.graph().tasks() {
        nodes.push(task.name().clone());
    }
    assert_eq!(nodes, names(&["clean", "pkg", "build"]));
    assert_eq!(r.watched_paths(), names(&["bin", "pkg.tar", "src.txt", "bin"]));
}

#[test]
fn failed_resolve_leaves_the_graph() {
    let mut r = runner();
    r.load(sample_registry());
    assert_eq!(r.resolve_task("build"), Ok(()));
    assert_eq!(r.resolve_task("main.o"), Err(Error::UnknownTask("main.c".to_string())));
    assert_eq!(r.resolve_task("nothing"), Err(Error::UnknownTask("nothing".to_string())));
    assert_eq!(r.targets(), &names(&["build"]));
    assert_eq!(r.graph().len(), 1);
}

#[test]
fn start_schedules_only_what_is_dirty() {
    let mut r = runner();
    r.load(sample_registry());
    r.resolve_task("pkg").unwrap();
    let mut files = Snapshot::new();
    files.record("src.txt", Mtime::new(100, 0));
    files.record("bin", Mtime::new(200, 0));
    files.record("pkg.tar", Mtime::new(300, 0));
    let fresh = r.start(&files);
    assert_eq!(fresh.total(), 0);
    assert!(fresh.finished());
    files.record("src.txt", Mtime::new(250, 0));
    let mut stale = r.start(&files);
    assert_eq!(stale.total(), 2);
    assert_eq!(stale.worker_count(), 2);
    assert_eq!(
        stale.ready(1),
        vec![Dispatch { worker: 1, task: "build".to_string(), progress: 1, total: 2 }]
    );
    assert_eq!(stale.slot(0), Some(Slot::Starting));
}

#[test]
fn start_schedules_everything_when_set_to_run_always() {
    let mut r = runner();
    r.load(sample_registry());
    r.resolve_task("pkg").unwrap();
    r.always_run();
    r.jobs(1);
    let mut files = Snapshot::new();
    files.record("src.txt", Mtime::new(100, 0));
    files.record("bin", Mtime::new(200, 0));
    files.record("pkg.tar", Mtime::new(300, 0));
    let mut c = r.start(&files);
    assert_eq!(c.total(), 2);
    assert_eq!(c.worker_count(), 1);
    assert_eq!(c.ready(0)[0].task, "build");
    assert_eq!(c.ready(0)[0].task, "pkg");
    assert!(c.finished());
}

#[test]
fn progress_line_shows_place_total_and_name() {
    assert_eq!(progress_line(1, 3, "c"), "[1/3] c");
    assert_eq!(progress_line(10, 120, "build/foo.o"), "[10/120] build/foo.o");
    assert_eq!(progress_line(0, 0, ""), "[0/0] ");
}

#[test]
fn worker_runs_the_action_of_a_task() {
    let mut registry = sample_registry();
    let spec = EnvironmentSpec::new("Rotefile", ".");
    assert_eq!(work_on(&mut registry, &spec, "build"), Ok(Work::Invoke(1)));
    assert_eq!(work_on(&mut registry, &spec, "x.o"), Ok(Work::Invoke(4)));
}

#[test]
fn worker_skips_a_task_without_action() {
    let mut registry = Registry::new();
    registry.insert_task(Task::new("group").unwrap().with_dependency("a")).unwrap();
    let spec = EnvironmentSpec::new("Rotefile", ".");
    assert_eq!(work_on(&mut registry, &spec, "group"), Ok(Work::Skip));
}

#[test]
fn worker_runs_nothing_in_a_dry_run() {
    let mut r = runner();
    r.dry_run();
    let mut registry = sample_registry();
    assert_eq!(work_on(&mut registry, r.spec(), "build"), Ok(Work::Skip));
    assert_eq!(work_on(&mut registry, r.spec(), "x.o"), Ok(Work::Skip));
}

#[test]
fn worker_fails_on_a_name_without_task_or_rule() {
    let mut registry = sample_registry();
    let spec = EnvironmentSpec::new("Rotefile", ".");
    assert_eq!(
        work_on(&mut registry, &spec, "nothing"),
        Err(Error::NoMatchingTask("nothing".to_string()))
    );
}

#[test]
fn worker_fails_where_the_rule_fails() {
    let mut registry = Registry::new();
    registry.insert_rule(Rule::new("*.o").with_input("$5"));
    let spec = EnvironmentSpec::new("Rotefile", ".");
    assert_eq!(
        work_on(&mut registry, &spec, "a.o"),
        Err(Error::RuleInstantiationFailed("*.o".to_string(), "a.o".to_string()))
    );
}

#[test]
fn print_task_list_gives_the_lines() {
    let mut r = runner();
    let mut registry = sample_registry();
    registry.set_default("pkg");
    r.load(registry);
    assert_eq!(
        r.print_task_list(),
        names(&[
            "Available tasks:",
            "  build           compiles",
            "  clean           ",
            "  pkg             ",
            "",
            "Default task: pkg",
        ])
    );
}

#[test]
fn print_task_list_without_default_or_tasks() {
    let mut r = runner();
    r.load(Registry::new());
    assert_eq!(r.print_task_list(), names(&["Available tasks:"]));
}

#[test]
fn run_resolves_and_gives_the_coordinator() {
    let mut r = runner();
    r.load(sample_registry());
    let mut c = r.run(&names(&["clean", "pkg"]), &Snapshot::new()).unwrap();
    assert_eq!(r.targets(), &names(&["clean", "pkg"]));
    assert_eq!(c.total(), 3);
    assert_eq!(c.worker_count(), 3);
    assert_eq!(c.ready(0)[0].task, "clean");
    assert_eq!(c.ready(1)[0].task, "build");
    assert_eq!(c.ready(2), Vec::new());
    assert_eq!(c.ready(1)[0].task, "pkg");
    assert!(c.finished());
}

#[test]
fn run_fails_on_a_target_that_cannot_be_resolved() {
    let mut r = runner();
    r.load(sample_registry());
    assert_eq!(
        r.run(&names(&["clean", "lib.o"]), &Snapshot::new()).err(),
        Some(Error::UnknownTask("lib.c".to_string()))
    );
    assert!(r.targets().is_empty());
    assert_eq!(r.graph().len(), 0);
}

#[test]
fn run_without_targets_runs_nothing() {
    let mut r = runner();
    r.load(sample_registry());
    let c = r.run(&Vec::new(), &Snapshot::new()).unwrap();
    assert_eq!(c.total(), 0);
    assert!(c.finished());
}

#[test]
fn run_default_runs_the_default_target() {
    let mut r = runner();
    let mut registry = sample_registry();
    registry.set_default("build");
    r.load(registry);
    let mut c = r.run_default(&Snapshot::new()).unwrap();
    assert_eq!(r.targets(), &names(&["build"]));
    assert_eq!(c.total(), 1);
    assert_eq!(c.ready(0)[0].line(), "[1/1] build");
}

#[test]
fn run_default_fails_without_a_default() {
    let mut r = runner();
    r.load(sample_registry());
    assert_eq!(r.run_default(&Snapshot::new()).err(), Some(Error::NoDefaultTask));
}

#[test]
fn run_default_fails_on_an_unknown_default() {
    let mut r = runner();
    let mut registry = sample_registry();
    registry.set_default("nothing");
    r.load(registry);
    assert_eq!(
        r.run_default(&Snapshot::new()).err(),
        Some(Error::UnknownTask("nothing".to_string()))
    );
}
