use rote::error::Error;
use rote::executor::{Coordinator, Dispatch, Slot};
use rote::schedule::Schedule;
use rote::task::Task;

fn task(name: &str, deps: &[&str]) -> Task {
    let mut out = Task::new(name).unwrap();
    for dep in deps {
        out = out.with_dependency(dep);
    }
    out
}

fn coordinator(tasks: Vec<Task>, jobs: usize) -> Coordinator {
    Coordinator::new(Schedule::from_tasks(tasks).unwrap(), jobs)
}

fn order(worker: usize, task: &str, progress: usize, total: usize) -> Dispatch {
    Dispatch { worker, task: task.to_string(), progress, total }
}

#[test]
fn worker_count_is_the_smaller_of_budget_and_tasks() {
    assert_eq!(coordinator(vec![task("a", &[]), task("b", &[])], 8).worker_count(), 2);
    assert_eq!(coordinator(vec![task("a", &[]), task("b", &[]), task("c", &[])], 2).worker_count(), 2);
    assert_eq!(coordinator(vec![task("a", &[])], 1).worker_count(), 1);
    assert_eq!(coordinator(vec![task("a", &[])], 0).worker_count(), 0);
    assert_eq!(coordinator(Vec::new(), 4).worker_count(), 0);
}

#[test]
fn empty_schedule_is_finished_at_once() {
    let c = coordinator(Vec::new(), 3);
    assert!(c.finished());
    assert_eq!(c.total(), 0);
    assert_eq!(c.outcome(), Ok(()));
}

#[test]
fn workers_start_without_being_free() {
    let c = coordinator(vec![task("a", &[]), task("b", &[])], 2);
    assert_eq!(c.slot(0), Some(Slot::Starting));
    assert_eq!(c.slot(1), Some(Slot::Starting));
    assert_eq!(c.slot(2), None);
    assert_eq!(c.handed_out(), 0);
    assert!(!c.finished());
}

#[test]
fn linear_chain_runs_in_order_with_progress_lines() {
    let mut c = coordinator(vec![task("c", &[]), task("b", &["c"]), task("a", &["b"])], 4);
    assert_eq!(c.worker_count(), 3);
    let first = c.ready(0);
    assert_eq!(first, vec![order(0, "c", 1, 3)]);
    assert_eq!(first[0].line(), "[1/3] c");
    assert_eq!(c.ready(1), Vec::new());
    assert_eq!(c.ready(2), Vec::new());
    assert!(!c.completed(0));
    let second = c.ready(0);
    assert!(c.completed(0));
    assert_eq!(second, vec![order(0, "b", 2, 3)]);
    assert_eq!(second[0].line(), "[2/3] b");
    let third = c.ready(0);
    assert_eq!(third, vec![order(0, "a", 3, 3)]);
    assert_eq!(third[0].line(), "[3/3] a");
    assert!(c.finished());
    assert_eq!(c.ready(0), Vec::new());
    assert!(c.completed(2));
    assert_eq!(c.outcome(), Ok(()));
}

#[test]
fn parallel_fanout() {
    let mut c = coordinator(
        vec![task("x", &[]), task("y", &[]), task("z", &[]), task("root", &["x", "y", "z"])],
        3,
    );
    assert_eq!(c.worker_count(), 3);
    assert_eq!(c.ready(0), vec![order(0, "x", 1, 4)]);
    assert_eq!(c.ready(1), vec![order(1, "y", 2, 4)]);
    assert_eq!(c.ready(2), vec![order(2, "z", 3, 4)]);
    assert_eq!(c.slot(0), Some(Slot::Busy(0)));
    assert_eq!(c.slot(1), Some(Slot::Busy(1)));
    assert_eq!(c.slot(2), Some(Slot::Busy(2)));
    assert_eq!(c.ready(1), Vec::new());
    assert_eq!(c.slot(1), Some(Slot::Idle));
    assert_eq!(c.ready(2), Vec::new());
    assert!(!c.finished());
    assert_eq!(c.ready(0), vec![order(0, "root", 4, 4)]);
    assert!(c.finished());
}

#[test]
fn one_signal_can_hand_out_to_several_free_workers() {
    let mut c = coordinator(
        vec![task("first", &[]), task("u", &["first"]), task("v", &["first"]), task("w", &["first"])],
        3,
    );
    assert_eq!(c.ready(2), vec![order(2, "first", 1, 4)]);
    assert_eq!(c.ready(0), Vec::new());
    assert_eq!(c.ready(1), Vec::new());
    assert_eq!(
        c.ready(2),
        vec![order(0, "u", 2, 4), order(1, "v", 3, 4), order(2, "w", 4, 4)]
    );
    assert!(c.finished());
}

#[test]
fn no_more_tasks_run_at_once_than_there_are_workers() {
    let mut c = coordinator(vec![task("a", &[]), task("b", &[]), task("c", &[]), task("d", &[])], 2);
    assert_eq!(c.worker_count(), 2);
    assert_eq!(c.ready(0), vec![order(0, "a", 1, 4)]);
    assert_eq!(c.ready(1), vec![order(1, "b", 2, 4)]);
    assert_eq!(c.handed_out(), 2);
    assert_eq!(c.ready(1), vec![order(1, "c", 3, 4)]);
    assert_eq!(c.ready(1), vec![order(1, "d", 4, 4)]);
    assert!(c.finished());
    assert_eq!(c.slot(0), Some(Slot::Busy(0)));
    assert!(!c.completed(0));
    assert_eq!(c.ready(0), Vec::new());
    assert!(c.completed(0));
}

#[test]
fn head_of_the_schedule_blocks_the_tasks_behind_it() {
    let mut c = coordinator(vec![task("a", &[]), task("b", &["a"]), task("free", &[])], 3);
    assert_eq!(c.ready(0), vec![order(0, "a", 1, 3)]);
    assert_eq!(c.ready(1), Vec::new());
    assert_eq!(c.ready(2), Vec::new());
    assert_eq!(c.ready(0), vec![order(0, "b", 2, 3), order(1, "free", 3, 3)]);
}

#[test]
fn dependency_outside_the_schedule_does_not_block() {
    let mut c = coordinator(vec![task("pkg", &["build"])], 1);
    assert_eq!(c.ready(0), vec![order(0, "pkg", 1, 1)]);
}

#[test]
fn signal_of_an_unknown_worker_changes_nothing() {
    let mut c = coordinator(vec![task("a", &[])], 1);
    assert_eq!(c.ready(5), Vec::new());
    assert_eq!(c.handed_out(), 0);
    assert_eq!(c.slot(0), Some(Slot::Starting));
}

#[test]
fn failed_action_stops_the_run() {
    let mut c = coordinator(vec![task("a", &[]), task("b", &[]), task("c", &[])], 2);
    assert_eq!(c.ready(0), vec![order(0, "a", 1, 3)]);
    assert_eq!(c.ready(1), vec![order(1, "b", 2, 3)]);
    c.exited(0, "exit status 2");
    assert_eq!(c.slot(0), Some(Slot::Gone));
    assert!(c.finished());
    assert_eq!(
        c.outcome(),
        Err(Error::ActionFailure("a".to_string(), "exit status 2".to_string()))
    );
    assert_eq!(c.ready(1), Vec::new());
    assert!(c.completed(1));
    assert!(!c.completed(0));
    assert_eq!(c.handed_out(), 2);
    assert_eq!(c.ready(0), Vec::new());
    assert_eq!(c.slot(0), Some(Slot::Gone));
}

#[test]
fn first_failure_is_the_one_reported() {
    let mut c = coordinator(vec![task("a", &[]), task("b", &[])], 2);
    c.ready(0);
    c.ready(1);
    c.exited(1, "second task broke");
    c.exited(0, "first task broke");
    assert_eq!(
        c.outcome(),
        Err(Error::ActionFailure("b".to_string(), "second task broke".to_string()))
    );
}

#[test]
fn worker_that_never_got_ready_fails_its_start() {
    let mut c = coordinator(vec![task("a", &[]), task("b", &[])], 2);
    c.exited(1, "no context");
    assert_eq!(c.outcome(), Err(Error::ContextInitFailure));
    assert_eq!(c.ready(0), Vec::new());
    assert!(c.finished());
}

#[test]
fn free_worker_leaves_without_failure() {
    let mut c = coordinator(vec![task("a", &[]), task("b", &["a"]), task("c", &["b"])], 2);
    assert_eq!(c.ready(0), vec![order(0, "a", 1, 3)]);
    assert_eq!(c.ready(1), Vec::new());
    c.exited(1, "closed");
    assert_eq!(c.outcome(), Ok(()));
    assert_eq!(c.ready(0), vec![order(0, "b", 2, 3)]);
    assert_eq!(c.ready(0), vec![order(0, "c", 3, 3)]);
    assert!(c.finished());
    c.exited(7, "nobody");
    assert_eq!(c.outcome(), Ok(()));
}

#[test]
fn every_task_is_handed_out_once() {
    let mut c = coordinator(
        vec![task("a", &[]), task("b", &[]), task("c", &["a"]), task("d", &["b", "c"]), task("e", &[])],
        2,
    );
    let mut seen: Vec<String> = Vec::new();
    let mut turn = 0;
    while !c.finished() {
        for sent in c.ready(turn % 2) {
            seen.push(sent.task);
        }
        turn += 1;
        assert!(turn < 100);
    }
    assert_eq!(
        seen,
        vec!["a".to_string(), "b".to_string(), "c".to_string(), "d".to_string(), "e".to_string()]
    );
}
