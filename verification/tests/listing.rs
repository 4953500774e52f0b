use rote::listing::{by_name, comes_before, name_cell};
use rote::task::Task;

fn shown(tasks: &Vec<Task>) -> Vec<(String, Option<u64>)> {
    let mut out = Vec::new();
    for task in tasks {
        out.push((task.name().clone(), task.action()));
    }
    out
}

fn entry(name: &str, action: u64) -> (String, Option<u64>) {
    (name.to_string(), Some(action))
}

#[test]
fn order_of_strings() {
    assert!(comes_before("", ""));
    assert!(comes_before("", "a"));
    assert!(!comes_before("a", ""));
    assert!(comes_before("a", "a"));
    assert!(comes_before("a", "b"));
    assert!(!comes_before("b", "a"));
    assert!(comes_before("ab", "abc"));
    assert!(!comes_before("abc", "ab"));
    assert!(comes_before("abd", "b"));
    assert!(comes_before("B", "a"));
    assert!(comes_before("a-b", "a_b"));
    assert!(comes_before("z", "\u{e9}"));
}

#[test]
fn order_of_strings_agrees_with_the_standard_order() {
    let samples = ["", "a", "ab", "abc", "b", "B", "build", "build-all", "\u{e9}t\u{e9}", "zz", "z\u{1F600}"];
    for a in samples {
        for b in samples {
            assert_eq!(comes_before(a, b), a <= b);
        }
    }
}

#[test]
fn by_name_sorts() {
    let tasks = vec![
        Task::new("pkg").unwrap().with_action(1),
        Task::new("build").unwrap().with_action(2),
        Task::new("clean").unwrap().with_action(3),
        Task::new("all").unwrap().with_action(4),
    ];
    assert_eq!(
        shown(&by_name(tasks)),
        vec![entry("all", 4), entry("build", 2), entry("clean", 3), entry("pkg", 1)]
    );
}

#[test]
fn by_name_of_nothing_and_of_one() {
    assert!(by_name(Vec::new()).is_empty());
    assert_eq!(shown(&by_name(vec![Task::new("x").unwrap().with_action(9)])), vec![entry("x", 9)]);
}

#[test]
fn name_cell_pads_to_the_column() {
    assert_eq!(name_cell(&Task::new("build").unwrap()), "  build           ");
    assert_eq!(name_cell(&Task::new("exactly-16-chars").unwrap()), "  exactly-16-chars");
    assert_eq!(
        name_cell(&Task::new("a-name-longer-than-the-column").unwrap()),
        "  a-name-longer-than-the-column"
    );
}
