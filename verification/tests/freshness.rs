use rote::freshness::{is_up_to_date, Mtime, Snapshot, Stamp};

fn paths(items: &[&str]) -> Vec<String> {
    let mut out = Vec::new();
    for item in items {
        out.push(item.to_string());
    }
    out
}

fn snapshot(files: &[(&str, i64)]) -> Snapshot {
    let mut out = Snapshot::new();
    for (path, seconds) in files {
        out.record(path, Mtime::new(*seconds, 0));
    }
    out
}

#[test]
fn task_without_outputs_is_never_up_to_date() {
    let files = snapshot(&[("src.txt", 100)]);
    assert!(!is_up_to_date(&paths(&["src.txt"]), &paths(&[]), &files));
    assert!(!is_up_to_date(&paths(&[]), &paths(&[]), &files));
}

#[test]
fn missing_output_is_not_up_to_date() {
    let files = snapshot(&[("src.txt", 100), ("a", 200)]);
    assert!(!is_up_to_date(&paths(&["src.txt"]), &paths(&["bin"]), &files));
    assert!(!is_up_to_date(&paths(&["src.txt"]), &paths(&["a", "bin"]), &files));
    assert!(!is_up_to_date(&paths(&[]), &paths(&["bin"]), &files));
}

#[test]
fn output_newer_than_input_is_up_to_date() {
    let files = snapshot(&[("src.txt", 100), ("bin", 200)]);
    assert!(is_up_to_date(&paths(&["src.txt"]), &paths(&["bin"]), &files));
}

#[test]
fn output_as_old_as_input_is_up_to_date() {
    let files = snapshot(&[("src.txt", 100), ("bin", 100)]);
    assert!(is_up_to_date(&paths(&["src.txt"]), &paths(&["bin"]), &files));
}

#[test]
fn input_newer_than_output_is_not_up_to_date() {
    let files = snapshot(&[("src.txt", 201), ("bin", 200)]);
    assert!(!is_up_to_date(&paths(&["src.txt"]), &paths(&["bin"]), &files));
}

#[test]
fn newest_input_is_held_against_oldest_output() {
    let files = snapshot(&[("a", 10), ("b", 30), ("x", 40), ("y", 20)]);
    assert!(!is_up_to_date(&paths(&["a", "b"]), &paths(&["x", "y"]), &files));
    assert!(is_up_to_date(&paths(&["a"]), &paths(&["x", "y"]), &files));
    assert!(is_up_to_date(&paths(&["a", "b"]), &paths(&["x"]), &files));
    assert!(!is_up_to_date(&paths(&["b", "a"]), &paths(&["y", "x"]), &files));
}

#[test]
fn missing_input_does_not_force_a_run() {
    let files = snapshot(&[("bin", 200), ("a", 100)]);
    assert!(is_up_to_date(&paths(&["gone.txt"]), &paths(&["bin"]), &files));
    assert!(is_up_to_date(&paths(&["gone.txt", "a"]), &paths(&["bin"]), &files));
}

#[test]
fn existing_outputs_without_inputs_are_up_to_date() {
    let files = snapshot(&[("bin", 200)]);
    assert!(is_up_to_date(&paths(&[]), &paths(&["bin"]), &files));
}

#[test]
fn nanoseconds_decide_within_a_second() {
    let mut files = Snapshot::new();
    files.record("in", Mtime::new(5, 500));
    files.record("out", Mtime::new(5, 499));
    assert!(!is_up_to_date(&paths(&["in"]), &paths(&["out"]), &files));
    files.record("out", Mtime::new(5, 500));
    assert!(is_up_to_date(&paths(&["in"]), &paths(&["out"]), &files));
    files.record("in", Mtime::new(4, 999_999_999));
    assert!(is_up_to_date(&paths(&["in"]), &paths(&["out"]), &files));
}

#[test]
fn mtime_order() {
    assert!(Mtime::new(1, 0).not_after(&Mtime::new(1, 0)));
    assert!(Mtime::new(1, 5).not_after(&Mtime::new(2, 0)));
    assert!(!Mtime::new(2, 0).not_after(&Mtime::new(1, 5)));
    assert!(Mtime::new(-3, 0).not_after(&Mtime::new(-2, 0)));
    assert!(!Mtime::new(1, 6).not_after(&Mtime::new(1, 5)));
}

#[test]
fn snapshot_keeps_the_last_record_of_a_path() {
    let mut files = Snapshot::new();
    assert_eq!(files.mtime("a"), None);
    files.record("a", Mtime::new(1, 0));
    files.record("b", Mtime::new(2, 0));
    assert_eq!(files.mtime("a"), Some(Mtime::new(1, 0)));
    files.record("a", Mtime::new(3, 0));
    assert_eq!(files.mtime("a"), Some(Mtime::new(3, 0)));
    assert_eq!(files.mtime("b"), Some(Mtime::new(2, 0)));
    assert_eq!(files.mtime("c"), None);
}

#[test]
fn unreadable_output_is_not_up_to_date() {
    let mut files = snapshot(&[("src.txt", 100)]);
    files.record_unreadable("bin");
    assert!(!is_up_to_date(&paths(&["src.txt"]), &paths(&["bin"]), &files));
    assert!(!is_up_to_date(&paths(&[]), &paths(&["bin"]), &files));
}

#[test]
fn unreadable_input_is_not_up_to_date() {
    let mut files = snapshot(&[("bin", 200), ("a", 100)]);
    files.record_unreadable("src.txt");
    assert!(!is_up_to_date(&paths(&["src.txt"]), &paths(&["bin"]), &files));
    assert!(!is_up_to_date(&paths(&["a", "src.txt"]), &paths(&["bin"]), &files));
    assert!(is_up_to_date(&paths(&["a"]), &paths(&["bin"]), &files));
}

#[test]
fn snapshot_tells_unreadable_from_missing() {
    let mut files = Snapshot::new();
    files.record_unreadable("locked");
    files.record("open", Mtime::new(7, 1));
    assert_eq!(files.stamp("locked"), Some(Stamp::Unreadable));
    assert_eq!(files.stamp("open"), Some(Stamp::At(Mtime::new(7, 1))));
    assert_eq!(files.stamp("gone"), None);
    assert_eq!(files.mtime("locked"), None);
    assert_eq!(files.mtime("open"), Some(Mtime::new(7, 1)));
    files.record("locked", Mtime::new(8, 0));
    assert_eq!(files.stamp("locked"), Some(Stamp::At(Mtime::new(8, 0))));
    files.record_unreadable("open");
    assert_eq!(files.mtime("open"), None);
}
