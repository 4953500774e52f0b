use rote::error::Error;
use rote::script::{call_failure, extend_search_path, load_outcome, LoadStatus};
use rote::text::{chars_of, contains_text, copy_texts, owned, padded, position, same_str, text_of, to_decimal};

fn list(items: &[&str]) -> Vec<String> {
    let mut out = Vec::new();
    for item in items {
        out.push(item.to_string());
    }
    out
}

#[test]
fn chars_and_back() {
    assert_eq!(chars_of("a\u{e9}z"), vec!['a', '\u{e9}', 'z']);
    assert_eq!(chars_of(""), Vec::<char>::new());
    assert_eq!(text_of(&vec!['o', 'k']), "ok");
    assert_eq!(text_of(&Vec::new()), "");
    assert_eq!(text_of(&chars_of("build/\u{1F600}.o")), "build/\u{1F600}.o");
}

#[test]
fn decimal_of_small_and_large_numbers() {
    assert_eq!(to_decimal(0), "0");
    assert_eq!(to_decimal(7), "7");
    assert_eq!(to_decimal(10), "10");
    assert_eq!(to_decimal(12), "12");
    assert_eq!(to_decimal(1905), "1905");
    assert_eq!(to_decimal(1000000), "1000000");
    assert_eq!(to_decimal(usize::MAX), format!("{}", usize::MAX));
}

#[test]
fn padding_fills_up_to_the_width() {
    assert_eq!(padded("ab", 5), "ab   ");
    assert_eq!(padded("ab", 2), "ab");
    assert_eq!(padded("abc", 2), "abc");
    assert_eq!(padded("", 3), "   ");
    assert_eq!(padded("", 0), "");
    assert_eq!(padded("\u{e9}\u{e9}", 3), "\u{e9}\u{e9} ");
}

#[test]
fn positions_in_a_list() {
    let v = list(&["a", "b", "a", "c"]);
    assert_eq!(position(&v, &"a".to_string()), Some(0));
    assert_eq!(position(&v, &"c".to_string()), Some(3));
    assert_eq!(position(&v, &"d".to_string()), None);
    assert!(contains_text(&v, &"b".to_string()));
    assert!(!contains_text(&v, &"".to_string()));
    assert_eq!(copy_texts(&v), v);
}

#[test]
fn same_text() {
    assert!(same_str("", ""));
    assert!(same_str("core", "core"));
    assert!(!same_str("core", "cores"));
    assert!(!same_str("core", "Core"));
    assert_eq!(owned("x y"), "x y");
}

#[test]
fn messages_of_errors() {
    assert_eq!(Error::Duplicate("a".to_string()).message(), "task 'a' is already defined");
    assert_eq!(Error::UnknownTask("foo.c".to_string()).message(), "no matching task or rule for 'foo.c'");
    assert_eq!(Error::Cycle(list(&["a", "b", "a"])).message(), "dependency cycle: a -> b -> a");
    assert_eq!(Error::Cycle(list(&["a"])).message(), "dependency cycle: a");
    assert_eq!(Error::Cycle(list(&[])).message(), "dependency cycle: ");
    assert_eq!(
        Error::RuleInstantiationFailed("*.o".to_string(), "x.o".to_string()).message(),
        "rule '*.o' cannot make task 'x.o'"
    );
    assert_eq!(Error::NoMatchingTask("t".to_string()).message(), "no matching task or rule for 't'");
    assert_eq!(Error::NoDefaultTask.message(), "no default task defined");
    assert_eq!(
        Error::LoadFailure("syntax error".to_string()).message(),
        "failed to load the build file: syntax error"
    );
    assert_eq!(
        Error::ActionFailure("build".to_string(), "exit 1".to_string()).message(),
        "task 'build' failed: exit 1"
    );
    assert_eq!(Error::ContextInitFailure.message(), "a worker failed to start");
    assert_eq!(Error::IoFailure.message(), "file system operation failed");
}

#[test]
fn error_copies_are_equal() {
    let errors = vec![
        Error::Duplicate("a".to_string()),
        Error::Cycle(list(&["a", "a"])),
        Error::ActionFailure("t".to_string(), "c".to_string()),
        Error::IoFailure,
    ];
    for e in &errors {
        assert_eq!(&e.clone(), e);
    }
}

#[test]
fn load_outcomes() {
    assert_eq!(load_outcome(Some("Rotefile"), LoadStatus::Done, ""), Ok(()));
    assert_eq!(load_outcome(Some("Rotefile"), LoadStatus::Done, "left over"), Ok(()));
    assert_eq!(
        load_outcome(Some("Rotefile"), LoadStatus::FileError, "cannot open"),
        Err(Error::LoadFailure("the file \"Rotefile\" could not be read".to_string()))
    );
    assert_eq!(
        load_outcome(Some("Rotefile"), LoadStatus::Failed, "Rotefile:3: unexpected symbol"),
        Err(Error::LoadFailure("Rotefile:3: unexpected symbol".to_string()))
    );
    assert_eq!(
        load_outcome(None, LoadStatus::Done, ""),
        Err(Error::LoadFailure("path contains invalid characters".to_string()))
    );
    assert_eq!(
        load_outcome(None, LoadStatus::Failed, "other"),
        Err(Error::LoadFailure("path contains invalid characters".to_string()))
    );
}

#[test]
fn call_failures() {
    assert_eq!(call_failure(Some("attempt to call a nil value")), "attempt to call a nil value");
    assert_eq!(call_failure(None), "unknown error");
}

#[test]
fn search_path_grows_at_its_end() {
    assert_eq!(extend_search_path("./?.lua", "lib/?.lua"), "./?.lua;lib/?.lua");
    assert_eq!(extend_search_path("", "x"), ";x");
}
