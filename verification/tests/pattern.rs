use rote::pattern::{match_pattern, substitute_text};

fn caps(items: &[&str]) -> Vec<String> {
    let mut out = Vec::new();
    for item in items {
        out.push(item.to_string());
    }
    out
}

#[test]
fn literal_pattern_matches_only_itself() {
    assert_eq!(match_pattern("build", "build"), Some(caps(&[])));
    assert_eq!(match_pattern("build", "builds"), None);
    assert_eq!(match_pattern("build", "buil"), None);
    assert_eq!(match_pattern("build", ""), None);
    assert_eq!(match_pattern("", ""), Some(caps(&[])));
    assert_eq!(match_pattern("", "x"), None);
}

#[test]
fn wildcard_with_suffix_captures_the_stem() {
    assert_eq!(match_pattern("*.o", "foo.o"), Some(caps(&["foo"])));
    assert_eq!(match_pattern("*.o", ".o"), Some(caps(&[""])));
    assert_eq!(match_pattern("*.o", "foo.c"), None);
    assert_eq!(match_pattern("*.o", "foo.o.c"), None);
}

#[test]
fn wildcard_with_prefix_and_suffix() {
    assert_eq!(match_pattern("lib*.a", "libfoo.a"), Some(caps(&["foo"])));
    assert_eq!(match_pattern("lib*.a", "lib.a"), Some(caps(&[""])));
    assert_eq!(match_pattern("lib*.a", "foo.a"), None);
    assert_eq!(match_pattern("lib*", "libfoo"), Some(caps(&["foo"])));
}

#[test]
fn wildcard_stays_inside_one_segment() {
    assert_eq!(match_pattern("*.o", "build/foo.o"), None);
    assert_eq!(match_pattern("build/*.o", "build/foo.o"), Some(caps(&["foo"])));
    assert_eq!(match_pattern("*/*.o", "build/foo.o"), Some(caps(&["build", "foo"])));
    assert_eq!(match_pattern("*", "a/b"), None);
    assert_eq!(match_pattern("*", "ab"), Some(caps(&["ab"])));
    assert_eq!(match_pattern("*", ""), Some(caps(&[""])));
}

#[test]
fn earlier_wildcards_take_the_shortest_capture() {
    assert_eq!(match_pattern("*.*", "a.b.c"), Some(caps(&["a", "b.c"])));
    assert_eq!(match_pattern("*-*", "x-y-z"), Some(caps(&["x", "y-z"])));
    assert_eq!(match_pattern("**", "ab"), Some(caps(&["", "ab"])));
    assert_eq!(match_pattern("*a*", "banana"), Some(caps(&["b", "nana"])));
}

#[test]
fn search_goes_back_when_a_short_capture_leads_nowhere() {
    assert_eq!(match_pattern("*.c", "a.b.c"), Some(caps(&["a.b"])));
    assert_eq!(match_pattern("*ab", "aab"), Some(caps(&["a"])));
    assert_eq!(match_pattern("*a*b", "aacb"), Some(caps(&["", "ac"])));
    assert_eq!(match_pattern("*a*b", "aacbx"), None);
}

#[test]
fn template_without_references_is_itself() {
    assert_eq!(substitute_text("main.c", "foo.o", &caps(&["foo"])), Some("main.c".to_string()));
    assert_eq!(substitute_text("", "foo.o", &caps(&["foo"])), Some(String::new()));
}

#[test]
fn template_references_are_replaced() {
    assert_eq!(substitute_text("$1.c", "foo.o", &caps(&["foo"])), Some("foo.c".to_string()));
    assert_eq!(
        substitute_text("src/$2/$1.c", "a-b", &caps(&["a", "b"])),
        Some("src/b/a.c".to_string())
    );
    assert_eq!(substitute_text("$1$1", "x", &caps(&["ab"])), Some("abab".to_string()));
    assert_eq!(substitute_text("$0.d", "foo.o", &caps(&["foo"])), Some("foo.o.d".to_string()));
}

#[test]
fn template_reference_reads_one_digit() {
    assert_eq!(substitute_text("$10", "n", &caps(&["a"])), Some("a0".to_string()));
}

#[test]
fn template_dollar_without_digit_is_literal() {
    assert_eq!(substitute_text("$", "n", &caps(&[])), Some("$".to_string()));
    assert_eq!(substitute_text("a$b", "n", &caps(&[])), Some("a$b".to_string()));
    assert_eq!(substitute_text("$$1", "n", &caps(&["x"])), Some("$x".to_string()));
}

#[test]
fn template_reference_to_missing_capture_fails() {
    assert_eq!(substitute_text("$2.c", "foo.o", &caps(&["foo"])), None);
    assert_eq!(substitute_text("$1", "foo", &caps(&[])), None);
    assert_eq!(substitute_text("ok$9", "foo", &caps(&["a", "b"])), None);
}
