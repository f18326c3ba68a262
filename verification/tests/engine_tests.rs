use anew::engine::{accept_all, needs_newline, plan_run, sort_lines};
use anew::lines::{split_lines, trim_bytes};
use anew::seen::SeenSet;

fn b(s: &str) -> Vec<u8> {
    s.as_bytes().to_vec()
}

fn bs(strs: &[&str]) -> Vec<Vec<u8>> {
    strs.iter().map(|s| b(s)).collect()
}

#[test]
fn accept_novel_lines_in_order() {
    let mut seen = SeenSet::new();
    let input = bs(&["z", "y", "z", "x"]);
    let added = accept_all(&mut seen, &input, false);
    assert_eq!(added, bs(&["z", "y", "x"]));
    assert_eq!(seen.snapshot(), bs(&["z", "y", "x"]));
}

#[test]
fn duplicate_rejected_without_mutation() {
    let mut seen = SeenSet::new();
    assert!(seen.accept(&b("line"), false));
    assert!(!seen.accept(&b("line"), false));
    assert_eq!(seen.snapshot(), bs(&["line"]));
}

#[test]
fn empty_lines_never_accepted() {
    let mut seen = SeenSet::new();
    assert!(!seen.accept(&b(""), false));
    assert!(!seen.accept(&b(""), true));
    assert!(!seen.accept(&b("   \t "), true));
    assert!(seen.accept(&b("   "), false));
    assert_eq!(seen.snapshot(), bs(&["   "]));
}

#[test]
fn trim_equivalence_on() {
    let mut seen = SeenSet::new();
    assert!(seen.accept(&b("  a  "), true));
    assert!(!seen.accept(&b("a"), true));
    assert!(seen.contains(&b("\ta\n"), true));
    assert_eq!(seen.snapshot(), bs(&["a"]));
}

#[test]
fn trim_equivalence_off() {
    let mut seen = SeenSet::new();
    assert!(seen.accept(&b("  a  "), false));
    assert!(seen.accept(&b("a"), false));
    assert_eq!(seen.snapshot(), bs(&["  a  ", "a"]));
}

#[test]
fn trim_bytes_cases() {
    assert_eq!(trim_bytes(&b("  a  ")), b("a"));
    assert_eq!(trim_bytes(&b("\t x y \r\n")), b("x y"));
    assert_eq!(trim_bytes(&b("   ")), b(""));
    assert_eq!(trim_bytes(&b("")), b(""));
    assert_eq!(trim_bytes(&b("ab")), b("ab"));
}

#[test]
fn split_lines_cases() {
    assert_eq!(split_lines(&b("a\nb")), bs(&["a", "b"]));
    assert_eq!(split_lines(&b("a\nb\n")), bs(&["a", "b", ""]));
    assert_eq!(split_lines(&b("")), bs(&[""]));
    assert_eq!(split_lines(&b("\n\n")), bs(&["", "", ""]));
}

#[test]
fn scenario_append_with_trim() {
    // destination ["a", "b"], stream "b\nc\nb\n", trim on, sort off
    let existing = bs(&["a", "b"]);
    let plan = plan_run(&existing, &b("b\nc\nb\n"), true, false);
    assert_eq!(plan.added, bs(&["c"]));
    assert_eq!(plan.all, bs(&["a", "b", "c"]));
}

#[test]
fn scenario_rewrite_deduplicates() {
    // destination ["x", "x", "y"], no new input
    let existing = bs(&["x", "x", "y"]);
    let plan = plan_run(&existing, &b(""), false, false);
    assert_eq!(plan.added, bs(&[]));
    assert_eq!(plan.all, bs(&["x", "y"]));
}

#[test]
fn scenario_sorted_run() {
    // sort mode against an empty destination
    let existing = bs(&[]);
    let plan = plan_run(&existing, &b("item10\nitem2\nitem1\n"), false, true);
    assert_eq!(plan.added, bs(&["item1", "item2", "item10"]));
    assert_eq!(plan.all, bs(&["item1", "item2", "item10"]));
}

#[test]
fn second_run_adds_nothing() {
    let existing = bs(&["keep", "old"]);
    let input = b("old\nnew\nitem7\n");
    let first = plan_run(&existing, &input, false, false);
    assert_eq!(first.added, bs(&["new", "item7"]));
    let mut dest_after = existing.clone();
    dest_after.extend(first.added.iter().cloned());
    let second = plan_run(&dest_after, &input, false, false);
    assert_eq!(second.added, bs(&[]));
    assert_eq!(second.all, dest_after);
}

#[test]
fn sort_lines_natural_order() {
    let mut v = bs(&["file9", "file10", "file1", "alpha"]);
    sort_lines(&mut v);
    assert_eq!(v, bs(&["alpha", "file1", "file9", "file10"]));
}

#[test]
fn needs_newline_cases() {
    assert!(needs_newline(Some(b'x')));
    assert!(!needs_newline(Some(b'\n')));
    assert!(!needs_newline(None));
}
