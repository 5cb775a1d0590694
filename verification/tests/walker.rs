use treecat::entry::{Entry, Payload, TraversalContext};
use treecat::order::{names_in_order, same_text};
use treecat::text::write_line;
use treecat::walker::{
    admits, arrange, ignore_verdict, name_passes, needs_ignore_check, place_entry, select,
};

fn file(name: &str) -> Entry {
    Entry { name: name.to_string(), ignored: false, payload: Payload::File(Vec::new()) }
}

fn dir(name: &str, children: Vec<Entry>) -> Entry {
    Entry { name: name.to_string(), ignored: false, payload: Payload::Directory(children) }
}

fn ignored(mut entry: Entry) -> Entry {
    entry.ignored = true;
    entry
}

fn ctx(include_hidden: bool, honor_ignore: bool) -> TraversalContext {
    TraversalContext { root: "r".to_string(), include_hidden, honor_ignore, summary: false }
}

fn names(entries: &[Entry]) -> Vec<&str> {
    entries.iter().map(|e| e.name.as_str()).collect()
}

#[test]
fn names_compare_byte_by_byte() {
    assert!(names_in_order("a", "b"));
    assert!(!names_in_order("b", "a"));
    assert!(names_in_order("a", "a"));
    assert!(names_in_order("", "a"));
    assert!(names_in_order("", ""));
    assert!(!names_in_order("a", ""));
    assert!(names_in_order("a", "ab"));
    assert!(!names_in_order("ab", "a"));
    assert!(names_in_order("Z", "a"));
    assert!(!names_in_order("a", "Z"));
    assert!(names_in_order("10", "9"));
    assert!(names_in_order("z", "é"));
    assert!(names_in_order("é", "日"));
    assert!(!names_in_order("日", "é"));
}

#[test]
fn texts_are_the_same_only_if_every_byte_is() {
    assert!(same_text("", ""));
    assert!(same_text("abc", "abc"));
    assert!(same_text("é", "é"));
    assert!(!same_text("abc", "abd"));
    assert!(!same_text("abc", "ab"));
    assert!(!same_text("", "a"));
    assert!(!same_text("A", "a"));
}

#[test]
fn names_pass_unless_special_or_hidden() {
    let shown = ctx(false, false);
    assert!(name_passes(&shown, "a"));
    assert!(name_passes(&shown, "a.b"));
    assert!(name_passes(&shown, ""));
    assert!(!name_passes(&shown, ".a"));
    assert!(!name_passes(&shown, "."));
    assert!(!name_passes(&shown, ".."));
    assert!(!name_passes(&shown, "..."));
    let all = ctx(true, false);
    assert!(name_passes(&all, ".a"));
    assert!(name_passes(&all, "..."));
    assert!(!name_passes(&all, "."));
    assert!(!name_passes(&all, ".."));
}

#[test]
fn ignore_rules_are_asked_only_where_they_can_matter() {
    assert!(needs_ignore_check(&ctx(false, true), "a"));
    assert!(!needs_ignore_check(&ctx(false, true), ".a"));
    assert!(needs_ignore_check(&ctx(true, true), ".a"));
    assert!(!needs_ignore_check(&ctx(true, true), ".."));
    assert!(!needs_ignore_check(&ctx(false, false), "a"));
    assert!(!needs_ignore_check(&ctx(true, false), "a"));
}

#[test]
fn a_failed_ignore_check_counts_as_not_ignored() {
    assert!(!ignore_verdict(None));
    assert!(!ignore_verdict(Some(false)));
    assert!(ignore_verdict(Some(true)));
}

#[test]
fn entries_are_admitted_by_name_and_ignore_rules() {
    assert!(admits(&ctx(false, true), &file("a")));
    assert!(!admits(&ctx(false, true), &ignored(file("a"))));
    assert!(admits(&ctx(false, false), &ignored(file("a"))));
    assert!(!admits(&ctx(false, false), &file(".a")));
    assert!(admits(&ctx(true, false), &file(".a")));
    assert!(!admits(&ctx(true, true), &ignored(file(".a"))));
    assert!(!admits(&ctx(true, false), &dir("..", vec![])));
}

#[test]
fn select_filters_and_sorts_one_level() {
    let entries = vec![
        file("b"),
        dir("d", vec![file("z"), file(".y"), file("a")]),
        file(".hidden"),
        ignored(file("skip")),
        file("a"),
    ];
    let shown = select(&ctx(false, true), entries);
    assert_eq!(
        shown,
        vec![file("a"), file("b"), dir("d", vec![file("z"), file(".y"), file("a")])]
    );
}

#[test]
fn select_of_nothing_is_nothing() {
    assert_eq!(select(&ctx(false, false), Vec::new()), Vec::new());
    assert_eq!(select(&ctx(false, false), vec![file(".a"), file(".b")]), Vec::new());
}

#[test]
fn arrange_filters_and_sorts_every_level() {
    let entries = vec![
        file("b"),
        dir(
            "d",
            vec![
                file("z"),
                file(".y"),
                dir("m", vec![ignored(file("q")), file("p"), file("o")]),
                file("a"),
            ],
        ),
        dir(".git", vec![file("HEAD")]),
        file("a"),
    ];
    let shown = arrange(&ctx(false, true), entries);
    assert_eq!(
        shown,
        vec![
            file("a"),
            file("b"),
            dir("d", vec![file("a"), dir("m", vec![file("o"), file("p")]), file("z")]),
        ]
    );
}

#[test]
fn arrange_keeps_what_the_settings_admit() {
    let entries = vec![ignored(file("b")), dir(".a", vec![ignored(file(".c"))])];
    let shown = arrange(&ctx(true, false), entries);
    assert_eq!(names(&shown), vec![".a", "b"]);
    assert_eq!(shown[0], dir(".a", vec![ignored(file(".c"))]));
}

#[test]
fn arrange_twice_is_arrange_once() {
    let entries = vec![file("c"), dir("b", vec![file("y"), file("x")]), file(".a")];
    let once = arrange(&ctx(false, false), entries);
    let expected = vec![dir("b", vec![file("x"), file("y")]), file("c")];
    assert_eq!(once, expected);
    assert_eq!(arrange(&ctx(false, false), once), expected);
}

#[test]
fn place_entry_goes_behind_names_that_come_no_later() {
    let mut sorted = vec![file("a"), file("c"), file("e")];
    place_entry(&mut sorted, file("d"));
    assert_eq!(names(&sorted), vec!["a", "c", "d", "e"]);
    place_entry(&mut sorted, file("0"));
    assert_eq!(names(&sorted), vec!["0", "a", "c", "d", "e"]);
    place_entry(&mut sorted, file("z"));
    assert_eq!(names(&sorted), vec!["0", "a", "c", "d", "e", "z"]);
    place_entry(&mut sorted, dir("c", vec![]));
    assert_eq!(names(&sorted), vec!["0", "a", "c", "c", "d", "e", "z"]);
    assert_eq!(sorted[2], file("c"));
    assert_eq!(sorted[3], dir("c", vec![]));
    let mut empty = Vec::new();
    place_entry(&mut empty, file("x"));
    assert_eq!(empty, vec![file("x")]);
}

#[test]
fn write_line_appends_the_row_and_a_line_break() {
    let mut out = String::from("a");
    write_line(&mut out, "b");
    write_line(&mut out, "");
    assert_eq!(out, "ab\n\n");
}
