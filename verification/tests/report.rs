use treecat::entry::{Entry, Payload, TraversalContext};
use treecat::options::parse_args;
use treecat::report::{not_a_directory_message, render_report, root_label, run, InvalidTarget};

fn file(name: &str, content: &str) -> Entry {
    Entry {
        name: name.to_string(),
        ignored: false,
        payload: Payload::File(content.as_bytes().to_vec()),
    }
}

fn dir(name: &str, children: Vec<Entry>) -> Entry {
    Entry { name: name.to_string(), ignored: false, payload: Payload::Directory(children) }
}

fn ignored(mut entry: Entry) -> Entry {
    entry.ignored = true;
    entry
}

fn ctx(include_hidden: bool, honor_ignore: bool, summary: bool) -> TraversalContext {
    TraversalContext { root: ".".to_string(), include_hidden, honor_ignore, summary }
}

fn header(path: &str) -> String {
    format!("/////////////////////// The following file is: {} ///////////////////////\n", path)
}

#[test]
fn tree_lists_entries_in_ascending_order() {
    let entries = vec![file("b", ""), file("a", ""), file("c", "")];
    let out = render_report(&ctx(false, false, false), true, ".", entries);
    assert_eq!(out, ".\n├── a\n├── b\n└── c\n");
}

#[test]
fn single_child_uses_last_branch() {
    let entries = vec![dir("only", vec![file("leaf", "")])];
    let out = render_report(&ctx(false, false, false), true, "root", entries);
    assert_eq!(out, "root\n└── only\n    └── leaf\n");
    assert!(!out.contains("├── "));
}

#[test]
fn last_of_last_uses_blank_prefix() {
    let entries = vec![
        file("a", ""),
        dir("z", vec![file("m", ""), dir("y", vec![file("k", ""), file("x", "")])]),
    ];
    let out = render_report(&ctx(false, false, false), true, ".", entries);
    assert_eq!(
        out,
        ".\n├── a\n└── z\n    ├── m\n    └── y\n        ├── k\n        └── x\n"
    );
    assert!(!out.contains("│"));
}

#[test]
fn directory_before_the_last_uses_vertical_guide() {
    let entries = vec![dir("a", vec![dir("b", vec![file("c", "")]), file("d", "")]), file("e", "")];
    let out = render_report(&ctx(false, false, false), true, ".", entries);
    assert_eq!(
        out,
        ".\n├── a\n│   ├── b\n│   │   └── c\n│   └── d\n└── e\n"
    );
}

#[test]
fn nested_directories_carry_guides() {
    let entries = vec![
        dir("src", vec![file("main.rs", "fn main() {}\n"), dir("util", vec![file("x.rs", "")])]),
        file("README.md", "hi\n"),
    ];
    let out = render_report(&ctx(false, false, false), true, "proj", entries);
    assert_eq!(
        out,
        "proj\n├── README.md\n└── src\n    ├── main.rs\n    └── util\n        └── x.rs\n"
    );
}

#[test]
fn empty_directory_has_no_lines() {
    let out = render_report(&ctx(false, false, false), false, "empty", vec![]);
    assert_eq!(out, "empty\n");
    let out = render_report(&ctx(false, false, false), true, ".", vec![dir("d", vec![])]);
    assert_eq!(out, ".\n└── d\n");
}

#[test]
fn hidden_entries_absent_from_tree_and_dump() {
    let entries = vec![
        file(".env", "SECRET\n"),
        dir(".git", vec![file("config", "core\n")]),
        dir("src", vec![file(".hidden.rs", "x\n"), file("lib.rs", "y\n")]),
    ];
    let out = render_report(&ctx(false, false, false), false, ".", entries);
    let expected = format!(".\n└── src\n    └── lib.rs\n{}y\n\n\n", header("src/lib.rs"));
    assert_eq!(out, expected);
    assert!(!out.contains(".env"));
    assert!(!out.contains(".git"));
    assert!(!out.contains("config"));
    assert!(!out.contains(".hidden.rs"));
}

#[test]
fn hidden_entries_shown_when_included() {
    let entries = vec![file("b", "1\n"), dir(".a", vec![file("c", "2\n")])];
    let out = render_report(&ctx(true, false, false), false, ".", entries);
    let expected = format!(
        ".\n├── .a\n│   └── c\n└── b\n{}2\n\n\n{}1\n\n\n",
        header(".a/c"),
        header("b")
    );
    assert_eq!(out, expected);
}

#[test]
fn special_names_are_never_shown() {
    let entries = vec![dir(".", vec![file("x", "")]), dir("..", vec![]), file("...", "")];
    let out = render_report(&ctx(true, false, false), true, ".", entries);
    assert_eq!(out, ".\n└── ...\n");
}

#[test]
fn ignored_entries_absent_when_rules_are_honored() {
    let entries = vec![
        ignored(dir("target", vec![file("out.bin", "zz\n")])),
        file("main.rs", "m\n"),
        dir("src", vec![ignored(file("gen.rs", "g\n")), file("lib.rs", "l\n")]),
    ];
    let out = render_report(&ctx(false, true, false), false, ".", entries);
    let expected = format!(
        ".\n├── main.rs\n└── src\n    └── lib.rs\n{}m\n\n\n{}l\n\n\n",
        header("main.rs"),
        header("src/lib.rs")
    );
    assert_eq!(out, expected);
}

#[test]
fn ignored_entries_shown_when_rules_are_not_honored() {
    let entries = vec![ignored(file("b", "")), file("a", "")];
    let out = render_report(&ctx(false, false, false), true, ".", entries);
    assert_eq!(out, ".\n├── a\n└── b\n");
}

#[test]
fn tree_only_skips_content() {
    let entries = vec![file("a", "text\n")];
    let with = render_report(&ctx(false, false, false), false, ".", entries);
    let entries = vec![file("a", "text\n")];
    let without = render_report(&ctx(false, false, false), true, ".", entries);
    assert_eq!(without, ".\n└── a\n");
    assert_eq!(with, format!(".\n└── a\n{}text\n\n\n", header("a")));
}

#[test]
fn content_blocks_follow_the_order_of_the_tree() {
    let entries = vec![
        file("z.txt", "last\n"),
        dir("m", vec![file("b", "mb\n"), file("a", "ma\n")]),
        file("a.txt", "first\n"),
    ];
    let out = render_report(&ctx(false, false, false), false, "top", entries);
    let expected = format!(
        "top\n├── a.txt\n├── m\n│   ├── a\n│   └── b\n└── z.txt\n{}first\n\n\n{}ma\n\n\n{}mb\n\n\n{}last\n\n\n",
        header("a.txt"),
        header("m/a"),
        header("m/b"),
        header("z.txt")
    );
    assert_eq!(out, expected);
}

#[test]
fn order_is_by_bytes_and_case_sensitive() {
    let entries = vec![
        file("é", ""),
        file("b", ""),
        file("ab", ""),
        file("a", ""),
        file("B", ""),
        file("_x", ""),
        file("10", ""),
        file("9", ""),
    ];
    let out = render_report(&ctx(false, false, false), true, ".", entries);
    assert_eq!(
        out,
        ".\n├── 10\n├── 9\n├── B\n├── _x\n├── a\n├── ab\n├── b\n└── é\n"
    );
}

#[test]
fn entries_of_one_name_keep_their_listing_order() {
    let entries = vec![file("same", "first\n"), file("other", "o\n"), file("same", "second\n")];
    let out = render_report(&ctx(false, false, false), false, ".", entries);
    let expected = format!(
        ".\n├── other\n├── same\n└── same\n{}o\n\n\n{}first\n\n\n{}second\n\n\n",
        header("other"),
        header("same"),
        header("same")
    );
    assert_eq!(out, expected);
}

#[test]
fn entries_that_are_neither_file_nor_directory_have_a_line_but_no_block() {
    let entries = vec![
        Entry { name: "sock".to_string(), ignored: false, payload: Payload::Other },
        file("a", "x\n"),
    ];
    let out = render_report(&ctx(false, false, false), false, ".", entries);
    assert_eq!(out, format!(".\n├── a\n└── sock\n{}x\n\n\n", header("a")));
}

#[test]
fn summary_setting_reaches_the_content_blocks() {
    let text: String = (1..=12).map(|i| format!("l{}\n", i)).collect();
    let out = render_report(&ctx(false, false, true), false, ".", vec![file("f", &text)]);
    let expected = format!(
        ".\n└── f\n{}l1\nl2\nl3\nl4\nl5\nl6\nl7\nl8\nl9\nl10\n...\n\n",
        header("f")
    );
    assert_eq!(out, expected);
}

#[test]
fn root_label_of_the_current_directory_is_a_period() {
    assert_eq!(root_label(".", None), ".");
    assert_eq!(root_label(".", Some("ignored")), ".");
}

#[test]
fn root_label_is_the_last_component() {
    assert_eq!(root_label("/home/user/proj", Some("proj")), "proj");
    assert_eq!(root_label("proj/", Some("proj")), "proj");
}

#[test]
fn root_label_falls_back_to_the_path() {
    assert_eq!(root_label("..", None), "..");
    assert_eq!(root_label("/", None), "/");
}

#[test]
fn message_for_a_target_that_is_no_directory() {
    assert_eq!(not_a_directory_message("nope"), "Error: 'nope' is not a directory.");
    assert_eq!(not_a_directory_message(""), "Error: '' is not a directory.");
}

#[test]
fn a_target_that_is_no_directory_gives_the_error_and_no_output() {
    let options = parse_args(&["-s".to_string(), "missing/dir".to_string()]);
    let result = run(&options, false, Some("dir"), None);
    assert_eq!(result, Err(InvalidTarget { directory: "missing/dir".to_string() }));
    let message = result.unwrap_err().message();
    assert_eq!(message, "Error: 'missing/dir' is not a directory.");
    assert!(!message.contains("├── ") && !message.contains("└── "));
    assert!(!message.contains("The following file is"));
}

#[test]
fn a_run_puts_label_tree_and_blocks_together() {
    let options = parse_args(&["/work/proj".to_string()]);
    let listing = vec![
        file("b.txt", "bee\n"),
        dir(".git", vec![file("HEAD", "ref\n")]),
        ignored(file("build.log", "noise\n")),
        dir("a", vec![file("Cargo.lock", "locked\n")]),
    ];
    let result = run(&options, true, Some("proj"), Some(listing));
    let expected = format!(
        "proj\n├── a\n│   └── Cargo.lock\n└── b.txt\n{}(File contents skipped)\n\n{}bee\n\n\n",
        header("a/Cargo.lock"),
        header("b.txt")
    );
    assert_eq!(result, Ok(expected));
}

#[test]
fn a_run_follows_the_flags() {
    let options = parse_args(&["-t".to_string(), "-a".to_string()]);
    let listing = vec![file("x", "1\n"), file(".y", "2\n")];
    let result = run(&options, false, None, Some(listing));
    assert_eq!(result, Ok(".\n├── .y\n└── x\n".to_string()));
}

#[test]
fn a_run_on_an_empty_directory_gives_the_label_alone() {
    let options = parse_args(&["..".to_string()]);
    assert_eq!(run(&options, true, None, Some(Vec::new())), Ok("..\n".to_string()));
}
