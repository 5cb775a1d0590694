//! The whole result: the root's label, the tree, and the content blocks.

use vstd::prelude::*;
use vstd::string::*;
use crate::content::{cat_files_buffer, dump_rows};
use crate::entry::{nodes_of, Entry, Node, TraversalContext};
use crate::options::{context_of, Options};
use crate::order::same_text;
use crate::text::{lemma_lines_text_concat, lemma_lines_text_one, lines_text, write_line};
use crate::tree::{print_tree_buffer, tree_rows};
use crate::walker::{arrange, arranged};

verus! {

/// The target of a run is missing or is no directory.
#[derive(Debug, PartialEq, Eq)]
pub struct InvalidTarget {
    /// The target as the user named it.
    pub directory: String,
}

/// The first line of the result: `.` for the current directory, else the
/// last component of the path, and the path itself where it has none.
pub open spec fn label_of(directory: Seq<char>, last_component: Option<Seq<char>>) -> Seq<char> {
    if directory == "."@ {
        "."@
    } else {
        match last_component {
            Some(name) => name,
            None => directory,
        }
    }
}

/// The text of a name that may be missing.
pub open spec fn text_of_name(name: Option<&str>) -> Option<Seq<char>> {
    match name {
        Some(name) => Some(name@),
        None => None,
    }
}

/// The lines of the result for a root whose entries are `s`.
pub open spec fn report_rows(
    ctx: TraversalContext,
    tree_only: bool,
    label: Seq<char>,
    s: Seq<Node>,
) -> Seq<Seq<char>> {
    let shown = arranged(ctx, s);
    let blocks = if tree_only {
        Seq::empty()
    } else {
        dump_rows(ctx.summary, shown, Seq::empty())
    };
    seq![label] + tree_rows(shown, Seq::empty()) + blocks
}

/// What is said when the target is no directory.
pub open spec fn not_a_directory_text(directory: Seq<char>) -> Seq<char> {
    "Error: '"@ + directory + "' is not a directory."@
}

/// The label of the root. `last_component` is the last component of
/// `directory`, if it has one.
pub fn root_label(directory: &str, last_component: Option<&str>) -> (r: String)
    ensures
        r@ == label_of(directory@, text_of_name(last_component)),
{
    if same_text(directory, ".") {
        ".".to_owned()
    } else {
        match last_component {
            Some(name) => name.to_owned(),
            None => directory.to_owned(),
        }
    }
}

/// The message for a target that is no directory.
pub fn not_a_directory_message(directory: &str) -> (r: String)
    ensures
        r@ == not_a_directory_text(directory@),
{
    let mut message = "Error: '".to_owned();
    message.append(directory);
    message.append("' is not a directory.");
    message
}

impl InvalidTarget {
    /// What is said to the user.
    pub fn message(&self) -> (r: String)
        ensures
            r@ == not_a_directory_text(self.directory@),
    {
        not_a_directory_message(self.directory.as_str())
    }
}

/// The result of a run: the label, the tree of the entries that are shown
/// and, unless only the tree is asked for, the content blocks of their
/// files.
pub fn render_report(
    ctx: &TraversalContext,
    tree_only: bool,
    label: &str,
    entries: Vec<Entry>,
) -> (r: String)
    ensures
        r@ == lines_text(report_rows(*ctx, tree_only, label@, nodes_of(entries@))),
{
    let shown = arrange(ctx, entries);
    let mut out = String::new();
    write_line(&mut out, label);
    print_tree_buffer(&shown, "", &mut out);
    if !tree_only {
        cat_files_buffer(&shown, "", ctx.summary, &mut out);
    }
    proof {
        reveal_strlit("");
        let s = nodes_of(shown@);
        let tree = tree_rows(s, Seq::empty());
        let blocks = if tree_only {
            Seq::empty()
        } else {
            dump_rows(ctx.summary, s, Seq::empty())
        };
        assert(""@ =~= Seq::<char>::empty());
        lemma_lines_text_one(label@);
        lemma_lines_text_concat(seq![label@], tree);
        lemma_lines_text_concat(seq![label@] + tree, blocks);
    }
    out
}

/// A whole run. `listing` holds the entries of the target, or nothing where
/// the target is missing or is no directory; `last_component` is the last
/// component of the target's path, if it has one. A target that is no
/// directory gives the error and no line of a result; every other run gives
/// its result.
pub fn run(
    options: &Options,
    honor_ignore: bool,
    last_component: Option<&str>,
    listing: Option<Vec<Entry>>,
) -> (r: Result<String, InvalidTarget>)
    ensures
        match listing {
            None => r matches Err(e) && e.directory@ == options.directory@,
            Some(entries) => r matches Ok(text) && text@ == lines_text(
                report_rows(
                    context_of(*options, honor_ignore),
                    options.tree_only,
                    label_of(options.directory@, text_of_name(last_component)),
                    nodes_of(entries@),
                ),
            ),
        },
{
    match listing {
        None => Err(InvalidTarget { directory: options.directory.clone() }),
        Some(entries) => {
            let ctx = options.context(honor_ignore);
            let label = root_label(options.directory.as_str(), last_component);
            Ok(render_report(&ctx, options.tree_only, label.as_str(), entries))
        },
    }
}

} // verus!
