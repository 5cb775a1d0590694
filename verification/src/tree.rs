//! The tree diagram.

use vstd::prelude::*;
use vstd::string::*;
use crate::entry::{lemma_nodes_of, node_of, nodes_of, Entry, Node, Payload, Shape};
use crate::text::{lemma_lines_text_concat, lemma_lines_text_one, lines_text, write_line};

verus! {

/// The marker in front of an entry's name: one for the last entry of its
/// directory, another for the entries before it.
pub open spec fn branch(last: bool) -> Seq<char> {
    if last {
        "└── "@
    } else {
        "├── "@
    }
}

/// What is added to the prefix for the entries below a directory: blanks
/// below the last entry of its level, a vertical guide below the others.
pub open spec fn guide(last: bool) -> Seq<char> {
    if last {
        "    "@
    } else {
        "│   "@
    }
}

/// The line of one entry.
pub open spec fn entry_row(prefix: Seq<char>, last: bool, name: Seq<char>) -> Seq<char> {
    prefix + branch(last) + name
}

/// The lines of the entries of `s` from position `i` on, each followed by
/// the lines of what is below it.
pub open spec fn tree_rows_from(s: Seq<Node>, i: int, prefix: Seq<char>) -> Seq<Seq<char>>
    decreases s, s.len() - i,
{
    if 0 <= i < s.len() {
        let last = i == s.len() - 1;
        let below = match s[i].shape {
            Shape::Directory(children) => tree_rows_from(children, 0, prefix + guide(last)),
            _ => Seq::empty(),
        };
        seq![entry_row(prefix, last, s[i].name)] + below + tree_rows_from(s, i + 1, prefix)
    } else {
        Seq::empty()
    }
}

/// The lines of the tree diagram of a directory whose entries are `s`, in
/// the order of `s`, depth first. An empty directory has no lines.
pub open spec fn tree_rows(s: Seq<Node>, prefix: Seq<char>) -> Seq<Seq<char>> {
    tree_rows_from(s, 0, prefix)
}

/// How many lines of the tree stand in front of the line of the entry at
/// `i`.
pub open spec fn rows_before(s: Seq<Node>, i: int, prefix: Seq<char>) -> int {
    tree_rows(s, prefix).len() - tree_rows_from(s, i, prefix).len()
}

/// Appends the tree diagram of `entries` to `out`, every line behind
/// `prefix`.
pub fn print_tree_buffer(entries: &Vec<Entry>, prefix: &str, out: &mut String)
    ensures
        final(out)@ == old(out)@ + lines_text(tree_rows(nodes_of(entries@), prefix@)),
    decreases entries,
{
    let total: usize = entries.len();
    let ghost s = nodes_of(entries@);
    proof {
        lemma_nodes_of(entries@);
    }
    let mut i: usize = 0;
    while i < total
        invariant
            i <= total,
            total == entries.len(),
            s == nodes_of(entries@),
            s.len() == entries.len(),
            forall|k: int| 0 <= k < entries.len() ==> #[trigger] s[k] == node_of(entries@[k]),
            old(out)@ + lines_text(tree_rows_from(s, 0, prefix@)) == out@ + lines_text(
                tree_rows_from(s, i as int, prefix@),
            ),
        decreases total - i,
    {
        let entry = &entries[i];
        let is_last = i == total - 1;
        let ghost before = out@;
        out.append(prefix);
        out.append(if is_last { "└── " } else { "├── " });
        write_line(out, entry.name.as_str());
        let ghost row = entry_row(prefix@, is_last, s[i as int].name);
        let ghost below = match s[i as int].shape {
            Shape::Directory(children) => tree_rows_from(children, 0, prefix@ + guide(is_last)),
            _ => Seq::empty(),
        };
        match &entry.payload {
            Payload::Directory(children) => {
                let mut deeper = prefix.to_owned();
                deeper.append(if is_last { "    " } else { "│   " });
                print_tree_buffer(children, deeper.as_str(), out);
            },
            _ => {},
        }
        proof {
            let rest = tree_rows_from(s, i + 1, prefix@);
            lemma_lines_text_one(row);
            lemma_lines_text_concat(seq![row], below);
            lemma_lines_text_concat(seq![row] + below, rest);
            assert(lines_text(tree_rows_from(s, i as int, prefix@)) =~= (row + "\n"@) + lines_text(
                below,
            ) + lines_text(rest));
            assert(out@ + lines_text(rest) =~= before + lines_text(
                tree_rows_from(s, i as int, prefix@),
            ));
        }
        i += 1;
    }
}

} // verus!
