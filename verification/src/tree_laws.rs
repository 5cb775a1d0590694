//! What holds of the tree diagram: which marker an entry carries, in which
//! order the lines stand, and what stands in front of the lines of a level.

use vstd::prelude::*;
use crate::entry::{Node, Shape};
use crate::tree::{entry_row, guide, rows_before, tree_rows, tree_rows_from};

verus! {

/// The first of the lines from position `i` on is the line of the entry at
/// `i`: the last entry of a directory carries one marker, every entry before
/// it the other.
pub proof fn lemma_tree_row_of_entry(s: Seq<Node>, i: int, prefix: Seq<char>)
    requires
        0 <= i < s.len(),
    ensures
        tree_rows_from(s, i, prefix).len() > 0,
        tree_rows_from(s, i, prefix)[0] == entry_row(prefix, i == s.len() - 1, s[i].name),
{
}

/// A directory with a single entry shows it with the marker of a last
/// entry.
pub proof fn lemma_only_entry_is_last(s: Seq<Node>, prefix: Seq<char>)
    requires
        s.len() == 1,
    ensures
        tree_rows(s, prefix).len() > 0,
        tree_rows(s, prefix)[0] == prefix + "└── "@ + s[0].name,
{
}

/// Every line of a tree begins with the prefix it was drawn with.
pub proof fn lemma_tree_rows_keep_prefix(s: Seq<Node>, i: int, prefix: Seq<char>)
    requires
        0 <= i,
    ensures
        forall|r: int|
            0 <= r < tree_rows_from(s, i, prefix).len() ==> prefix.is_prefix_of(
                #[trigger] tree_rows_from(s, i, prefix)[r],
            ),
    decreases s, s.len() - i,
{
    if i < s.len() {
        let last = i == s.len() - 1;
        let row = entry_row(prefix, last, s[i].name);
        let deeper = prefix + guide(last);
        let below = match s[i].shape {
            Shape::Directory(children) => tree_rows_from(children, 0, deeper),
            _ => Seq::empty(),
        };
        match s[i].shape {
            Shape::Directory(children) => {
                lemma_tree_rows_keep_prefix(children, 0, deeper);
            },
            _ => {},
        }
        lemma_tree_rows_keep_prefix(s, i + 1, prefix);
        let rest = tree_rows_from(s, i + 1, prefix);
        let rows = tree_rows_from(s, i, prefix);
        assert forall|r: int| 0 <= r < rows.len() implies prefix.is_prefix_of(
            #[trigger] rows[r],
        ) by {
            if r == 0 {
                assert(rows[r] == row);
            } else if r < 1 + below.len() {
                // a line from below begins with the longer prefix
                assert(rows[r] == below[r - 1]);
                assert(deeper.is_prefix_of(below[r - 1]));
                assert(prefix =~= below[r - 1].subrange(0, prefix.len() as int));
            } else {
                assert(rows[r] == rest[r - 1 - below.len()]);
            }
        }
    }
}

/// The lines from any position on are the end of the directory's tree.
pub proof fn lemma_tree_rows_from_is_suffix(s: Seq<Node>, i: int, prefix: Seq<char>)
    requires
        0 <= i <= s.len(),
    ensures
        tree_rows_from(s, i, prefix).is_suffix_of(tree_rows(s, prefix)),
    decreases i,
{
    if i > 0 {
        lemma_tree_rows_from_is_suffix(s, i - 1, prefix);
        let wider = tree_rows_from(s, i - 1, prefix);
        let here = tree_rows_from(s, i, prefix);
        assert(here =~= wider.subrange(wider.len() - here.len(), wider.len() as int));
    }
}

/// From an earlier entry on there are more lines than from a later one on.
proof fn lemma_tree_rows_from_shrinks(s: Seq<Node>, i: int, j: int, prefix: Seq<char>)
    requires
        0 <= i < j <= s.len(),
    ensures
        tree_rows_from(s, i, prefix).len() > tree_rows_from(s, j, prefix).len(),
    decreases j - i,
{
    if i + 1 < j {
        lemma_tree_rows_from_shrinks(s, i + 1, j, prefix);
    }
}

/// The lines of the entries of one directory follow each other in the order
/// of the entries: the entry at `i` has its line, with its marker and its
/// name, in front of the line of every entry that stands behind it.
pub proof fn lemma_tree_rows_follow_entries(s: Seq<Node>, i: int, j: int, prefix: Seq<char>)
    requires
        0 <= i < j < s.len(),
    ensures
        0 <= rows_before(s, i, prefix) < rows_before(s, j, prefix) < tree_rows(s, prefix).len(),
        tree_rows(s, prefix)[rows_before(s, i, prefix)] == entry_row(prefix, false, s[i].name),
        tree_rows(s, prefix)[rows_before(s, j, prefix)] == entry_row(
            prefix,
            j == s.len() - 1,
            s[j].name,
        ),
{
    lemma_tree_rows_from_is_suffix(s, i, prefix);
    lemma_tree_rows_from_is_suffix(s, j, prefix);
    lemma_tree_rows_from_shrinks(s, i, j, prefix);
    lemma_tree_row_of_entry(s, i, prefix);
    lemma_tree_row_of_entry(s, j, prefix);
}

/// An empty directory has no lines.
pub proof fn lemma_empty_directory_has_no_rows(prefix: Seq<char>)
    ensures
        tree_rows(Seq::empty(), prefix) == Seq::<Seq<char>>::empty(),
{
}

/// What lies below a directory stands directly behind the directory's own
/// line, and each of its lines begins with the level's prefix and the guide
/// of the directory: blanks below the last entry of the level, a vertical
/// guide below every other.
pub proof fn lemma_rows_below_entry(s: Seq<Node>, i: int, prefix: Seq<char>, children: Seq<Node>)
    requires
        0 <= i < s.len(),
        s[i].shape == Shape::Directory(children),
    ensures
        ({
            let last = i == s.len() - 1;
            let below = tree_rows(children, prefix + guide(last));
            &&& tree_rows_from(s, i, prefix) == seq![entry_row(prefix, last, s[i].name)] + below
                + tree_rows_from(s, i + 1, prefix)
            &&& forall|r: int|
                0 <= r < below.len() ==> (prefix + guide(last)).is_prefix_of(#[trigger] below[r])
        }),
{
    lemma_tree_rows_keep_prefix(children, 0, prefix + guide(i == s.len() - 1));
}

/// What lies below the last entry of a level is drawn behind blanks, not
/// behind a vertical guide: its lines end the tree of that level, and each
/// of them begins with the level's prefix and four blanks.
pub proof fn lemma_blank_guide_below_last(s: Seq<Node>, prefix: Seq<char>, children: Seq<Node>)
    requires
        s.len() > 0,
        s.last().shape == Shape::Directory(children),
    ensures
        tree_rows(children, prefix + "    "@).is_suffix_of(tree_rows(s, prefix)),
        forall|r: int|
            0 <= r < tree_rows(children, prefix + "    "@).len() ==> (prefix
                + "    "@).is_prefix_of(#[trigger] tree_rows(children, prefix + "    "@)[r]),
{
    let tail = tree_rows_from(s, s.len() - 1, prefix);
    let below = tree_rows(children, prefix + "    "@);
    lemma_tree_rows_from_is_suffix(s, s.len() - 1, prefix);
    lemma_tree_rows_keep_prefix(children, 0, prefix + "    "@);
    assert(tree_rows_from(s, s.len() as int, prefix) =~= Seq::<Seq<char>>::empty());
    assert(below =~= tail.subrange(tail.len() - below.len(), tail.len() as int));
}

/// The last entry of a directory that is itself the last entry of its level
/// stands behind four blanks and the marker of a last entry. Where nothing
/// lies below it, that is the last line of the tree.
pub proof fn lemma_last_of_last_row(s: Seq<Node>, prefix: Seq<char>, children: Seq<Node>)
    requires
        s.len() > 0,
        s.last().shape == Shape::Directory(children),
        children.len() > 0,
        !(children.last().shape is Directory),
    ensures
        tree_rows(s, prefix).len() > 0,
        tree_rows(s, prefix).last() == prefix + "    "@ + "└── "@ + children.last().name,
{
    let below = tree_rows(children, prefix + "    "@);
    let end = tree_rows_from(children, children.len() - 1, prefix + "    "@);
    lemma_blank_guide_below_last(s, prefix, children);
    lemma_tree_rows_from_is_suffix(children, children.len() - 1, prefix + "    "@);
    assert(tree_rows_from(children, children.len() as int, prefix + "    "@) =~= Seq::<
        Seq<char>,
    >::empty());
    assert(below.last() == end[0]);
}

} // verus!
