//! What holds of the whole result: the order of its tree, and that entries
//! which are not shown leave no trace in it.

use vstd::prelude::*;
use crate::entry::{Node, TraversalContext};
use crate::order::name_le;
use crate::report::report_rows;
use crate::tree::{entry_row, rows_before};
use crate::tree_laws::lemma_tree_rows_follow_entries;
use crate::walker::{admitted, arranged, is_hidden};
use crate::walker_laws::{grafted, lemma_arranged_is_orderly, lemma_arranged_skips_excluded_below};

verus! {

/// An entry that the rules exclude appears nowhere in the result, neither in
/// the tree nor among the content blocks, and nothing below it does: the
/// result is the same as without it.
pub proof fn lemma_excluded_entry_leaves_no_trace(
    ctx: TraversalContext,
    tree_only: bool,
    label: Seq<char>,
    s: Seq<Node>,
    path: Seq<int>,
    k: int,
    n: Node,
)
    requires
        !admitted(ctx, n),
    ensures
        report_rows(ctx, tree_only, label, grafted(s, path, k, n)) == report_rows(
            ctx,
            tree_only,
            label,
            s,
        ),
{
    lemma_arranged_skips_excluded_below(ctx, s, path, k, n);
}

/// With hidden entries left out, an entry whose name begins with a period
/// appears nowhere in the result, and nothing below it does, at whatever
/// depth it is listed: the result is the same as without it.
pub proof fn lemma_hidden_entry_leaves_no_trace(
    ctx: TraversalContext,
    tree_only: bool,
    label: Seq<char>,
    s: Seq<Node>,
    path: Seq<int>,
    k: int,
    n: Node,
)
    requires
        !ctx.include_hidden,
        is_hidden(n.name),
    ensures
        report_rows(ctx, tree_only, label, grafted(s, path, k, n)) == report_rows(
            ctx,
            tree_only,
            label,
            s,
        ),
{
    lemma_arranged_skips_excluded_below(ctx, s, path, k, n);
}

/// The tree of the result lists the entries of the root in ascending order
/// of name: of two entries that are shown, the one whose name comes first
/// has its line first, behind the label.
pub proof fn lemma_report_lists_in_order(
    ctx: TraversalContext,
    tree_only: bool,
    label: Seq<char>,
    s: Seq<Node>,
    i: int,
    j: int,
)
    requires
        0 <= i < j < arranged(ctx, s).len(),
    ensures
        name_le(arranged(ctx, s)[i].name, arranged(ctx, s)[j].name),
        0 <= rows_before(arranged(ctx, s), i, Seq::empty()) < rows_before(
            arranged(ctx, s),
            j,
            Seq::empty(),
        ),
        1 + rows_before(arranged(ctx, s), j, Seq::empty()) < report_rows(
            ctx,
            tree_only,
            label,
            s,
        ).len(),
        report_rows(ctx, tree_only, label, s)[0] == label,
        report_rows(ctx, tree_only, label, s)[1 + rows_before(arranged(ctx, s), i, Seq::empty())]
            == entry_row(Seq::empty(), false, arranged(ctx, s)[i].name),
        report_rows(ctx, tree_only, label, s)[1 + rows_before(arranged(ctx, s), j, Seq::empty())]
            == entry_row(Seq::empty(), j == arranged(ctx, s).len() - 1, arranged(ctx, s)[j].name),
{
    let shown = arranged(ctx, s);
    lemma_arranged_is_orderly(ctx, s);
    lemma_tree_rows_follow_entries(shown, i, j, Seq::empty());
}

} // verus!
