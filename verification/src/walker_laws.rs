//! What holds of the entries that are shown: their order, that none is lost
//! or made up, and that an excluded entry leaves no trace.

use vstd::prelude::*;
use crate::entry::{Node, Shape, TraversalContext};
use crate::order::{lemma_name_le_total, lemma_name_le_transitive, name_le};
use crate::walker::{
    admitted, arranged, in_order, is_hidden, lemma_settled_keeps_name, lemma_slot_in_range,
    orderly, selected, settled, settled_each, slot,
};

verus! {

/// A sorted directory without its last entry is sorted.
pub proof fn lemma_front_in_order(s: Seq<Node>)
    requires
        in_order(s),
        s.len() > 0,
    ensures
        in_order(s.drop_last()),
{
    let front = s.drop_last();
    assert forall|i: int, j: int| 0 <= i < j < front.len() implies name_le(
        #[trigger] front[i].name,
        #[trigger] front[j].name,
    ) by {
        assert(front[i] == s[i] && front[j] == s[j]);
    }
}

/// `slot` parts a sorted directory in two: in front of it stand the names
/// that come no later than `name`, behind it those that come later.
pub proof fn lemma_slot_parts(sorted: Seq<Node>, name: Seq<char>)
    requires
        in_order(sorted),
    ensures
        0 <= slot(sorted, name) <= sorted.len(),
        forall|j: int| 0 <= j < slot(sorted, name) ==> name_le(#[trigger] sorted[j].name, name),
        forall|j: int|
            slot(sorted, name) <= j < sorted.len() ==> !name_le(#[trigger] sorted[j].name, name),
    decreases sorted.len(),
{
    if sorted.len() > 0 && name_le(sorted.last().name, name) {
        assert forall|j: int| 0 <= j < sorted.len() implies name_le(
            #[trigger] sorted[j].name,
            name,
        ) by {
            if j < sorted.len() - 1 {
                lemma_name_le_transitive(sorted[j].name, sorted.last().name, name);
            }
        }
    } else if sorted.len() > 0 {
        let front = sorted.drop_last();
        lemma_front_in_order(sorted);
        lemma_slot_parts(front, name);
        assert forall|j: int| 0 <= j < front.len() implies #[trigger] sorted[j] == front[j] by {}
    }
}

/// A sorted directory stays sorted when an entry goes in at its slot.
pub proof fn lemma_insert_keeps_order(sorted: Seq<Node>, n: Node)
    requires
        in_order(sorted),
    ensures
        in_order(sorted.insert(slot(sorted, n.name), n)),
{
    let k = slot(sorted, n.name);
    let next = sorted.insert(k, n);
    lemma_slot_parts(sorted, n.name);
    assert forall|i: int, j: int| 0 <= i < j < next.len() implies name_le(
        #[trigger] next[i].name,
        #[trigger] next[j].name,
    ) by {
        if i == k {
            lemma_name_le_total(sorted[j - 1].name, n.name);
        }
    }
}

/// The entries that are shown stand in ascending order of name.
pub proof fn lemma_selected_in_order(ctx: TraversalContext, s: Seq<Node>)
    ensures
        in_order(selected(ctx, s)),
    decreases s.len(),
{
    if s.len() > 0 {
        lemma_selected_in_order(ctx, s.drop_last());
        if admitted(ctx, s.last()) {
            lemma_insert_keeps_order(selected(ctx, s.drop_last()), s.last());
        }
    }
}

/// A directory holds what it held before an entry went in, and that entry.
proof fn lemma_insert_contains(s: Seq<Node>, k: int, x: Node, n: Node)
    requires
        0 <= k <= s.len(),
    ensures
        s.insert(k, x).contains(n) <==> s.contains(n) || n == x,
{
    let more = s.insert(k, x);
    if s.contains(n) {
        let j = choose|j: int| 0 <= j < s.len() && s[j] == n;
        if j < k {
            assert(more[j] == n);
        } else {
            assert(more[j + 1] == n);
        }
    }
    if n == x {
        assert(more[k] == n);
    }
    if more.contains(n) {
        let j = choose|j: int| 0 <= j < more.len() && more[j] == n;
        if j < k {
            assert(s[j] == n);
        } else if j > k {
            assert(s[j - 1] == n);
        }
    }
}

/// The entries that are shown are the listed entries that the rules admit:
/// none is lost and none is made up.
pub proof fn lemma_selected_members(ctx: TraversalContext, s: Seq<Node>)
    ensures
        forall|n: Node| #[trigger]
            selected(ctx, s).contains(n) <==> s.contains(n) && admitted(ctx, n),
    decreases s.len(),
{
    if s.len() > 0 {
        let front = s.drop_last();
        let last = s.last();
        let shown = selected(ctx, front);
        lemma_selected_members(ctx, front);
        lemma_slot_in_range(shown, last.name);
        assert(s =~= front.insert(front.len() as int, last));
        assert forall|n: Node| #[trigger]
            selected(ctx, s).contains(n) <==> s.contains(n) && admitted(ctx, n) by {
            lemma_insert_contains(front, front.len() as int, last, n);
            lemma_insert_contains(shown, slot(shown, last.name), last, n);
        }
    }
}

/// The rule of `admitted` as a predicate on entries.
pub open spec fn admitting(ctx: TraversalContext) -> spec_fn(Node) -> bool {
    |n: Node| admitted(ctx, n)
}

/// An entry put into a directory is one more entry of it, wherever it goes.
proof fn lemma_insert_adds_one(s: Seq<Node>, k: int, n: Node)
    requires
        0 <= k <= s.len(),
    ensures
        s.insert(k, n).to_multiset() == s.to_multiset().insert(n),
{
    broadcast use vstd::multiset::group_multiset_axioms;

    let more = s.insert(k, n);
    assert(more.remove(k) =~= s);
    vstd::seq_lib::to_multiset_remove(more, k);
    more.to_multiset_ensures();
}

/// The entries that are shown are the admitted entries of the listing, each
/// as often as it was listed.
pub proof fn lemma_selected_is_permutation(ctx: TraversalContext, s: Seq<Node>)
    ensures
        selected(ctx, s).to_multiset() == s.filter(admitting(ctx)).to_multiset(),
    decreases s.len(),
{
    reveal(Seq::filter);
    if s.len() > 0 {
        let front = s.drop_last();
        let last = s.last();
        lemma_selected_is_permutation(ctx, front);
        if admitted(ctx, last) {
            let shown = selected(ctx, front);
            lemma_slot_in_range(shown, last.name);
            lemma_insert_adds_one(shown, slot(shown, last.name), last);
            vstd::seq_lib::to_multiset_build(front.filter(admitting(ctx)), last);
        }
    }
}

/// `settled_each` keeps the length and settles entry by entry.
pub proof fn lemma_settled_each(ctx: TraversalContext, s: Seq<Node>)
    ensures
        settled_each(ctx, s).len() == s.len(),
        forall|i: int|
            0 <= i < s.len() ==> #[trigger] settled_each(ctx, s)[i] == settled(ctx, s[i]),
    decreases s.len(),
{
    if s.len() > 0 {
        lemma_settled_each(ctx, s.drop_last());
    }
}

/// What `arranged` gives is arranged: at every level the names stand in
/// ascending order, and no entry that the rules exclude is left, be it
/// special, hidden or ignored.
pub proof fn lemma_arranged_is_orderly(ctx: TraversalContext, s: Seq<Node>)
    ensures
        orderly(ctx, arranged(ctx, s)),
    decreases s,
{
    let each = settled_each(ctx, s);
    let shown = arranged(ctx, s);
    lemma_settled_each(ctx, s);
    lemma_selected_in_order(ctx, each);
    lemma_selected_members(ctx, each);
    assert forall|i: int| 0 <= i < shown.len() implies admitted(ctx, #[trigger] shown[i])
        && match shown[i].shape {
        Shape::Directory(children) => orderly(ctx, children),
        _ => true,
    } by {
        assert(shown.contains(shown[i]));
        let k = choose|k: int| 0 <= k < each.len() && each[k] == shown[i];
        match s[k].shape {
            Shape::Directory(children) => {
                lemma_arranged_is_orderly(ctx, children);
            },
            _ => {},
        }
    }
}

/// A level whose entries are all shown and stand in order is left as it is.
pub proof fn lemma_selected_keeps_sorted(ctx: TraversalContext, s: Seq<Node>)
    requires
        in_order(s),
        forall|i: int| 0 <= i < s.len() ==> admitted(ctx, #[trigger] s[i]),
    ensures
        selected(ctx, s) == s,
    decreases s.len(),
{
    if s.len() > 0 {
        let front = s.drop_last();
        lemma_front_in_order(s);
        assert forall|i: int| 0 <= i < front.len() implies admitted(ctx, #[trigger] front[i]) by {
            assert(front[i] == s[i]);
        }
        lemma_selected_keeps_sorted(ctx, front);
        if front.len() > 0 {
            assert(name_le(s[s.len() - 2].name, s[s.len() - 1].name));
        }
        assert(slot(front, s.last().name) == front.len());
        assert(admitted(ctx, s[s.len() - 1]));
    }
}

/// An arranged directory is left as it is: to arrange twice is to arrange
/// once.
pub proof fn lemma_arranged_keeps_orderly(ctx: TraversalContext, s: Seq<Node>)
    requires
        orderly(ctx, s),
    ensures
        arranged(ctx, s) == s,
    decreases s,
{
    lemma_settled_each(ctx, s);
    assert forall|i: int| 0 <= i < s.len() implies settled(ctx, s[i]) == s[i] by {
        assert(admitted(ctx, s[i]));
        match s[i].shape {
            Shape::Directory(children) => {
                lemma_arranged_keeps_orderly(ctx, children);
            },
            _ => {},
        }
    }
    assert(settled_each(ctx, s) =~= s);
    lemma_selected_keeps_sorted(ctx, s);
}

/// An entry that the rules exclude changes nothing at its level, wherever
/// it is listed.
pub proof fn lemma_selected_skips_excluded(ctx: TraversalContext, s: Seq<Node>, k: int, n: Node)
    requires
        0 <= k <= s.len(),
        !admitted(ctx, n),
    ensures
        selected(ctx, s.insert(k, n)) == selected(ctx, s),
    decreases s.len() - k,
{
    let more = s.insert(k, n);
    if k == s.len() {
        assert(more.drop_last() =~= s);
    } else {
        assert(more.drop_last() =~= s.drop_last().insert(k, n));
        lemma_selected_skips_excluded(ctx, s.drop_last(), k, n);
    }
}

/// An entry that the rules exclude leaves no trace in the arranged
/// directory, whatever it is and whatever lies below it.
pub proof fn lemma_arranged_skips_excluded(ctx: TraversalContext, s: Seq<Node>, k: int, n: Node)
    requires
        0 <= k <= s.len(),
        !admitted(ctx, n),
    ensures
        arranged(ctx, s.insert(k, n)) == arranged(ctx, s),
{
    lemma_settled_each(ctx, s);
    lemma_settled_each(ctx, s.insert(k, n));
    assert(settled_each(ctx, s.insert(k, n)) =~= settled_each(ctx, s).insert(k, settled(ctx, n)));
    lemma_settled_keeps_name(ctx, n);
    lemma_selected_skips_excluded(ctx, settled_each(ctx, s), k, settled(ctx, n));
}

/// An entry goes behind every entry of the same name that is in the sorted
/// directory already: entries of one name keep the order in which they were
/// listed.
pub proof fn lemma_slot_behind_equal_names(sorted: Seq<Node>, name: Seq<char>)
    requires
        in_order(sorted),
    ensures
        forall|j: int|
            0 <= j < sorted.len() && #[trigger] sorted[j].name == name ==> j < slot(sorted, name),
{
    lemma_slot_parts(sorted, name);
    lemma_name_le_total(name, name);
}

/// The directory `s` with one more entry, `n`, listed at position `k` of the
/// directory that `path` leads to: `path` gives, level by level, the
/// position of the directory to go into. Where `path` leads nowhere, `s` is
/// as it was.
pub open spec fn grafted(s: Seq<Node>, path: Seq<int>, k: int, n: Node) -> Seq<Node>
    decreases path.len(),
{
    if path.len() == 0 {
        if 0 <= k <= s.len() {
            s.insert(k, n)
        } else {
            s
        }
    } else if 0 <= path[0] < s.len() {
        match s[path[0]].shape {
            Shape::Directory(children) => s.update(
                path[0],
                Node {
                    name: s[path[0]].name,
                    ignored: s[path[0]].ignored,
                    shape: Shape::Directory(grafted(children, path.drop_first(), k, n)),
                },
            ),
            _ => s,
        }
    } else {
        s
    }
}

/// An entry that the rules exclude leaves no trace in the arranged
/// directory at whatever depth it is listed.
pub proof fn lemma_arranged_skips_excluded_below(
    ctx: TraversalContext,
    s: Seq<Node>,
    path: Seq<int>,
    k: int,
    n: Node,
)
    requires
        !admitted(ctx, n),
    ensures
        arranged(ctx, grafted(s, path, k, n)) == arranged(ctx, s),
    decreases path.len(),
{
    if path.len() == 0 {
        if 0 <= k <= s.len() {
            lemma_arranged_skips_excluded(ctx, s, k, n);
        }
    } else if 0 <= path[0] < s.len() {
        match s[path[0]].shape {
            Shape::Directory(children) => {
                let more = grafted(s, path, k, n);
                lemma_arranged_skips_excluded_below(ctx, children, path.drop_first(), k, n);
                lemma_settled_each(ctx, s);
                lemma_settled_each(ctx, more);
                assert(settled_each(ctx, more) =~= settled_each(ctx, s));
            },
            _ => {},
        }
    }
}

/// With hidden entries left out, no entry whose name begins with a period
/// is shown.
pub proof fn lemma_hidden_not_admitted(ctx: TraversalContext, n: Node)
    requires
        !ctx.include_hidden,
        is_hidden(n.name),
    ensures
        !admitted(ctx, n),
{
}

} // verus!
