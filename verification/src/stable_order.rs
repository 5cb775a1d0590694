//! The selection said without saying how it is made: it is the one sequence
//! that stands in order and holds, name by name, the admitted entries as
//! they were listed.

use vstd::prelude::*;
use crate::entry::{Node, TraversalContext};
use crate::order::{lemma_name_le_antisymmetric, lemma_name_le_total, name_le};
use crate::walker::{admitted, in_order, selected, slot};
use crate::walker_laws::{lemma_front_in_order, lemma_selected_in_order, lemma_slot_parts};

verus! {

/// The entries called `name`.
pub open spec fn named(name: Seq<char>) -> spec_fn(Node) -> bool {
    |n: Node| n.name == name
}

/// The entries called `name` that are shown.
pub open spec fn admitted_named(ctx: TraversalContext, name: Seq<char>) -> spec_fn(Node) -> bool {
    |n: Node| admitted(ctx, n) && n.name == name
}

/// Whether `t` holds, name by name, the same entries in the same order as
/// `u`.
pub open spec fn same_by_name(t: Seq<Node>, u: Seq<Node>) -> bool {
    forall|name: Seq<char>| #[trigger] t.filter(named(name)) == u.filter(named(name))
}

/// Whether `t` is a stable ordering of what `s` lists and the rules admit:
/// `t` stands in ascending order of name, and of every name it holds the
/// admitted entries of `s` with that name, in the order in which `s` lists
/// them.
pub open spec fn is_stable_ordering(ctx: TraversalContext, s: Seq<Node>, t: Seq<Node>) -> bool {
    &&& in_order(t)
    &&& forall|name: Seq<char>| #[trigger]
        t.filter(named(name)) == s.filter(admitted_named(ctx, name))
}

/// Where no entry meets a rule, nothing is left of a directory.
proof fn lemma_filter_none(s: Seq<Node>, p: spec_fn(Node) -> bool)
    requires
        forall|i: int| 0 <= i < s.len() ==> !p(#[trigger] s[i]),
    ensures
        s.filter(p) == Seq::<Node>::empty(),
    decreases s.len(),
{
    reveal(Seq::filter);
    if s.len() > 0 {
        let front = s.drop_last();
        assert forall|i: int| 0 <= i < front.len() implies !p(#[trigger] front[i]) by {
            assert(front[i] == s[i]);
        }
        lemma_filter_none(front, p);
    }
}

/// An entry that goes in at its slot goes behind the entries of its own name
/// and leaves the entries of every name as they were.
proof fn lemma_filter_insert_at_slot(sorted: Seq<Node>, n: Node, name: Seq<char>)
    requires
        in_order(sorted),
    ensures
        sorted.insert(slot(sorted, n.name), n).filter(named(name)) == if n.name == name {
            sorted.filter(named(name)).push(n)
        } else {
            sorted.filter(named(name))
        },
{
    let k = slot(sorted, n.name);
    let p = named(name);
    let head = sorted.take(k);
    let tail = sorted.skip(k);
    lemma_slot_parts(sorted, n.name);
    assert(sorted =~= head + tail);
    assert(sorted.insert(k, n) =~= head.push(n) + tail);
    Seq::filter_distributes_over_add(head, tail, p);
    Seq::filter_distributes_over_add(head.push(n), tail, p);
    head.lemma_filter_push(n, p);
    if n.name == name {
        assert forall|i: int| 0 <= i < tail.len() implies !p(#[trigger] tail[i]) by {
            assert(tail[i] == sorted[k + i]);
            lemma_name_le_total(name, name);
        }
        lemma_filter_none(tail, p);
        assert(head.filter(p) + tail.filter(p) =~= head.filter(p));
        assert(head.filter(p).push(n) + tail.filter(p) =~= head.filter(p).push(n));
    }
}

/// The selection is a stable ordering of what is listed and admitted.
pub proof fn lemma_selected_is_stable_ordering(ctx: TraversalContext, s: Seq<Node>)
    ensures
        is_stable_ordering(ctx, s, selected(ctx, s)),
    decreases s.len(),
{
    reveal(Seq::filter);
    lemma_selected_in_order(ctx, s);
    if s.len() > 0 {
        let front = s.drop_last();
        let last = s.last();
        let shown = selected(ctx, front);
        lemma_selected_is_stable_ordering(ctx, front);
        assert forall|name: Seq<char>| #[trigger]
            selected(ctx, s).filter(named(name)) == s.filter(admitted_named(ctx, name)) by {
            assert(shown.filter(named(name)) == front.filter(admitted_named(ctx, name)));
            if admitted(ctx, last) {
                lemma_filter_insert_at_slot(shown, last, name);
            }
        }
    }
}

/// A directory in order without its last entry holds of the last entry's
/// name all but that entry, and of every other name what it held.
proof fn lemma_filter_drop_last(t: Seq<Node>, name: Seq<char>)
    requires
        t.len() > 0,
    ensures
        t.filter(named(name)) == if t.last().name == name {
            t.drop_last().filter(named(name)).push(t.last())
        } else {
            t.drop_last().filter(named(name))
        },
{
    reveal(Seq::filter);
}

/// Two directories that hold the same entries name by name end, where both
/// stand in order, with the same entry.
proof fn lemma_same_last(t: Seq<Node>, u: Seq<Node>)
    requires
        in_order(t),
        in_order(u),
        same_by_name(t, u),
        t.len() > 0,
    ensures
        u.len() > 0,
        u.last() == t.last(),
{
    let x = t.last();
    let p = named(x.name);
    lemma_filter_drop_last(t, x.name);
    assert(t.filter(p) == u.filter(p));
    assert(u.filter(p).last() == x);
    // x is an entry of u
    assert(u.filter(p).contains(x)) by {
        assert(u.filter(p)[u.filter(p).len() - 1] == x);
    }
    u.lemma_filter_contains_rev(p, x);
    let j = choose|j: int| 0 <= j < u.len() && u[j] == x;
    let y = u.last();
    let q = named(y.name);
    // and the last entry of u is an entry of t
    lemma_filter_drop_last(u, y.name);
    assert(t.filter(q) == u.filter(q));
    assert(t.filter(q).contains(y)) by {
        assert(u.filter(q)[u.filter(q).len() - 1] == y);
    }
    t.lemma_filter_contains_rev(q, y);
    let i = choose|i: int| 0 <= i < t.len() && t[i] == y;
    // so neither name comes behind the other
    lemma_name_le_total(x.name, x.name);
    lemma_name_le_total(y.name, y.name);
    assert(name_le(x.name, y.name)) by {
        if j < u.len() - 1 {
            assert(name_le(u[j].name, u[u.len() - 1].name));
        }
    }
    assert(name_le(y.name, x.name)) by {
        if i < t.len() - 1 {
            assert(name_le(t[i].name, t[t.len() - 1].name));
        }
    }
    lemma_name_le_antisymmetric(x.name, y.name);
}

/// There is one way only to put entries in order that keeps, name by name,
/// the order in which they stood.
pub proof fn lemma_same_by_name_in_order(t: Seq<Node>, u: Seq<Node>)
    requires
        in_order(t),
        in_order(u),
        same_by_name(t, u),
    ensures
        t == u,
    decreases t.len(),
{
    if t.len() == 0 {
        if u.len() > 0 {
            let y = u.last();
            lemma_filter_drop_last(u, y.name);
            lemma_filter_none(t, named(y.name));
            assert(t.filter(named(y.name)) == u.filter(named(y.name)));
            assert(u.filter(named(y.name)).len() > 0);
        }
        assert(t =~= u);
    } else {
        lemma_same_last(t, u);
        let t1 = t.drop_last();
        let u1 = u.drop_last();
        lemma_front_in_order(t);
        lemma_front_in_order(u);
        assert forall|name: Seq<char>| #[trigger]
            t1.filter(named(name)) == u1.filter(named(name)) by {
            lemma_filter_drop_last(t, name);
            lemma_filter_drop_last(u, name);
            assert(t.filter(named(name)) == u.filter(named(name)));
            if t.last().name == name {
                let a = t1.filter(named(name));
                let b = u1.filter(named(name));
                assert(a.push(t.last()) == b.push(t.last()));
                assert(a =~= a.push(t.last()).drop_last());
                assert(b =~= b.push(t.last()).drop_last());
            }
        }
        lemma_same_by_name_in_order(t1, u1);
        assert(t =~= t1.push(t.last()));
        assert(u =~= u1.push(u.last()));
    }
}

/// The selection is the only stable ordering of what is listed and
/// admitted.
pub proof fn lemma_stable_ordering_is_selected(ctx: TraversalContext, s: Seq<Node>, t: Seq<Node>)
    requires
        is_stable_ordering(ctx, s, t),
    ensures
        t == selected(ctx, s),
{
    let shown = selected(ctx, s);
    lemma_selected_is_stable_ordering(ctx, s);
    assert forall|name: Seq<char>| #[trigger]
        t.filter(named(name)) == shown.filter(named(name)) by {
        assert(t.filter(named(name)) == s.filter(admitted_named(ctx, name)));
        assert(shown.filter(named(name)) == s.filter(admitted_named(ctx, name)));
    }
    lemma_same_by_name_in_order(t, shown);
}

} // verus!
