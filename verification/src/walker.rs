//! Which entries of a directory are shown, and in which order.

use vstd::prelude::*;
use vstd::string::*;
use crate::entry::{
    lemma_nodes_of, lemma_nodes_of_insert, node_of, nodes_of, Entry, Node, Payload, Shape,
    TraversalContext,
};
use crate::order::{name_le, names_in_order, same_text};
use crate::stable_order::{is_stable_ordering, lemma_selected_is_stable_ordering};
use crate::walker_laws::lemma_arranged_is_orderly;

verus! {

/// The two names that stand for a directory itself and for its parent.
pub open spec fn is_special(name: Seq<char>) -> bool {
    name == "."@ || name == ".."@
}

/// A hidden name begins with a period.
pub open spec fn is_hidden(name: Seq<char>) -> bool {
    name.len() > 0 && name[0] == '.'
}

/// Whether a name passes the rules that look at the name alone.
pub open spec fn name_admitted(ctx: TraversalContext, name: Seq<char>) -> bool {
    !is_special(name) && (ctx.include_hidden || !is_hidden(name))
}

/// Whether an entry is shown: its name passes, and the ignore rules, where
/// they are honored, do not exclude it.
pub open spec fn admitted(ctx: TraversalContext, n: Node) -> bool {
    name_admitted(ctx, n.name) && !(ctx.honor_ignore && n.ignored)
}

/// Where an entry called `name` is put into `sorted`: behind the last entry
/// whose name comes no later than `name`.
pub open spec fn slot(sorted: Seq<Node>, name: Seq<char>) -> int
    decreases sorted.len(),
{
    if sorted.len() == 0 || name_le(sorted.last().name, name) {
        sorted.len() as int
    } else {
        slot(sorted.drop_last(), name)
    }
}

/// The entries of one directory that are shown, in ascending order of name.
/// Entries with the same name keep the order in which they were listed: of
/// what is listed and admitted this is the one stable ordering.
pub open spec fn selected(ctx: TraversalContext, s: Seq<Node>) -> Seq<Node>
    decreases s.len(),
{
    if s.len() == 0 {
        s
    } else {
        let front = selected(ctx, s.drop_last());
        if admitted(ctx, s.last()) {
            front.insert(slot(front, s.last().name), s.last())
        } else {
            front
        }
    }
}

/// An entry with everything below it arranged.
pub open spec fn settled(ctx: TraversalContext, n: Node) -> Node
    decreases n, 0int,
{
    match n.shape {
        Shape::Directory(children) => Node {
            name: n.name,
            ignored: n.ignored,
            shape: Shape::Directory(arranged(ctx, children)),
        },
        _ => n,
    }
}

/// Every entry of `s` settled, in the same order.
pub open spec fn settled_each(ctx: TraversalContext, s: Seq<Node>) -> Seq<Node>
    decreases s, 0int,
{
    if s.len() == 0 {
        s
    } else {
        settled_each(ctx, s.drop_last()).push(settled(ctx, s.last()))
    }
}

/// A directory's entries as the run shows them: at every level the entries
/// that are not shown are gone and the others stand in ascending order of
/// name.
pub open spec fn arranged(ctx: TraversalContext, s: Seq<Node>) -> Seq<Node>
    decreases s, 1int,
{
    selected(ctx, settled_each(ctx, s))
}

/// Whether the names of `s` stand in ascending order.
pub open spec fn in_order(s: Seq<Node>) -> bool {
    forall|i: int, j: int|
        0 <= i < j < s.len() ==> name_le(#[trigger] s[i].name, #[trigger] s[j].name)
}

/// Whether `s` is arranged: at this level and at every level below it, the
/// names stand in ascending order and every entry is one that is shown.
pub open spec fn orderly(ctx: TraversalContext, s: Seq<Node>) -> bool
    decreases s,
{
    &&& in_order(s)
    &&& forall|i: int|
        0 <= i < s.len() ==> admitted(ctx, #[trigger] s[i]) && match s[i].shape {
            Shape::Directory(children) => orderly(ctx, children),
            _ => true,
        }
}

/// `slot` names a position of `sorted`, its end included.
pub proof fn lemma_slot_in_range(sorted: Seq<Node>, name: Seq<char>)
    ensures
        0 <= slot(sorted, name) <= sorted.len(),
    decreases sorted.len(),
{
    if !(sorted.len() == 0 || name_le(sorted.last().name, name)) {
        lemma_slot_in_range(sorted.drop_last(), name);
    }
}

/// Settling keeps an entry's name and what the ignore rules said of it.
pub proof fn lemma_settled_keeps_name(ctx: TraversalContext, n: Node)
    ensures
        settled(ctx, n).name == n.name,
        settled(ctx, n).ignored == n.ignored,
        admitted(ctx, settled(ctx, n)) == admitted(ctx, n),
{
}

/// Whether a name passes the rules that look at the name alone.
pub fn name_passes(ctx: &TraversalContext, name: &str) -> (r: bool)
    ensures
        r == name_admitted(*ctx, name@),
{
    if same_text(name, ".") || same_text(name, "..") {
        false
    } else if ctx.include_hidden {
        true
    } else {
        name.is_empty() || name.get_char(0) != '.'
    }
}

/// Whether the ignore rules have to be asked about an entry called `name`:
/// they are honored, and the name alone does not exclude the entry already.
pub fn needs_ignore_check(ctx: &TraversalContext, name: &str) -> (r: bool)
    ensures
        r == (ctx.honor_ignore && name_admitted(*ctx, name@)),
{
    ctx.honor_ignore && name_passes(ctx, name)
}

/// What the run takes the ignore rules to say, given how asking them ended:
/// `None` where they could not be asked, else whether they excluded the path.
/// A failure to ask counts as "not ignored".
pub fn ignore_verdict(outcome: Option<bool>) -> (r: bool)
    ensures
        r == (outcome == Some(true)),
{
    match outcome {
        Some(excluded) => excluded,
        None => false,
    }
}

/// Whether an entry is shown.
pub fn admits(ctx: &TraversalContext, entry: &Entry) -> (r: bool)
    ensures
        r == admitted(*ctx, entry@),
{
    name_passes(ctx, entry.name.as_str()) && !(ctx.honor_ignore && entry.ignored)
}

/// The position at which an entry called `name` goes into `sorted`.
fn find_slot(sorted: &Vec<Entry>, name: &str) -> (pos: usize)
    ensures
        pos == slot(nodes_of(sorted@), name@),
        pos <= sorted.len(),
{
    let mut pos: usize = sorted.len();
    proof {
        lemma_nodes_of(sorted@);
        assert(nodes_of(sorted@).take(pos as int) =~= nodes_of(sorted@));
    }
    while pos > 0 && !names_in_order(sorted[pos - 1].name.as_str(), name)
        invariant
            pos <= sorted.len(),
            nodes_of(sorted@).len() == sorted.len(),
            forall|i: int|
                0 <= i < sorted.len() ==> #[trigger] nodes_of(sorted@)[i] == node_of(sorted@[i]),
            slot(nodes_of(sorted@), name@) == slot(nodes_of(sorted@).take(pos as int), name@),
        decreases pos,
    {
        proof {
            let front = nodes_of(sorted@).take(pos as int);
            assert(front.drop_last() =~= nodes_of(sorted@).take(pos - 1));
        }
        pos -= 1;
    }
    proof {
        lemma_slot_in_range(nodes_of(sorted@).take(pos as int), name@);
    }
    pos
}

/// Puts `entry` into the sorted directory `sorted`, behind the entries whose
/// names come no later than its own.
pub fn place_entry(sorted: &mut Vec<Entry>, entry: Entry)
    ensures
        nodes_of(final(sorted)@) == nodes_of(old(sorted)@).insert(
            slot(nodes_of(old(sorted)@), entry@.name),
            entry@,
        ),
{
    let pos: usize = find_slot(sorted, entry.name.as_str());
    proof {
        lemma_nodes_of_insert(sorted@, pos as int, entry);
    }
    sorted.insert(pos, entry);
}

/// The entries of one directory that are shown, in ascending order of name.
/// What lies below them is left as it is.
pub fn select(ctx: &TraversalContext, entries: Vec<Entry>) -> (r: Vec<Entry>)
    ensures
        nodes_of(r@) == selected(*ctx, nodes_of(entries@)),
        is_stable_ordering(*ctx, nodes_of(entries@), nodes_of(r@)),
{
    let mut out: Vec<Entry> = Vec::new();
    let ghost src = entries@;
    for entry in it: entries.into_iter()
        invariant
            it.seq() == src,
            nodes_of(out@) == selected(*ctx, nodes_of(src.take(it.index() as int))),
    {
        proof {
            let k = it.index() as int;
            assert(src.take(k + 1).drop_last() =~= src.take(k));
            assert(nodes_of(src.take(k + 1)).drop_last() =~= nodes_of(src.take(k)));
        }
        if admits(ctx, &entry) {
            place_entry(&mut out, entry);
        }
    }
    proof {
        assert(src.take(src.len() as int) =~= src);
        lemma_selected_is_stable_ordering(*ctx, nodes_of(src));
    }
    out
}

/// An entry with everything below it arranged.
fn settle(ctx: &TraversalContext, entry: Entry) -> (r: Entry)
    ensures
        r@ == settled(*ctx, entry@),
    decreases entry, 0int,
{
    let Entry { name, ignored, payload } = entry;
    match payload {
        Payload::Directory(children) => Entry {
            name,
            ignored,
            payload: Payload::Directory(arrange(ctx, children)),
        },
        other => Entry { name, ignored, payload: other },
    }
}

/// Arranges a directory: at every level it drops the entries that are not
/// shown and puts the others in ascending order of name.
pub fn arrange(ctx: &TraversalContext, entries: Vec<Entry>) -> (r: Vec<Entry>)
    ensures
        nodes_of(r@) == arranged(*ctx, nodes_of(entries@)),
        orderly(*ctx, nodes_of(r@)),
    decreases entries, 1int,
{
    let mut out: Vec<Entry> = Vec::new();
    let ghost src = entries@;
    for entry in it: entries.into_iter()
        invariant
            it.seq() == src,
            nodes_of(out@) == selected(
                *ctx,
                settled_each(*ctx, nodes_of(src.take(it.index() as int))),
            ),
    {
        proof {
            let k = it.index() as int;
            assert(src.take(k + 1).drop_last() =~= src.take(k));
            let done = nodes_of(src.take(k));
            let next = nodes_of(src.take(k + 1));
            assert(next.drop_last() =~= done);
            assert(settled_each(*ctx, next) == settled_each(*ctx, done).push(
                settled(*ctx, node_of(entry)),
            ));
            assert(settled_each(*ctx, next).drop_last() =~= settled_each(*ctx, done));
            lemma_settled_keeps_name(*ctx, node_of(entry));
        }
        if admits(ctx, &entry) {
            place_entry(&mut out, settle(ctx, entry));
        }
    }
    proof {
        assert(src.take(src.len() as int) =~= src);
        lemma_arranged_is_orderly(*ctx, nodes_of(src));
    }
    out
}

} // verus!
