//! The snapshot of a directory and its mathematical model.

use vstd::prelude::*;

verus! {

/// The settings of one run.
#[derive(Debug, PartialEq, Eq)]
pub struct TraversalContext {
    /// The directory the run starts from, as the user named it.
    pub root: String,
    /// Whether entries whose name begins with `.` are shown.
    pub include_hidden: bool,
    /// Whether entries that the ignore rules exclude are left out.
    pub honor_ignore: bool,
    /// Whether the content of a file is cut after its first lines.
    pub summary: bool,
}

/// What an entry of a directory is, with what the run reads of it.
#[derive(Debug, PartialEq, Eq)]
pub enum Payload {
    /// A regular file and its bytes.
    File(Vec<u8>),
    /// A directory and its entries, in the order in which they were listed.
    Directory(Vec<Entry>),
    /// Neither a regular file nor a directory.
    Other,
}

/// One entry of a directory.
#[derive(Debug, PartialEq, Eq)]
pub struct Entry {
    /// The entry's file name.
    pub name: String,
    /// What the ignore rules said of the entry's path.
    pub ignored: bool,
    /// The entry's kind and content.
    pub payload: Payload,
}

/// The model of a `Payload`.
pub enum Shape {
    /// A regular file and its bytes.
    File(Seq<u8>),
    /// A directory and the models of its entries.
    Directory(Seq<Node>),
    /// Neither a regular file nor a directory.
    Other,
}

/// The model of an `Entry`: the contracts of this crate speak of entries
/// through it.
pub struct Node {
    /// The entry's file name.
    pub name: Seq<char>,
    /// What the ignore rules said of the entry's path.
    pub ignored: bool,
    /// The entry's kind and content.
    pub shape: Shape,
}

/// The model of one entry.
pub open spec fn node_of(e: Entry) -> Node
    decreases e,
{
    Node {
        name: e.name@,
        ignored: e.ignored,
        shape: match e.payload {
            Payload::File(bytes) => Shape::File(bytes@),
            Payload::Directory(children) => Shape::Directory(nodes_of(children@)),
            Payload::Other => Shape::Other,
        },
    }
}

/// The models of a directory's entries, in the same order.
pub open spec fn nodes_of(entries: Seq<Entry>) -> Seq<Node>
    decreases entries,
{
    if entries.len() == 0 {
        Seq::empty()
    } else {
        nodes_of(entries.drop_last()).push(node_of(entries.last()))
    }
}

impl View for Entry {
    type V = Node;

    open spec fn view(&self) -> Node {
        node_of(*self)
    }
}

/// `nodes_of` keeps the length and models entry by entry.
pub proof fn lemma_nodes_of(entries: Seq<Entry>)
    ensures
        nodes_of(entries).len() == entries.len(),
        forall|i: int|
            0 <= i < entries.len() ==> #[trigger] nodes_of(entries)[i] == node_of(entries[i]),
    decreases entries.len(),
{
    if entries.len() > 0 {
        lemma_nodes_of(entries.drop_last());
    }
}

/// Putting an entry into a directory puts its model into the model.
pub proof fn lemma_nodes_of_insert(entries: Seq<Entry>, i: int, e: Entry)
    requires
        0 <= i <= entries.len(),
    ensures
        nodes_of(entries.insert(i, e)) == nodes_of(entries).insert(i, node_of(e)),
{
    lemma_nodes_of(entries);
    lemma_nodes_of(entries.insert(i, e));
}

} // verus!
