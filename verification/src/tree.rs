//! An in-memory snapshot of a directory tree, and its mathematical model.
//!
//! `Node` is the executable snapshot a driver builds from the real tree.
//! `FsTree` is its model: the same shape over `Seq`, which specifications
//! and proofs work with.

use vstd::prelude::*;

use crate::paths::valid_name;

verus! {

/// One entry of a directory: a file, or a directory with its entries.
pub enum Node {
    File { name: String },
    Dir { name: String, entries: Vec<Node> },
}

/// The model of a `Node`: the same tree over mathematical sequences.
pub enum FsTree {
    File { name: Seq<char> },
    Dir { name: Seq<char>, entries: Seq<FsTree> },
}

impl Node {
    /// The model of this node.
    pub open spec fn model(self) -> FsTree
        decreases self, 1int,
    {
        match self {
            Node::File { name } => FsTree::File { name: name@ },
            Node::Dir { name, entries } => FsTree::Dir {
                name: name@,
                entries: Node::model_seq(entries@),
            },
        }
    }

    /// The models of a sequence of nodes, in order.
    pub open spec fn model_seq(s: Seq<Node>) -> Seq<FsTree>
        decreases s, 0int,
    {
        if s.len() == 0 {
            Seq::empty()
        } else {
            seq![s[0].model()] + Node::model_seq(s.drop_first())
        }
    }
}

/// The name of an entry.
pub open spec fn node_name(t: FsTree) -> Seq<char> {
    match t {
        FsTree::File { name } => name,
        FsTree::Dir { name, .. } => name,
    }
}

/// A tree as a real directory tree delivers it: every name is usable, and
/// no two entries of one directory share a name.
pub open spec fn wf_node(t: FsTree) -> bool
    decreases t, 0int,
{
    match t {
        FsTree::File { name } => valid_name(name),
        FsTree::Dir { name, entries } => valid_name(name) && wf_entries(entries),
    }
}

/// Well-formedness of a directory's entries: see `wf_node`.
pub open spec fn wf_entries(es: Seq<FsTree>) -> bool
    decreases es, 1int,
{
    &&& forall|i: int| 0 <= i < es.len() ==> wf_node(#[trigger] es[i])
    &&& forall|i: int, j: int|
        0 <= i < es.len() && 0 <= j < es.len() && i != j ==> node_name(#[trigger] es[i])
            != node_name(#[trigger] es[j])
}

/// A well-formed entry has a usable name.
pub proof fn lemma_wf_node_valid_name(t: FsTree)
    requires
        wf_node(t),
    ensures
        valid_name(node_name(t)),
{
    match t {
        FsTree::File { .. } => {},
        FsTree::Dir { .. } => {},
    }
}

/// `model_seq` maps each node to its model, elementwise.
pub proof fn lemma_model_seq(s: Seq<Node>)
    ensures
        Node::model_seq(s).len() == s.len(),
        forall|i: int| 0 <= i < s.len() ==> Node::model_seq(s)[i] == #[trigger] s[i].model(),
    decreases s.len(),
{
    if s.len() > 0 {
        lemma_model_seq(s.drop_first());
        assert forall|i: int| 0 <= i < s.len() implies Node::model_seq(s)[i] == #[trigger] s[i]
            .model() by {
            if i > 0 {
                assert(s.drop_first()[i - 1] == s[i]);
                assert(Node::model_seq(s)[i] == Node::model_seq(s.drop_first())[i - 1]);
            }
        }
    }
}

/// Models distribute over appending one node at the end.
pub proof fn lemma_model_seq_push(s: Seq<Node>, n: Node)
    ensures
        Node::model_seq(s.push(n)) == Node::model_seq(s) + seq![n.model()],
    decreases s.len(),
{
    if s.len() == 0 {
        assert(s.push(n)[0] == n);
        assert(s.push(n).drop_first() =~= s);
        assert(Node::model_seq(s.push(n)) =~= Node::model_seq(s) + seq![n.model()]);
    } else {
        assert(s.push(n)[0] == s[0]);
        assert(s.push(n).drop_first() =~= s.drop_first().push(n));
        lemma_model_seq_push(s.drop_first(), n);
        assert(Node::model_seq(s.push(n)) =~= Node::model_seq(s) + seq![n.model()]);
    }
}

} // verus!
