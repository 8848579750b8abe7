use vstd::prelude::*;
use crate::history::NodeView;
use crate::id::{Lamport, ID};

verus! {

/// What an entry of an operation log must offer to take part in a causal
/// history. The engine reads nothing else of an entry.
pub trait DagNode: Sized {
    /// What the engine reads of the entry.
    spec fn view(&self) -> NodeView;

    /// An entry for the span of `len` operations that starts at `id` with
    /// clock value `lamport` and depends on `deps`.
    fn new(id: ID, lamport: Lamport, deps: Vec<ID>, len: usize) -> (node: Self)
        ensures
            node.view() == (NodeView { id, lamport, len: len as nat, deps: deps@ }),
    ;

    /// Position of the entry's first operation.
    fn id(&self) -> (id: ID)
        ensures
            id == self.view().id,
    ;

    /// Clock value of the entry's first operation.
    fn lamport(&self) -> (lamport: Lamport)
        ensures
            lamport == self.view().lamport,
    ;

    /// Number of operations in the entry.
    fn len(&self) -> (len: usize)
        ensures
            len == self.view().len,
    ;

    /// The positions that the entry's first operation depends on.
    fn deps(&self) -> (deps: &[ID])
        ensures
            deps@ == self.view().deps,
    ;
}

/// A node that holds its span and its dependencies and nothing else.
#[derive(Clone, Debug, PartialEq, Eq)]
pub struct Node {
    id: ID,
    lamport: Lamport,
    len: usize,
    deps: Vec<ID>,
}

impl DagNode for Node {
    closed spec fn view(&self) -> NodeView {
        NodeView { id: self.id, lamport: self.lamport, len: self.len as nat, deps: self.deps@ }
    }

    fn new(id: ID, lamport: Lamport, deps: Vec<ID>, len: usize) -> (node: Self) {
        Node { id, lamport, len, deps }
    }

    fn id(&self) -> (id: ID) {
        self.id
    }

    fn lamport(&self) -> (lamport: Lamport) {
        self.lamport
    }

    fn len(&self) -> (len: usize) {
        self.len
    }

    fn deps(&self) -> (deps: &[ID]) {
        self.deps.as_slice()
    }
}

/// A node without payload, under the name that the tests of the engine know
/// it by.
pub type TestNode = Node;

/// The views of a run of entries.
pub open spec fn nodes_view<N: DagNode>(nodes: Seq<N>) -> Seq<NodeView> {
    Seq::new(nodes.len(), |i: int| nodes[i].view())
}

} // verus!
