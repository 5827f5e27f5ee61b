use vstd::prelude::*;

verus! {

/// An opaque, cheaply copyable handle identifying one node of a reactive
/// graph. Identifiers are minted by the owning context when a node is
/// created, are never reused, and are comparable only for equality.
#[derive(Clone, Copy, Debug, PartialEq, Eq, Structural)]
pub struct NodeId {
    pub(crate) id: usize,
}

/// Whether a sequence of node identifiers holds the node at index `x`.
pub open spec fn seq_contains_id(s: Seq<NodeId>, x: int) -> bool {
    exists|k: int| 0 <= k < s.len() && s[k].idx() == x
}

/// The capability of being read as a dependency: anything with a node
/// identifier and a value in the store. Both signal and derived handles
/// implement it, so one derivation may mix the two among its inputs.
pub trait Observable: Sized {
    /// The index of the node this handle stands for in its context's store.
    spec fn id_spec(&self) -> int;

    /// The node identifier backing this handle.
    fn reactive_entity(&self) -> (r: NodeId)
        ensures
            r.idx() == self.id_spec(),
    ;
}

} // verus!
