use vstd::prelude::*;

use crate::observable::{NodeId, Observable};
use crate::value::Value;
use crate::calculated::CalcQuery;
use crate::ReactiveContext;

verus! {

/// A handle to a source node: a value that changes only through an explicit
/// external write, observable by derived nodes.
#[derive(Clone, Copy, Debug, PartialEq, Eq, Structural)]
pub struct Signal {
    pub(crate) id: NodeId,
}

impl Observable for Signal {
    closed spec fn id_spec(&self) -> int {
        self.id.idx()
    }

    fn reactive_entity(&self) -> (r: NodeId) {
        self.id
    }
}

/// Wraps a freshly minted identifier as a signal handle.
pub(crate) fn signal_from(id: NodeId) -> (s: Signal)
    ensures
        s.id_spec() == id.idx(),
{
    Signal { id }
}

impl Signal {
    /// Writes `value` to this signal and runs the reaction graph to
    /// completion, exactly as `ReactiveContext::send_signal` does.
    pub fn send<F: CalcQuery>(&self, rctx: &mut ReactiveContext<F>, value: Value)
        requires
            old(rctx).wf(),
            old(rctx).is_source(self.id_spec()),
        ensures
            final(rctx).wf(),
            final(rctx).same_structure(*old(rctx)),
            final(rctx).value_at(self.id_spec()) == value,
            value == old(rctx).value_at(self.id_spec()) ==> *final(rctx) == *old(rctx),
            forall|i: int|
                0 <= i < old(rctx).n() && old(rctx).is_source(i) && i != self.id_spec()
                    ==> final(rctx).value_at(i) == old(rctx).value_at(i),
    {
        rctx.send_signal(*self, value)
    }
}

} // verus!
