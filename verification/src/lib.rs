//! A synchronous, push-based reactive dataflow engine.
//!
//! A context owns a graph of nodes: signal nodes, mutated only by explicit
//! writes, and derived nodes, each recomputed from a fixed list of inputs by
//! a pure derivation whenever an input changes. A write propagates eagerly
//! through a worklist until every downstream value has settled; propagation
//! stops at any node whose recomputed value is unchanged.
//!
//! Propagation order is a design property, not an accident: the worklist is
//! an explicit stack (most recently enqueued first, never recursion), so a
//! node reachable from the written source along two paths may recompute more
//! than once within one episode, each recomputation independently diffed.
//! Once the episode settles, every derived node's value equals its
//! derivation over the current values of its inputs, whatever the
//! interleaving was.

use vstd::prelude::*;

mod calculated;
mod measure;
mod observable;
mod signal;
mod value;

pub use calculated::{Calc, CalcExpr, CalcQuery};
pub use observable::{seq_contains_id, NodeId, Observable};
pub use signal::Signal;
pub use value::{sat_add, spec_sat_add, Value};

use vstd::pervasive::arbitrary;

verus! {

impl NodeId {
    /// The position of the node in its context's store.
    pub closed spec fn idx(self) -> int {
        self.id as int
    }
}

/// Why a derived node could not be constructed. Both conditions are
/// programmer errors, not recoverable runtime states: a correctly built graph
/// never produces either, so callers are not expected to handle them.
#[derive(Clone, Copy, Debug, PartialEq, Eq, Structural)]
pub enum ReactiveError {
    /// The same node identifier appears twice in one input list, so
    /// simultaneous exclusive access to all inputs cannot be honored.
    AliasedInput,
    /// An input identifier has no record in this context.
    MissingInput,
}

/// What a node is: a source of truth, or a value derived from a fixed list of
/// inputs by a pure derivation.
enum NodeKind<F> {
    Source,
    Derived { inputs: Vec<NodeId>, f: F },
}

/// One record of the store: a node's current value and its subscribers, the
/// nodes that read it during their latest recomputation.
struct Node<F> {
    value: Value,
    subs: Vec<NodeId>,
    kind: NodeKind<F>,
}

/// Contains all reactive state: a store of node records keyed by identifier.
/// Nodes are created once and live as long as the context; there is no node
/// removal.
pub struct ReactiveContext<F> {
    nodes: Vec<Node<F>>,
}

impl<F: CalcQuery> ReactiveContext<F> {
    /// How many nodes the context holds.
    pub closed spec fn n(self) -> int {
        self.nodes@.len() as int
    }

    /// The current value of node `i`.
    pub closed spec fn value_at(self, i: int) -> Value {
        self.nodes@[i].value
    }

    /// The current subscriber list of node `i`.
    pub closed spec fn subs_at(self, i: int) -> Seq<NodeId> {
        self.nodes@[i].subs@
    }

    /// Whether `i` names a signal node of this context.
    pub closed spec fn is_source(self, i: int) -> bool {
        0 <= i < self.n() && self.nodes@[i].kind is Source
    }

    /// Whether `i` names a derived node of this context.
    pub closed spec fn is_derived(self, i: int) -> bool {
        0 <= i < self.n() && self.nodes@[i].kind is Derived
    }

    /// The fixed input list of node `i`; empty for a signal node.
    pub closed spec fn inputs_at(self, i: int) -> Seq<NodeId> {
        match self.nodes@[i].kind {
            NodeKind::Derived { inputs, .. } => inputs@,
            NodeKind::Source => Seq::empty(),
        }
    }

    /// The indices of the fixed inputs of node `i`.
    pub closed spec fn input_ids(self, i: int) -> Seq<int> {
        self.inputs_at(i).map_values(|x: NodeId| x.idx())
    }

    /// The derivation of node `i`.
    pub closed spec fn deriv_at(self, i: int) -> F {
        match self.nodes@[i].kind {
            NodeKind::Derived { f, .. } => f,
            NodeKind::Source => arbitrary(),
        }
    }

    /// The current values of the inputs of node `i`, in input-list order.
    pub closed spec fn input_vals(self, i: int) -> Seq<Value> {
        self.inputs_at(i).map_values(|x: NodeId| self.value_at(x.idx()))
    }

    /// What node `i`'s derivation returns on the current input values.
    pub closed spec fn derived_value(self, i: int) -> Value {
        self.deriv_at(i).spec_derive(self.input_vals(i))
    }

    /// A derived node is consistent when its stored value equals its
    /// derivation applied to the current values of its inputs.
    pub closed spec fn node_consistent(self, i: int) -> bool {
        self.is_derived(i) ==> self.value_at(i) == self.derived_value(i)
    }

    /// Nodes `i` of the two states agree on kind, inputs and derivation.
    pub closed spec fn node_shape_eq(self, other: Self, i: int) -> bool {
        self.nodes@[i].kind == other.nodes@[i].kind
    }

    /// The two states hold the same nodes with the same kinds, inputs and
    /// derivations; only values and subscriber lists may differ.
    pub closed spec fn same_structure(self, other: Self) -> bool {
        &&& self.n() == other.n()
        &&& forall|i: int| 0 <= i < self.n() ==> self.node_shape_eq(other, i)
    }

    /// Structural well-formedness at node `i`: inputs are pairwise distinct
    /// and strictly upstream (smaller index), the subscriber list holds no
    /// duplicates, and every subscriber is a downstream derived node that
    /// lists `i` among its fixed inputs.
    pub closed spec fn node_ok(self, i: int) -> bool {
        &&& (self.nodes@[i].kind matches NodeKind::Derived { inputs, .. } ==> {
            &&& inputs@.no_duplicates()
            &&& forall|k: int| 0 <= k < inputs@.len() ==> 0 <= (#[trigger] inputs@[k]).idx() < i
        })
        &&& self.nodes@[i].subs@.no_duplicates()
        &&& forall|k: int|
            0 <= k < self.nodes@[i].subs@.len() ==> {
                let s = (#[trigger] self.nodes@[i].subs@[k]).idx();
                &&& i < s < self.n()
                &&& self.is_derived(s)
                &&& seq_contains_id(self.inputs_at(s), i)
            }
    }

    /// Structural well-formedness of the whole graph.
    pub closed spec fn wf_graph(self) -> bool {
        forall|i: int| 0 <= i < self.n() ==> #[trigger] self.node_ok(i)
    }

    /// Subscription completeness, up to a worklist: every derived node is a
    /// subscriber of each of its inputs, unless it is pending recomputation.
    pub closed spec fn subs_complete_except(self, pending: Seq<NodeId>) -> bool {
        forall|p: int, k: int|
            self.is_derived(p) && 0 <= k < self.inputs_at(p).len() ==> seq_contains_id(
                self.subs_at((#[trigger] self.inputs_at(p)[k]).idx()),
                p,
            ) || seq_contains_id(pending, p)
    }

    /// Consistency, up to a worklist: every derived node is consistent unless
    /// it is pending recomputation.
    pub closed spec fn consistent_except(self, pending: Seq<NodeId>) -> bool {
        forall|p: int|
            0 <= p < self.n() ==> #[trigger] self.node_consistent(p) || seq_contains_id(
                pending,
                p,
            )
    }

    /// The resting invariant of a context, established by construction and
    /// preserved by every operation: the graph is structurally well-formed,
    /// every derived node is a subscriber of each of its inputs, and every
    /// derived node's value equals its derivation over the current values of
    /// its inputs.
    pub closed spec fn wf(self) -> bool {
        &&& self.wf_graph()
        &&& self.subs_complete_except(Seq::empty())
        &&& self.consistent_except(Seq::empty())
    }

    /// Consistency of node `p` depends only on its own value, kind and the
    /// values of its inputs.
    proof fn lemma_consistent_frame(a: Self, b: Self, p: int)
        requires
            0 <= p < a.n(),
            0 <= p < b.n(),
            b.nodes@[p].kind == a.nodes@[p].kind,
            b.nodes@[p].value == a.nodes@[p].value,
            forall|k: int|
                0 <= k < a.inputs_at(p).len() ==> b.value_at(
                    (#[trigger] a.inputs_at(p)[k]).idx(),
                ) == a.value_at(a.inputs_at(p)[k].idx()),
        ensures
            b.node_consistent(p) == a.node_consistent(p),
    {
        assert(b.is_derived(p) == a.is_derived(p));
        if a.is_derived(p) {
            assert(b.input_vals(p) =~= a.input_vals(p));
        }
    }

    /// Returns a reference-free copy of the current value of the given
    /// observable handle. Reading registers no subscription: only a
    /// dependency query performed during a recomputation does.
    pub fn read<O: Observable>(&self, observable: O) -> (r: Value)
        requires
            0 <= observable.id_spec() < self.n(),
        ensures
            r == self.value_at(observable.id_spec()),
    {
        let nid = observable.reactive_entity();
        self.nodes[nid.id].value
    }

    /// Creates a fresh signal node holding `initial_value`. No propagation
    /// occurs: a fresh node has no subscribers.
    pub fn signal(&mut self, initial_value: Value) -> (s: Signal)
        requires
            old(self).wf(),
        ensures
            final(self).wf(),
            s.id_spec() == old(self).n(),
            final(self).n() == old(self).n() + 1,
            final(self).is_source(old(self).n()),
            final(self).value_at(old(self).n()) == initial_value,
            final(self).subs_at(old(self).n()) == Seq::<NodeId>::empty(),
            forall|i: int|
                0 <= i < old(self).n() ==> final(self).value_at(i) == old(self).value_at(i)
                    && final(self).node_shape_eq(*old(self), i) && final(self).subs_at(i) == old(self).subs_at(i),
    {
        let id = NodeId { id: self.nodes.len() };
        self.nodes.push(Node { value: initial_value, subs: Vec::new(), kind: NodeKind::Source });
        proof {
            let a = *old(self);
            let b = *self;
            assert forall|i: int| 0 <= i < b.n() implies b.node_ok(i) by {
                if i < a.n() {
                    assert(a.node_ok(i));
                } else {
                    assert(b.nodes@[i].subs@ =~= Seq::<NodeId>::empty());
                }
            }
            assert forall|p: int| 0 <= p < b.n() implies b.node_consistent(p) by {
                if p < a.n() {
                    assert(a.node_consistent(p));
                    assert(a.node_ok(p));
                    Self::lemma_consistent_frame(a, b, p);
                }
            }
            assert forall|p: int, k: int|
                b.is_derived(p) && 0 <= k < b.inputs_at(p).len() implies seq_contains_id(
                b.subs_at((#[trigger] b.inputs_at(p)[k]).idx()),
                p,
            ) by {
                assert(p < a.n());
                assert(b.nodes@[p] == a.nodes@[p]);
                assert(a.inputs_at(p)[k] == b.inputs_at(p)[k]);
                let x = b.inputs_at(p)[k].idx();
                assert(a.node_ok(p));
                assert(0 <= x < a.n());
                assert(seq_contains_id(a.subs_at(x), p));
                assert(b.nodes@[x] == a.nodes@[x]);
            }
            assert(b.subs_complete_except(Seq::empty()));
            assert(b.consistent_except(Seq::empty()));
        }
        crate::signal::signal_from(id)
    }
}

/// Whether the node at index `x.idx()` occurs in the identifier list.
fn contains_id(v: &Vec<NodeId>, x: NodeId) -> (r: bool)
    ensures
        r == seq_contains_id(v@, x.idx()),
{
    let mut k: usize = 0;
    while k < v.len()
        invariant
            0 <= k <= v@.len(),
            forall|j: int| 0 <= j < k ==> (#[trigger] v@[j]).idx() != x.idx(),
        decreases v@.len() - k,
    {
        if v[k].id == x.id {
            proof {
                assert(v@[k as int].idx() == x.idx());
            }
            return true;
        }
        k += 1;
    }
    false
}

/// Copies an identifier list.
fn copy_ids(v: &Vec<NodeId>) -> (r: Vec<NodeId>)
    ensures
        r@ == v@,
{
    let mut r: Vec<NodeId> = Vec::new();
    let mut k: usize = 0;
    while k < v.len()
        invariant
            0 <= k <= v@.len(),
            r@ == v@.subrange(0, k as int),
        decreases v@.len() - k,
    {
        r.push(v[k]);
        proof {
            assert(r@ =~= v@.subrange(0, k + 1 as int));
        }
        k += 1;
    }
    proof {
        assert(r@ =~= v@);
    }
    r
}

/// Whether some node identifier repeats in the list.
fn has_duplicate(v: &Vec<NodeId>) -> (r: bool)
    ensures
        r == !v@.no_duplicates(),
{
    let mut k: usize = 0;
    while k < v.len()
        invariant
            0 <= k <= v@.len(),
            forall|i: int, j: int| 0 <= i < j < v@.len() && j < k ==> v@[i] != v@[j],
        decreases v@.len() - k,
    {
        let mut i: usize = 0;
        while i < k
            invariant
                0 <= i <= k < v@.len(),
                forall|j: int| 0 <= j < i ==> v@[j] != v@[k as int],
            decreases k - i,
        {
            if v[i].id == v[k].id {
                proof {
                    assert(v@[i as int] == v@[k as int]);
                }
                return true;
            }
            i += 1;
        }
        k += 1;
    }
    proof {
        assert forall|x: int, y: int|
            0 <= x < v@.len() && 0 <= y < v@.len() && x != y implies v@[x] != v@[y] by {
            if y < x {
                assert(v@[y] != v@[x]);
            }
        }
    }
    false
}

/// Whether every identifier in the list names one of the first `n` nodes.
fn ids_in_range(v: &Vec<NodeId>, n: usize) -> (r: bool)
    ensures
        r == forall|k: int| 0 <= k < v@.len() ==> 0 <= (#[trigger] v@[k]).idx() < n as int,
{
    let mut k: usize = 0;
    while k < v.len()
        invariant
            0 <= k <= v@.len(),
            forall|j: int| 0 <= j < k ==> 0 <= (#[trigger] v@[j]).idx() < n as int,
        decreases v@.len() - k,
    {
        if v[k].id >= n {
            return false;
        }
        k += 1;
    }
    true
}

impl<F: CalcQuery> ReactiveContext<F> {
    /// Adds `m` to the subscriber list of node `x` unless already present.
    fn subscribe(&mut self, x: NodeId, m: NodeId)
        requires
            0 <= x.idx() < old(self).n(),
        ensures
            final(self).n() == old(self).n(),
            forall|i: int|
                0 <= i < old(self).n() && i != x.idx() ==> final(self).nodes@[i] == old(self).nodes@[i],
            final(self).nodes@[x.idx()].value == old(self).nodes@[x.idx()].value,
            final(self).nodes@[x.idx()].kind == old(self).nodes@[x.idx()].kind,
            final(self).subs_at(x.idx()) == (if seq_contains_id(
                old(self).subs_at(x.idx()),
                m.idx(),
            ) {
                old(self).subs_at(x.idx())
            } else {
                old(self).subs_at(x.idx()).push(m)
            }),
    {
        let node = &mut self.nodes[x.id];
        let present = contains_id(&node.subs, m);
        if !present {
            node.subs.push(m);
        }
    }

    /// Reads the current values of the listed nodes, in list order.
    fn collect_values(&self, ids: &Vec<NodeId>) -> (r: Vec<Value>)
        requires
            forall|k: int| 0 <= k < ids@.len() ==> 0 <= (#[trigger] ids@[k]).idx() < self.n(),
        ensures
            r@ == ids@.map_values(|x: NodeId| self.value_at(x.idx())),
    {
        let mut r: Vec<Value> = Vec::new();
        let mut k: usize = 0;
        while k < ids.len()
            invariant
                0 <= k <= ids@.len(),
                forall|j: int| 0 <= j < ids@.len() ==> 0 <= (#[trigger] ids@[j]).idx() < self.n(),
                r@.len() == k,
                forall|j: int| 0 <= j < k ==> r@[j] == self.value_at((#[trigger] ids@[j]).idx()),
            decreases ids@.len() - k,
        {
            let nid = ids[k];
            r.push(self.nodes[nid.id].value);
            k += 1;
        }
        proof {
            assert(r@ =~= ids@.map_values(|x: NodeId| self.value_at(x.idx())));
        }
        r
    }

    /// Creates a derived node from a list of input dependencies and a pure
    /// derivation. The node is computed once immediately, subscribing itself
    /// to each input; this first computation always writes, as no prior value
    /// exists to diff against.
    ///
    /// Construction is refused, leaving the context untouched, when the input
    /// list names the same node twice (simultaneous exclusive access cannot be
    /// honored for an identifier borrowed twice at once) or when an input has
    /// no record in this context. Both are programmer errors: callers with a
    /// correctly built graph never see an error.
    pub fn calc(&mut self, input_deps: Vec<NodeId>, derive_fn: F) -> (r: Result<
        Calc,
        ReactiveError,
    >)
        requires
            old(self).wf(),
        ensures
            final(self).wf(),
            r is Err ==> *final(self) == *old(self),
            (r == Err::<Calc, ReactiveError>(ReactiveError::AliasedInput)
                <==> !input_deps@.no_duplicates()),
            (r == Err::<Calc, ReactiveError>(ReactiveError::MissingInput) <==> (
            input_deps@.no_duplicates() && exists|k: int|
                0 <= k < input_deps@.len() && !(0 <= (#[trigger] input_deps@[k]).idx() < old(self).n()))),
            r is Ok ==> ({
                let nw = old(self).n();
                &&& r->Ok_0.id_spec() == nw
                &&& final(self).n() == nw + 1
                &&& final(self).is_derived(nw)
                &&& final(self).input_ids(nw) == input_deps@.map_values(|x: NodeId| x.idx())
                &&& final(self).deriv_at(nw) == derive_fn
                &&& final(self).subs_at(nw) == Seq::<NodeId>::empty()
                &&& final(self).value_at(nw) == derive_fn.spec_derive(
                    input_deps@.map_values(|x: NodeId| old(self).value_at(x.idx())),
                )
                &&& forall|i: int|
                    0 <= i < nw ==> final(self).value_at(i) == old(self).value_at(i) && final(self).node_shape_eq(*old(self), i)
                &&& forall|i: int, q: int|
                    0 <= i < nw ==> (#[trigger] seq_contains_id(final(self).subs_at(i), q)
                        <==> seq_contains_id(old(self).subs_at(i), q) || (q == nw
                        && seq_contains_id(input_deps@, i)))
            }),
    {
        if has_duplicate(&input_deps) {
            return Err(ReactiveError::AliasedInput);
        }
        if !ids_in_range(&input_deps, self.nodes.len()) {
            return Err(ReactiveError::MissingInput);
        }
        let ghost a = *self;
        let m = NodeId { id: self.nodes.len() };
        let mut k: usize = 0;
        while k < input_deps.len()
            invariant
                0 <= k <= input_deps@.len(),
                input_deps@.no_duplicates(),
                forall|j: int|
                    0 <= j < input_deps@.len() ==> 0 <= (#[trigger] input_deps@[j]).idx() < a.n(),
                m.idx() == a.n(),
                a.wf(),
                self.n() == a.n(),
                forall|i: int|
                    0 <= i < a.n() && !seq_contains_id(input_deps@.subrange(0, k as int), i)
                        ==> self.nodes@[i] == a.nodes@[i],
                forall|j: int|
                    0 <= j < k ==> {
                        let x = (#[trigger] input_deps@[j]).idx();
                        &&& self.nodes@[x].value == a.nodes@[x].value
                        &&& self.nodes@[x].kind == a.nodes@[x].kind
                        &&& self.subs_at(x) == a.subs_at(x).push(m)
                    },
            decreases input_deps@.len() - k,
        {
            let x = input_deps[k];
            proof {
                assert(!seq_contains_id(input_deps@.subrange(0, k as int), x.idx())) by {
                    if seq_contains_id(input_deps@.subrange(0, k as int), x.idx()) {
                        let j = choose|j: int|
                            0 <= j < k && input_deps@.subrange(0, k as int)[j].idx() == x.idx();
                        assert(input_deps@[j] == input_deps@[k as int]);
                    }
                }
                assert(self.nodes@[x.idx()] == a.nodes@[x.idx()]);
                assert(!seq_contains_id(a.subs_at(x.idx()), m.idx())) by {
                    if seq_contains_id(a.subs_at(x.idx()), m.idx()) {
                        let j = choose|j: int|
                            0 <= j < a.subs_at(x.idx()).len() && a.subs_at(x.idx())[j].idx()
                                == m.idx();
                        assert(a.node_ok(x.idx()));
                    }
                }
            }
            self.subscribe(x, m);
            k += 1;
            proof {
                assert(input_deps@.subrange(0, k as int) =~= input_deps@.subrange(
                    0,
                    k - 1 as int,
                ).push(input_deps@[k - 1]));
                assert forall|i: int|
                    0 <= i < a.n() && !seq_contains_id(input_deps@.subrange(0, k as int), i)
                        implies self.nodes@[i] == a.nodes@[i] by {
                    assert(!seq_contains_id(input_deps@.subrange(0, k - 1 as int), i));
                    assert(input_deps@.subrange(0, k as int)[(k - 1) as int] == x);
                    assert(i != x.idx());
                }
            }
        }
        proof {
            assert(input_deps@.subrange(0, input_deps@.len() as int) =~= input_deps@);
        }
        let vals = self.collect_values(&input_deps);
        proof {
            assert(vals@ =~= input_deps@.map_values(|x: NodeId| a.value_at(x.idx())));
        }
        let newv = derive_fn.derive(&vals);
        self.nodes.push(
            Node {
                value: newv,
                subs: Vec::new(),
                kind: NodeKind::Derived { inputs: input_deps, f: derive_fn },
            },
        );
        proof {
            let b = *self;
            let nw = a.n();
            assert(b.inputs_at(nw) == input_deps@);
            assert(b.input_ids(nw) =~= input_deps@.map_values(|x: NodeId| x.idx()));
            assert(b.subs_at(nw) =~= Seq::<NodeId>::empty());
            // each old node: value and kind unchanged; subscribers gained at
            // most the fresh node
            assert forall|i: int| 0 <= i < nw implies b.value_at(i) == a.value_at(i)
                && b.node_shape_eq(a, i) by {
                if seq_contains_id(input_deps@, i) {
                    let j = choose|j: int|
                        0 <= j < input_deps@.len() && (#[trigger] input_deps@[j]).idx() == i;
                }
            }
            assert forall|i: int, q: int| 0 <= i < nw implies (#[trigger] seq_contains_id(b.subs_at(i), q) <==> seq_contains_id(a.subs_at(i), q) || (q == nw && seq_contains_id(
                input_deps@,
                i,
            ))) by {
                if seq_contains_id(input_deps@, i) {
                    let j = choose|j: int|
                        0 <= j < input_deps@.len() && (#[trigger] input_deps@[j]).idx() == i;
                    assert(b.subs_at(i) == a.subs_at(i).push(m));
                    if seq_contains_id(b.subs_at(i), q) {
                        let t = choose|t: int|
                            0 <= t < b.subs_at(i).len() && b.subs_at(i)[t].idx() == q;
                        if t < a.subs_at(i).len() {
                            assert(seq_contains_id(a.subs_at(i), q));
                        } else {
                            assert(q == nw);
                        }
                    }
                    if seq_contains_id(a.subs_at(i), q) {
                        let t = choose|t: int|
                            0 <= t < a.subs_at(i).len() && a.subs_at(i)[t].idx() == q;
                        assert(b.subs_at(i)[t].idx() == q);
                    }
                    if q == nw {
                        assert(b.subs_at(i)[a.subs_at(i).len() as int].idx() == q);
                    }
                } else {
                    assert(b.nodes@[i] == a.nodes@[i]);
                }
            }
            // structural well-formedness
            assert forall|i: int| 0 <= i < b.n() implies b.node_ok(i) by {
                if i < nw {
                    assert(a.node_ok(i));
                    if seq_contains_id(input_deps@, i) {
                        assert(b.subs_at(i) == a.subs_at(i).push(m));
                        assert forall|t: int| 0 <= t < b.subs_at(i).len() implies {
                            let s = (#[trigger] b.subs_at(i)[t]).idx();
                            &&& i < s < b.n()
                            &&& b.is_derived(s)
                            &&& seq_contains_id(b.inputs_at(s), i)
                        } by {
                            if t < a.subs_at(i).len() {
                                let s = a.subs_at(i)[t].idx();
                                assert(a.is_derived(s));
                                assert(b.nodes@[s] == a.nodes@[s]
                                    || b.subs_at(s) == a.subs_at(s).push(m));
                            } else {
                                assert(b.subs_at(i)[t] == m);
                                let j = choose|j: int|
                                    0 <= j < input_deps@.len() && (#[trigger] input_deps@[j]).idx()
                                        == i;
                                assert(seq_contains_id(b.inputs_at(nw), i));
                            }
                        }
                        assert(b.subs_at(i).no_duplicates()) by {
                            assert(!seq_contains_id(a.subs_at(i), m.idx())) by {
                                if seq_contains_id(a.subs_at(i), m.idx()) {
                                    let t = choose|t: int|
                                        0 <= t < a.subs_at(i).len() && a.subs_at(i)[t].idx()
                                            == m.idx();
                                    assert(a.node_ok(i));
                                }
                            }
                            assert forall|u: int, t: int|
                                0 <= u < t < b.subs_at(i).len() implies b.subs_at(i)[u]
                                != b.subs_at(i)[t] by {
                                if t == a.subs_at(i).len() {
                                    assert(b.subs_at(i)[u].idx() != m.idx());
                                }
                            }
                        }
                    } else {
                        assert(b.nodes@[i] == a.nodes@[i]);
                        assert forall|t: int| 0 <= t < b.subs_at(i).len() implies {
                            let s = (#[trigger] b.subs_at(i)[t]).idx();
                            &&& i < s < b.n()
                            &&& b.is_derived(s)
                            &&& seq_contains_id(b.inputs_at(s), i)
                        } by {
                            let s = a.subs_at(i)[t].idx();
                            assert(a.is_derived(s));
                            assert(b.nodes@[s] == a.nodes@[s] || b.subs_at(s) == a.subs_at(
                                s,
                            ).push(m));
                        }
                    }
                } else {
                    // the fresh node itself
                    assert(b.nodes@[i].subs@ =~= Seq::<NodeId>::empty());
                }
            }
            // subscription completeness
            assert forall|p: int, k2: int|
                b.is_derived(p) && 0 <= k2 < b.inputs_at(p).len() implies seq_contains_id(
                b.subs_at((#[trigger] b.inputs_at(p)[k2]).idx()),
                p,
            ) by {
                let x = b.inputs_at(p)[k2].idx();
                if p < nw {
                    assert(b.node_shape_eq(a, p));
                    assert(a.is_derived(p));
                    assert(a.inputs_at(p) == b.inputs_at(p));
                    assert(a.inputs_at(p)[k2] == b.inputs_at(p)[k2]);
                    assert(a.node_ok(p));
                    assert(0 <= x < nw);
                    assert(seq_contains_id(a.subs_at(x), p));
                    assert(seq_contains_id(b.subs_at(x), p));
                } else {
                    assert(b.inputs_at(p) == input_deps@);
                    assert(seq_contains_id(input_deps@, x)) by {
                        assert(input_deps@[k2].idx() == x);
                    }
                    assert(seq_contains_id(b.subs_at(x), p));
                }
            }
            // consistency
            assert forall|p: int| 0 <= p < b.n() implies b.node_consistent(p) by {
                if p < nw {
                    assert(a.node_consistent(p));
                    assert(a.node_ok(p));
                    Self::lemma_consistent_frame(a, b, p);
                } else {
                    assert(b.input_vals(p) =~= vals@);
                }
            }
            assert(b.subs_complete_except(Seq::empty()));
            assert(b.consistent_except(Seq::empty()));
        }
        Ok(crate::calculated::calc_from(m))
    }

    /// Recomputes derived node `m`: re-runs the dependency query against its
    /// fixed input list (re-registering `m` as a subscriber of each input),
    /// diffs the candidate against the stored value, and on a change writes
    /// it, detaches `m`'s subscribers and appends them to the worklist.
    fn recompute(&mut self, m: NodeId, stack: &mut Vec<NodeId>)
        requires
            old(self).wf_graph(),
            old(self).is_derived(m.idx()),
        ensures
            final(self).wf_graph(),
            final(self).same_structure(*old(self)),
            final(self).value_at(m.idx()) == old(self).derived_value(m.idx()),
            forall|i: int|
                0 <= i < old(self).n() && i != m.idx() ==> final(self).value_at(i) == old(self).value_at(i),
            forall|x: int|
                0 <= x < old(self).n() && seq_contains_id(old(self).inputs_at(m.idx()), x)
                    ==> #[trigger] final(self).subs_at(x) == (if seq_contains_id(
                    old(self).subs_at(x),
                    m.idx(),
                ) {
                    old(self).subs_at(x)
                } else {
                    old(self).subs_at(x).push(m)
                }),
            forall|x: int|
                0 <= x < old(self).n() && !seq_contains_id(old(self).inputs_at(m.idx()), x) && x
                    != m.idx() ==> #[trigger] final(self).subs_at(x) == old(self).subs_at(x),
            old(self).derived_value(m.idx()) == old(self).value_at(m.idx()) ==> final(stack)@
                == old(stack)@ && final(self).subs_at(m.idx()) == old(self).subs_at(m.idx()),
            old(self).derived_value(m.idx()) != old(self).value_at(m.idx()) ==> final(stack)@
                == old(stack)@ + old(self).subs_at(m.idx()) && final(self).subs_at(m.idx())
                == Seq::<NodeId>::empty(),
    {
        let ghost a = *old(self);
        let idm = m.id;
        let inputs: Vec<NodeId> = match &self.nodes[idm].kind {
            NodeKind::Derived { inputs, .. } => copy_ids(inputs),
            NodeKind::Source => vstd::pervasive::unreached(),
        };
        proof {
            assert(inputs@ == a.inputs_at(m.idx()));
            assert(a.node_ok(m.idx()));
        }
        let mut k: usize = 0;
        while k < inputs.len()
            invariant
                0 <= k <= inputs@.len(),
                inputs@ == a.inputs_at(m.idx()),
                a.wf_graph(),
                a.is_derived(m.idx()),
                self.n() == a.n(),
                forall|i: int|
                    0 <= i < a.n() && !seq_contains_id(inputs@.subrange(0, k as int), i)
                        ==> self.nodes@[i] == a.nodes@[i],
                forall|j: int|
                    0 <= j < k ==> {
                        let x = (#[trigger] inputs@[j]).idx();
                        &&& self.nodes@[x].value == a.nodes@[x].value
                        &&& self.nodes@[x].kind == a.nodes@[x].kind
                        &&& self.subs_at(x) == (if seq_contains_id(a.subs_at(x), m.idx()) {
                            a.subs_at(x)
                        } else {
                            a.subs_at(x).push(m)
                        })
                    },
            decreases inputs@.len() - k,
        {
            let x = inputs[k];
            proof {
                assert(a.node_ok(m.idx()));
                assert(0 <= x.idx() < m.idx());
                assert(!seq_contains_id(inputs@.subrange(0, k as int), x.idx())) by {
                    if seq_contains_id(inputs@.subrange(0, k as int), x.idx()) {
                        let j = choose|j: int|
                            0 <= j < k && inputs@.subrange(0, k as int)[j].idx() == x.idx();
                        assert(inputs@[j] == inputs@[k as int]);
                    }
                }
                assert(self.nodes@[x.idx()] == a.nodes@[x.idx()]);
            }
            self.subscribe(x, m);
            k += 1;
            proof {
                assert(inputs@.subrange(0, k as int) =~= inputs@.subrange(0, k - 1 as int).push(
                    inputs@[k - 1],
                ));
                assert forall|i: int|
                    0 <= i < a.n() && !seq_contains_id(inputs@.subrange(0, k as int), i) implies
                    self.nodes@[i] == a.nodes@[i] by {
                    assert(!seq_contains_id(inputs@.subrange(0, k - 1 as int), i));
                    assert(inputs@.subrange(0, k as int)[(k - 1) as int] == x);
                    assert(i != x.idx());
                }
            }
        }
        proof {
            assert(inputs@.subrange(0, inputs@.len() as int) =~= inputs@);
            assert(self.nodes@[m.idx()] == a.nodes@[m.idx()]) by {
                if seq_contains_id(inputs@, m.idx()) {
                    let j = choose|j: int|
                        0 <= j < inputs@.len() && (#[trigger] inputs@[j]).idx() == m.idx();
                }
            }
        }
        let vals = self.collect_values(&inputs);
        proof {
            assert(vals@ =~= a.input_vals(m.idx()));
        }
        let newv = match &self.nodes[idm].kind {
            NodeKind::Derived { f, .. } => f.derive(&vals),
            NodeKind::Source => vstd::pervasive::unreached(),
        };
        proof {
            assert(newv == a.derived_value(m.idx()));
        }
        let ghost mid = *self;
        proof {
            assert forall|x: int| 0 <= x < a.n() && seq_contains_id(inputs@, x) implies {
                &&& mid.nodes@[x].value == a.nodes@[x].value
                &&& mid.nodes@[x].kind == a.nodes@[x].kind
                &&& #[trigger] mid.subs_at(x) == (if seq_contains_id(a.subs_at(x), m.idx()) {
                    a.subs_at(x)
                } else {
                    a.subs_at(x).push(m)
                })
            } by {
                let j = choose|j: int|
                    0 <= j < inputs@.len() && (#[trigger] inputs@[j]).idx() == x;
            }
            assert forall|x: int|
                0 <= x < a.n() && !seq_contains_id(inputs@, x) implies mid.nodes@[x]
                == a.nodes@[x] by {}
        }
        proof {
            assert(mid.nodes@[m.idx()] == a.nodes@[m.idx()]);
        }
        let oldv = self.nodes[idm].value;
        if newv == oldv {
            proof {
                let b = *self;
                assert forall|i: int|
                    0 <= i < a.n() implies b.nodes@[i].kind == a.nodes@[i].kind by {
                    if !seq_contains_id(inputs@, i) {
                        assert(mid.nodes@[i] == a.nodes@[i]);
                    }
                }
                assert forall|x: int|
                    0 <= x < a.n() && x != m.idx() implies (#[trigger] b.subs_at(x) == a.subs_at(
                        x,
                    ) || b.subs_at(x) == a.subs_at(x).push(m)) by {
                    if !seq_contains_id(inputs@, x) {
                        assert(mid.nodes@[x] == a.nodes@[x]);
                    }
                }
                assert(b.subs_at(m.idx()) == a.subs_at(m.idx()));
                assert forall|x: int|
                    0 <= x < a.n() && #[trigger] b.subs_at(x) == a.subs_at(x).push(m) implies
                    seq_contains_id(a.inputs_at(m.idx()), x) && !seq_contains_id(
                    a.subs_at(x),
                    m.idx(),
                ) by {
                    assert(b.subs_at(x).len() == a.subs_at(x).len() + 1);
                    if seq_contains_id(inputs@, x) {
                        if seq_contains_id(a.subs_at(x), m.idx()) {
                            assert(b.subs_at(x) == a.subs_at(x));
                            assert(false);
                        }
                    } else if x == m.idx() {
                        assert(false);
                    } else {
                        assert(mid.nodes@[x] == a.nodes@[x]);
                        assert(false);
                    }
                }
                Self::lemma_recompute_wf(a, b, m);
                assert forall|i: int|
                    0 <= i < a.n() && i != m.idx() implies b.value_at(i) == a.value_at(i) by {
                    if !seq_contains_id(inputs@, i) {
                        assert(mid.nodes@[i] == a.nodes@[i]);
                    }
                }
            }
            return ;
        }
        let node = &mut self.nodes[idm];
        node.value = newv;
        stack.append(&mut node.subs);
        proof {
            let b = *self;
            assert(b.subs_at(m.idx()) =~= Seq::<NodeId>::empty());
            assert forall|i: int|
                0 <= i < a.n() && i != m.idx() implies b.nodes@[i] == mid.nodes@[i] by {}
            assert forall|i: int| 0 <= i < a.n() implies b.nodes@[i].kind == a.nodes@[i].kind by {
                if i != m.idx() {
                    if !seq_contains_id(inputs@, i) {
                        assert(mid.nodes@[i] == a.nodes@[i]);
                    }
                } else {
                    assert(b.nodes@[m.idx()].kind == mid.nodes@[m.idx()].kind);
                }
            }
            assert forall|x: int|
                0 <= x < a.n() && x != m.idx() implies (#[trigger] b.subs_at(x) == a.subs_at(x)
                    || b.subs_at(x) == a.subs_at(x).push(m)) by {
                assert(b.nodes@[x] == mid.nodes@[x]);
                if !seq_contains_id(inputs@, x) {
                    assert(mid.nodes@[x] == a.nodes@[x]);
                }
            }
            assert forall|x: int|
                0 <= x < a.n() && #[trigger] b.subs_at(x) == a.subs_at(x).push(m) implies
                seq_contains_id(a.inputs_at(m.idx()), x) && !seq_contains_id(
                a.subs_at(x),
                m.idx(),
            ) by {
                assert(b.subs_at(x).len() == a.subs_at(x).len() + 1);
                if x == m.idx() {
                    assert(b.subs_at(x).len() == 0);
                    assert(false);
                } else if seq_contains_id(inputs@, x) {
                    assert(b.nodes@[x] == mid.nodes@[x]);
                    if seq_contains_id(a.subs_at(x), m.idx()) {
                        assert(b.subs_at(x) == a.subs_at(x));
                        assert(false);
                    }
                } else {
                    assert(b.nodes@[x] == mid.nodes@[x]);
                    assert(mid.nodes@[x] == a.nodes@[x]);
                    assert(false);
                }
            }
            Self::lemma_recompute_wf(a, b, m);
            assert forall|i: int|
                0 <= i < a.n() && i != m.idx() implies b.value_at(i) == a.value_at(i) by {
                if !seq_contains_id(inputs@, i) {
                    assert(mid.nodes@[i] == a.nodes@[i]);
                }
            }
            assert(stack@ == old(stack)@ + a.subs_at(m.idx()));
        }
    }

    /// Writes `value` to the signal node, then runs the full propagation
    /// episode to completion before returning: every transitively dependent
    /// derived node is recomputed, worklist-first, until all values settle.
    /// When the written value equals the current one the write is a no-op:
    /// nothing changes and nothing is recomputed, so consecutive identical
    /// writes settle after the first.
    pub fn send_signal(&mut self, signal: Signal, value: Value)
        requires
            old(self).wf(),
            old(self).is_source(signal.id_spec()),
        ensures
            final(self).wf(),
            final(self).same_structure(*old(self)),
            final(self).value_at(signal.id_spec()) == value,
            value == old(self).value_at(signal.id_spec()) ==> *final(self) == *old(self),
            forall|i: int|
                0 <= i < old(self).n() && old(self).is_source(i) && i != signal.id_spec()
                    ==> final(self).value_at(i) == old(self).value_at(i),
    {
        let ghost a = *old(self);
        let nid = signal.reactive_entity();
        let sidx = nid.id;
        let oldv = self.nodes[sidx].value;
        if value == oldv {
            return ;
        }
        let node = &mut self.nodes[sidx];
        node.value = value;
        let mut stack: Vec<NodeId> = Vec::new();
        stack.append(&mut node.subs);
        proof {
            let b = *self;
            assert(stack@ =~= a.subs_at(nid.idx()));
            assert(b.subs_at(nid.idx()) =~= Seq::<NodeId>::empty());
            assert forall|i: int| 0 <= i < b.n() implies b.node_ok(i) by {
                assert(a.node_ok(i));
                if i != nid.idx() {
                    assert(b.nodes@[i] == a.nodes@[i]);
                    assert forall|t: int| 0 <= t < b.subs_at(i).len() implies {
                        let s = (#[trigger] b.subs_at(i)[t]).idx();
                        &&& i < s < b.n()
                        &&& b.is_derived(s)
                        &&& seq_contains_id(b.inputs_at(s), i)
                    } by {
                        let s = a.subs_at(i)[t].idx();
                        assert(a.is_derived(s));
                        assert(b.nodes@[s].kind == a.nodes@[s].kind);
                    }
                }
            }
            assert forall|k: int|
                0 <= k < stack@.len() implies b.is_derived((#[trigger] stack@[k]).idx()) by {
                assert(a.node_ok(nid.idx()));
                let s = a.subs_at(nid.idx())[k].idx();
                assert(a.is_derived(s));
                assert(b.nodes@[s].kind == a.nodes@[s].kind);
            }
            assert forall|p: int, k: int|
                b.is_derived(p) && 0 <= k < b.inputs_at(p).len() implies seq_contains_id(
                b.subs_at((#[trigger] b.inputs_at(p)[k]).idx()),
                p,
            ) || seq_contains_id(stack@, p) by {
                let x = b.inputs_at(p)[k].idx();
                assert(p != nid.idx()) by {
                    assert(b.nodes@[nid.idx()].kind == a.nodes@[nid.idx()].kind);
                }
                assert(b.nodes@[p] == a.nodes@[p]);
                assert(a.is_derived(p));
                assert(a.inputs_at(p) == b.inputs_at(p));
                assert(a.inputs_at(p)[k] == b.inputs_at(p)[k]);
                assert(a.node_ok(p));
                assert(0 <= x < a.n());
                assert(seq_contains_id(a.subs_at(x), p));
                if x != nid.idx() {
                    assert(b.nodes@[x] == a.nodes@[x]);
                    assert(b.subs_at(x) == a.subs_at(x));
                }
            }
            assert forall|p: int|
                0 <= p < b.n() implies b.node_consistent(p) || seq_contains_id(stack@, p) by {
                assert(a.node_consistent(p));
                assert(a.node_ok(p));
                if b.is_derived(p) {
                    assert(p != nid.idx()) by {
                        assert(b.nodes@[nid.idx()].kind == a.nodes@[nid.idx()].kind);
                    }
                    assert(b.nodes@[p] == a.nodes@[p]);
                    assert(a.is_derived(p));
                    if seq_contains_id(a.inputs_at(p), nid.idx()) {
                        let j = choose|j: int|
                            0 <= j < a.inputs_at(p).len() && (#[trigger] a.inputs_at(p)[j]).idx()
                                == nid.idx();
                        assert(seq_contains_id(a.subs_at(nid.idx()), p));
                    } else {
                        assert forall|k: int|
                            0 <= k < a.inputs_at(p).len() implies b.value_at(
                            (#[trigger] a.inputs_at(p)[k]).idx(),
                        ) == a.value_at(a.inputs_at(p)[k].idx()) by {
                            let x = a.inputs_at(p)[k].idx();
                            assert(x != nid.idx());
                            assert(0 <= x < a.n());
                            assert(b.nodes@[x] == a.nodes@[x]);
                        }
                        Self::lemma_consistent_frame(a, b, p);
                    }
                }
            }
        }
        let ghost n0 = a.n();
        while stack.len() > 0
            invariant
                a.wf(),
                a.is_source(signal.id_spec()),
                signal.id_spec() == nid.idx(),
                self.wf_graph(),
                self.n() == n0,
                n0 == a.n(),
                self.same_structure(a),
                forall|k: int|
                    0 <= k < stack@.len() ==> self.is_derived((#[trigger] stack@[k]).idx()),
                self.subs_complete_except(stack@),
                self.consistent_except(stack@),
                self.value_at(signal.id_spec()) == value,
                forall|i: int|
                    0 <= i < n0 && a.is_source(i) && i != signal.id_spec()
                        ==> self.value_at(i) == a.value_at(i),
            decreases crate::measure::stack_measure(stack@, n0),
        {
            let ghost st0 = stack@;
            let ghost s1 = *self;
            let m = stack.pop().unwrap();
            proof {
                assert(stack@ =~= st0.drop_last());
                assert(st0.last() == m);
                assert(crate::measure::stack_measure(st0, n0) == crate::measure::stack_measure(
                    stack@,
                    n0,
                ) + crate::measure::id_weight(n0, m.idx()));
                assert(s1.is_derived(m.idx()));
            }
            let ghost st1 = stack@;
            self.recompute(m, &mut stack);
            proof {
                let b = *self;
                let dv = s1.derived_value(m.idx());
                let changed = dv != s1.value_at(m.idx());
                assert(b.same_structure(a)) by {
                    assert forall|i: int| 0 <= i < b.n() implies b.node_shape_eq(a, i) by {
                        assert(b.node_shape_eq(s1, i));
                        assert(s1.node_shape_eq(a, i));
                    }
                }
                assert(s1.node_ok(m.idx()));
                if changed {
                    assert(stack@ == st1 + s1.subs_at(m.idx()));
                } else {
                    assert(stack@ == st1);
                }
                assert forall|p: int|
                    seq_contains_id(st1, p) implies seq_contains_id(stack@, p) by {
                    let j = choose|j: int| 0 <= j < st1.len() && st1[j].idx() == p;
                    assert(stack@[j].idx() == p);
                }
                assert forall|k: int|
                    0 <= k < stack@.len() implies b.is_derived((#[trigger] stack@[k]).idx()) by {
                    if k < st1.len() {
                        assert(st1[k] == st0[k]);
                        assert(s1.is_derived(st1[k].idx()));
                    } else {
                        let t = stack@[k];
                        assert(t == s1.subs_at(m.idx())[k - st1.len()]);
                        assert(s1.is_derived(t.idx()));
                    }
                    assert(b.node_shape_eq(s1, stack@[k].idx()));
                }
                assert forall|p: int, k: int|
                    b.is_derived(p) && 0 <= k < b.inputs_at(p).len() implies seq_contains_id(
                    b.subs_at((#[trigger] b.inputs_at(p)[k]).idx()),
                    p,
                ) || seq_contains_id(stack@, p) by {
                    let x = b.inputs_at(p)[k].idx();
                    assert(b.node_shape_eq(s1, p));
                    assert(b.inputs_at(p) == s1.inputs_at(p));
                    assert(s1.inputs_at(p)[k] == b.inputs_at(p)[k]);
                    assert(s1.is_derived(p));
                    assert(s1.node_ok(p));
                    assert(0 <= x < n0);
                    if p == m.idx() {
                        assert(seq_contains_id(s1.inputs_at(m.idx()), x)) by {
                            assert(s1.inputs_at(p)[k].idx() == x);
                        }
                        if seq_contains_id(s1.subs_at(x), m.idx()) {
                            assert(b.subs_at(x) == s1.subs_at(x));
                        } else {
                            assert(b.subs_at(x) == s1.subs_at(x).push(m));
                            assert(b.subs_at(x)[s1.subs_at(x).len() as int].idx() == m.idx());
                        }
                    } else {
                        assert(seq_contains_id(s1.subs_at(x), p) || seq_contains_id(st0, p));
                        if seq_contains_id(st0, p) {
                            let j = choose|j: int| 0 <= j < st0.len() && st0[j].idx() == p;
                            assert(j < st0.len() - 1) by {
                                if j == st0.len() - 1 {
                                    assert(st0[j] == m);
                                }
                            }
                            assert(st1[j].idx() == p);
                            assert(seq_contains_id(st1, p));
                        } else {
                            if x == m.idx() {
                                if changed {
                                    let j = choose|j: int|
                                        0 <= j < s1.subs_at(m.idx()).len() && s1.subs_at(
                                            m.idx(),
                                        )[j].idx() == p;
                                    assert(stack@[st1.len() + j].idx() == p);
                                } else {
                                    assert(b.subs_at(x) == s1.subs_at(x));
                                }
                            } else if seq_contains_id(s1.inputs_at(m.idx()), x) {
                                let j = choose|j: int|
                                    0 <= j < s1.subs_at(x).len() && s1.subs_at(x)[j].idx() == p;
                                if seq_contains_id(s1.subs_at(x), m.idx()) {
                                    assert(b.subs_at(x) == s1.subs_at(x));
                                } else {
                                    assert(b.subs_at(x) == s1.subs_at(x).push(m));
                                    assert(b.subs_at(x)[j].idx() == p);
                                }
                            } else {
                                assert(b.subs_at(x) == s1.subs_at(x));
                            }
                        }
                    }
                }
                assert forall|p: int|
                    0 <= p < b.n() implies b.node_consistent(p) || seq_contains_id(
                    stack@,
                    p,
                ) by {
                    if p == m.idx() {
                        assert(b.value_at(m.idx()) == dv);
                        assert(b.node_shape_eq(s1, m.idx()));
                        assert(b.inputs_at(m.idx()) == s1.inputs_at(m.idx()));
                        assert(b.input_vals(m.idx()) =~= s1.input_vals(m.idx())) by {
                            assert forall|k: int|
                                0 <= k < s1.inputs_at(m.idx()).len() implies b.value_at(
                                (#[trigger] s1.inputs_at(m.idx())[k]).idx(),
                            ) == s1.value_at(s1.inputs_at(m.idx())[k].idx()) by {
                                assert(0 <= s1.inputs_at(m.idx())[k].idx() < m.idx());
                            }
                        }
                        assert(b.is_derived(p) ==> b.deriv_at(p) == s1.deriv_at(p));
                        assert(b.node_consistent(p));
                    } else {
                        assert(s1.node_consistent(p) || seq_contains_id(st0, p));
                        if seq_contains_id(st0, p) {
                            let j = choose|j: int| 0 <= j < st0.len() && st0[j].idx() == p;
                            assert(j < st0.len() - 1) by {
                                if j == st0.len() - 1 {
                                    assert(st0[j] == m);
                                }
                            }
                            assert(st1[j].idx() == p);
                            assert(seq_contains_id(st1, p));
                        } else if b.is_derived(p) {
                            assert(b.node_shape_eq(s1, p));
                            assert(s1.is_derived(p));
                            assert(s1.node_ok(p));
                            if seq_contains_id(s1.inputs_at(p), m.idx()) {
                                if changed {
                                    let j2 = choose|j2: int|
                                        0 <= j2 < s1.inputs_at(p).len() && (
                                        #[trigger] s1.inputs_at(p)[j2]).idx() == m.idx();
                                    assert(seq_contains_id(s1.subs_at(m.idx()), p)
                                        || seq_contains_id(st0, p));
                                    let j = choose|j: int|
                                        0 <= j < s1.subs_at(m.idx()).len() && s1.subs_at(
                                            m.idx(),
                                        )[j].idx() == p;
                                    assert(stack@[st1.len() + j].idx() == p);
                                } else {
                                    assert(b.value_at(m.idx()) == s1.value_at(m.idx()));
                                    assert(b.value_at(p) == s1.value_at(p));
                                    assert forall|k: int|
                                        0 <= k < s1.inputs_at(p).len() implies b.value_at(
                                        (#[trigger] s1.inputs_at(p)[k]).idx(),
                                    ) == s1.value_at(s1.inputs_at(p)[k].idx()) by {
                                        let x = s1.inputs_at(p)[k].idx();
                                        assert(0 <= x < p);
                                    }
                                    Self::lemma_consistent_frame(s1, b, p);
                                }
                            } else {
                                assert(b.value_at(p) == s1.value_at(p));
                                assert forall|k: int|
                                    0 <= k < s1.inputs_at(p).len() implies b.value_at(
                                    (#[trigger] s1.inputs_at(p)[k]).idx(),
                                ) == s1.value_at(s1.inputs_at(p)[k].idx()) by {
                                    assert(0 <= s1.inputs_at(p)[k].idx() < p);
                                    assert(s1.inputs_at(p)[k].idx() != m.idx());
                                }
                                Self::lemma_consistent_frame(s1, b, p);
                            }
                        }
                    }
                }
                assert(m.idx() != signal.id_spec()) by {
                    assert(s1.node_shape_eq(a, m.idx()));
                }
                assert forall|i: int|
                    0 <= i < n0 && a.is_source(i) && i != signal.id_spec() implies b.value_at(i)
                    == a.value_at(i) by {
                    assert(s1.node_shape_eq(a, i));
                    assert(i != m.idx());
                }
                // the measure shrinks: the popped node outweighs everything
                // appended in its stead
                if changed {
                    crate::measure::lemma_stack_measure_append(st1, s1.subs_at(m.idx()), n0);
                    crate::measure::lemma_stack_measure_bounded(s1.subs_at(m.idx()), n0, m.idx());
                } else {
                    crate::measure::lemma_id_weight_pos(n0, m.idx());
                }
                assert forall|k: int|
                    0 <= k < stack@.len() implies 0 <= (#[trigger] stack@[k]).idx() <= n0 by {
                    assert(b.is_derived(stack@[k].idx()));
                }
                crate::measure::lemma_stack_measure_nonneg(stack@, n0);
            }
        }
        proof {
            assert(stack@ =~= Seq::<NodeId>::empty());
            assert(self.subs_complete_except(Seq::<NodeId>::empty())) by {
                assert forall|p: int, k: int|
                    self.is_derived(p) && 0 <= k < self.inputs_at(p).len() implies seq_contains_id(
                    self.subs_at((#[trigger] self.inputs_at(p)[k]).idx()),
                    p,
                ) by {
                    assert(!seq_contains_id(stack@, p));
                }
            }
            assert(self.consistent_except(Seq::<NodeId>::empty())) by {
                assert forall|p: int| 0 <= p < self.n() implies self.node_consistent(p) by {
                    assert(!seq_contains_id(stack@, p));
                }
            }
        }
    }

    /// A state reached from `a` by a recomputation of `m` keeps the graph
    /// structurally well-formed.
    proof fn lemma_recompute_wf(a: Self, b: Self, m: NodeId)
        requires
            a.wf_graph(),
            a.is_derived(m.idx()),
            b.n() == a.n(),
            forall|i: int| 0 <= i < a.n() ==> b.nodes@[i].kind == a.nodes@[i].kind,
            forall|x: int|
                0 <= x < a.n() && x != m.idx() ==> (#[trigger] b.subs_at(x) == a.subs_at(x)
                    || b.subs_at(x) == a.subs_at(x).push(m)),
            b.subs_at(m.idx()) == a.subs_at(m.idx()) || b.subs_at(m.idx())
                == Seq::<NodeId>::empty(),
            forall|x: int|
                0 <= x < a.n() && #[trigger] b.subs_at(x) == a.subs_at(x).push(m)
                    ==> seq_contains_id(a.inputs_at(m.idx()), x) && !seq_contains_id(
                    a.subs_at(x),
                    m.idx(),
                ),
        ensures
            b.wf_graph(),
            b.same_structure(a),
    {
        assert forall|i: int| 0 <= i < b.n() implies b.node_ok(i) by {
            assert(a.node_ok(i));
            assert(b.inputs_at(i) == a.inputs_at(i));
            if b.subs_at(i) == a.subs_at(i).push(m) {
                assert(a.node_ok(m.idx()));
                assert(0 <= i < m.idx()) by {
                    let j = choose|j: int|
                        0 <= j < a.inputs_at(m.idx()).len() && (#[trigger] a.inputs_at(
                            m.idx(),
                        )[j]).idx() == i;
                }
                assert forall|t: int| 0 <= t < b.subs_at(i).len() implies {
                    let s = (#[trigger] b.subs_at(i)[t]).idx();
                    &&& i < s < b.n()
                    &&& b.is_derived(s)
                    &&& seq_contains_id(b.inputs_at(s), i)
                } by {
                    if t < a.subs_at(i).len() {
                        let s = a.subs_at(i)[t].idx();
                        assert(a.is_derived(s));
                        assert(b.inputs_at(s) == a.inputs_at(s));
                    } else {
                        assert(b.subs_at(i)[t] == m);
                        assert(b.inputs_at(m.idx()) == a.inputs_at(m.idx()));
                    }
                }
                assert(b.subs_at(i).no_duplicates()) by {
                    assert forall|u: int, t: int|
                        0 <= u < t < b.subs_at(i).len() implies b.subs_at(i)[u] != b.subs_at(
                        i,
                    )[t] by {
                        if t == a.subs_at(i).len() {
                            assert(b.subs_at(i)[u].idx() != m.idx());
                        }
                    }
                }
            } else {
                assert(b.subs_at(i) == a.subs_at(i) || b.subs_at(i) == Seq::<NodeId>::empty());
                assert forall|t: int| 0 <= t < b.subs_at(i).len() implies {
                    let s = (#[trigger] b.subs_at(i)[t]).idx();
                    &&& i < s < b.n()
                    &&& b.is_derived(s)
                    &&& seq_contains_id(b.inputs_at(s), i)
                } by {
                    assert(b.subs_at(i)[t] == a.subs_at(i)[t]);
                    let s = a.subs_at(i)[t].idx();
                    assert(a.is_derived(s));
                    assert(b.inputs_at(s) == a.inputs_at(s));
                }
            }
        }
    }
}

/// Law: subscriptions track dependence exactly. In a well-formed (settled)
/// context, the subscriber list of any node holds, as a set, precisely the
/// derived nodes that list it among their fixed inputs: detaching the list
/// when a value changes and re-registering readers during each recomputation
/// neither leaves a stale entry behind nor misses a dependent.
pub proof fn lemma_subscription_accuracy<F: CalcQuery>(ctx: ReactiveContext<F>, x: int, p: int)
    requires
        ctx.wf(),
        0 <= x < ctx.n(),
    ensures
        seq_contains_id(ctx.subs_at(x), p) <==> (ctx.is_derived(p) && seq_contains_id(
            ctx.inputs_at(p),
            x,
        )),
{
    if seq_contains_id(ctx.subs_at(x), p) {
        let k = choose|k: int|
            0 <= k < ctx.subs_at(x).len() && (#[trigger] ctx.subs_at(x)[k]).idx() == p;
        assert(ctx.node_ok(x));
    }
    if ctx.is_derived(p) && seq_contains_id(ctx.inputs_at(p), x) {
        let k = choose|k: int|
            0 <= k < ctx.inputs_at(p).len() && (#[trigger] ctx.inputs_at(p)[k]).idx() == x;
        assert(seq_contains_id(ctx.subs_at((ctx.inputs_at(p)[k]).idx()), p) || seq_contains_id(
            Seq::<NodeId>::empty(),
            p,
        ));
    }
}

/// Law: diamond convergence. For a source `s`, derived nodes `a` and `b` each
/// reading only `s`, and a derived node `c` reading `a` and `b`, any settled
/// (well-formed) context gives `c` exactly its derivation applied to `a`'s
/// and `b`'s derivations of the current source value — however many times `c`
/// was recomputed while the episode was in flight, its final value reflects
/// both fully updated branches.
pub proof fn lemma_diamond_convergence<F: CalcQuery>(
    ctx: ReactiveContext<F>,
    s: int,
    a: int,
    b: int,
    c: int,
)
    requires
        ctx.wf(),
        ctx.is_derived(a),
        ctx.input_ids(a) == seq![s],
        ctx.is_derived(b),
        ctx.input_ids(b) == seq![s],
        ctx.is_derived(c),
        ctx.input_ids(c) == seq![a, b],
        0 <= s < ctx.n(),
    ensures
        ctx.value_at(c) == ctx.deriv_at(c).spec_derive(
            seq![
                ctx.deriv_at(a).spec_derive(seq![ctx.value_at(s)]),
                ctx.deriv_at(b).spec_derive(seq![ctx.value_at(s)]),
            ],
        ),
{
    assert(ctx.node_consistent(a) && !seq_contains_id(Seq::<NodeId>::empty(), a));
    assert(ctx.node_consistent(b) && !seq_contains_id(Seq::<NodeId>::empty(), b));
    assert(ctx.node_consistent(c) && !seq_contains_id(Seq::<NodeId>::empty(), c));
    assert(ctx.inputs_at(a).len() == 1 && ctx.inputs_at(a)[0].idx() == s) by {
        assert(ctx.input_ids(a).len() == 1);
        assert(ctx.input_ids(a).len() == ctx.inputs_at(a).len());
        assert(ctx.input_ids(a)[0] == s);
    }
    assert(ctx.input_vals(a) =~= seq![ctx.value_at(s)]);
    assert(ctx.inputs_at(b).len() == 1 && ctx.inputs_at(b)[0].idx() == s) by {
        assert(ctx.input_ids(b).len() == 1);
        assert(ctx.input_ids(b).len() == ctx.inputs_at(b).len());
        assert(ctx.input_ids(b)[0] == s);
    }
    assert(ctx.input_vals(b) =~= seq![ctx.value_at(s)]);
    assert(ctx.inputs_at(c).len() == 2 && ctx.inputs_at(c)[0].idx() == a && ctx.inputs_at(
        c,
    )[1].idx() == b) by {
        assert(ctx.input_ids(c).len() == 2);
        assert(ctx.input_ids(c).len() == ctx.inputs_at(c).len());
        assert(ctx.input_ids(c)[0] == a);
        assert(ctx.input_ids(c)[1] == b);
    }
    assert(ctx.input_vals(c) =~= seq![ctx.value_at(a), ctx.value_at(b)]);
}

impl<F: CalcQuery> Default for ReactiveContext<F> {
    /// An empty context: no nodes, trivially well-formed.
    fn default() -> (r: Self)
        ensures
            r.wf(),
            r.n() == 0,
    {
        ReactiveContext { nodes: Vec::new() }
    }
}

} // verus!
