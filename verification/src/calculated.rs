use vstd::prelude::*;

use crate::observable::{seq_contains_id, NodeId, Observable};
use crate::value::{sat_add, spec_sat_add, Value};
use crate::{ReactiveContext, ReactiveError};

verus! {

/// A pure derivation: the function a derived node applies to the current
/// values of its fixed input list to obtain its own value.
///
/// `spec_derive` is the mathematical meaning of the derivation and `derive`
/// computes exactly it, so recomputation is pure: two runs over equal input
/// values give equal results.
pub trait CalcQuery: Sized {
    /// What the derivation returns on the given input values.
    spec fn spec_derive(&self, inputs: Seq<Value>) -> Value;

    /// Computes the derivation on the given input values.
    fn derive(&self, inputs: &Vec<Value>) -> (r: Value)
        ensures
            r == self.spec_derive(inputs@),
    ;
}

/// A derivation written as an expression tree over the positions of the
/// node's input list. Boolean and integer inputs may be mixed freely in one
/// expression.
pub enum CalcExpr {
    /// A constant value.
    Lit(Value),
    /// The current value of the input at this position of the input list;
    /// a position past the end of the list reads as `Value::Int(0)`.
    Input(usize),
    /// Boolean negation of the operand.
    Not(Box<CalcExpr>),
    /// Boolean conjunction of the two operands.
    And(Box<CalcExpr>, Box<CalcExpr>),
    /// Boolean disjunction of the two operands.
    Or(Box<CalcExpr>, Box<CalcExpr>),
    /// Integer addition of the two operands, saturating at the bounds of
    /// `i64`.
    Add(Box<CalcExpr>, Box<CalcExpr>),
    /// The second operand when the first reads as true, else the third.
    Select(Box<CalcExpr>, Box<CalcExpr>, Box<CalcExpr>),
}

impl CalcExpr {
    /// The value of the expression over the given input values.
    pub open spec fn spec_eval(self, inputs: Seq<Value>) -> Value
        decreases self,
    {
        match self {
            CalcExpr::Lit(v) => v,
            CalcExpr::Input(k) => if k < inputs.len() {
                inputs[k as int]
            } else {
                Value::Int(0)
            },
            CalcExpr::Not(e) => Value::Bool(!e.spec_eval(inputs).spec_as_bool()),
            CalcExpr::And(a, b) => Value::Bool(
                a.spec_eval(inputs).spec_as_bool() && b.spec_eval(inputs).spec_as_bool(),
            ),
            CalcExpr::Or(a, b) => Value::Bool(
                a.spec_eval(inputs).spec_as_bool() || b.spec_eval(inputs).spec_as_bool(),
            ),
            CalcExpr::Add(a, b) => Value::Int(
                spec_sat_add(
                    a.spec_eval(inputs).spec_as_int() as int,
                    b.spec_eval(inputs).spec_as_int() as int,
                ) as i64,
            ),
            CalcExpr::Select(c, t, e) => if c.spec_eval(inputs).spec_as_bool() {
                t.spec_eval(inputs)
            } else {
                e.spec_eval(inputs)
            },
        }
    }

    /// Evaluates the expression over the given input values.
    pub fn eval(&self, inputs: &Vec<Value>) -> (r: Value)
        ensures
            r == self.spec_eval(inputs@),
        decreases *self,
    {
        match self {
            CalcExpr::Lit(v) => *v,
            CalcExpr::Input(k) => if *k < inputs.len() {
                inputs[*k]
            } else {
                Value::Int(0)
            },
            CalcExpr::Not(e) => {
                let v = e.eval(inputs).as_bool();
                Value::Bool(!v)
            },
            CalcExpr::And(a, b) => {
                let va = a.eval(inputs).as_bool();
                let vb = b.eval(inputs).as_bool();
                Value::Bool(va && vb)
            },
            CalcExpr::Or(a, b) => {
                let va = a.eval(inputs).as_bool();
                let vb = b.eval(inputs).as_bool();
                Value::Bool(va || vb)
            },
            CalcExpr::Add(a, b) => {
                let va = a.eval(inputs).as_int();
                let vb = b.eval(inputs).as_int();
                Value::Int(sat_add(va, vb))
            },
            CalcExpr::Select(c, t, e) => {
                let vc = c.eval(inputs).as_bool();
                if vc {
                    t.eval(inputs)
                } else {
                    e.eval(inputs)
                }
            },
        }
    }
}

impl CalcQuery for CalcExpr {
    open spec fn spec_derive(&self, inputs: Seq<Value>) -> Value {
        self.spec_eval(inputs)
    }

    fn derive(&self, inputs: &Vec<Value>) -> (r: Value) {
        self.eval(inputs)
    }
}

/// A handle to a derived node: a value recalculated automatically from its
/// fixed inputs, readable only through the owning context.
#[derive(Clone, Copy, Debug, PartialEq, Eq, Structural)]
pub struct Calc {
    pub(crate) reactor_entity: NodeId,
}

impl Observable for Calc {
    closed spec fn id_spec(&self) -> int {
        self.reactor_entity.idx()
    }

    fn reactive_entity(&self) -> (r: NodeId) {
        self.reactor_entity
    }
}

/// Wraps a freshly minted identifier as a derived-node handle.
pub(crate) fn calc_from(id: NodeId) -> (c: Calc)
    ensures
        c.id_spec() == id.idx(),
{
    Calc { reactor_entity: id }
}

impl Calc {
    /// Creates a derived node, exactly as `ReactiveContext::calc` does.
    pub fn new<F: CalcQuery>(
        rctx: &mut ReactiveContext<F>,
        input_deps: Vec<NodeId>,
        derive_fn: F,
    ) -> (r: Result<Calc, ReactiveError>)
        requires
            old(rctx).wf(),
        ensures
            final(rctx).wf(),
            r is Err ==> *final(rctx) == *old(rctx),
            (r == Err::<Calc, ReactiveError>(ReactiveError::AliasedInput) <==> !input_deps@.no_duplicates()),
            (r == Err::<Calc, ReactiveError>(ReactiveError::MissingInput) <==> (
                input_deps@.no_duplicates() && exists|k: int|
                    0 <= k < input_deps@.len() && !(0 <= (#[trigger] input_deps@[k]).idx()
                        < old(rctx).n())
            )),
            r is Ok ==> ({
                let nw = old(rctx).n();
                &&& r->Ok_0.id_spec() == nw
                &&& final(rctx).n() == nw + 1
                &&& final(rctx).is_derived(nw)
                &&& final(rctx).input_ids(nw) == input_deps@.map_values(|x: NodeId| x.idx())
                &&& final(rctx).deriv_at(nw) == derive_fn
                &&& final(rctx).subs_at(nw) == Seq::<NodeId>::empty()
                &&& final(rctx).value_at(nw) == derive_fn.spec_derive(
                    input_deps@.map_values(|x: NodeId| old(rctx).value_at(x.idx())),
                )
                &&& forall|i: int|
                    0 <= i < nw ==> final(rctx).value_at(i) == old(rctx).value_at(i)
                        && final(rctx).node_shape_eq(*old(rctx), i)
                &&& forall|i: int, q: int|
                    0 <= i < nw ==> (#[trigger] seq_contains_id(final(rctx).subs_at(i), q)
                        <==> seq_contains_id(old(rctx).subs_at(i), q) || (q == nw
                            && seq_contains_id(input_deps@, i)))
            }),
    {
        rctx.calc(input_deps, derive_fn)
    }

    /// Reads the current value of the derived node, registering no
    /// subscription.
    pub fn read<F: CalcQuery>(&self, rctx: &ReactiveContext<F>) -> (r: Value)
        requires
            0 <= self.id_spec() < rctx.n(),
        ensures
            r == rctx.value_at(self.id_spec()),
    {
        rctx.read(*self)
    }
}

} // verus!
