use vstd::prelude::*;

verus! {

/// A value held by one node of the reactive graph.
///
/// The store is heterogeneous over a closed universe of value shapes, so one
/// derivation may freely combine boolean and integer inputs.
#[derive(Clone, Copy, Debug, PartialEq, Eq, Structural)]
pub enum Value {
    /// A boolean node value.
    Bool(bool),
    /// A signed integer node value.
    Int(i64),
}

impl Value {
    /// The boolean a value stands for; an integer counts as true exactly when
    /// it is non-zero.
    pub open spec fn spec_as_bool(self) -> bool {
        match self {
            Value::Bool(b) => b,
            Value::Int(i) => i != 0,
        }
    }

    /// Reads the value as a boolean.
    pub fn as_bool(self) -> (r: bool)
        ensures
            r == self.spec_as_bool(),
    {
        match self {
            Value::Bool(b) => b,
            Value::Int(i) => i != 0,
        }
    }

    /// The integer a value stands for; a boolean counts as 1 when true and 0
    /// when false.
    pub open spec fn spec_as_int(self) -> i64 {
        match self {
            Value::Bool(b) => if b { 1 } else { 0 },
            Value::Int(i) => i,
        }
    }

    /// Reads the value as an integer.
    pub fn as_int(self) -> (r: i64)
        ensures
            r == self.spec_as_int(),
    {
        match self {
            Value::Bool(b) => if b { 1 } else { 0 },
            Value::Int(i) => i,
        }
    }
}

/// Addition that saturates at the bounds of `i64`.
pub open spec fn spec_sat_add(a: int, b: int) -> int {
    if a + b > i64::MAX {
        i64::MAX as int
    } else if a + b < i64::MIN {
        i64::MIN as int
    } else {
        a + b
    }
}

/// Computes `a + b`, saturating at the bounds of `i64`.
pub fn sat_add(a: i64, b: i64) -> (r: i64)
    ensures
        r as int == spec_sat_add(a as int, b as int),
{
    let wide: i128 = a as i128 + b as i128;
    if wide > i64::MAX as i128 {
        i64::MAX
    } else if wide < i64::MIN as i128 {
        i64::MIN
    } else {
        wide as i64
    }
}

} // verus!
