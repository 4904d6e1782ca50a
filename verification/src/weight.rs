//! The three edge weights and their numeric values.

use vstd::prelude::*;

verus! {

/// Ternary edge weight: Negative, Zero, or Positive.
#[derive(Clone, Copy, Debug, PartialEq, Eq, Hash, Structural)]
pub enum TernaryWeight {
    Negative,
    Zero,
    Positive,
}

/// The numeric value of a weight: -1, 0 or +1.
pub open spec fn weight_value(w: TernaryWeight) -> int {
    match w {
        TernaryWeight::Negative => -1,
        TernaryWeight::Zero => 0,
        TernaryWeight::Positive => 1,
    }
}

/// The weight whose value is `v`, if `v` is one of -1, 0, +1.
pub open spec fn weight_from_value(v: int) -> Option<TernaryWeight> {
    if v == -1 {
        Some(TernaryWeight::Negative)
    } else if v == 0 {
        Some(TernaryWeight::Zero)
    } else if v == 1 {
        Some(TernaryWeight::Positive)
    } else {
        None
    }
}

/// The cost of traversing an edge of weight `w`: the absolute value of its
/// weight, so a `Zero` edge is free and the two others cost one.
pub open spec fn weight_cost(w: TernaryWeight) -> int {
    if w == TernaryWeight::Zero { 0 } else { 1 }
}

impl TernaryWeight {
    pub fn value(&self) -> (r: i8)
        ensures
            r == weight_value(*self),
    {
        match self {
            TernaryWeight::Negative => -1,
            TernaryWeight::Zero => 0,
            TernaryWeight::Positive => 1,
        }
    }

    pub fn from_i8(v: i8) -> (r: Option<Self>)
        ensures
            r == weight_from_value(v as int),
    {
        match v {
            -1 => Some(TernaryWeight::Negative),
            0 => Some(TernaryWeight::Zero),
            1 => Some(TernaryWeight::Positive),
            _ => None,
        }
    }

    /// The cost of traversing an edge of this weight (the absolute value of
    /// the weight), as used by the shortest-path search.
    pub fn cost(&self) -> (r: i32)
        ensures
            r == weight_cost(*self),
            r == if weight_value(*self) < 0 { -weight_value(*self) } else { weight_value(*self) },
    {
        let v = self.value();
        if v < 0 {
            -(v as i32)
        } else {
            v as i32
        }
    }
}

/// Converting a weight to its value and back gives the weight again.
pub proof fn lemma_weight_value_roundtrip(w: TernaryWeight)
    ensures
        weight_from_value(weight_value(w)) == Some(w),
{
}

/// A value that converts to a weight is that weight's value.
pub proof fn lemma_weight_from_value_roundtrip(v: int)
    ensures
        weight_from_value(v) matches Some(w) ==> weight_value(w) == v,
        weight_from_value(v) is Some <==> -1 <= v <= 1,
{
}

} // verus!
