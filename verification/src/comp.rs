//! Comparison operators of probability bounds.

use vstd::prelude::*;

verus! {

/// One is `ONE` parts per billion: probabilities are fixed-point numbers
/// with this denominator.
pub const ONE: u64 = 1_000_000_000;

/// The comparison operator of a probability bound.
#[derive(Clone, Copy, Debug, PartialEq, Eq, Structural)]
pub enum Comp {
    Less,
    Leq,
    Greater,
    Geq,
}

impl Comp {
    /// What `evaluate` decides.
    pub open spec fn holds(self, first: int, second: int) -> bool {
        match self {
            Comp::Less => first < second,
            Comp::Leq => first <= second,
            Comp::Greater => first > second,
            Comp::Geq => first >= second,
        }
    }

    /// Whether the operator bounds a probability from above.
    pub open spec fn upper(self) -> bool {
        self == Comp::Less || self == Comp::Leq
    }

    /// Compares `first` with `second` by this operator.
    pub fn evaluate(&self, first: u64, second: u64) -> (res: bool)
        ensures
            res == self.holds(first as int, second as int),
    {
        match self {
            Comp::Less => first < second,
            Comp::Leq => first <= second,
            Comp::Greater => first > second,
            Comp::Geq => first >= second,
        }
    }

    /// `<` and `<=` bound from above, `>` and `>=` from below.
    pub fn is_upper_bound(&self) -> (res: bool)
        ensures
            res == self.upper(),
    {
        match self {
            Comp::Less => true,
            Comp::Leq => true,
            Comp::Greater => false,
            Comp::Geq => false,
        }
    }
}

} // verus!
