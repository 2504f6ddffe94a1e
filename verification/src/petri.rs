//! What the producers of decision processes share: the kinds of nets, the
//! places of a net, and the order of markings.

use vstd::prelude::*;

verus! {

/// The kind of net that a process is made from.
#[derive(Clone, Copy, Debug, PartialEq, Eq, Default)]
pub enum InputGraphType {
    #[default]
    Petri,
    DecisionPetri,
}

/// A place of a net with the number of its tokens.
#[derive(Debug, PartialEq, Eq)]
pub struct Place {
    pub state_id: usize,
    pub name: String,
    pub token: usize,
}

/// Marks a producer of decision processes.
pub trait GenericInputGraph {

}

/// Marks a decision process.
pub trait GenericMDP {

}

/// Marks a labelling of a decision process.
pub trait GenericApMap {

}

/// A marking: the number of tokens at each place.
pub type Marking = Vec<usize>;

/// No place has more tokens in `a` than in `b`, as far as both reach.
pub open spec fn covered(a: Seq<usize>, b: Seq<usize>) -> bool {
    forall|i: int| 0 <= i < a.len() && i < b.len() ==> #[trigger] a[i] <= b[i]
}

/// A state of a process that is made from a net: states are ordered.
pub trait State {
    /// What `le` decides.
    spec fn below(&self, other: &Self) -> bool;

    /// Whether the state is at most `other`.
    fn le(&self, other: &Self) -> (res: bool)
        ensures
            res == self.below(other),
    ;
}

impl State for Marking {
    open spec fn below(&self, other: &Marking) -> bool {
        covered(self@, other@)
    }

    fn le(&self, other: &Marking) -> (res: bool) {
        let mut index: usize = 0;
        while index < self.len() && index < other.len()
            invariant
                index <= self@.len(),
                index <= other@.len(),
                forall|i: int| 0 <= i < index ==> #[trigger] self@[i] <= other@[i],
            decreases self@.len() - index,
        {
            if self[index] > other[index] {
                return false;
            }
            index = index + 1;
        }
        true
    }
}

} // verus!
