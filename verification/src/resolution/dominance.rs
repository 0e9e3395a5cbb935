//! The dominance rule: among states of one depth, a state with no more room
//! than another is dominated by it.
//!
//! The rule looks at the capacity alone, not at the profit earned so far:
//! of two states of one depth, the one with less room may well have earned
//! more. An engine that discards dominated states has to weigh what they
//! have earned as well.

use vstd::prelude::*;
use crate::resolution::model::KnapsackState;

verus! {

/// What states must share to be compared: their depth.
#[derive(Debug, Clone, Copy, PartialEq, Eq, Hash, Structural)]
pub struct KnapsackKey {
    pub depth: usize,
}

/// What is compared between states of one key: their capacity.
#[derive(Debug, Clone, Copy, PartialEq, Eq, PartialOrd, Ord, Structural)]
pub struct KnapsackValue {
    pub capacity: isize,
}

/// The dominance rule of the knapsack model.
pub struct KnapsackDominance;

impl KnapsackDominance {
    /// `a` is dominated by `b`: it has no more room.
    pub open spec fn dominated(a: KnapsackValue, b: KnapsackValue) -> bool {
        a.capacity <= b.capacity
    }

    /// The key of `state`: its depth.
    pub fn get_key(&self, state: &KnapsackState) -> (key: KnapsackKey)
        ensures
            key.depth == state.depth,
    {
        KnapsackKey { depth: state.depth }
    }

    /// The value of `state`: its capacity.
    pub fn get_value(&self, state: &KnapsackState) -> (value: KnapsackValue)
        ensures
            value.capacity == state.capacity,
    {
        KnapsackValue { capacity: state.capacity }
    }

    /// Tests whether `a` is dominated by `b`.
    pub fn is_dominated_by(&self, a: &KnapsackValue, b: &KnapsackValue) -> (dominated: bool)
        ensures
            dominated == Self::dominated(*a, *b),
    {
        a.capacity <= b.capacity
    }

    /// Dominance is transitive: what is dominated by a value is dominated by
    /// every value that dominates that one.
    pub proof fn lemma_dominance_transitive(a: KnapsackValue, b: KnapsackValue, c: KnapsackValue)
        requires
            Self::dominated(a, b),
            Self::dominated(b, c),
        ensures
            Self::dominated(a, c),
    {
    }

    /// Dominance is reflexive, so that values of equal capacity dominate each
    /// other.
    pub proof fn lemma_dominance_reflexive(a: KnapsackValue, b: KnapsackValue)
        requires
            a.capacity == b.capacity,
        ensures
            Self::dominated(a, b),
            Self::dominated(b, a),
    {
    }
}

} // verus!
