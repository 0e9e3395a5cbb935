//! The raw data of a knapsack instance.

use vstd::prelude::*;

verus! {

/// A knapsack instance: `nb_items` items, each with a weight and a profit,
/// and the capacity of the sack.
#[derive(Debug, Clone)]
pub struct KnapsackInstance {
    pub nb_items: usize,
    pub capacity: isize,
    pub weight: Vec<isize>,
    pub profit: Vec<isize>,
}

impl KnapsackInstance {
    /// The weight of `item`, as a mathematical integer.
    pub open spec fn weight_of(&self, item: int) -> int {
        self.weight@[item] as int
    }

    /// The profit of `item`, as a mathematical integer.
    pub open spec fn profit_of(&self, item: int) -> int {
        self.profit@[item] as int
    }

    /// The invariant of an instance: one weight and one profit per item, and
    /// no negative weight.
    pub open spec fn wf(&self) -> bool {
        &&& self.weight@.len() == self.nb_items
        &&& self.profit@.len() == self.nb_items
        &&& forall|i: int| 0 <= i < self.nb_items ==> self.weight_of(i) >= 0
    }

    /// Every item weighs at least one unit, so that its profit/weight ratio
    /// is defined.
    pub open spec fn positive_weights(&self) -> bool {
        forall|i: int| 0 <= i < self.weight@.len() ==> self.weight_of(i) > 0
    }

    /// No item has a negative profit.
    pub open spec fn nonnegative_profits(&self) -> bool {
        forall|i: int| 0 <= i < self.profit@.len() ==> self.profit_of(i) >= 0
    }

    /// Tests the invariant of the instance.
    pub fn is_well_formed(&self) -> (ok: bool)
        ensures
            ok == self.wf(),
    {
        if self.weight.len() != self.nb_items || self.profit.len() != self.nb_items {
            return false;
        }
        let mut i: usize = 0;
        while i < self.weight.len()
            invariant
                i <= self.weight@.len(),
                self.weight@.len() == self.nb_items,
                forall|k: int| 0 <= k < i ==> self.weight_of(k) >= 0,
            decreases self.weight@.len() - i,
        {
            if self.weight[i] < 0 {
                assert(self.weight_of(i as int) < 0);
                return false;
            }
            i += 1;
        }
        true
    }

    /// Tests that no item has weight zero or less.
    pub fn has_positive_weights(&self) -> (ok: bool)
        ensures
            ok == self.positive_weights(),
    {
        let mut i: usize = 0;
        while i < self.weight.len()
            invariant
                i <= self.weight@.len(),
                forall|k: int| 0 <= k < i ==> self.weight_of(k) > 0,
            decreases self.weight@.len() - i,
        {
            if self.weight[i] <= 0 {
                assert(self.weight_of(i as int) <= 0);
                return false;
            }
            i += 1;
        }
        true
    }

    /// Tests that no item has a negative profit.
    pub fn has_nonnegative_profits(&self) -> (ok: bool)
        ensures
            ok == self.nonnegative_profits(),
    {
        let mut i: usize = 0;
        while i < self.profit.len()
            invariant
                i <= self.profit@.len(),
                forall|k: int| 0 <= k < i ==> self.profit_of(k) >= 0,
            decreases self.profit@.len() - i,
        {
            if self.profit[i] < 0 {
                assert(self.profit_of(i as int) < 0);
                return false;
            }
            i += 1;
        }
        true
    }
}

} // verus!
