//! The exact dynamic-programming model: states, decisions, transitions and
//! costs, the relaxation that merges states, and the ranking of states.

use vstd::prelude::*;
use std::cmp::Ordering;
use crate::instance::KnapsackInstance;
use crate::resolution::arith::{floor_quotient, lemma_share_within_profit, wide_product};
use crate::resolution::order::is_permutation;

verus! {

/// A decision variable, named by the index of its item.
#[derive(Debug, Clone, Copy, PartialEq, Eq, Hash, Structural)]
pub struct Variable(pub usize);

impl Variable {
    /// The index of the item that the variable stands for.
    pub fn id(self) -> (i: usize)
        ensures
            i == self.0,
    {
        self.0
    }
}

/// The choice made for one item: `value` is 1 when the item is packed, and 0
/// when it is left out.
#[derive(Debug, Clone, Copy, PartialEq, Eq, Structural)]
pub struct Decision {
    pub variable: Variable,
    pub value: isize,
}

/// A state of the model: `depth` items have been decided, and `capacity`
/// units of room are left.
#[derive(Debug, Clone, Copy, PartialEq, Eq, Hash, Structural)]
pub struct KnapsackState {
    pub depth: usize,
    pub capacity: isize,
}

/// A knapsack problem: an instance together with the order in which its
/// items are decided.
#[derive(Debug, Clone)]
pub struct Knapsack {
    pub instance: KnapsackInstance,
    pub order: Vec<usize>,
}

impl Knapsack {
    /// The item decided at `depth`.
    pub open spec fn item_at(&self, depth: int) -> int {
        self.order@[depth] as int
    }

    /// The invariant of a problem: a well-formed instance, and a decision
    /// order that lists every item once.
    pub open spec fn wf(&self) -> bool {
        &&& self.instance.wf()
        &&& is_permutation(self.order@, self.instance.nb_items as nat)
    }

    /// The decisions follow the profit/weight ratio, greatest first.
    pub open spec fn ratio_sorted(&self) -> bool {
        forall|i: int, j: int|
            0 <= i <= j < self.instance.nb_items ==> self.instance.ratio_ge(
                self.item_at(i),
                self.item_at(j),
            )
    }

    /// `decision` names an item of the problem and packs it or leaves it out.
    pub open spec fn admits(&self, decision: Decision) -> bool {
        &&& decision.variable.0 < self.instance.nb_items
        &&& (decision.value == 0 || decision.value == 1)
    }

    /// The capacity left after `decision` is taken with `capacity` units of
    /// room.
    pub open spec fn capacity_after(&self, capacity: int, decision: Decision) -> int {
        capacity - decision.value * self.instance.weight_of(decision.variable.0 as int)
    }

    /// The profit that `decision` earns.
    pub open spec fn cost_of(&self, decision: Decision) -> int {
        decision.value * self.instance.profit_of(decision.variable.0 as int)
    }

    /// A decision of the domain leaves a capacity that is not negative where
    /// it was not, and that is no greater than before: no valid transition
    /// leads to a negative capacity.
    pub proof fn lemma_domain_keeps_room(&self, state: KnapsackState, decision: Decision)
        requires
            self.instance.wf(),
            self.admits(decision),
            state.capacity >= 0,
            decision.value == 1 ==> state.capacity >= self.instance.weight_of(
                decision.variable.0 as int,
            ),
        ensures
            0 <= self.capacity_after(state.capacity as int, decision) <= state.capacity,
    {
        let w = self.instance.weight_of(decision.variable.0 as int);
        assert(w >= 0);
        assert(decision.value * w == if decision.value == 1 {
            w
        } else {
            0
        }) by (nonlinear_arith)
            requires
                decision.value == 0 || decision.value == 1,
        ;
    }

    /// Builds the problem of `instance`, and fixes its decision order: the
    /// items by descending profit/weight ratio, items of equal ratio by
    /// ascending index.
    pub fn new(instance: KnapsackInstance) -> (pb: Knapsack)
        requires
            instance.wf(),
            instance.positive_weights(),
        ensures
            pb.instance == instance,
            pb.wf(),
            instance.is_ratio_order(pb.order@),
            pb.ratio_sorted(),
    {
        let order = instance.ratio_order();
        let pb = Knapsack { instance, order };
        proof {
            assert forall|i: int, j: int| 0 <= i <= j < pb.instance.nb_items implies pb.instance.ratio_ge(
                pb.item_at(i),
                pb.item_at(j),
            ) by {
                if i < j {
                    assert(pb.instance.comes_before(pb.item_at(i), pb.item_at(j)));
                }
            }
        }
        pb
    }

    /// Builds the problem of `instance` as `new` does, or nothing where the
    /// instance is not well formed or holds an item without weight.
    pub fn try_new(instance: KnapsackInstance) -> (pb: Option<Knapsack>)
        ensures
            pb.is_some() == (instance.wf() && instance.positive_weights()),
            match pb {
                Some(pb) => {
                    &&& pb.instance == instance
                    &&& pb.wf()
                    &&& instance.is_ratio_order(pb.order@)
                    &&& pb.ratio_sorted()
                },
                None => true,
            },
    {
        if instance.is_well_formed() && instance.has_positive_weights() {
            Some(Knapsack::new(instance))
        } else {
            None
        }
    }

    /// Tests the invariant of the problem.
    pub fn is_well_formed(&self) -> (ok: bool)
        ensures
            ok == self.wf(),
    {
        let n: usize = self.instance.nb_items;
        if !self.instance.is_well_formed() || self.order.len() != n {
            return false;
        }
        let mut seen: Vec<bool> = Vec::new();
        let mut i: usize = 0;
        while i < n
            invariant
                i <= n,
                seen@.len() == i,
                forall|a: int| 0 <= a < i ==> !seen@[a],
            decreases n - i,
        {
            seen.push(false);
            i += 1;
        }
        let mut k: usize = 0;
        while k < n
            invariant
                k <= n,
                n == self.instance.nb_items,
                self.order@.len() == n,
                seen@.len() == n,
                forall|a: int| 0 <= a < k ==> self.order@[a] < n,
                forall|a: int, b: int| 0 <= a < b < k ==> self.order@[a] != self.order@[b],
                forall|item: int|
                    0 <= item < n ==> (#[trigger] seen@[item] <==> exists|a: int|
                        0 <= a < k && self.order@[a] == item),
            decreases n - k,
        {
            let item: usize = self.order[k];
            if item >= n {
                return false;
            }
            if seen[item] {
                let ghost a = choose|a: int| 0 <= a < k && self.order@[a] == item;
                assert(self.order@[a] == self.order@[k as int]);
                return false;
            }
            let ghost before = seen@;
            seen.set(item, true);
            proof {
                assert forall|it: int| 0 <= it < n implies (#[trigger] seen@[it] <==> exists|a: int|
                    0 <= a < k + 1 && self.order@[a] == it) by {
                    if it == item {
                        assert(self.order@[k as int] == it);
                    } else if before[it] {
                        let a = choose|a: int| 0 <= a < k && self.order@[a] == it;
                        assert(0 <= a < k + 1 && self.order@[a] == it);
                    }
                }
            }
            k += 1;
        }
        let mut item: usize = 0;
        while item < n
            invariant
                item <= n,
                n == self.instance.nb_items,
                self.order@.len() == n,
                seen@.len() == n,
                forall|it: int|
                    0 <= it < n ==> (#[trigger] seen@[it] <==> exists|a: int|
                        0 <= a < n && self.order@[a] == it),
                forall|it: int| 0 <= it < item ==> crate::resolution::order::lists(self.order@, it),
            decreases n - item,
        {
            if !seen[item] {
                assert(!crate::resolution::order::lists(self.order@, item as int));
                return false;
            }
            let ghost a = choose|a: int| 0 <= a < n && self.order@[a] == item;
            assert(self.order@[a] == item);
            item += 1;
        }
        true
    }

    /// The number of decision variables: one per item.
    pub fn nb_variables(&self) -> (n: usize)
        ensures
            n == self.instance.nb_items,
    {
        self.instance.nb_items
    }

    /// The root state: nothing decided, the whole capacity left.
    pub fn initial_state(&self) -> (state: KnapsackState)
        ensures
            state.depth == 0,
            state.capacity == self.instance.capacity,
    {
        KnapsackState { depth: 0, capacity: self.instance.capacity }
    }

    /// The profit of the root state, which is zero.
    pub fn initial_value(&self) -> (value: isize)
        ensures
            value == 0,
    {
        0
    }

    /// The state reached from `state` by `decision`: one level deeper, with
    /// the item's weight taken from the capacity when it is packed.
    pub fn transition(&self, state: &KnapsackState, decision: Decision) -> (next: KnapsackState)
        requires
            decision.variable.0 < self.instance.weight@.len(),
            state.depth < usize::MAX,
            isize::MIN <= self.capacity_after(state.capacity as int, decision) <= isize::MAX,
        ensures
            next.depth == state.depth + 1,
            next.capacity == self.capacity_after(state.capacity as int, decision),
    {
        let used: i128 = wide_product(
            decision.value,
            self.instance.weight[decision.variable.id()],
        );
        let left: i128 = state.capacity as i128 - used;
        KnapsackState { depth: state.depth + 1, capacity: left as isize }
    }

    /// The profit earned on the arc that `decision` labels.
    pub fn transition_cost(&self, state: &KnapsackState, decision: Decision) -> (cost: isize)
        requires
            decision.variable.0 < self.instance.profit@.len(),
            isize::MIN <= self.cost_of(decision) <= isize::MAX,
        ensures
            cost == self.cost_of(decision),
    {
        let cost: i128 = wide_product(
            decision.value,
            self.instance.profit[decision.variable.id()],
        );
        cost as isize
    }

    /// The variable decided at `depth`, or nothing once every item has been
    /// decided.
    pub fn next_variable(&self, depth: usize) -> (variable: Option<Variable>)
        requires
            self.wf(),
        ensures
            depth < self.instance.nb_items ==> variable == Some(
                Variable(self.order@[depth as int]),
            ),
            depth >= self.instance.nb_items ==> variable.is_none(),
    {
        if depth < self.instance.nb_items {
            Some(Variable(self.order[depth]))
        } else {
            None
        }
    }

    /// The decisions open to `variable` in `state`: leaving the item out is
    /// always offered, packing it only when it fits.
    pub fn for_each_in_domain(&self, variable: Variable, state: &KnapsackState) -> (domain: Vec<
        Decision,
    >)
        requires
            variable.0 < self.instance.weight@.len(),
        ensures
            domain@.len() == if state.capacity >= self.instance.weight_of(variable.0 as int) {
                2int
            } else {
                1int
            },
            domain@[0] == (Decision { variable, value: 0 }),
            domain@.len() == 2 ==> domain@[1] == (Decision { variable, value: 1 }),
    {
        let mut domain: Vec<Decision> = Vec::new();
        domain.push(Decision { variable, value: 0 });
        if state.capacity >= self.instance.weight[variable.id()] {
            domain.push(Decision { variable, value: 1 });
        }
        domain
    }
}

/// The relaxation of the model: how states are merged, and how much a state
/// may still earn at best.
pub struct KnapsackRelax {
    pb: Knapsack,
}

impl KnapsackRelax {
    /// The problem that is relaxed.
    pub closed spec fn problem(&self) -> Knapsack {
        self.pb
    }

    /// The relaxation of `pb`.
    pub fn new(pb: Knapsack) -> (relax: KnapsackRelax)
        ensures
            relax.problem() == pb,
    {
        KnapsackRelax { pb }
    }

    /// Merges states of one depth into a state that stands for all of them:
    /// it has their depth, and the greatest of their capacities.
    pub fn merge(&self, states: &Vec<KnapsackState>) -> (merged: KnapsackState)
        requires
            states@.len() > 0,
            forall|i: int, j: int|
                0 <= i < states@.len() && 0 <= j < states@.len() ==> states@[i].depth
                    == states@[j].depth,
        ensures
            forall|i: int| 0 <= i < states@.len() ==> states@[i].depth == merged.depth,
            forall|i: int| 0 <= i < states@.len() ==> states@[i].capacity <= merged.capacity,
            exists|i: int| 0 <= i < states@.len() && states@[i].capacity == merged.capacity,
    {
        let mut capacity: isize = states[0].capacity;
        let ghost mut witness: int = 0;
        let mut i: usize = 1;
        while i < states.len()
            invariant
                1 <= i <= states@.len(),
                0 <= witness < states@.len(),
                states@[witness].capacity == capacity,
                forall|k: int| 0 <= k < i ==> states@[k].capacity <= capacity,
            decreases states@.len() - i,
        {
            if states[i].capacity > capacity {
                capacity = states[i].capacity;
                proof {
                    witness = i as int;
                }
            }
            i += 1;
        }
        KnapsackState { depth: states[0].depth, capacity }
    }

    /// The cost of an arc that is redirected to a merged state: merging
    /// changes no cost.
    pub fn relax(
        &self,
        source: &KnapsackState,
        dest: &KnapsackState,
        new: &KnapsackState,
        decision: Decision,
        cost: isize,
    ) -> (relaxed: isize)
        ensures
            relaxed == cost,
    {
        cost
    }

    /// The greedy fractional bound on what `state` may still earn, or
    /// nothing when the bound is not a machine integer.
    ///
    /// The bound is admissible where the decisions follow the profit/weight
    /// ratio and no profit is negative: it is at least what any completion
    /// of `state` earns. Where it is then no machine integer, it is greater
    /// than all of them.
    pub fn checked_upper_bound(&self, state: &KnapsackState) -> (bound: Option<isize>)
        requires
            self.problem().wf(),
        ensures
            match bound {
                Some(b) => b == self.problem().upper_bound(
                    state.depth as int,
                    state.capacity as int,
                ),
                None => {
                    let b = self.problem().upper_bound(state.depth as int, state.capacity as int);
                    b < isize::MIN || b > isize::MAX
                },
            },
            self.problem().instance.positive_weights()
                && self.problem().instance.nonnegative_profits() && self.problem().ratio_sorted()
                && state.depth <= self.problem().instance.nb_items ==> match bound {
                Some(b) => b >= self.problem().best_completion(
                    state.depth as int,
                    state.capacity as int,
                ),
                None => self.problem().upper_bound(state.depth as int, state.capacity as int)
                    > isize::MAX,
            },
    {
        proof {
            if self.pb.instance.positive_weights() && self.pb.instance.nonnegative_profits()
                && self.pb.ratio_sorted() && state.depth <= self.pb.instance.nb_items {
                self.pb.lemma_bound_admissible(state.depth as int, state.capacity as int);
                self.pb.lemma_bound_within_remaining(state.depth as int, state.capacity as int);
            }
        }
        let mut depth: usize = state.depth;
        let mut earned: i128 = 0;
        let mut capacity: isize = state.capacity;
        while capacity > 0 && depth < self.pb.instance.nb_items
            invariant
                self.pb.wf(),
                state.depth <= depth,
                earned + self.pb.upper_bound(depth as int, capacity as int) == self.pb.upper_bound(
                    state.depth as int,
                    state.capacity as int,
                ),
                -(depth - state.depth) * 0x8000_0000_0000_0000 <= earned <= (depth - state.depth)
                    * 0x8000_0000_0000_0000,
            decreases self.pb.instance.nb_items - depth,
        {
            let item: usize = self.pb.order[depth];
            let w: isize = self.pb.instance.weight[item];
            let p: isize = self.pb.instance.profit[item];
            assert(self.pb.instance.weight_of(item as int) >= 0);
            if capacity >= w {
                earned = earned + p as i128;
                capacity = capacity - w;
            } else {
                let share: i128 = floor_quotient(
                    wide_product(capacity, p),
                    w as i128,
                );
                proof {
                    lemma_share_within_profit(capacity as int, p as int, w as int);
                }
                earned = earned + share;
                capacity = 0;
            }
            depth = depth + 1;
        }
        if earned < isize::MIN as i128 || earned > isize::MAX as i128 {
            None
        } else {
            Some(earned as isize)
        }
    }

    /// The greedy fractional bound on what `state` may still earn. The bound
    /// is admissible, that is at least what any completion of `state` earns,
    /// where the decisions follow the profit/weight ratio and no profit is
    /// negative.
    pub fn fast_upper_bound(&self, state: &KnapsackState) -> (bound: isize)
        requires
            self.problem().wf(),
            isize::MIN <= self.problem().upper_bound(state.depth as int, state.capacity as int)
                <= isize::MAX,
        ensures
            bound == self.problem().upper_bound(state.depth as int, state.capacity as int),
            self.problem().instance.positive_weights() && self.problem().instance.nonnegative_profits()
                && self.problem().ratio_sorted() && state.depth <= self.problem().instance.nb_items
                ==> bound >= self.problem().best_completion(
                state.depth as int,
                state.capacity as int,
            ),
    {
        self.checked_upper_bound(state).unwrap()
    }
}

/// The ranking of states: a state with more room is the more promising, and
/// is kept longer when a layer must be narrowed.
pub struct KnapsackRanking;

impl KnapsackRanking {
    /// Orders two states by their capacity.
    pub fn compare(&self, a: &KnapsackState, b: &KnapsackState) -> (ordering: Ordering)
        ensures
            a.capacity < b.capacity ==> ordering == Ordering::Less,
            a.capacity == b.capacity ==> ordering == Ordering::Equal,
            a.capacity > b.capacity ==> ordering == Ordering::Greater,
    {
        if a.capacity < b.capacity {
            Ordering::Less
        } else if a.capacity == b.capacity {
            Ordering::Equal
        } else {
            Ordering::Greater
        }
    }
}

/// A copy of a list of integers.
pub(crate) fn copy_of(values: &Vec<isize>) -> (copy: Vec<isize>)
    ensures
        copy@ == values@,
{
    let mut copy: Vec<isize> = Vec::new();
    let mut i: usize = 0;
    while i < values.len()
        invariant
            i <= values@.len(),
            copy@ == values@.subrange(0, i as int),
        decreases values@.len() - i,
    {
        copy.push(values[i]);
        assert(copy@ =~= values@.subrange(0, i + 1));
        i += 1;
    }
    assert(values@.subrange(0, i as int) =~= values@);
    copy
}

/// A copy of a list of item indices.
pub(crate) fn copy_of_order(values: &Vec<usize>) -> (copy: Vec<usize>)
    ensures
        copy@ == values@,
{
    let mut copy: Vec<usize> = Vec::new();
    let mut i: usize = 0;
    while i < values.len()
        invariant
            i <= values@.len(),
            copy@ == values@.subrange(0, i as int),
        decreases values@.len() - i,
    {
        copy.push(values[i]);
        assert(copy@ =~= values@.subrange(0, i + 1));
        i += 1;
    }
    assert(values@.subrange(0, i as int) =~= values@);
    copy
}

} // verus!
