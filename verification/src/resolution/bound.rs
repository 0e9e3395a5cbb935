//! The value of a state and its bound.
//!
//! `best_completion` is the most that can still be earned from a state, and
//! `upper_bound` is the greedy fractional estimate of it. The estimate never
//! falls short of the true value when the decisions follow the profit/weight
//! ratio: that is the admissibility of the bound, proved here.

use vstd::prelude::*;
use crate::resolution::arith::{lemma_floor_quotient, lemma_share_within_profit};
use crate::resolution::model::{Decision, Knapsack, Variable};

verus! {

impl Knapsack {
    /// The most that can be earned from `depth` on with `capacity` units of
    /// room: each remaining item is left out, or packed when it fits.
    pub open spec fn best_completion(&self, depth: int, capacity: int) -> int
        decreases self.instance.nb_items - depth,
    {
        if depth >= self.instance.nb_items {
            0
        } else {
            let item = self.item_at(depth);
            let skip = self.best_completion(depth + 1, capacity);
            if capacity >= self.instance.weight_of(item) {
                let take = self.instance.profit_of(item) + self.best_completion(
                    depth + 1,
                    capacity - self.instance.weight_of(item),
                );
                if take >= skip {
                    take
                } else {
                    skip
                }
            } else {
                skip
            }
        }
    }

    /// The greedy fractional estimate: from `depth` on, each item is packed
    /// whole while it fits; the first that does not fit contributes the
    /// share of its profit that the remaining room pays for, rounded down,
    /// and ends the walk.
    pub open spec fn upper_bound(&self, depth: int, capacity: int) -> int
        decreases self.instance.nb_items - depth,
    {
        if capacity <= 0 || depth >= self.instance.nb_items {
            0
        } else {
            let item = self.item_at(depth);
            let w = self.instance.weight_of(item);
            let p = self.instance.profit_of(item);
            if capacity >= w {
                p + self.upper_bound(depth + 1, capacity - w)
            } else {
                (capacity * p) / w
            }
        }
    }

    /// The profit of all the items decided from `depth` on.
    pub open spec fn remaining_profit(&self, depth: int) -> int
        decreases self.instance.nb_items - depth,
    {
        if depth >= self.instance.nb_items {
            0
        } else {
            self.instance.profit_of(self.item_at(depth)) + self.remaining_profit(depth + 1)
        }
    }

    /// `path` decides every item from `depth` on, in the decision order, and
    /// packs an item only when it fits in what is left of `capacity`.
    pub open spec fn is_completion(&self, depth: int, capacity: int, path: Seq<Decision>) -> bool
        decreases path.len(),
    {
        if path.len() == 0 {
            depth == self.instance.nb_items
        } else {
            let d = path[0];
            &&& 0 <= depth < self.instance.nb_items
            &&& d.variable.0 == self.item_at(depth)
            &&& (d.value == 0 || (d.value == 1 && capacity >= self.instance.weight_of(
                self.item_at(depth),
            )))
            &&& self.is_completion(depth + 1, self.capacity_after(capacity, d), path.drop_first())
        }
    }

    /// The profit earned along `path`.
    pub open spec fn path_cost(&self, path: Seq<Decision>) -> int
        decreases path.len(),
    {
        if path.len() == 0 {
            0
        } else {
            self.cost_of(path[0]) + self.path_cost(path.drop_first())
        }
    }

    /// No completion of a state earns more than `best_completion`.
    pub proof fn lemma_completion_within_best(&self, depth: int, capacity: int, path: Seq<Decision>)
        requires
            self.is_completion(depth, capacity, path),
        ensures
            self.path_cost(path) <= self.best_completion(depth, capacity),
        decreases path.len(),
    {
        if path.len() > 0 {
            let d = path[0];
            self.lemma_completion_within_best(
                depth + 1,
                self.capacity_after(capacity, d),
                path.drop_first(),
            );
            let w = self.instance.weight_of(self.item_at(depth));
            let p = self.instance.profit_of(self.item_at(depth));
            if d.value == 0 {
                assert(d.value * w == 0) by (nonlinear_arith)
                    requires
                        d.value == 0,
                ;
                assert(d.value * p == 0) by (nonlinear_arith)
                    requires
                        d.value == 0,
                ;
            } else {
                assert(d.value * w == w) by (nonlinear_arith)
                    requires
                        d.value == 1,
                ;
                assert(d.value * p == p) by (nonlinear_arith)
                    requires
                        d.value == 1,
                ;
            }
        }
    }

    /// Some completion of a state earns exactly `best_completion`.
    pub proof fn lemma_best_is_attained(&self, depth: int, capacity: int) -> (path: Seq<Decision>)
        requires
            self.wf(),
            0 <= depth <= self.instance.nb_items,
        ensures
            self.is_completion(depth, capacity, path),
            self.path_cost(path) == self.best_completion(depth, capacity),
        decreases self.instance.nb_items - depth,
    {
        if depth >= self.instance.nb_items {
            Seq::empty()
        } else {
            let item = self.item_at(depth);
            let w = self.instance.weight_of(item);
            let p = self.instance.profit_of(item);
            let variable = Variable(self.order@[depth]);
            let skip = self.best_completion(depth + 1, capacity);
            if capacity >= w && p + self.best_completion(depth + 1, capacity - w) >= skip {
                let rest = self.lemma_best_is_attained(depth + 1, capacity - w);
                let d = Decision { variable, value: 1 };
                let path = seq![d] + rest;
                assert(path.drop_first() =~= rest);
                assert(d.value * w == w) by (nonlinear_arith)
                    requires
                        d.value == 1,
                ;
                assert(d.value * p == p) by (nonlinear_arith)
                    requires
                        d.value == 1,
                ;
                path
            } else {
                let rest = self.lemma_best_is_attained(depth + 1, capacity);
                let d = Decision { variable, value: 0 };
                let path = seq![d] + rest;
                assert(path.drop_first() =~= rest);
                assert(d.value * w == 0) by (nonlinear_arith)
                    requires
                        d.value == 0,
                ;
                assert(d.value * p == 0) by (nonlinear_arith)
                    requires
                        d.value == 0,
                ;
                path
            }
        }
    }

    /// Without negative profits the bound lies between zero and the profit
    /// of all the items that remain. Where those profits add up to a machine
    /// integer, so does the bound.
    pub proof fn lemma_bound_within_remaining(&self, depth: int, capacity: int)
        requires
            self.wf(),
            self.instance.nonnegative_profits(),
            0 <= depth <= self.instance.nb_items,
        ensures
            0 <= self.upper_bound(depth, capacity) <= self.remaining_profit(depth),
            0 <= self.remaining_profit(depth),
        decreases self.instance.nb_items - depth,
    {
        if depth < self.instance.nb_items {
            let item = self.item_at(depth);
            let w = self.instance.weight_of(item);
            let p = self.instance.profit_of(item);
            assert(0 <= item < self.instance.nb_items);
            assert(p >= 0);
            self.lemma_bound_within_remaining(depth + 1, capacity - w);
            if 0 < capacity < w {
                lemma_share_within_profit(capacity, p, w);
            }
        }
    }

    /// More room never lowers the bound, where no profit is negative. A
    /// state merged from others has the greatest of their capacities, and so
    /// a bound that is no lower than any of theirs.
    pub proof fn lemma_bound_monotone(&self, depth: int, capacity: int, more: int)
        requires
            self.wf(),
            self.instance.nonnegative_profits(),
            0 <= depth <= self.instance.nb_items,
            capacity <= more,
        ensures
            self.upper_bound(depth, capacity) <= self.upper_bound(depth, more),
        decreases self.instance.nb_items - depth,
    {
        self.lemma_bound_within_remaining(depth, more);
        if depth < self.instance.nb_items && capacity > 0 {
            let item = self.item_at(depth);
            let w = self.instance.weight_of(item);
            let p = self.instance.profit_of(item);
            assert(0 <= item < self.instance.nb_items);
            assert(w >= 0 && p >= 0);
            if capacity >= w {
                self.lemma_bound_monotone(depth + 1, capacity - w, more - w);
            } else if more >= w {
                lemma_share_within_profit(capacity, p, w);
                self.lemma_bound_within_remaining(depth + 1, more - w);
            } else {
                assert(capacity * p <= more * p) by (nonlinear_arith)
                    requires
                        capacity <= more,
                        p >= 0,
                ;
                vstd::arithmetic::div_mod::lemma_div_is_ordered(capacity * p, more * p, w);
            }
        }
    }

    /// More room never takes a completion away: what completes a state
    /// completes every state of its depth that has no less room. Merging
    /// states weakens what is feasible, and changes no cost.
    pub proof fn lemma_more_room_keeps_completions(
        &self,
        depth: int,
        capacity: int,
        more: int,
        path: Seq<Decision>,
    )
        requires
            capacity <= more,
            self.is_completion(depth, capacity, path),
        ensures
            self.is_completion(depth, more, path),
        decreases path.len(),
    {
        if path.len() > 0 {
            let d = path[0];
            self.lemma_more_room_keeps_completions(
                depth + 1,
                self.capacity_after(capacity, d),
                self.capacity_after(more, d),
                path.drop_first(),
            );
        }
    }

    /// With positive weights nothing can be packed, and nothing earned, once
    /// no room is left.
    pub proof fn lemma_nothing_without_room(&self, depth: int, capacity: int)
        requires
            self.wf(),
            self.instance.positive_weights(),
            0 <= depth <= self.instance.nb_items,
            capacity <= 0,
        ensures
            self.best_completion(depth, capacity) == 0,
        decreases self.instance.nb_items - depth,
    {
        if depth < self.instance.nb_items {
            assert(self.instance.weight_of(self.item_at(depth)) > 0);
            self.lemma_nothing_without_room(depth + 1, capacity);
        }
    }

    /// When no remaining item earns more than `rate_p / rate_w` per unit of
    /// weight, `capacity` units of room earn at most that rate.
    pub proof fn lemma_best_within_rate(&self, depth: int, capacity: int, rate_p: int, rate_w: int)
        requires
            self.wf(),
            self.instance.positive_weights(),
            self.instance.nonnegative_profits(),
            0 <= depth <= self.instance.nb_items,
            capacity >= 0,
            rate_p >= 0,
            rate_w > 0,
            forall|k: int|
                depth <= k < self.instance.nb_items ==> self.instance.profit_of(
                    #[trigger] self.item_at(k),
                ) * rate_w <= rate_p * self.instance.weight_of(self.item_at(k)),
        ensures
            self.best_completion(depth, capacity) * rate_w <= capacity * rate_p,
        decreases self.instance.nb_items - depth,
    {
        if depth >= self.instance.nb_items {
            assert(0 <= capacity * rate_p) by (nonlinear_arith)
                requires
                    capacity >= 0,
                    rate_p >= 0,
            ;
        } else {
            let item = self.item_at(depth);
            let w = self.instance.weight_of(item);
            let p = self.instance.profit_of(item);
            self.lemma_best_within_rate(depth + 1, capacity, rate_p, rate_w);
            if capacity >= w {
                self.lemma_best_within_rate(depth + 1, capacity - w, rate_p, rate_w);
                let t = self.best_completion(depth + 1, capacity - w);
                assert(p * rate_w <= rate_p * w);
                assert((p + t) * rate_w <= capacity * rate_p) by (nonlinear_arith)
                    requires
                        p * rate_w <= rate_p * w,
                        t * rate_w <= (capacity - w) * rate_p,
                ;
            }
        }
    }

    /// The bound with credit: when `credit_room` units of room are worth at
    /// most `credit` whatever remaining item fills them, then that much more
    /// room earns at most `credit` above the bound.
    pub proof fn lemma_best_with_credit(
        &self,
        depth: int,
        capacity: int,
        credit_room: int,
        credit: int,
    )
        requires
            self.wf(),
            self.instance.positive_weights(),
            self.instance.nonnegative_profits(),
            self.ratio_sorted(),
            0 <= depth <= self.instance.nb_items,
            capacity >= 0,
            credit_room >= 0,
            credit >= 0,
            forall|k: int|
                depth <= k < self.instance.nb_items ==> credit * self.instance.weight_of(
                    #[trigger] self.item_at(k),
                ) >= credit_room * self.instance.profit_of(self.item_at(k)),
        ensures
            self.best_completion(depth, capacity + credit_room) <= credit + self.upper_bound(
                depth,
                capacity,
            ),
        decreases self.instance.nb_items - depth,
    {
        let n = self.instance.nb_items as int;
        if depth >= n {
        } else {
            let item = self.item_at(depth);
            let w = self.instance.weight_of(item);
            let p = self.instance.profit_of(item);
            assert(0 <= item < n);
            assert(w > 0 && p >= 0);
            let best = self.best_completion(depth, capacity + credit_room);
            if capacity == 0 {
                if credit_room == 0 {
                    self.lemma_nothing_without_room(depth, 0);
                } else {
                    assert forall|k: int| depth <= k < n implies self.instance.profit_of(
                        #[trigger] self.item_at(k),
                    ) * credit_room <= credit * self.instance.weight_of(self.item_at(k)) by {
                        let pk = self.instance.profit_of(self.item_at(k));
                        assert(pk * credit_room == credit_room * pk) by (nonlinear_arith);
                    }
                    self.lemma_best_within_rate(depth, credit_room, credit, credit_room);
                    assert(best <= credit) by (nonlinear_arith)
                        requires
                            best * credit_room <= credit_room * credit,
                            credit_room > 0,
                    ;
                }
            } else if capacity >= w {
                self.lemma_best_with_credit(depth + 1, capacity - w, credit_room, credit);
                assert forall|k: int| depth + 1 <= k < n implies (credit + p)
                    * self.instance.weight_of(#[trigger] self.item_at(k)) >= (credit_room + w)
                    * self.instance.profit_of(self.item_at(k)) by {
                    let wk = self.instance.weight_of(self.item_at(k));
                    let pk = self.instance.profit_of(self.item_at(k));
                    assert(self.instance.ratio_ge(self.item_at(depth), self.item_at(k)));
                    assert(p * wk >= pk * w);
                    assert(credit * wk >= credit_room * pk);
                    assert((credit + p) * wk >= (credit_room + w) * pk) by (nonlinear_arith)
                        requires
                            p * wk >= pk * w,
                            credit * wk >= credit_room * pk,
                    ;
                }
                self.lemma_best_with_credit(depth + 1, capacity - w, credit_room + w, credit + p);
                assert(capacity - w + (credit_room + w) == capacity + credit_room);
                assert(capacity - w + credit_room == capacity + credit_room - w);
            } else {
                assert forall|k: int| depth <= k < n implies self.instance.profit_of(
                    #[trigger] self.item_at(k),
                ) * w <= p * self.instance.weight_of(self.item_at(k)) by {
                    assert(self.instance.ratio_ge(self.item_at(depth), self.item_at(k)));
                }
                self.lemma_best_within_rate(depth, capacity + credit_room, p, w);
                assert(credit * w >= credit_room * p);
                assert((best - credit) * w <= capacity * p) by (nonlinear_arith)
                    requires
                        best * w <= (capacity + credit_room) * p,
                        credit * w >= credit_room * p,
                ;
                lemma_floor_quotient(best - credit, capacity * p, w);
            }
        }
    }

    /// Admissibility: the bound of a state is at least the most that can be
    /// earned from it. It holds when the decisions follow the profit/weight
    /// ratio, and no profit is negative.
    pub proof fn lemma_bound_admissible(&self, depth: int, capacity: int)
        requires
            self.wf(),
            self.instance.positive_weights(),
            self.instance.nonnegative_profits(),
            self.ratio_sorted(),
            0 <= depth <= self.instance.nb_items,
        ensures
            self.best_completion(depth, capacity) <= self.upper_bound(depth, capacity),
    {
        if capacity <= 0 {
            self.lemma_nothing_without_room(depth, capacity);
        } else {
            assert forall|k: int| depth <= k < self.instance.nb_items implies 0
                * self.instance.weight_of(#[trigger] self.item_at(k)) >= 0
                * self.instance.profit_of(self.item_at(k)) by {}
            self.lemma_best_with_credit(depth, capacity, 0, 0);
        }
    }

    /// Admissibility, said of the completions themselves: no way to decide
    /// the remaining items earns more than the bound.
    pub proof fn lemma_bound_covers_completions(
        &self,
        depth: int,
        capacity: int,
        path: Seq<Decision>,
    )
        requires
            self.wf(),
            self.instance.positive_weights(),
            self.instance.nonnegative_profits(),
            self.ratio_sorted(),
            0 <= depth <= self.instance.nb_items,
            self.is_completion(depth, capacity, path),
        ensures
            self.path_cost(path) <= self.upper_bound(depth, capacity),
    {
        self.lemma_completion_within_best(depth, capacity, path);
        self.lemma_bound_admissible(depth, capacity);
    }
}

} // verus!
