//! The decision order: the items sorted by descending profit/weight ratio.
//!
//! Ratios are compared exactly, by cross-multiplication, and items of equal
//! ratio keep their index order, so that the order of an instance is unique.

use vstd::prelude::*;
use crate::instance::KnapsackInstance;
use crate::resolution::arith::{lemma_ratio_chain, wide_product};

verus! {

/// `item` is one of the entries of `order`.
pub open spec fn lists(order: Seq<usize>, item: int) -> bool {
    exists|k: int| 0 <= k < order.len() && order[k] == item
}

/// `order` lists each of the items `0..n` once: it has `n` entries, all of
/// them below `n` and no two of them equal, and every item is among them.
pub open spec fn is_permutation(order: Seq<usize>, n: nat) -> bool {
    &&& order.len() == n
    &&& forall|i: int| 0 <= i < order.len() ==> order[i] < n
    &&& forall|i: int, j: int| 0 <= i < j < order.len() ==> order[i] != order[j]
    &&& forall|item: int| 0 <= item < n ==> lists(order, item)
}

impl KnapsackInstance {
    /// The profit/weight ratio of item `a` is at least that of item `b`.
    /// With positive weights, `p_a / w_a >= p_b / w_b` is the same as
    /// `p_a * w_b >= p_b * w_a`.
    pub open spec fn ratio_ge(&self, a: int, b: int) -> bool {
        self.profit_of(a) * self.weight_of(b) >= self.profit_of(b) * self.weight_of(a)
    }

    /// Item `a` stands before item `b` in the decision order: its ratio is
    /// greater, or the ratios are equal and `a` has the smaller index.
    pub open spec fn comes_before(&self, a: int, b: int) -> bool {
        let l = self.profit_of(a) * self.weight_of(b);
        let r = self.profit_of(b) * self.weight_of(a);
        l > r || (l == r && a < b)
    }

    /// `order` is the decision order of this instance: a permutation of its
    /// items in which every item comes before all those that follow it.
    pub open spec fn is_ratio_order(&self, order: Seq<usize>) -> bool {
        &&& is_permutation(order, self.nb_items as nat)
        &&& forall|i: int, j: int|
            0 <= i < j < order.len() ==> self.comes_before(order[i] as int, order[j] as int)
    }

    /// `comes_before` is transitive on items of positive weight.
    pub proof fn lemma_comes_before_transitive(&self, a: int, b: int, c: int)
        requires
            self.weight_of(a) > 0,
            self.weight_of(b) > 0,
            self.weight_of(c) > 0,
            self.comes_before(a, b),
            self.comes_before(b, c),
        ensures
            self.comes_before(a, c),
    {
        let (pa, wa) = (self.profit_of(a), self.weight_of(a));
        let (pb, wb) = (self.profit_of(b), self.weight_of(b));
        let (pc, wc) = (self.profit_of(c), self.weight_of(c));
        lemma_ratio_chain(pa, wa, pb, wb, pc, wc);
    }

    /// An instance has one decision order only.
    pub proof fn lemma_ratio_order_unique(&self, first: Seq<usize>, second: Seq<usize>)
        requires
            self.is_ratio_order(first),
            self.is_ratio_order(second),
        ensures
            first == second,
    {
        assert forall|i: int| 0 <= i < first.len() implies first[i] == second[i] by {
            self.lemma_ratio_orders_agree(first, second, i);
        }
        assert(first =~= second);
    }

    /// Two decision orders of an instance hold the same item at each place.
    proof fn lemma_ratio_orders_agree(&self, first: Seq<usize>, second: Seq<usize>, i: int)
        requires
            self.is_ratio_order(first),
            self.is_ratio_order(second),
            0 <= i < first.len(),
        ensures
            first[i] == second[i],
        decreases i,
    {
        assert forall|j: int| 0 <= j < i implies first[j] == second[j] by {
            self.lemma_ratio_orders_agree(first, second, j);
        }
        let a = first[i];
        let b = second[i];
        if a != b {
            assert(lists(second, a as int));
            let j = choose|j: int| 0 <= j < second.len() && second[j] == a;
            if j < i {
                assert(first[j] == second[j]);
            }
            assert(self.comes_before(b as int, a as int));
            assert(lists(first, b as int));
            let k = choose|k: int| 0 <= k < first.len() && first[k] == b;
            if k < i {
                assert(first[k] == second[k]);
            }
            assert(self.comes_before(a as int, b as int));
        }
    }

    /// Tests whether item `a` comes before item `b`.
    pub fn precedes(&self, a: usize, b: usize) -> (r: bool)
        requires
            a < self.weight@.len(),
            a < self.profit@.len(),
            b < self.weight@.len(),
            b < self.profit@.len(),
        ensures
            r == self.comes_before(a as int, b as int),
    {
        let l: i128 = wide_product(self.profit[a], self.weight[b]);
        let r: i128 = wide_product(self.profit[b], self.weight[a]);
        l > r || (l == r && a < b)
    }

    /// Computes the decision order of the instance.
    pub fn ratio_order(&self) -> (order: Vec<usize>)
        requires
            self.wf(),
            self.positive_weights(),
        ensures
            self.is_ratio_order(order@),
    {
        let mut order: Vec<usize> = Vec::new();
        let mut item: usize = 0;
        while item < self.nb_items
            invariant
                self.wf(),
                self.positive_weights(),
                item <= self.nb_items,
                is_permutation(order@, item as nat),
                forall|i: int, j: int|
                    0 <= i < j < order@.len() ==> self.comes_before(
                        order@[i] as int,
                        order@[j] as int,
                    ),
            decreases self.nb_items - item,
        {
            // the place of the item is found by bisection
            let mut lo: usize = 0;
            let mut hi: usize = order.len();
            while lo < hi
                invariant
                    self.wf(),
                    self.positive_weights(),
                    item < self.nb_items,
                    lo <= hi <= order@.len(),
                    is_permutation(order@, item as nat),
                    forall|i: int, j: int|
                        0 <= i < j < order@.len() ==> self.comes_before(
                            order@[i] as int,
                            order@[j] as int,
                        ),
                    forall|k: int| 0 <= k < lo ==> self.comes_before(order@[k] as int, item as int),
                    forall|k: int|
                        hi <= k < order@.len() ==> self.comes_before(item as int, order@[k] as int),
                decreases hi - lo,
            {
                let mid: usize = lo + (hi - lo) / 2;
                if self.precedes(item, order[mid]) {
                    assert forall|k: int| mid <= k < order@.len() implies self.comes_before(
                        item as int,
                        order@[k] as int,
                    ) by {
                        if k > mid {
                            self.lemma_comes_before_transitive(
                                item as int,
                                order@[mid as int] as int,
                                order@[k] as int,
                            );
                        }
                    }
                    hi = mid;
                } else {
                    assert(self.comes_before(order@[mid as int] as int, item as int));
                    assert forall|k: int| 0 <= k < mid + 1 implies self.comes_before(
                        order@[k] as int,
                        item as int,
                    ) by {
                        if k < mid {
                            self.lemma_comes_before_transitive(
                                order@[k] as int,
                                order@[mid as int] as int,
                                item as int,
                            );
                        }
                    }
                    lo = mid + 1;
                }
            }
            let pos: usize = lo;
            let ghost before = order@;
            order.insert(pos, item);
            proof {
                let after = order@;
                assert forall|i: int, j: int| 0 <= i < j < after.len() implies self.comes_before(
                    after[i] as int,
                    after[j] as int,
                ) by {
                    if j < pos {
                        assert(after[i] == before[i] && after[j] == before[j]);
                    } else if j == pos {
                        assert(after[i] == before[i]);
                    } else if i < pos {
                        assert(after[i] == before[i] && after[j] == before[j - 1]);
                    } else if i == pos {
                        assert(after[j] == before[j - 1]);
                    } else {
                        assert(after[i] == before[i - 1] && after[j] == before[j - 1]);
                    }
                }
                assert forall|i: int| 0 <= i < after.len() implies after[i] < item + 1 by {
                    if i < pos {
                        assert(after[i] == before[i]);
                    } else if i > pos {
                        assert(after[i] == before[i - 1]);
                    }
                }
                assert forall|i: int, j: int| 0 <= i < j < after.len() implies after[i]
                    != after[j] by {
                    if i != pos {
                        assert(after[i] == before[if i < pos { i } else { i - 1 }]);
                    }
                    if j != pos {
                        assert(after[j] == before[if j < pos { j } else { j - 1 }]);
                    }
                }
                assert forall|it: int| 0 <= it < item + 1 implies lists(after, it) by {
                    if it < item {
                        assert(lists(before, it));
                        let k = choose|k: int| 0 <= k < before.len() && before[k] == it;
                        let moved = if k < pos { k } else { k + 1 };
                        assert(after[moved] == it);
                    } else {
                        assert(after[pos as int] == it);
                    }
                }
            }
            item += 1;
        }
        order
    }
}

} // verus!
