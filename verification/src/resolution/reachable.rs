//! The capacities that a problem can reach at each depth, and the index that
//! lists them.
//!
//! The index is built once, breadth first, from the root state of the problem
//! down to its last layer. It serves to move a capacity up to the least
//! capacity that the problem itself can reach.

use vstd::prelude::*;
use crate::resolution::model::{Knapsack, KnapsackState};

verus! {

/// `level` holds no value twice, in ascending order.
pub open spec fn strictly_increasing(level: Seq<isize>) -> bool {
    forall|i: int, j: int| 0 <= i < j < level.len() ==> level[i] < level[j]
}

/// `x` is one of the values of `level`.
pub open spec fn occurs(level: Seq<isize>, x: int) -> bool {
    exists|k: int| 0 <= k < level.len() && level[k] == x
}

/// `x` is the least value of `level` that is at least `c`.
pub open spec fn is_least_at_least(level: Seq<isize>, c: int, x: int) -> bool {
    &&& x >= c
    &&& occurs(level, x)
    &&& forall|k: int| 0 <= k < level.len() && level[k] >= c ==> x <= level[k]
}

/// `x` is a value of `level`, or what is left of one after `w` units are
/// taken from it.
pub open spec fn in_next_level(level: Seq<isize>, w: int, x: int) -> bool {
    occurs(level, x) || (x >= 0 && occurs(level, x + w))
}

impl Knapsack {
    /// Some sequence of `depth` decisions leads from the root state to a
    /// state with `capacity` units of room.
    pub open spec fn reachable(&self, depth: int, capacity: int) -> bool
        decreases depth,
    {
        if depth <= 0 {
            depth == 0 && capacity == self.instance.capacity
        } else if depth > self.instance.nb_items {
            false
        } else {
            let w = self.instance.weight_of(self.item_at(depth - 1));
            self.reachable(depth - 1, capacity) || (capacity >= 0 && self.reachable(
                depth - 1,
                capacity + w,
            ))
        }
    }

    /// What is reachable lies between zero and the capacity of the sack,
    /// where that capacity is not negative.
    pub proof fn lemma_reachable_within_capacity(&self, depth: int, capacity: int)
        requires
            self.wf(),
            self.instance.capacity >= 0,
            self.reachable(depth, capacity),
        ensures
            0 <= capacity <= self.instance.capacity,
            0 <= depth <= self.instance.nb_items,
        decreases depth,
    {
        if depth > 0 {
            let item = self.item_at(depth - 1);
            assert(0 <= item < self.instance.nb_items);
            let w = self.instance.weight_of(item);
            assert(w >= 0);
            if self.reachable(depth - 1, capacity) {
                self.lemma_reachable_within_capacity(depth - 1, capacity);
            } else {
                self.lemma_reachable_within_capacity(depth - 1, capacity + w);
            }
        }
    }

    /// No capacity is reachable at a depth beyond the last layer.
    pub proof fn lemma_nothing_reachable_beyond(&self, depth: int)
        requires
            depth > self.instance.nb_items,
        ensures
            forall|c: int| !self.reachable(depth, c),
    {
    }

    /// `x` is the least capacity reachable at `depth` that is at least `c`.
    pub open spec fn is_least_reachable(&self, depth: int, c: int, x: int) -> bool {
        &&& x >= c
        &&& self.reachable(depth, x)
        &&& forall|y: int| self.reachable(depth, y) && y >= c ==> x <= y
    }

    /// `level` lists the capacities reachable at `depth`, each once, in
    /// ascending order.
    pub open spec fn is_level(&self, depth: int, level: Seq<isize>) -> bool {
        &&& strictly_increasing(level)
        &&& forall|k: int| 0 <= k < level.len() ==> self.reachable(depth, level[k] as int)
        &&& forall|c: int| #[trigger] self.reachable(depth, c) ==> occurs(level, c)
    }
}

/// The capacities reachable at each depth of a problem, from the root layer
/// to the last.
#[derive(Debug)]
pub struct ReachableIndex {
    pub levels: Vec<Vec<isize>>,
}

impl ReachableIndex {
    /// Every level of the index is in strictly ascending order.
    pub open spec fn wf(&self) -> bool {
        forall|d: int| 0 <= d < self.levels@.len() ==> strictly_increasing(#[trigger] self.levels@[d]@)
    }

    /// The index is that of `pb`: it has one level for each depth, and each
    /// level lists what `pb` can reach there.
    pub open spec fn describes(&self, pb: Knapsack) -> bool {
        &&& self.levels@.len() == pb.instance.nb_items + 1
        &&& forall|d: int|
            0 <= d <= pb.instance.nb_items ==> pb.is_level(d, #[trigger] self.levels@[d]@)
    }

    /// The index of a problem is well formed.
    pub proof fn lemma_describes_wf(&self, pb: Knapsack)
        requires
            self.describes(pb),
        ensures
            self.wf(),
    {
        assert forall|d: int| 0 <= d < self.levels@.len() implies strictly_increasing(
            #[trigger] self.levels@[d]@,
        ) by {
            assert(pb.is_level(d, self.levels@[d]@));
        }
    }

    /// Builds the index of `pb`, layer by layer from its root state.
    pub fn build(pb: &Knapsack) -> (index: ReachableIndex)
        requires
            pb.wf(),
            pb.instance.nb_items < usize::MAX,
        ensures
            index.describes(*pb),
    {
        let mut levels: Vec<Vec<isize>> = Vec::new();
        let mut root: Vec<isize> = Vec::new();
        root.push(pb.instance.capacity);
        assert(pb.is_level(0, root@)) by {
            assert(root@[0] == pb.instance.capacity);
        }
        levels.push(root);
        let mut depth: usize = 0;
        while depth < pb.instance.nb_items
            invariant
                pb.wf(),
                depth <= pb.instance.nb_items < usize::MAX,
                levels@.len() == depth + 1,
                forall|d: int| 0 <= d <= depth ==> pb.is_level(d, #[trigger] levels@[d]@),
            decreases pb.instance.nb_items - depth,
        {
            let item: usize = pb.order[depth];
            let w: isize = pb.instance.weight[item];
            assert(pb.instance.weight_of(item as int) >= 0);
            let next = next_level(&levels[depth], w);
            proof {
                let level = levels@[depth as int]@;
                assert(pb.is_level(depth as int, level));
                assert forall|k: int| 0 <= k < next@.len() implies pb.reachable(
                    depth + 1,
                    next@[k] as int,
                ) by {
                    let x = next@[k] as int;
                    assert(in_next_level(level, w as int, x));
                }
                assert forall|c: int| #[trigger] pb.reachable(depth + 1, c) implies occurs(
                    next@,
                    c,
                ) by {
                    if pb.reachable(depth as int, c) {
                        assert(occurs(level, c));
                    } else {
                        assert(pb.reachable(depth as int, c + w));
                        assert(occurs(level, c + w));
                    }
                    assert(in_next_level(level, w as int, c));
                }
            }
            let ghost before = levels@;
            levels.push(next);
            proof {
                assert forall|d: int| 0 <= d <= depth + 1 implies pb.is_level(
                    d,
                    #[trigger] levels@[d]@,
                ) by {
                    if d <= depth {
                        assert(levels@[d] == before[d]);
                    }
                }
            }
            depth = depth + 1;
        }
        ReachableIndex { levels }
    }

    /// Moves the capacity of `state` up to the least capacity that the index
    /// lists at its depth and that is no less. Where the index lists none,
    /// the state stays as it is.
    pub fn snap(&self, state: &KnapsackState) -> (snapped: KnapsackState)
        requires
            self.wf(),
        ensures
            snapped.depth == state.depth,
            state.depth >= self.levels@.len() ==> snapped.capacity == state.capacity,
            state.depth < self.levels@.len() ==> {
                let level = self.levels@[state.depth as int]@;
                if exists|k: int| 0 <= k < level.len() && level[k] >= state.capacity {
                    is_least_at_least(level, state.capacity as int, snapped.capacity as int)
                } else {
                    snapped.capacity == state.capacity
                }
            },
    {
        if state.depth >= self.levels.len() {
            return KnapsackState { depth: state.depth, capacity: state.capacity };
        }
        let level: &Vec<isize> = &self.levels[state.depth];
        assert(strictly_increasing(level@));
        let mut lo: usize = 0;
        let mut hi: usize = level.len();
        while lo < hi
            invariant
                lo <= hi <= level@.len(),
                strictly_increasing(level@),
                forall|k: int| 0 <= k < lo ==> level@[k] < state.capacity,
                forall|k: int| hi <= k < level@.len() ==> level@[k] >= state.capacity,
            decreases hi - lo,
        {
            let mid: usize = lo + (hi - lo) / 2;
            if level[mid] < state.capacity {
                assert forall|k: int| 0 <= k < mid + 1 implies level@[k] < state.capacity by {
                    if k < mid {
                        assert(level@[k] < level@[mid as int]);
                    }
                }
                lo = mid + 1;
            } else {
                assert forall|k: int| mid <= k < level@.len() implies level@[k]
                    >= state.capacity by {
                    if k > mid {
                        assert(level@[mid as int] < level@[k]);
                    }
                }
                hi = mid;
            }
        }
        if lo < level.len() {
            assert(level@[lo as int] >= state.capacity);
            KnapsackState { depth: state.depth, capacity: level[lo] }
        } else {
            KnapsackState { depth: state.depth, capacity: state.capacity }
        }
    }
}

/// The level that follows `level` when the item decided in between weighs
/// `w`: every capacity of `level` stays, for the item may be left out, and
/// every capacity that holds the item gives the capacity `w` units below.
pub fn next_level(level: &Vec<isize>, w: isize) -> (next: Vec<isize>)
    requires
        strictly_increasing(level@),
        w >= 0,
    ensures
        strictly_increasing(next@),
        forall|k: int| 0 <= k < next@.len() ==> in_next_level(level@, w as int, next@[k] as int),
        forall|x: int| in_next_level(level@, w as int, x) ==> occurs(next@, x),
{
    let n: usize = level.len();
    let mut first: usize = 0;
    while first < n && level[first] < w
        invariant
            first <= n,
            n == level@.len(),
            forall|k: int| 0 <= k < first ==> level@[k] < w,
        decreases n - first,
    {
        first += 1;
    }
    assert forall|k: int| first <= k < n implies level@[k] >= w by {
        if k > first {
            assert(level@[first as int] < level@[k]);
        }
    }
    let mut next: Vec<isize> = Vec::new();
    let mut i: usize = 0;
    let mut j: usize = first;
    while i < n || j < n
        invariant
            n == level@.len(),
            w >= 0,
            i <= n,
            first <= j <= n,
            strictly_increasing(level@),
            strictly_increasing(next@),
            forall|k: int| first <= k < n ==> level@[k] >= w,
            forall|k: int| 0 <= k < first ==> level@[k] < w,
            forall|k: int| 0 <= k < next@.len() && i < n ==> next@[k] < level@[i as int],
            forall|k: int| 0 <= k < next@.len() && j < n ==> next@[k] < level@[j as int] - w,
            forall|k: int| 0 <= k < next@.len() ==> in_next_level(level@, w as int, next@[k] as int),
            forall|a: int| 0 <= a < i ==> occurs(next@, #[trigger] level@[a] as int),
            forall|b: int| first <= b < j ==> occurs(next@, #[trigger] level@[b] - w),
        decreases (n - i) + (n - j),
    {
        let ghost before = next@;
        let ghost (i0, j0) = (i as int, j as int);
        let take_left: bool = j >= n || (i < n && level[i] < level[j] - w);
        let take_right: bool = !take_left && (i >= n || level[j] - w < level[i]);
        let value: isize = if take_left || !take_right {
            level[i]
        } else {
            level[j] - w
        };
        next.push(value);
        if take_left {
            i += 1;
        } else if take_right {
            j += 1;
        } else {
            i += 1;
            j += 1;
        }
        proof {
            let after = next@;
            let last = before.len() as int;
            assert(after[last] == value);
            assert forall|k: int| 0 <= k < last implies after[k] == before[k] by {}
            assert(in_next_level(level@, w as int, value as int)) by {
                if take_left || !take_right {
                    assert(level@[i0] == value);
                    assert(occurs(level@, value as int));
                } else {
                    assert(level@[j0] == value + w);
                    assert(occurs(level@, value + w));
                }
            }
            assert forall|k: int| 0 <= k < after.len() && i < n implies after[k] < level@[i as int] by {
                if i0 < i {
                    assert(level@[i0] < level@[i as int]);
                }
            }
            assert forall|k: int| 0 <= k < after.len() && j < n implies after[k] < level@[j as int]
                - w by {
                if j0 < j {
                    assert(level@[j0] < level@[j as int]);
                }
            }
            assert forall|a: int| 0 <= a < i implies occurs(after, #[trigger] level@[a] as int) by {
                if a < i0 {
                    assert(occurs(before, level@[a] as int));
                    let k = choose|k: int| 0 <= k < before.len() && before[k] == level@[a];
                    assert(after[k] == level@[a]);
                } else {
                    assert(after[last] == level@[a]);
                }
            }
            assert forall|b: int| first <= b < j implies occurs(after, #[trigger] level@[b] - w) by {
                if b < j0 {
                    assert(occurs(before, level@[b] - w));
                    let k = choose|k: int| 0 <= k < before.len() && before[k] == level@[b] - w;
                    assert(after[k] == level@[b] - w);
                } else {
                    assert(after[last] == level@[b] - w);
                }
            }
        }
    }
    proof {
        assert forall|x: int| in_next_level(level@, w as int, x) implies occurs(next@, x) by {
            if occurs(level@, x) {
                let a = choose|a: int| 0 <= a < level@.len() && level@[a] == x;
                assert(occurs(next@, level@[a] as int));
            } else {
                let b = choose|b: int| 0 <= b < level@.len() && level@[b] == x + w;
                assert(first <= b < j);
                assert(occurs(next@, level@[b] - w));
            }
        }
    }
    next
}

} // verus!
