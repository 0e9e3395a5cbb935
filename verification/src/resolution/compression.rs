//! The compression layer: a coarser problem with fewer distinct weights.
//!
//! The items are clustered by weight, or by weight and profit, and every
//! item takes the least true weight of its cluster. No item is then heavier
//! than it truly is, so whatever fits in the true problem fits in the
//! coarser one.
//!
//! States are handed to the coarser problem in one of two ways: unchanged, or
//! moved up to the nearest capacity that the coarser problem reaches itself.

use std::collections::HashMap;
use vstd::prelude::*;
use crate::instance::KnapsackInstance;
use crate::resolution::model::{copy_of, copy_of_order, Decision, Knapsack, KnapsackState};
use crate::resolution::reachable::{occurs, ReachableIndex};

verus! {

/// The number of rounds after which the clustering stops at the latest.
pub const MAX_ITERATIONS: usize = 1000;

/// What the items are clustered by.
#[derive(Debug, Clone, Copy, PartialEq, Eq, Structural)]
pub enum ClusterFeatures {
    /// The weight alone.
    Weight,
    /// The weight and the profit together.
    WeightAndProfit,
}

/// `membership` assigns each of `n` items to one of `k` clusters.
pub open spec fn is_membership(membership: Seq<usize>, n: nat, k: nat) -> bool {
    &&& membership.len() == n
    &&& forall|i: int| 0 <= i < n ==> membership[i] < k
}

/// `value` is the least weight among the items of the cluster of `item`.
pub open spec fn is_cluster_min(
    weight: Seq<isize>,
    membership: Seq<usize>,
    item: int,
    value: int,
) -> bool {
    &&& forall|j: int|
        0 <= j < weight.len() && membership[j] == membership[item] ==> value <= #[trigger] weight[j]
    &&& exists|j: int|
        0 <= j < weight.len() && membership[j] == membership[item] && value == #[trigger] weight[j]
}

/// Item `a` has been counted in the least weight of its cluster: the cluster
/// has a holder, and its least weight is at most that of `a`.
spec fn covered(
    least: Seq<isize>,
    holder: Seq<int>,
    membership: Seq<usize>,
    weight: Seq<isize>,
    a: int,
) -> bool {
    holder[membership[a] as int] >= 0 && least[membership[a] as int] <= weight[a]
}

/// `meta` is the coarser problem that `membership` makes of `pb`: the same
/// items, profits, capacity and decision order, and for each item the least
/// weight of its cluster.
pub open spec fn is_meta_problem(pb: Knapsack, membership: Seq<usize>, meta: Knapsack) -> bool {
    &&& meta.instance.nb_items == pb.instance.nb_items
    &&& meta.instance.capacity == pb.instance.capacity
    &&& meta.instance.profit@ == pb.instance.profit@
    &&& meta.order@ == pb.order@
    &&& meta.instance.weight@.len() == pb.instance.nb_items
    &&& forall|i: int|
        0 <= i < pb.instance.nb_items ==> is_cluster_min(
            pb.instance.weight@,
            membership,
            i,
            #[trigger] meta.instance.weight@[i] as int,
        )
}

/// `problem` can be clustered in `n_meta_items` groups, or in as many groups
/// as it has items if that is fewer: it is well formed and has an item, a
/// group is asked for, and the items times the groups are within what the
/// clustering counts with 32 bits.
pub open spec fn can_cluster(problem: Knapsack, n_meta_items: int) -> bool {
    &&& problem.wf()
    &&& problem.instance.nb_items > 0
    &&& n_meta_items > 0
    &&& problem.instance.nb_items * vstd::math::min(n_meta_items, problem.instance.nb_items as int)
        <= i32::MAX
}

/// The clustering itself, done by `clustering::kmeans`: `points` are put in
/// `k` groups in at most `max_iter` rounds, from a start chosen at random.
/// Nothing is claimed of which points share a group: only that every point
/// is given one group, numbered below `k`. The call needs a point to start
/// from and a group to fill, points that all have as many coordinates, and
/// no more moves in a round than its 32-bit counters hold.
#[verifier::external_body]
fn kmeans_membership(k: usize, points: &Vec<Vec<isize>>, max_iter: usize) -> (membership: Vec<usize>)
    requires
        k > 0,
        points@.len() > 0,
        points@.len() * k <= i32::MAX,
        forall|i: int|
            0 <= i < points@.len() ==> (#[trigger] points@[i])@.len() == points@[0]@.len(),
    ensures
        is_membership(membership@, points@.len(), k as nat),
{
    clustering::kmeans(k, points, max_iter).membership
}

/// A problem and its coarser counterpart.
pub struct KnapsackCompression<'a> {
    /// The true problem.
    pub problem: &'a Knapsack,
    /// The coarser problem.
    pub meta_problem: Knapsack,
    /// The value that a decision of the coarser problem takes in the true one.
    pub mapping: HashMap<isize, isize>,
    /// The cluster of each item.
    pub membership: Vec<usize>,
    /// The capacities that the coarser problem reaches, when states are to be
    /// moved onto them; without it states are passed through unchanged.
    pub index: Option<ReachableIndex>,
}

impl<'a> KnapsackCompression<'a> {
    /// The invariant of a compression: the coarser problem is the one that
    /// the membership makes of the true problem, decisions map to
    /// themselves, and the index, where there is one, is that of the coarser
    /// problem.
    pub open spec fn wf(&self) -> bool {
        &&& self.problem.wf()
        &&& self.meta_problem.wf()
        &&& self.membership@.len() == self.problem.instance.nb_items
        &&& is_meta_problem(*self.problem, self.membership@, self.meta_problem)
        &&& self.mapping@ == Map::<isize, isize>::empty().insert(0, 0).insert(1, 1)
        &&& match self.index {
            Some(index) => index.describes(self.meta_problem),
            None => true,
        }
    }

    /// Clusters the items of `problem` by weight and profit in `n_meta_items`
    /// groups, or in as many groups as there are items if that is fewer, and
    /// builds the coarser problem. States are passed through unchanged.
    ///
    /// The clustering starts from an item drawn at random. Two runs on the
    /// same problem may group the items differently, and then give other
    /// weights; what is ensured holds of every run.
    pub fn new(problem: &'a Knapsack, n_meta_items: usize) -> (compression: Self)
        requires
            can_cluster(*problem, n_meta_items as int),
        ensures
            compression.wf(),
            compression.problem == problem,
            compression.index.is_none(),
            is_membership(
                compression.membership@,
                problem.instance.nb_items as nat,
                vstd::math::min(n_meta_items as int, problem.instance.nb_items as int) as nat,
            ),
    {
        Self::with_clustering(problem, n_meta_items, ClusterFeatures::WeightAndProfit, MAX_ITERATIONS)
    }

    /// As `new`, or nothing where `problem` cannot be clustered in
    /// `n_meta_items` groups.
    pub fn try_new(problem: &'a Knapsack, n_meta_items: usize) -> (compression: Option<Self>)
        ensures
            compression.is_some() == can_cluster(*problem, n_meta_items as int),
            match compression {
                Some(compression) => {
                    &&& compression.wf()
                    &&& compression.problem == problem
                    &&& compression.index.is_none()
                    &&& is_membership(
                        compression.membership@,
                        problem.instance.nb_items as nat,
                        vstd::math::min(
                            n_meta_items as int,
                            problem.instance.nb_items as int,
                        ) as nat,
                    )
                },
                None => true,
            },
    {
        Self::try_with_clustering(
            problem,
            n_meta_items,
            ClusterFeatures::WeightAndProfit,
            MAX_ITERATIONS,
        )
    }

    /// As `new`, with the features to cluster by and the greatest number of
    /// rounds of the clustering made explicit. Here too the start is drawn
    /// at random, and two runs may group the items differently.
    pub fn with_clustering(
        problem: &'a Knapsack,
        n_meta_items: usize,
        features: ClusterFeatures,
        max_iterations: usize,
    ) -> (compression: Self)
        requires
            can_cluster(*problem, n_meta_items as int),
        ensures
            compression.wf(),
            compression.problem == problem,
            compression.index.is_none(),
            is_membership(
                compression.membership@,
                problem.instance.nb_items as nat,
                vstd::math::min(n_meta_items as int, problem.instance.nb_items as int) as nat,
            ),
    {
        let groups: usize = if n_meta_items > problem.instance.nb_items {
            problem.instance.nb_items
        } else {
            n_meta_items
        };
        let points = Self::feature_points(problem, features);
        let membership = kmeans_membership(groups, &points, max_iterations);
        Self::from_membership(problem, membership, groups)
    }

    /// As `with_clustering`, or nothing where `problem` cannot be clustered
    /// in `n_meta_items` groups.
    pub fn try_with_clustering(
        problem: &'a Knapsack,
        n_meta_items: usize,
        features: ClusterFeatures,
        max_iterations: usize,
    ) -> (compression: Option<Self>)
        ensures
            compression.is_some() == can_cluster(*problem, n_meta_items as int),
            match compression {
                Some(compression) => {
                    &&& compression.wf()
                    &&& compression.problem == problem
                    &&& compression.index.is_none()
                    &&& is_membership(
                        compression.membership@,
                        problem.instance.nb_items as nat,
                        vstd::math::min(
                            n_meta_items as int,
                            problem.instance.nb_items as int,
                        ) as nat,
                    )
                },
                None => true,
            },
    {
        if Self::can_be_clustered(problem, n_meta_items) {
            Some(Self::with_clustering(problem, n_meta_items, features, max_iterations))
        } else {
            None
        }
    }

    /// Tests whether `problem` can be clustered in `n_meta_items` groups.
    pub fn can_be_clustered(problem: &Knapsack, n_meta_items: usize) -> (ok: bool)
        ensures
            ok == can_cluster(*problem, n_meta_items as int),
    {
        let n: usize = problem.instance.nb_items;
        if n == 0 || n_meta_items == 0 || !problem.is_well_formed() {
            return false;
        }
        let groups: usize = if n_meta_items > n {
            n
        } else {
            n_meta_items
        };
        if n > 0x7fff_ffff {
            assert(n * groups > i32::MAX) by (nonlinear_arith)
                requires
                    n > 0x7fff_ffff,
                    groups >= 1,
            ;
            return false;
        }
        assert(n * groups <= 0x7fff_ffff * 0x7fff_ffff) by (nonlinear_arith)
            requires
                0 <= n <= 0x7fff_ffff,
                0 <= groups <= n,
        ;
        let moves: u64 = (n as u64) * (groups as u64);
        moves <= 0x7fff_ffff
    }

    /// The point that stands for each item in the clustering: its weight,
    /// followed by its profit where the profit counts.
    pub fn feature_points(problem: &Knapsack, features: ClusterFeatures) -> (points: Vec<Vec<isize>>)
        requires
            problem.instance.wf(),
        ensures
            points@.len() == problem.instance.nb_items,
            forall|i: int|
                0 <= i < points@.len() ==> (#[trigger] points@[i])@ == match features {
                    ClusterFeatures::Weight => seq![problem.instance.weight@[i]],
                    ClusterFeatures::WeightAndProfit => seq![
                        problem.instance.weight@[i],
                        problem.instance.profit@[i],
                    ],
                },
    {
        let mut points: Vec<Vec<isize>> = Vec::new();
        let mut i: usize = 0;
        while i < problem.instance.nb_items
            invariant
                problem.instance.wf(),
                i <= problem.instance.nb_items,
                points@.len() == i,
                forall|a: int|
                    0 <= a < i ==> (#[trigger] points@[a])@ == match features {
                        ClusterFeatures::Weight => seq![problem.instance.weight@[a]],
                        ClusterFeatures::WeightAndProfit => seq![
                            problem.instance.weight@[a],
                            problem.instance.profit@[a],
                        ],
                    },
            decreases problem.instance.nb_items - i,
        {
            let mut point: Vec<isize> = Vec::new();
            point.push(problem.instance.weight[i]);
            match features {
                ClusterFeatures::Weight => {
                    assert(point@ =~= seq![problem.instance.weight@[i as int]]);
                },
                ClusterFeatures::WeightAndProfit => {
                    point.push(problem.instance.profit[i]);
                    assert(point@ =~= seq![
                        problem.instance.weight@[i as int],
                        problem.instance.profit@[i as int],
                    ]);
                },
            }
            points.push(point);
            i += 1;
        }
        points
    }

    /// Builds the coarser problem that a given clustering makes of
    /// `problem`. States are passed through unchanged.
    pub fn from_membership(
        problem: &'a Knapsack,
        membership: Vec<usize>,
        n_meta_items: usize,
    ) -> (compression: Self)
        requires
            problem.wf(),
            is_membership(membership@, problem.instance.nb_items as nat, n_meta_items as nat),
        ensures
            compression.wf(),
            compression.problem == problem,
            compression.membership@ == membership@,
            compression.index.is_none(),
    {
        let weight = Self::compute_meta_weight(problem, &membership, n_meta_items);
        let meta_instance = KnapsackInstance {
            nb_items: problem.instance.nb_items,
            capacity: problem.instance.capacity,
            weight,
            profit: copy_of(&problem.instance.profit),
        };
        let meta_problem = Knapsack { instance: meta_instance, order: copy_of_order(&problem.order) };
        proof {
            assert forall|i: int| 0 <= i < meta_problem.instance.nb_items implies meta_problem.instance.weight_of(
                i,
            ) >= 0 by {
                let v = meta_problem.instance.weight@[i] as int;
                assert(is_cluster_min(problem.instance.weight@, membership@, i, v));
                let j = choose|j: int|
                    0 <= j < problem.instance.weight@.len() && membership@[j] == membership@[i] && v
                        == #[trigger] problem.instance.weight@[j];
                assert(problem.instance.weight_of(j) >= 0);
            }
        }
        let mut mapping: HashMap<isize, isize> = HashMap::new();
        mapping.insert(0, 0);
        mapping.insert(1, 1);
        KnapsackCompression { problem, meta_problem, mapping, membership, index: None }
    }

    /// The same compression with the index of the capacities that its
    /// coarser problem reaches: states are then moved onto those capacities.
    pub fn with_reachable_index(self) -> (compression: Self)
        requires
            self.wf(),
            self.problem.instance.nb_items < usize::MAX,
        ensures
            compression.wf(),
            compression.problem == self.problem,
            compression.meta_problem == self.meta_problem,
            compression.membership == self.membership,
            compression.mapping == self.mapping,
            compression.index.is_some(),
    {
        let index = ReachableIndex::build(&self.meta_problem);
        KnapsackCompression {
            problem: self.problem,
            meta_problem: self.meta_problem,
            mapping: self.mapping,
            membership: self.membership,
            index: Some(index),
        }
    }

    /// The weight of each item in the coarser problem: the least weight
    /// among the items of its cluster.
    pub fn compute_meta_weight(pb: &Knapsack, membership: &Vec<usize>, n_meta_items: usize) -> (weight:
        Vec<isize>)
        requires
            pb.instance.wf(),
            is_membership(membership@, pb.instance.nb_items as nat, n_meta_items as nat),
        ensures
            weight@.len() == pb.instance.nb_items,
            forall|i: int|
                0 <= i < pb.instance.nb_items ==> is_cluster_min(
                    pb.instance.weight@,
                    membership@,
                    i,
                    #[trigger] weight@[i] as int,
                ),
    {
        let n: usize = pb.instance.nb_items;
        let mut least: Vec<isize> = Vec::new();
        let mut c: usize = 0;
        while c < n_meta_items
            invariant
                c <= n_meta_items,
                least@.len() == c,
                forall|a: int| 0 <= a < c ==> least@[a] == isize::MAX,
            decreases n_meta_items - c,
        {
            least.push(isize::MAX);
            c += 1;
        }
        // `holder[c]` is an item of cluster `c` that weighs `least[c]`, or -1
        // while no item of the cluster has been seen.
        let ghost mut holder: Seq<int> = Seq::new(n_meta_items as nat, |c: int| -1int);
        let mut i: usize = 0;
        while i < n
            invariant
                n == pb.instance.nb_items,
                pb.instance.wf(),
                is_membership(membership@, n as nat, n_meta_items as nat),
                i <= n,
                least@.len() == n_meta_items,
                holder.len() == n_meta_items,
                forall|c: int|
                    0 <= c < n_meta_items ==> -1 <= #[trigger] holder[c] < i && (holder[c] >= 0
                        ==> membership@[holder[c]] == c && least@[c] == pb.instance.weight@[holder[c]])
                        && (holder[c] < 0 ==> least@[c] == isize::MAX),
                forall|a: int|
                    0 <= a < i ==> covered(least@, holder, membership@, pb.instance.weight@, a),
            decreases n - i,
        {
            let cluster: usize = membership[i];
            let ghost before = least@;
            let ghost before_holder = holder;
            if pb.instance.weight[i] <= least[cluster] {
                least.set(cluster, pb.instance.weight[i]);
                proof {
                    holder = holder.update(cluster as int, i as int);
                }
            }
            i += 1;
            proof {
                assert forall|a: int| 0 <= a < i implies covered(
                    least@,
                    holder,
                    membership@,
                    pb.instance.weight@,
                    a,
                ) by {
                    if a < i - 1 {
                        assert(covered(before, before_holder, membership@, pb.instance.weight@, a));
                    }
                }
            }
        }
        let mut weight: Vec<isize> = Vec::new();
        let mut i: usize = 0;
        while i < n
            invariant
                n == pb.instance.nb_items,
                pb.instance.wf(),
                is_membership(membership@, n as nat, n_meta_items as nat),
                i <= n,
                weight@.len() == i,
                least@.len() == n_meta_items,
                holder.len() == n_meta_items,
                forall|c: int|
                    0 <= c < n_meta_items ==> -1 <= #[trigger] holder[c] < n && (holder[c] >= 0
                        ==> membership@[holder[c]] == c && least@[c] == pb.instance.weight@[holder[c]]),
                forall|a: int|
                    0 <= a < n ==> covered(least@, holder, membership@, pb.instance.weight@, a),
                forall|a: int| 0 <= a < i ==> #[trigger] weight@[a] == least@[membership@[a] as int],
            decreases n - i,
        {
            weight.push(least[membership[i]]);
            i += 1;
        }
        proof {
            assert forall|i: int| 0 <= i < n implies is_cluster_min(
                pb.instance.weight@,
                membership@,
                i,
                #[trigger] weight@[i] as int,
            ) by {
                let c = membership@[i] as int;
                let h = holder[c];
                assert(covered(least@, holder, membership@, pb.instance.weight@, i));
                assert forall|j: int|
                    0 <= j < n && membership@[j] == membership@[i] implies weight@[i]
                    <= #[trigger] pb.instance.weight@[j] by {
                    assert(covered(least@, holder, membership@, pb.instance.weight@, j));
                }
                assert(weight@[i] == pb.instance.weight@[h]);
            }
        }
        weight
    }

    /// Soundness of the coarser weights: no item is heavier in the coarser
    /// problem than any item of its cluster truly is.
    pub proof fn lemma_meta_weight_conservative(&self, item: int, other: int)
        requires
            self.wf(),
            0 <= item < self.problem.instance.nb_items,
            0 <= other < self.problem.instance.nb_items,
            self.membership@[item] == self.membership@[other],
        ensures
            self.meta_problem.instance.weight_of(item) <= self.problem.instance.weight_of(other),
    {
        assert(is_cluster_min(
            self.problem.instance.weight@,
            self.membership@,
            item,
            self.meta_problem.instance.weight@[item] as int,
        ));
    }

    /// A solution costs the same in both problems: the profits are the same,
    /// and so is the solution when it is carried back.
    pub proof fn lemma_decompress_keeps_cost(&self, solution: Seq<Decision>)
        requires
            self.wf(),
        ensures
            self.problem.path_cost(solution) == self.meta_problem.path_cost(solution),
        decreases solution.len(),
    {
        if solution.len() > 0 {
            self.lemma_decompress_keeps_cost(solution.drop_first());
        }
    }

    /// The coarser problem is a relaxation: what completes a state of the
    /// true problem completes every state of the coarser problem that has
    /// the same depth and no less room.
    pub proof fn lemma_completion_survives(
        &self,
        depth: int,
        capacity: int,
        meta_capacity: int,
        path: Seq<Decision>,
    )
        requires
            self.wf(),
            capacity <= meta_capacity,
            self.problem.is_completion(depth, capacity, path),
        ensures
            self.meta_problem.is_completion(depth, meta_capacity, path),
        decreases path.len(),
    {
        if path.len() > 0 {
            let d = path[0];
            let item = self.problem.item_at(depth);
            assert(0 <= item < self.problem.instance.nb_items);
            self.lemma_meta_weight_conservative(item, item);
            let w = self.problem.instance.weight_of(item);
            let mw = self.meta_problem.instance.weight_of(item);
            assert(self.meta_problem.item_at(depth) == item);
            assert(d.value * w >= d.value * mw) by (nonlinear_arith)
                requires
                    d.value == 0 || d.value == 1,
                    w >= mw,
            ;
            self.lemma_completion_survives(
                depth + 1,
                self.problem.capacity_after(capacity, d),
                self.meta_problem.capacity_after(meta_capacity, d),
                path.drop_first(),
            );
        }
    }

    /// The coarser problem, on which diagrams are cheaper to compile.
    pub fn get_compressed_problem(&self) -> (meta: &Knapsack)
        ensures
            *meta == self.meta_problem,
    {
        &self.meta_problem
    }

    /// The state of the coarser problem that stands for `state`. Without an
    /// index it is `state` itself. With one, the capacity moves up to the
    /// least capacity that the coarser problem reaches at that depth and
    /// that is no less, and stays where there is none.
    pub fn compress(&self, state: &KnapsackState) -> (compressed: KnapsackState)
        requires
            self.wf(),
        ensures
            compressed.depth == state.depth,
            self.index.is_none() ==> compressed.capacity == state.capacity,
            self.index.is_some() ==> {
                if exists|x: int|
                    x >= state.capacity && self.meta_problem.reachable(state.depth as int, x) {
                    self.meta_problem.is_least_reachable(
                        state.depth as int,
                        state.capacity as int,
                        compressed.capacity as int,
                    )
                } else {
                    compressed.capacity == state.capacity
                }
            },
    {
        match &self.index {
            None => KnapsackState { depth: state.depth, capacity: state.capacity },
            Some(index) => {
                proof {
                    index.lemma_describes_wf(self.meta_problem);
                }
                let compressed = index.snap(state);
                proof {
                    let pb = self.meta_problem;
                    let d = state.depth as int;
                    let c = state.capacity as int;
                    if d <= pb.instance.nb_items {
                        let level = index.levels@[d]@;
                        assert(pb.is_level(d, level));
                        if exists|x: int| x >= c && pb.reachable(d, x) {
                            let x = choose|x: int| x >= c && pb.reachable(d, x);
                            assert(occurs(level, x));
                            assert forall|y: int| pb.reachable(d, y) && y >= c implies compressed.capacity
                                <= y by {
                                assert(occurs(level, y));
                            }
                        } else {
                            if exists|k: int| 0 <= k < level.len() && level[k] >= c {
                                let k = choose|k: int| 0 <= k < level.len() && level[k] >= c;
                                assert(pb.reachable(d, level[k] as int));
                            }
                        }
                    } else {
                        pb.lemma_nothing_reachable_beyond(d);
                    }
                }
                compressed
            },
        }
    }

    /// The solution of the true problem that a solution of the coarser
    /// problem stands for: the same decisions.
    pub fn decompress(&self, solution: &Vec<Decision>) -> (decisions: Vec<Decision>)
        ensures
            decisions@ == solution@,
    {
        let mut decisions: Vec<Decision> = Vec::new();
        let mut i: usize = 0;
        while i < solution.len()
            invariant
                i <= solution@.len(),
                decisions@ == solution@.subrange(0, i as int),
            decreases solution@.len() - i,
        {
            decisions.push(solution[i]);
            assert(decisions@ =~= solution@.subrange(0, i + 1));
            i += 1;
        }
        assert(solution@.subrange(0, i as int) =~= solution@);
        decisions
    }
}

} // verus!
