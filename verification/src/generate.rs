//! The parameters of the instance generator, and what it computes from them
//! before and after it samples: the weight range, the size of each cluster,
//! the seed of the random stream, and the instance itself.

use vstd::prelude::*;
use crate::instance::KnapsackInstance;

verus! {

/// The parameters of a generated instance: items in clusters of similar
/// weight and profit.
#[derive(Debug)]
pub struct KnapsackGenerator {
    /// The seed of the random stream; the clock serves where there is none.
    pub seed: Option<u128>,
    /// The number of items to produce.
    pub nb_items: usize,
    /// The number of clusters of similar items.
    pub nb_clusters: usize,
    /// The capacity of the knapsack.
    pub capacity: isize,
    /// The least centre of a cluster's weights.
    pub min_weight: usize,
    /// The greatest centre of a cluster's weights.
    pub max_weight: usize,
    /// The standard deviation of the weights within a cluster.
    pub weight_std_dev: usize,
    /// The least centre of a cluster's profits.
    pub min_profit: usize,
    /// The greatest centre of a cluster's profits.
    pub max_profit: usize,
    /// The standard deviation of the profits within a cluster.
    pub profit_std_dev: usize,
    /// The file to write the instance to; standard output where there is none.
    pub output: Option<String>,
}

/// The number of items of cluster `i`, when `nb_items` items are dealt to
/// `nb_clusters` clusters as evenly as can be, the first clusters taking the
/// remainder.
pub open spec fn cluster_size(nb_items: int, nb_clusters: int, i: int) -> int {
    nb_items / nb_clusters + if i < nb_items % nb_clusters {
        1int
    } else {
        0int
    }
}

/// The number of items in the first `m` clusters.
pub open spec fn items_in_first(nb_items: int, nb_clusters: int, m: int) -> int
    decreases m,
{
    if m <= 0 {
        0
    } else {
        items_in_first(nb_items, nb_clusters, m - 1) + cluster_size(nb_items, nb_clusters, m - 1)
    }
}

/// Byte `k` of the sixteen bytes of `init`, the most significant first.
pub open spec fn seed_byte(init: u128, k: int) -> u8 {
    ((init >> ((8 * (15 - k)) as u128)) & 0xff) as u8
}

/// The clusters share out all the items: their sizes add up to `nb_items`.
pub proof fn lemma_cluster_sizes_sum(nb_items: int, nb_clusters: int)
    requires
        nb_items >= 0,
        nb_clusters > 0,
    ensures
        items_in_first(nb_items, nb_clusters, nb_clusters) == nb_items,
{
    lemma_items_in_first(nb_items, nb_clusters, nb_clusters);
    vstd::arithmetic::div_mod::lemma_fundamental_div_mod(nb_items, nb_clusters);
    vstd::arithmetic::div_mod::lemma_mod_bound(nb_items, nb_clusters);
}

/// The first `m` clusters hold `m` times the quotient, and one more item for
/// each of them that takes part of the remainder.
pub proof fn lemma_items_in_first(nb_items: int, nb_clusters: int, m: int)
    requires
        nb_items >= 0,
        nb_clusters > 0,
        0 <= m,
    ensures
        items_in_first(nb_items, nb_clusters, m) == m * (nb_items / nb_clusters) + (if m
            <= nb_items % nb_clusters {
            m
        } else {
            nb_items % nb_clusters
        }),
    decreases m,
{
    vstd::arithmetic::div_mod::lemma_mod_bound(nb_items, nb_clusters);
    let q = nb_items / nb_clusters;
    if m > 0 {
        lemma_items_in_first(nb_items, nb_clusters, m - 1);
        assert(m * q == (m - 1) * q + q) by (nonlinear_arith);
    } else {
        assert(m * q == 0) by (nonlinear_arith)
            requires
                m == 0,
        ;
    }
}

impl KnapsackGenerator {
    /// Raises the weight range so that no cluster is centred less than one
    /// standard deviation above zero: where the least centre is below the
    /// deviation, both ends of the range move up by what is missing.
    pub fn settle_weight_range(&mut self)
        requires
            old(self).min_weight < old(self).weight_std_dev ==> old(self).max_weight + (old(
                self,
            ).weight_std_dev - old(self).min_weight) <= usize::MAX,
        ensures
            old(self).min_weight < old(self).weight_std_dev ==> *final(self) == (KnapsackGenerator {
                min_weight: old(self).weight_std_dev,
                max_weight: (old(self).max_weight + (old(self).weight_std_dev - old(
                    self,
                ).min_weight)) as usize,
                ..*old(self)
            }),
            old(self).min_weight >= old(self).weight_std_dev ==> *final(self) == *old(self),
    {
        if self.min_weight < self.weight_std_dev {
            self.max_weight += self.weight_std_dev - self.min_weight;
            self.min_weight = self.weight_std_dev;
        }
    }

    /// The number of items of each cluster.
    pub fn items_per_cluster(&self) -> (sizes: Vec<usize>)
        requires
            self.nb_clusters > 0,
        ensures
            sizes@.len() == self.nb_clusters,
            forall|i: int|
                0 <= i < self.nb_clusters ==> #[trigger] sizes@[i] == cluster_size(
                    self.nb_items as int,
                    self.nb_clusters as int,
                    i,
                ),
    {
        let share: usize = self.nb_items / self.nb_clusters;
        let extra: usize = self.nb_items % self.nb_clusters;
        proof {
            vstd::arithmetic::div_mod::lemma_fundamental_div_mod(
                self.nb_items as int,
                self.nb_clusters as int,
            );
            assert(extra > 0 ==> share + 1 <= self.nb_items) by (nonlinear_arith)
                requires
                    self.nb_items == self.nb_clusters * share + extra,
                    self.nb_clusters > 0,
                    share >= 0,
            ;
        }
        let mut sizes: Vec<usize> = Vec::new();
        let mut i: usize = 0;
        while i < self.nb_clusters
            invariant
                i <= self.nb_clusters,
                share == self.nb_items as int / self.nb_clusters as int,
                extra == self.nb_items as int % self.nb_clusters as int,
                extra > 0 ==> share + 1 <= self.nb_items,
                sizes@.len() == i,
                forall|a: int|
                    0 <= a < i ==> #[trigger] sizes@[a] == cluster_size(
                        self.nb_items as int,
                        self.nb_clusters as int,
                        a,
                    ),
            decreases self.nb_clusters - i,
        {
            if i < extra {
                sizes.push(share + 1);
            } else {
                sizes.push(share);
            }
            i += 1;
        }
        sizes
    }

    /// The seed of the random stream: the sixteen bytes of the configured
    /// seed, or of `now_millis` where none is configured, most significant
    /// first, written twice.
    pub fn rng_seed(&self, now_millis: u128) -> (seed: Vec<u8>)
        ensures
            seed@.len() == 32,
            forall|k: int|
                0 <= k < 32 ==> #[trigger] seed@[k] == seed_byte(
                    match self.seed {
                        Some(s) => s,
                        None => now_millis,
                    },
                    k % 16,
                ),
    {
        let init: u128 = match self.seed {
            Some(s) => s,
            None => now_millis,
        };
        let mut seed: Vec<u8> = Vec::new();
        let mut k: usize = 0;
        while k < 32
            invariant
                k <= 32,
                seed@.len() == k,
                forall|a: int| 0 <= a < k ==> #[trigger] seed@[a] == seed_byte(init, a % 16),
            decreases 32 - k,
        {
            let place: usize = k % 16;
            let shift: u128 = (8 * (15 - place)) as u128;
            let byte: u8 = ((init >> shift) & 0xff) as u8;
            seed.push(byte);
            k += 1;
        }
        seed
    }

    /// The instance made of the sampled weights and profits.
    pub fn instance(&self, weight: Vec<isize>, profit: Vec<isize>) -> (instance: KnapsackInstance)
        ensures
            instance.nb_items == self.nb_items,
            instance.capacity == self.capacity,
            instance.weight == weight,
            instance.profit == profit,
    {
        KnapsackInstance { nb_items: self.nb_items, capacity: self.capacity, weight, profit }
    }
}

} // verus!
