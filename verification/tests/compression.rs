use knapsack::instance::KnapsackInstance;
use knapsack::resolution::compression::{ClusterFeatures, KnapsackCompression, MAX_ITERATIONS};
use knapsack::resolution::model::{Decision, Knapsack, KnapsackState, Variable};
use knapsack::resolution::reachable::{next_level, ReachableIndex};

fn clustered() -> Knapsack {
    Knapsack::new(KnapsackInstance {
        nb_items: 6,
        capacity: 40,
        weight: vec![10, 101, 12, 100, 11, 103],
        profit: vec![20, 300, 21, 310, 22, 305],
    })
}

fn state(depth: usize, capacity: isize) -> KnapsackState {
    KnapsackState { depth, capacity }
}

#[test]
fn meta_weight_is_the_least_of_the_cluster() {
    let pb = clustered();
    let membership = vec![0, 1, 0, 1, 0, 1];
    assert_eq!(
        KnapsackCompression::compute_meta_weight(&pb, &membership, 2),
        vec![10, 100, 10, 100, 10, 100]
    );
    let membership = vec![2, 2, 0, 0, 1, 1];
    assert_eq!(
        KnapsackCompression::compute_meta_weight(&pb, &membership, 3),
        vec![10, 10, 12, 12, 11, 11]
    );
    // a cluster may stay empty
    let membership = vec![3, 3, 3, 3, 3, 0];
    assert_eq!(
        KnapsackCompression::compute_meta_weight(&pb, &membership, 5),
        vec![10, 10, 10, 10, 10, 103]
    );
}

#[test]
fn meta_problem_keeps_all_but_the_weights() {
    let pb = clustered();
    let compression = KnapsackCompression::from_membership(&pb, vec![0, 1, 0, 1, 0, 1], 2);
    let meta = compression.get_compressed_problem();
    assert_eq!(meta.instance.nb_items, 6);
    assert_eq!(meta.instance.capacity, 40);
    assert_eq!(meta.instance.profit, pb.instance.profit);
    assert_eq!(meta.instance.weight, vec![10, 100, 10, 100, 10, 100]);
    assert_eq!(meta.order, pb.order);
    assert_eq!(compression.membership, vec![0, 1, 0, 1, 0, 1]);
    assert_eq!(compression.mapping.len(), 2);
    assert_eq!(compression.mapping.get(&0), Some(&0));
    assert_eq!(compression.mapping.get(&1), Some(&1));
    assert!(compression.index.is_none());
    assert_eq!(compression.problem.instance.weight, vec![10, 101, 12, 100, 11, 103]);
}

#[test]
fn clustering_gives_conservative_weights() {
    let pb = clustered();
    for groups in 1..=8usize {
        let compression = KnapsackCompression::new(&pb, groups);
        let k = groups.min(6);
        assert_eq!(compression.membership.len(), 6);
        assert!(compression.membership.iter().all(|c| *c < k));
        let meta = compression.get_compressed_problem();
        for i in 0..6 {
            let cluster: Vec<isize> = (0..6)
                .filter(|j| compression.membership[*j] == compression.membership[i])
                .map(|j| pb.instance.weight[j])
                .collect();
            assert_eq!(meta.instance.weight[i], *cluster.iter().min().unwrap());
            assert!(cluster.iter().all(|w| meta.instance.weight[i] <= *w));
        }
        let mut distinct = meta.instance.weight.clone();
        distinct.sort();
        distinct.dedup();
        assert!(distinct.len() <= k);
        assert_eq!(meta.instance.profit, pb.instance.profit);
        assert_eq!(meta.order, pb.order);
    }
}

#[test]
fn clustering_tells_far_groups_apart() {
    let pb = clustered();
    let compression = KnapsackCompression::new(&pb, 2);
    assert_eq!(compression.get_compressed_problem().instance.weight, vec![10, 100, 10, 100, 10, 100]);
}

#[test]
fn simple_compression_passes_states_through() {
    let pb = clustered();
    let compression = KnapsackCompression::from_membership(&pb, vec![0, 1, 0, 1, 0, 1], 2);
    assert_eq!(compression.compress(&state(2, 17)), state(2, 17));
    assert_eq!(compression.compress(&state(0, -4)), state(0, -4));
    assert_eq!(compression.compress(&state(9, 3)), state(9, 3));
}

#[test]
fn decompress_gives_the_same_decisions() {
    let pb = clustered();
    let compression = KnapsackCompression::from_membership(&pb, vec![0, 1, 0, 1, 0, 1], 2);
    let solution = vec![
        Decision { variable: Variable(3), value: 1 },
        Decision { variable: Variable(0), value: 0 },
        Decision { variable: Variable(5), value: 1 },
    ];
    assert_eq!(compression.decompress(&solution), solution);
    assert_eq!(compression.decompress(&vec![]), vec![]);
    // and so the cost is the same in both problems
    let meta = compression.get_compressed_problem();
    let s = state(0, 0);
    for d in solution {
        assert_eq!(pb.transition_cost(&s, d), meta.transition_cost(&s, d));
    }
}

#[test]
fn next_level_merges_kept_and_lowered_capacities() {
    assert_eq!(next_level(&vec![10], 5), vec![5, 10]);
    assert_eq!(next_level(&vec![5, 10], 6), vec![4, 5, 10]);
    assert_eq!(next_level(&vec![4, 5, 10], 4), vec![0, 1, 4, 5, 6, 10]);
    // what both lists hold comes once
    assert_eq!(next_level(&vec![0, 2, 4], 2), vec![0, 2, 4]);
    assert_eq!(next_level(&vec![3, 7], 0), vec![3, 7]);
    // nothing below zero
    assert_eq!(next_level(&vec![-3, 2], 1), vec![-3, 1, 2]);
    assert_eq!(next_level(&vec![], 1), vec![]);
}

#[test]
fn index_lists_what_each_depth_reaches() {
    let pb = Knapsack::new(KnapsackInstance {
        nb_items: 3,
        capacity: 10,
        weight: vec![5, 4, 6],
        profit: vec![10, 4, 9],
    });
    // order 0, 2, 1: weights 5, 6, 4
    let index = ReachableIndex::build(&pb);
    assert_eq!(index.levels, vec![vec![10], vec![5, 10], vec![4, 5, 10], vec![0, 1, 4, 5, 6, 10]]);
}

#[test]
fn index_of_a_sack_that_holds_nothing() {
    let pb = Knapsack::new(KnapsackInstance {
        nb_items: 2,
        capacity: -1,
        weight: vec![1, 2],
        profit: vec![1, 1],
    });
    assert_eq!(ReachableIndex::build(&pb).levels, vec![vec![-1], vec![-1], vec![-1]]);
    let none = Knapsack::new(KnapsackInstance { nb_items: 0, capacity: 3, weight: vec![], profit: vec![] });
    assert_eq!(ReachableIndex::build(&none).levels, vec![vec![3]]);
}

#[test]
fn snap_moves_up_to_the_next_listed_capacity() {
    let index = ReachableIndex { levels: vec![vec![10], vec![5, 10], vec![0, 1, 4, 5, 6, 10]] };
    assert_eq!(index.snap(&state(2, 2)), state(2, 4));
    assert_eq!(index.snap(&state(2, 4)), state(2, 4));
    assert_eq!(index.snap(&state(2, 7)), state(2, 10));
    assert_eq!(index.snap(&state(2, -8)), state(2, 0));
    assert_eq!(index.snap(&state(1, 6)), state(1, 10));
    assert_eq!(index.snap(&state(0, 10)), state(0, 10));
    // nothing listed is as large: the state stays
    assert_eq!(index.snap(&state(2, 11)), state(2, 11));
    assert_eq!(index.snap(&state(0, 12)), state(0, 12));
    // no such depth: the state stays
    assert_eq!(index.snap(&state(3, 2)), state(3, 2));
}

#[test]
fn exact_aware_compression_snaps_onto_the_meta_problem() {
    let pb = Knapsack::new(KnapsackInstance {
        nb_items: 3,
        capacity: 10,
        weight: vec![5, 4, 6],
        profit: vec![10, 4, 9],
    });
    // items 0 and 2 share the weight 5 in the meta-problem
    let compression =
        KnapsackCompression::from_membership(&pb, vec![0, 1, 0], 2).with_reachable_index();
    assert_eq!(compression.get_compressed_problem().instance.weight, vec![5, 4, 5]);
    let levels = &compression.index.as_ref().unwrap().levels;
    assert_eq!(levels, &vec![vec![10], vec![5, 10], vec![0, 5, 10], vec![0, 1, 5, 6, 10]]);
    assert_eq!(compression.compress(&state(2, 4)), state(2, 5));
    assert_eq!(compression.compress(&state(2, 5)), state(2, 5));
    assert_eq!(compression.compress(&state(3, 2)), state(3, 5));
    assert_eq!(compression.compress(&state(3, -1)), state(3, 0));
    assert_eq!(compression.compress(&state(1, 11)), state(1, 11));
    assert_eq!(compression.compress(&state(4, 3)), state(4, 3));
    assert_eq!(compression.membership, vec![0, 1, 0]);
}

#[test]
fn items_are_clustered_by_weight_or_by_weight_and_profit() {
    let pb = clustered();
    assert_eq!(
        KnapsackCompression::feature_points(&pb, ClusterFeatures::Weight),
        vec![vec![10], vec![101], vec![12], vec![100], vec![11], vec![103]]
    );
    assert_eq!(
        KnapsackCompression::feature_points(&pb, ClusterFeatures::WeightAndProfit),
        vec![vec![10, 20], vec![101, 300], vec![12, 21], vec![100, 310], vec![11, 22], vec![103, 305]]
    );
}

#[test]
fn clustering_by_weight_alone() {
    // the profits would group the items otherwise than the weights do
    let pb = Knapsack::new(KnapsackInstance {
        nb_items: 4,
        capacity: 9,
        weight: vec![1, 2, 50, 51],
        profit: vec![1, 900, 2, 901],
    });
    let by_weight = KnapsackCompression::with_clustering(&pb, 2, ClusterFeatures::Weight, MAX_ITERATIONS);
    assert_eq!(by_weight.get_compressed_problem().instance.weight, vec![1, 1, 50, 50]);
    let by_both = KnapsackCompression::with_clustering(&pb, 2, ClusterFeatures::WeightAndProfit, MAX_ITERATIONS);
    assert_eq!(by_both.get_compressed_problem().instance.weight, vec![1, 2, 1, 2]);
}

#[test]
fn one_group_takes_the_least_weight_of_all() {
    let pb = clustered();
    let compression = KnapsackCompression::with_clustering(&pb, 1, ClusterFeatures::Weight, 3);
    assert_eq!(compression.membership, vec![0; 6]);
    assert_eq!(compression.get_compressed_problem().instance.weight, vec![10; 6]);
}

#[test]
fn as_many_groups_as_items_keep_distinct_weights() {
    let pb = clustered();
    let compression = KnapsackCompression::new(&pb, 6);
    let meta = compression.get_compressed_problem();
    for i in 0..6 {
        assert!(meta.instance.weight[i] <= pb.instance.weight[i]);
    }
}

#[test]
fn checked_compression_refuses_what_cannot_be_clustered() {
    let pb = clustered();
    assert!(KnapsackCompression::can_be_clustered(&pb, 2));
    assert!(KnapsackCompression::can_be_clustered(&pb, 600));
    let compression = KnapsackCompression::try_new(&pb, 2).unwrap();
    assert_eq!(compression.get_compressed_problem().instance.weight, vec![10, 100, 10, 100, 10, 100]);
    assert!(compression.index.is_none());
    // no group asked for
    assert!(!KnapsackCompression::can_be_clustered(&pb, 0));
    assert!(KnapsackCompression::try_new(&pb, 0).is_none());
    assert!(KnapsackCompression::try_with_clustering(&pb, 0, ClusterFeatures::Weight, 5).is_none());
    // no item to cluster
    let none = Knapsack::new(KnapsackInstance { nb_items: 0, capacity: 3, weight: vec![], profit: vec![] });
    assert!(!KnapsackCompression::can_be_clustered(&none, 1));
    assert!(KnapsackCompression::try_new(&none, 1).is_none());
    // a problem that is not well formed
    let mut broken = clustered();
    broken.order = vec![0, 0, 1, 2, 3, 4];
    assert!(!KnapsackCompression::can_be_clustered(&broken, 2));
    assert!(KnapsackCompression::try_new(&broken, 2).is_none());
    // more groups than items are capped
    let capped = KnapsackCompression::try_with_clustering(&pb, 50, ClusterFeatures::Weight, 10).unwrap();
    assert!(capped.membership.iter().all(|c| *c < 6));
}

#[test]
fn items_times_groups_must_fit_the_counters_of_the_clustering() {
    // 50 000 items in 50 000 groups would be 2.5 thousand million moves
    let n = 50_000usize;
    let large = Knapsack {
        instance: KnapsackInstance { nb_items: n, capacity: 1, weight: vec![1; n], profit: vec![1; n] },
        order: (0..n).collect(),
    };
    assert!(large.is_well_formed());
    assert!(!KnapsackCompression::can_be_clustered(&large, n));
    assert!(KnapsackCompression::try_new(&large, n).is_none());
    assert!(KnapsackCompression::can_be_clustered(&large, 40_000));
    assert!(!KnapsackCompression::can_be_clustered(&large, 43_000));
}
