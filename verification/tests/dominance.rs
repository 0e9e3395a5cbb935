use knapsack::resolution::dominance::{KnapsackDominance, KnapsackKey, KnapsackValue};
use knapsack::resolution::model::KnapsackState;

#[test]
fn key_is_the_depth_and_value_the_capacity() {
    let dominance = KnapsackDominance;
    let s = KnapsackState { depth: 4, capacity: -3 };
    assert_eq!(dominance.get_key(&s), KnapsackKey { depth: 4 });
    assert_eq!(dominance.get_value(&s), KnapsackValue { capacity: -3 });
}

#[test]
fn less_room_is_dominated() {
    let dominance = KnapsackDominance;
    let small = KnapsackValue { capacity: 3 };
    let large = KnapsackValue { capacity: 8 };
    assert!(dominance.is_dominated_by(&small, &large));
    assert!(!dominance.is_dominated_by(&large, &small));
}

#[test]
fn equal_capacities_dominate_each_other() {
    let dominance = KnapsackDominance;
    let a = KnapsackValue { capacity: 5 };
    let b = KnapsackValue { capacity: 5 };
    assert!(dominance.is_dominated_by(&a, &b));
    assert!(dominance.is_dominated_by(&b, &a));
}

#[test]
fn dominance_is_transitive_on_a_range() {
    let dominance = KnapsackDominance;
    for a in -3..=3isize {
        for b in -3..=3isize {
            for c in -3..=3isize {
                let (va, vb, vc) =
                    (KnapsackValue { capacity: a }, KnapsackValue { capacity: b }, KnapsackValue { capacity: c });
                if dominance.is_dominated_by(&va, &vb) && dominance.is_dominated_by(&vb, &vc) {
                    assert!(dominance.is_dominated_by(&va, &vc));
                }
            }
        }
    }
}
