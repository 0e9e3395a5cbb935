use knapsack::instance::KnapsackInstance;
use knapsack::resolution::model::{Decision, Knapsack, KnapsackRelax, KnapsackState, Variable};
use knapsack::resolution::solve::{Report, Solve};

fn decide(item: usize, value: isize) -> Decision {
    Decision { variable: Variable(item), value }
}

#[test]
fn report_keeps_what_the_search_gave() {
    let solution = Some(vec![decide(0, 1), decide(2, 0), decide(1, 1)]);
    assert_eq!(
        Solve::report(3, true, Some(14), &solution),
        Report { is_exact: true, best_value: Some(14), solution: Some(vec![1, 1, 0]) }
    );
    assert_eq!(
        Solve::report(3, false, Some(-3), &solution),
        Report { is_exact: false, best_value: Some(-3), solution: Some(vec![1, 1, 0]) }
    );
}

#[test]
fn search_without_a_solution_is_reported_as_such() {
    let report = Solve::report(3, false, None, &None);
    assert_eq!(report, Report { is_exact: false, best_value: None, solution: None });
    // it is not taken for a search whose best value is the greatest integer
    let greatest = Solve::report(0, true, Some(isize::MAX), &Some(vec![]));
    assert_eq!(greatest.best_value, Some(isize::MAX));
    assert_eq!(greatest.solution, Some(vec![]));
    assert_ne!(report.best_value, greatest.best_value);
    assert_ne!(report.solution, greatest.solution);
}

#[test]
fn assignment_is_in_item_order() {
    let solution = Some(vec![decide(0, 1), decide(2, 0), decide(1, 1)]);
    assert_eq!(Solve::assignment(3, &solution), Some(vec![1, 1, 0]));
    let solution = Some(vec![decide(2, 1), decide(0, 0), decide(1, 0), decide(3, 1)]);
    assert_eq!(Solve::assignment(4, &solution), Some(vec![0, 0, 1, 1]));
}

#[test]
fn assignment_of_a_partial_solution() {
    assert_eq!(Solve::assignment(3, &Some(vec![])), Some(vec![0, 0, 0]));
    assert_eq!(Solve::assignment(3, &Some(vec![decide(1, 1)])), Some(vec![0, 1, 0]));
    // the last decision on an item counts, and unknown items are passed over
    assert_eq!(
        Solve::assignment(2, &Some(vec![decide(1, 1), decide(5, 1), decide(1, 0)])),
        Some(vec![0, 0])
    );
    assert_eq!(Solve::assignment(0, &Some(vec![decide(0, 1)])), Some(vec![]));
}

#[test]
fn assignment_of_no_solution_is_absent() {
    assert_eq!(Solve::assignment(3, &None), None);
    assert_eq!(Solve::assignment(0, &None), None);
}

#[test]
fn parameters_are_plain_values() {
    let solve = Solve { instance: String::from("sack.json"), width: 100, timeout: 60 };
    assert_eq!(solve.instance, "sack.json");
    assert_eq!((solve.width, solve.timeout), (100, 60));
}

/// The best way to decide the remaining items, found by trying them all.
fn search(pb: &Knapsack, state: KnapsackState, value: isize, path: &mut Vec<Decision>, best: &mut (isize, Vec<Decision>)) {
    match pb.next_variable(state.depth) {
        None => {
            if value > best.0 || best.1.is_empty() {
                *best = (value, path.clone());
            }
        }
        Some(variable) => {
            for d in pb.for_each_in_domain(variable, &state) {
                path.push(d);
                search(pb, pb.transition(&state, d), value + pb.transition_cost(&state, d), path, best);
                path.pop();
            }
        }
    }
}

#[test]
fn three_items_end_to_end() {
    let instance = KnapsackInstance { nb_items: 3, capacity: 10, weight: vec![5, 4, 6], profit: vec![10, 4, 9] };
    assert!(instance.is_well_formed() && instance.has_positive_weights());
    let pb = Knapsack::new(instance);
    assert_eq!(pb.order, vec![0, 2, 1]);
    let mut best = (isize::MIN, vec![]);
    search(&pb, pb.initial_state(), pb.initial_value(), &mut vec![], &mut best);
    assert_eq!(best.0, 14);
    assert_eq!(best.1, vec![decide(0, 1), decide(2, 0), decide(1, 1)]);
    let report = Solve::report(pb.nb_variables(), true, Some(best.0), &Some(best.1));
    assert_eq!(report, Report { is_exact: true, best_value: Some(14), solution: Some(vec![1, 1, 0]) });
    let relax = KnapsackRelax::new(pb.clone());
    assert!(relax.fast_upper_bound(&pb.initial_state()) >= 14);
}
