use std::cmp::Ordering;
use std::time::Duration;

use ddo::{
    Completion, DecisionCallback, EmptyDominanceChecker, FixedWidth, MaxUB, NoDupFringe,
    ParNoCachingSolverFc, Problem, Relaxation, Solver, StateRanking, TimeBudget,
};

use knapsack::instance::KnapsackInstance;
use knapsack::resolution::compression::KnapsackCompression;
use knapsack::resolution::model::{
    Decision, Knapsack, KnapsackRanking, KnapsackRelax, KnapsackState, Variable,
};
use knapsack::resolution::solve::{Report, Solve};

fn to_model(decision: ddo::Decision) -> Decision {
    Decision { variable: Variable(decision.variable.id()), value: decision.value }
}

struct Model(Knapsack);

impl Problem for Model {
    type State = KnapsackState;

    fn nb_variables(&self) -> usize {
        self.0.nb_variables()
    }

    fn initial_state(&self) -> KnapsackState {
        self.0.initial_state()
    }

    fn initial_value(&self) -> isize {
        self.0.initial_value()
    }

    fn transition(&self, state: &KnapsackState, decision: ddo::Decision) -> KnapsackState {
        self.0.transition(state, to_model(decision))
    }

    fn transition_cost(&self, source: &KnapsackState, _: &KnapsackState, decision: ddo::Decision) -> isize {
        self.0.transition_cost(source, to_model(decision))
    }

    fn next_variable(
        &self,
        depth: usize,
        _: &mut dyn Iterator<Item = &KnapsackState>,
    ) -> Option<ddo::Variable> {
        self.0.next_variable(depth).map(|v| ddo::Variable(v.id()))
    }

    fn for_each_in_domain(&self, variable: ddo::Variable, state: &KnapsackState, f: &mut dyn DecisionCallback) {
        for d in self.0.for_each_in_domain(Variable(variable.id()), state) {
            f.apply(ddo::Decision { variable: ddo::Variable(d.variable.id()), value: d.value });
        }
    }
}

struct Relax(KnapsackRelax);

impl Relaxation for Relax {
    type State = KnapsackState;

    fn merge(&self, states: &mut dyn Iterator<Item = &KnapsackState>) -> KnapsackState {
        let states: Vec<KnapsackState> = states.copied().collect();
        self.0.merge(&states)
    }

    fn relax(
        &self,
        source: &KnapsackState,
        dest: &KnapsackState,
        new: &KnapsackState,
        decision: ddo::Decision,
        cost: isize,
    ) -> isize {
        self.0.relax(source, dest, new, to_model(decision), cost)
    }

    fn fast_upper_bound(&self, state: &KnapsackState) -> isize {
        self.0.fast_upper_bound(state)
    }
}

struct Ranking(KnapsackRanking);

impl StateRanking for Ranking {
    type State = KnapsackState;

    fn compare(&self, a: &KnapsackState, b: &KnapsackState) -> Ordering {
        self.0.compare(a, b)
    }
}

/// What the engine finds for `pb` with layers of at most `width` nodes in
/// `seconds` seconds: the completion record and the decisions of the best
/// solution, where it found one.
fn search(pb: &Knapsack, width: usize, seconds: u64) -> (Completion, Option<Vec<Decision>>) {
    let problem = Model(pb.clone());
    let relaxation = Relax(KnapsackRelax::new(pb.clone()));
    let ranking = Ranking(KnapsackRanking);
    let width = FixedWidth(width);
    let cutoff = TimeBudget::new(Duration::from_secs(seconds));
    let dominance = EmptyDominanceChecker::default();
    let mut fringe = NoDupFringe::new(MaxUB::new(&ranking));
    let mut solver = ParNoCachingSolverFc::<KnapsackState>::custom(
        &problem,
        &relaxation,
        &ranking,
        &width,
        &dominance,
        &cutoff,
        &mut fringe,
        2,
    );
    let completion = solver.maximize();
    let decisions = solver.best_solution().map(|s| s.into_iter().map(to_model).collect());
    (completion, decisions)
}

/// The same, for a search that has the time to find a solution.
fn maximize(pb: &Knapsack, width: usize) -> (Completion, Vec<Decision>) {
    let (completion, decisions) = search(pb, width, 10);
    (completion, decisions.unwrap())
}

/// The profit of a solution under `pb`, and whether every packed item fits.
fn replay(pb: &Knapsack, decisions: &[Decision]) -> (isize, bool) {
    let values = Solve::assignment(pb.nb_variables(), &Some(decisions.to_vec())).unwrap();
    let mut state = pb.initial_state();
    let mut earned = pb.initial_value();
    let mut fits = true;
    while let Some(variable) = pb.next_variable(state.depth) {
        let d = Decision { variable, value: values[variable.id()] };
        fits = fits && pb.for_each_in_domain(variable, &state).contains(&d);
        earned += pb.transition_cost(&state, d);
        state = pb.transition(&state, d);
    }
    (earned, fits)
}

#[test]
fn engine_solves_three_items() {
    let pb = Knapsack::new(KnapsackInstance {
        nb_items: 3,
        capacity: 10,
        weight: vec![5, 4, 6],
        profit: vec![10, 4, 9],
    });
    for width in [1, 2, 100] {
        let (completion, decisions) = maximize(&pb, width);
        assert_eq!(replay(&pb, &decisions), (14, true));
        let report =
            Solve::report(3, completion.is_exact, completion.best_value, &Some(decisions));
        assert_eq!(
            report,
            Report { is_exact: true, best_value: Some(14), solution: Some(vec![1, 1, 0]) }
        );
    }
}

#[test]
fn engine_agrees_with_trying_every_subset() {
    let weight: Vec<isize> = vec![12, 7, 11, 8, 9, 6, 14, 5, 13, 10];
    let profit: Vec<isize> = vec![24, 13, 23, 15, 16, 11, 28, 9, 25, 19];
    let pb = Knapsack::new(KnapsackInstance { nb_items: 10, capacity: 41, weight: weight.clone(), profit: profit.clone() });
    let mut best = 0;
    for subset in 0..(1u32 << 10) {
        let picked = (0..10).filter(|i| subset >> i & 1 == 1);
        let w: isize = picked.clone().map(|i| weight[i]).sum();
        let p: isize = picked.map(|i| profit[i]).sum();
        if w <= 41 && p > best {
            best = p;
        }
    }
    for width in [2, 3, 50] {
        let (completion, decisions) = maximize(&pb, width);
        assert!(completion.is_exact);
        assert_eq!(completion.best_value, Some(best));
        assert_eq!(replay(&pb, &decisions), (best, true));
    }
}

#[test]
fn solution_of_the_meta_problem_costs_the_same_in_the_true_problem() {
    let pb = Knapsack::new(KnapsackInstance {
        nb_items: 6,
        capacity: 120,
        weight: vec![10, 101, 12, 100, 11, 103],
        profit: vec![20, 300, 21, 310, 22, 305],
    });
    let compression = KnapsackCompression::from_membership(&pb, vec![0, 1, 0, 1, 0, 1], 2);
    let meta = compression.get_compressed_problem();
    let (completion, decisions) = maximize(meta, 100);
    assert!(completion.is_exact);
    let decisions = compression.decompress(&decisions);
    let (cost, _) = replay(&pb, &decisions);
    assert_eq!(Some(cost), completion.best_value);
    // the meta-problem is a relaxation: it earns no less than the true problem
    let (truth, _) = maximize(&pb, 100);
    assert!(completion.best_value >= truth.best_value);
}

#[test]
fn search_without_time_is_reported_as_it_ended() {
    let pb = Knapsack::new(KnapsackInstance {
        nb_items: 3,
        capacity: 10,
        weight: vec![5, 4, 6],
        profit: vec![10, 4, 9],
    });
    // with no time the search may end before it has a solution: the report
    // then holds none, and a value only where the search gave one
    let (completion, decisions) = search(&pb, 1, 0);
    let report = Solve::report(3, completion.is_exact, completion.best_value, &decisions);
    assert_eq!(report.is_exact, completion.is_exact);
    assert_eq!(report.best_value, completion.best_value);
    assert_eq!(report.solution.is_some(), decisions.is_some());
    if let Some(value) = report.best_value {
        assert!(value <= 14);
    }
}
