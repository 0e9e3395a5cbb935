//! The parameters of a resolution, and what is reported of its result: the
//! best value, and the choice made for each item, in the order in which the
//! instance lists the items. A search that ends without a solution is
//! reported with both absent.

use vstd::prelude::*;
use crate::resolution::model::Decision;

verus! {

/// The parameters of a resolution.
#[derive(Debug)]
pub struct Solve {
    /// The path to the instance file.
    pub instance: String,
    /// The greatest number of nodes in a layer of a diagram.
    pub width: usize,
    /// The time allowed to the search, in seconds.
    pub timeout: u64,
}

/// The value that `solution` gives to `item`: that of its last decision on
/// the item, and zero where it holds none.
pub open spec fn value_for(solution: Seq<Decision>, item: int) -> int
    decreases solution.len(),
{
    if solution.len() == 0 {
        0
    } else if solution.last().variable.0 == item {
        solution.last().value as int
    } else {
        value_for(solution.drop_last(), item)
    }
}

/// What is reported of a search. A search that found no solution has
/// neither a best value nor a choice to report: both are then absent.
#[derive(Debug, Clone, PartialEq, Eq)]
pub struct Report {
    /// Whether the search was carried to its end.
    pub is_exact: bool,
    /// The value of the best solution found, absent where none was found.
    pub best_value: Option<isize>,
    /// The choice made for each item, in the order of the items, absent
    /// where no solution was found.
    pub solution: Option<Vec<isize>>,
}

/// `values` are the choices that `solution` makes for the `nb_items` items,
/// in the order of the items; they are absent exactly where the solution is.
pub open spec fn is_assignment(
    nb_items: int,
    solution: Option<Vec<Decision>>,
    values: Option<Vec<isize>>,
) -> bool {
    match solution {
        None => values.is_none(),
        Some(decisions) => match values {
            None => false,
            Some(values) => {
                &&& values@.len() == nb_items
                &&& forall|i: int|
                    0 <= i < nb_items ==> #[trigger] values@[i] == value_for(decisions@, i)
            },
        },
    }
}

impl Solve {
    /// The choice made for each of the `nb_items` items, in the order of the
    /// items and not in that of the decisions. Where there is no solution,
    /// there is no choice either.
    pub fn assignment(nb_items: usize, solution: &Option<Vec<Decision>>) -> (values: Option<
        Vec<isize>,
    >)
        ensures
            is_assignment(nb_items as int, *solution, values),
    {
        match solution {
            None => None,
            Some(decisions) => {
                let mut values: Vec<isize> = Vec::new();
                let mut i: usize = 0;
                while i < nb_items
                    invariant
                        i <= nb_items,
                        values@.len() == i,
                        forall|a: int| 0 <= a < i ==> #[trigger] values@[a] == 0,
                    decreases nb_items - i,
                {
                    values.push(0);
                    i += 1;
                }
                let mut k: usize = 0;
                while k < decisions.len()
                    invariant
                        k <= decisions@.len(),
                        values@.len() == nb_items,
                        forall|a: int|
                            0 <= a < nb_items ==> #[trigger] values@[a] == value_for(
                                decisions@.subrange(0, k as int),
                                a,
                            ),
                    decreases decisions@.len() - k,
                {
                    let d: Decision = decisions[k];
                    let ghost before = values@;
                    if d.variable.id() < nb_items {
                        values.set(d.variable.id(), d.value);
                    }
                    proof {
                        let prefix = decisions@.subrange(0, k + 1);
                        assert(prefix.last() == d);
                        assert(prefix.drop_last() =~= decisions@.subrange(0, k as int));
                        assert forall|a: int| 0 <= a < nb_items implies #[trigger] values@[a]
                            == value_for(prefix, a) by {
                            assert(before[a] == value_for(decisions@.subrange(0, k as int), a));
                        }
                    }
                    k += 1;
                }
                assert(decisions@.subrange(0, k as int) =~= decisions@);
                Some(values)
            },
        }
    }

    /// The report of a search: whether it was exact, the best value as the
    /// search gave it, and the choice made for each item. A search without a
    /// solution is reported as such, and not under a value of its own.
    pub fn report(
        nb_items: usize,
        is_exact: bool,
        best_value: Option<isize>,
        solution: &Option<Vec<Decision>>,
    ) -> (report: Report)
        ensures
            report.is_exact == is_exact,
            report.best_value == best_value,
            is_assignment(nb_items as int, *solution, report.solution),
    {
        Report { is_exact, best_value, solution: Self::assignment(nb_items, solution) }
    }
}

} // verus!
