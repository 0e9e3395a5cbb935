//! A decision-diagram model of the 0/1 knapsack problem.
//!
//! The crate defines the problem to a generic branch-and-bound engine that
//! compiles relaxed and restricted decision diagrams: the exact transition
//! system, the relaxation with its admissible bound, the dominance rule, the
//! state ranking, and a clustering-based compression of the state space.
//! What the engine calls while it searches (transitions, costs, bounds,
//! merges, dominance, ranking, compression of a state) are pure functions of
//! their inputs, verified against a mathematical model of the problem.
//!
//! Building a compression is the one exception: the clustering is the work
//! of an outside crate and starts from an item drawn at random, so that two
//! runs may group the items differently. Of its result only what holds of
//! every clustering is relied on.

pub mod generate;
pub mod instance;
pub mod resolution;
