//! The decision-diagram formulation of the knapsack problem: the decision
//! order, the exact model, its relaxation and bound, the dominance rule, the
//! state ranking and the compression layer.

pub mod arith;
pub mod order;
pub mod model;
pub mod bound;
pub mod dominance;
pub mod reachable;
pub mod compression;
pub mod solve;
