//! Exact belief propagation over discrete Bayesian networks.
//!
//! A network is a directed acyclic graph of nodes sharing one finite value
//! domain.  Root nodes carry a prior distribution, other nodes carry a
//! conditional probability table over their parents.  Given observed values
//! for some nodes, `infer` runs Pearl's pi/lambda message passing to a fixed
//! point and returns the posterior marginal distribution of every node.
//!
//! All probabilities are exact rationals (`Prob`), so every arithmetic step
//! of the engine is verified against a mathematical specification; results
//! that would not fit the representation are reported as an explicit error
//! rather than silently rounded.

use vstd::prelude::*;

pub mod engine;
pub mod model;
pub mod rational;

pub use model::{BayesianNetwork, ConstructionError, InferenceError, NodeType, QueryError};
pub use rational::Prob;

verus! {

} // verus!
