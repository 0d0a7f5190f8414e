//! Validation of a versioned traceability dataset: a graph of typed nodes
//! connected by forward links, checked against externally supplied policy
//! rules.

pub mod policy;
pub mod representation;
pub mod text;
