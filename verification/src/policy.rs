//! The rule-based policy evaluator: the typed rules document, the fixed
//! registry of compiled-in rules, the rules themselves, and the evaluator
//! that runs a document against a graph.

pub mod evaluator;
pub mod field_present;
pub mod has_outgoing;
pub mod model;
pub mod reach_kind;
pub mod registry;
