//! The entity model and the graph: node identity, kinds, issues, the
//! multi-version dataset, and the validated graph built from one version's
//! node table.

pub mod assoc;
pub mod attr;
pub mod dataset;
pub mod graph;
pub mod graph_data_traits;
pub mod graph_laws;
pub mod issue;
pub mod node;
pub mod node_id;
pub mod node_kind;
