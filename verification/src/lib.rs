//! A schema-validated directed multigraph store.
//!
//! Every node and edge carries a caller-chosen logical id and a runtime type
//! tag.  Each mutation is checked against a pluggable schema before it is
//! committed, so the store always satisfies its structural invariants: no
//! dangling edges, no orphaned adjacency entries, and an authoritative,
//! externally controllable order for each node's outgoing edges.

pub mod edge_ref;
pub mod generic_graph;
pub mod generic_weight;
pub mod graph_traits;
pub mod graph_walker;
pub mod interchange;
pub mod migration;
pub mod typed_error;
pub mod typed_graph;
