//! Simple undirected graphs over named nodes, exact recognisers for the
//! Kuratowski graphs K5 and K3,3, graph minors, and a planarity decision
//! that searches the minors of a graph for one of those two patterns.

pub mod order;
pub mod seq_facts;
pub mod graph;
pub mod laws;
pub mod kuratowski;
pub mod minor;
pub mod planarity;
