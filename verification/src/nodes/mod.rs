pub mod bound_node;
pub mod graph;
pub mod node;
