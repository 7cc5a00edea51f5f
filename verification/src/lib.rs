//! Front end and optimizing sea-of-nodes intermediate representation of a tiny
//! imperative language: a type lattice, a node arena, a type refiner, a peephole
//! idealizer, lexical scopes and an incremental dead-node collector.

pub mod errors;
pub mod nodes;
pub mod services;
pub mod typ;
