pub mod builder;
pub mod collector;
pub mod dotvis;
pub mod grammar;
pub mod lexer;
pub mod links;
pub mod node_idealizer;
pub mod parser;
pub mod scope;
pub mod semantics;
pub mod text;
pub mod typ_refiner;
pub mod typing;
