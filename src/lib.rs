//! An interaction-net reduction engine: a graph store of agents, a small
//! bytecode machine that rewrites active pairs, and a compiler from rewrite
//! rules to that bytecode.
pub mod interaction;
pub mod parser;
