//! The flow graph and the rules that are matched against it.

pub mod rules;
pub mod vertex;
pub mod graph;
pub mod witness;
pub mod matcher;
pub mod laws;
pub mod dot;
