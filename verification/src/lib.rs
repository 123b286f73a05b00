//! A static taint-analysis engine for scripting source code.
//!
//! Syntax trees are held as preorder arenas (`tree`), the analyzer walks them
//! and records how untrusted data flows (`analyzer`), and the flow graph is
//! matched against a rule set to report unsanitized source-to-sink paths
//! (`graph`).

pub mod keyed;
pub mod seqs;
pub mod text;
pub mod tree;
pub mod analyzer;
pub mod graph;
pub mod utils;
