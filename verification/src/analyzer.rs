//! The taint model and the analyzer that drives it over syntax trees.

pub mod taint;
pub mod model;
pub mod laws;
pub mod frames;
pub mod leaves;
pub mod analyzer;
