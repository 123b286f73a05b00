//! Helpers for looking at what the analysis works on.

pub mod dumper;
