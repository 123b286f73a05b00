//! Syntax trees and the cursors that navigate them.

pub mod file;
pub mod cursor;
pub mod traverser;
pub mod tracer;
pub mod resolved;
pub mod parse;
