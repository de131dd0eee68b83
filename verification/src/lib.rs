//! Sweet: a code health analyzer. Measures source files (lines, imports,
//! nesting depth, repetition) and judges them against configurable limits.

pub mod text;
pub mod config;
pub mod languages;
pub mod analyzer;
pub mod stdlib;
pub use analyzer::uncomment;
pub mod report;
pub mod diagnostics;
pub mod quick_fix;
pub mod update;
