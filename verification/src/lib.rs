//! zorilla — a pytest test-smell linter, as a verified library.

pub mod text;
pub mod changed_lines;
pub mod manifest_laws;
pub mod suppress;
pub mod guide;
pub mod guide_laws;
pub mod paths;
pub mod report;
pub mod rules;
pub mod overview;
pub mod stats;
pub mod config;
pub mod tree;
pub mod ast;
pub mod lint;
pub mod discovery;
pub mod records;
pub mod cli;
pub mod rule_laws;
