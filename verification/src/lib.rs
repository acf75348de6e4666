//! A rule-based lint engine over syntax trees. Rules look for patterns such
//! as a call of `unwrap` or an invocation of `dbg!`; a scan walks the tree of
//! one file and reports where the rules in force hit. Every function carries
//! a contract, and Verus proves that the code meets it.

pub mod guarded;
pub mod laws;
pub mod registry;
pub mod rule;
pub mod scan;
pub mod text;
pub mod tree;
pub mod walk;
