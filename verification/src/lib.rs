//! Static lock-ordering analysis for the `threads!` deadlock-free DSL.
pub mod orderings;
pub mod ast;
pub mod analysis;
pub mod coverage;
pub mod solver;
pub mod decl;
pub mod dsl;
pub mod syntax;
