//! Resolution-based satisfiability: a propositional formula, written as a
//! set of clauses, is saturated under the resolution inference rule. An
//! unsatisfiable formula is reported with its shortest refutation proofs;
//! a satisfiable one with the full closure of clauses.

pub mod clause;
pub mod clause_parser;
pub mod graph;
pub mod report;
pub mod text;

pub use clause::{Clause, Literal, display_clauses};
pub use clause_parser::parse_input;
pub use clause_parser::try_parse_input;
pub use graph::ClauseGraph;
