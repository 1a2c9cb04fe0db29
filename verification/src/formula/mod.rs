//! The formula: its variables, its literals, its clauses and the problem that holds them.
pub mod clause;
pub mod cleanup;
pub mod literal;
pub mod problem;
pub mod variable;
