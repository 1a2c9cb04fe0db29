//! A model counter for CNF formulas, built on a reversible state manager.
pub mod activity;
pub mod args;
pub mod branching;
pub mod common;
pub mod formula;
pub mod parser;
pub mod preprocess;
pub mod fxmap;
pub mod models;
pub mod propagator;
pub mod solver;
pub mod text;
pub mod trail;
pub mod watching;
