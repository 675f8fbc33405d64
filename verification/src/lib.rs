//! Transforms feature-model formulas into conjunctive normal form (CNF).

pub mod text;
pub mod var;
pub mod expr;
pub mod arena;
pub mod varset;
pub mod file;
pub mod meaning;
pub mod tseitin;
pub mod visit;
pub mod formula;
pub mod clauses;
pub mod syntax;
pub mod tree;
pub mod parser;
pub mod shell;
pub mod laws;
pub mod diff;
pub mod cnf;
pub mod io;
pub mod lines;
pub mod solver;
pub mod shell_text;
pub mod count_inc;
pub mod command;
pub mod simplified;
pub mod formula_vec;
pub mod diff_plan;
