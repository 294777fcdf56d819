//! Propositional formulas: parsing, evaluation, free variables and truth tables.

pub mod expr;
pub mod table;
pub mod parser;
pub mod print;
