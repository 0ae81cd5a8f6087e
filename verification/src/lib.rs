//! Propositional-logic formulas: infix-to-postfix conversion, evaluation
//! against a variable assignment, and truth-table enumeration.
//!
//! - [`parser`]: tokens, and the shunting yard that converts a formula to
//!   postfix.
//! - [`evaluator`]: the value of a formula tree and of a postfix sequence, and
//!   that the two agree.
//! - [`table`]: the rows of a truth table and the witnesses against a
//!   consequence.
//! - [`conversion`], [`blanks`], [`grammar`]: what the converter keeps, what it
//!   ignores, and the formulas that it reads as they are meant.
//! - [`consequence`]: that a truth table decides whether a formula follows
//!   from others.
//! - [`laws`]: small formulas worked out.

pub mod blanks;
pub mod consequence;
pub mod conversion;
pub mod evaluator;
pub mod grammar;
pub mod laws;
pub mod parser;
pub mod table;
