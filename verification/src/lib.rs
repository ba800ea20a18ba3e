//! A reactive spreadsheet computation engine.
//!
//! Cells are addressed by a reference such as `"B12"`: a column label in
//! bijective base-26 (`A`..`Z`, `AA`, ...) followed by a 1-based row number.
//! A cell holds either a literal string or a formula (text starting with
//! `=`); formulas are evaluated over the four arithmetic operators,
//! parentheses, unary minus, decimal literals and single-cell references.
//! Writing a cell re-evaluates every cell whose formula depends on it,
//! transitively. Failed evaluations store one of the sentinel strings
//! `"invalid"`, `"#DIV/0!"` or `"undefined"` in place of a value.

pub mod cell;
pub mod eval;
pub mod graph;
pub mod laws;
pub mod sheet;
pub mod store;
pub mod text;
