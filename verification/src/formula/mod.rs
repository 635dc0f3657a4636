//! Formulas of spreadsheets.
//!
//! A formula is read into a tree that keeps its text: printing the tree gives
//! the text back, white space and the spelling of numbers included. References
//! can be moved when rows or columns are inserted or deleted, and when a formula
//! is copied to another cell.
pub mod ast;
pub mod laws;
pub mod lexer;
pub mod move_laws;
pub mod parser;
pub mod print;
pub mod ref_laws;
pub mod refs;
pub mod reparse;
pub mod respell;
pub mod scan;
pub mod shape_laws;
pub mod space_laws;
pub mod token_laws;
pub mod visit_laws;
