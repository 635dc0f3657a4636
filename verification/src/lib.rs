//! Core of an OOXML toolkit: byte cursors, checksums, DEFLATE, a
//! byte-preserving XML tree, package rules, formulas and HTML export.
//!
//! Every function states in its contract what it returns, and Verus proves it.
//! What std does where Verus has no specification of it is believed: the
//! contracts of eleven calls into it, in `text`, `xml::entity` and `dom::memory`.
pub mod bridge;
pub mod bytes;
pub mod cli;
pub mod deflate;
pub mod dom;
pub mod error;
pub mod export;
pub mod formula;
pub mod hash;
pub mod laws;
pub mod limits;
pub mod opc;
pub mod text;
pub mod xml;
