//! Packages: parts with names, their types and the relationships between them.
//!
//! A package is an archive whose entries are parts. Two of them speak of the
//! others: one gives every part its type, and the relationships of a part say
//! which other parts belong to it. An entry that nobody changed is copied when
//! the package is saved.
pub mod archive;
pub mod assembly;
pub mod content_types;
pub mod entry_laws;
pub mod fault;
pub mod fidelity;
pub mod laws;
pub mod lookup_laws;
pub mod memory;
pub mod name_laws;
pub mod order;
pub mod package;
pub mod partname;
pub mod parts;
pub mod rels;
pub mod save;
pub mod table;
