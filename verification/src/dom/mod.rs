//! A tree that keeps the bytes it was read from.
//!
//! The nodes of a tree point at the source, and what was not touched is written
//! by copying it. Children lie one behind the other, without gaps, between the
//! tags of their parent: white space, comments and instructions are nodes too.
//!
//! Bytes are either those of the source, or new ones, which come from values
//! that were escaped once. Bytes of the source are never escaped again.
pub mod ancestry;
pub mod arena;
pub mod attr_laws;
pub mod change;
pub mod copy;
pub mod coverage;
pub mod document;
pub mod edit;
pub mod effects;
pub mod event_laws;
pub mod gap_laws;
pub mod graft;
pub mod graft_laws;
pub mod laws;
pub mod links;
pub mod locality;
pub mod memory;
pub mod model;
pub mod node;
pub mod parse;
pub mod path_laws;
pub mod query;
pub mod query_laws;
pub mod reading;
pub mod region;
pub mod serialize;
pub mod sited;
pub mod twins;
