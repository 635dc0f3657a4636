//! Errors with their texts as sequences.
use vstd::prelude::*;
use vstd::string::*;

use crate::error::{Error, OpcError};

verus! {

/// An error, with its texts as sequences.
pub enum Fault {
    NoContentTypes,
    UnknownContentType(Seq<char>),
    BadPartName(Seq<char>),
    PartNotFound(Seq<char>),
    PartExists(Seq<char>),
    BadRelationships(Seq<char>),
    RelationshipNotFound(Seq<char>),
    In { part: Seq<char>, source: Box<Fault> },
    /// An error of another layer.
    Plain(Error),
}

/// An error, with its texts as sequences.
pub open spec fn fault_of(e: Error) -> Fault
    decreases e,
{
    match e {
        Error::Opc(o) => match o {
            OpcError::NoContentTypes => Fault::NoContentTypes,
            OpcError::UnknownContentType(s) => Fault::UnknownContentType(s@),
            OpcError::BadPartName(s) => Fault::BadPartName(s@),
            OpcError::PartNotFound(s) => Fault::PartNotFound(s@),
            OpcError::PartExists(s) => Fault::PartExists(s@),
            OpcError::BadRelationships(s) => Fault::BadRelationships(s@),
            OpcError::RelationshipNotFound(s) => Fault::RelationshipNotFound(s@),
        },
        Error::InPart { part, source } => Fault::In {
            part: part@,
            source: Box::new(fault_of(*source)),
        },
        _ => Fault::Plain(e),
    }
}

/// An error in a part.
pub open spec fn in_part(part: Seq<char>, f: Fault) -> Fault {
    Fault::In { part, source: Box::new(f) }
}

pub(crate) fn bad_part_name(s: &str) -> (r: Error)
    ensures
        fault_of(r) == Fault::BadPartName(s@),
{
    Error::Opc(OpcError::BadPartName(s.to_owned()))
}

/// The error for what is not supported in a part.
pub(crate) fn unsupported_in(what: &'static str, part: &str) -> (r: Error)
    ensures
        fault_of(r) == in_part(part@, Fault::Plain(Error::Unsupported(what))),
{
    let e: Error = Error::Unsupported(what);
    assert(fault_of(e) == Fault::Plain(e));
    e.in_part(part)
}

pub(crate) fn part_not_found(s: &str) -> (r: Error)
    ensures
        fault_of(r) == Fault::PartNotFound(s@),
{
    Error::Opc(OpcError::PartNotFound(s.to_owned()))
}

} // verus!
