//! An archive as the package sees it, and what is written into a new one.
use vstd::prelude::*;
use vstd::string::*;

use crate::deflate::Level;
use crate::error::{DeflateError, Error, LimitError, ZipError};
use crate::opc::fault;
use crate::opc::fault::Fault;

verus! {

/// Why an entry cannot be unpacked.
#[derive(Debug, Clone, Copy)]
pub enum Refusal {
    Zip { kind: ZipError, offset: u64 },
    Deflate { kind: DeflateError, in_off: u64, out_off: u64 },
    Limit(LimitError),
}

/// The error of a refusal.
pub open spec fn error_of(r: Refusal) -> Error {
    match r {
        Refusal::Zip { kind, offset } => Error::Zip { kind, offset },
        Refusal::Deflate { kind, in_off, out_off } => Error::Deflate { kind, in_off, out_off },
        Refusal::Limit(l) => Error::Limit(l),
    }
}

/// A refusal is no error of the package.
pub proof fn lemma_refused(r: Record)
    ensures
        match r@.content {
            Err(e) => fault::fault_of(e) == Fault::Plain(e),
            Ok(_) => true,
        },
{
}

impl Refusal {
    pub fn error(self) -> (r: Error)
        ensures
            r == error_of(self),
    {
        match self {
            Refusal::Zip { kind, offset } => Error::Zip { kind, offset },
            Refusal::Deflate { kind, in_off, out_off } => Error::Deflate { kind, in_off, out_off },
            Refusal::Limit(l) => Error::Limit(l),
        }
    }
}

/// An entry of an archive.
#[derive(Debug)]
pub struct Record {
    /// The name, without a slash at its beginning.
    pub name: String,
    /// The entry is a directory.
    pub dir: bool,
    /// What unpacking the entry gives.
    pub content: Result<Vec<u8>, Refusal>,
}

/// An entry of an archive, as sequences.
pub struct Rec {
    pub name: Seq<char>,
    pub dir: bool,
    pub content: Result<Seq<u8>, Error>,
}

impl Record {
    pub open spec fn view(&self) -> Rec {
        Rec {
            name: self.name@,
            dir: self.dir,
            content: match self.content {
                Ok(b) => Ok(b@),
                Err(e) => Err(error_of(e)),
            },
        }
    }
}

/// An archive that was read.
#[derive(Debug)]
pub struct Archive {
    pub records: Vec<Record>,
}

pub open spec fn recs(s: Seq<Record>) -> Seq<Rec> {
    s.map_values(|r: Record| r@)
}

impl Archive {
    pub open spec fn view(&self) -> Seq<Rec> {
        recs(self.records@)
    }

    /// Unpacks an entry.
    pub fn unpack(&self, i: usize) -> (r: Result<Vec<u8>, Error>)
        requires
            i < self@.len(),
        ensures
            match r {
                Ok(b) => self@[i as int].content == Ok::<Seq<u8>, Error>(b@),
                Err(e) => self@[i as int].content == Err::<Seq<u8>, Error>(e),
            },
    {
        assert(self@[i as int] == self.records@[i as int]@);
        match &self.records[i].content {
            Ok(b) => Ok(vstd::slice::slice_to_vec(b.as_slice())),
            Err(e) => Err(e.error()),
        }
    }
}

/// An entry of the archive that is written.
#[derive(Debug)]
pub enum EntrySource {
    /// The entry as it is, byte by byte.
    Verbatim { index: usize },
    /// The entry with another content.
    Replace { index: usize, data: Vec<u8>, level: Level },
    /// A new entry, with the date and the time of DOS.
    New { name: String, data: Vec<u8>, level: Level, dos: (u16, u16), external_attrs: u32 },
}

/// An entry of the archive that is written, as sequences.
pub enum Write {
    Verbatim { index: int },
    Replace { index: int, data: Seq<u8>, level: Level },
    New { name: Seq<char>, data: Seq<u8>, level: Level, dos: (u16, u16), external_attrs: u32 },
}

impl EntrySource {
    pub open spec fn view(&self) -> Write {
        match self {
            EntrySource::Verbatim { index } => Write::Verbatim { index: *index as int },
            EntrySource::Replace { index, data, level } => Write::Replace {
                index: *index as int,
                data: data@,
                level: *level,
            },
            EntrySource::New { name, data, level, dos, external_attrs } => Write::New {
                name: name@,
                data: data@,
                level: *level,
                dos: *dos,
                external_attrs: *external_attrs,
            },
        }
    }
}

pub open spec fn writes(s: Seq<EntrySource>) -> Seq<Write> {
    s.map_values(|e: EntrySource| e@)
}

} // verus!
