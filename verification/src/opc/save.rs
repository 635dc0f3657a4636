//! What is written when a package is saved.
//!
//! An entry that was not changed is copied. A document that was changed, and a
//! content that was added, are compared with what was there first: when nothing
//! differs, the entry is copied too.
use vstd::prelude::*;
use vstd::slice::slice_to_vec;
use vstd::string::*;

use crate::deflate::Level;
use crate::dom::laws;
use crate::dom::serialize;
use crate::error::Error;
use crate::limits::Limits;
use crate::opc::archive;
use crate::opc::archive::{EntrySource, Rec, Write};
use crate::opc::fault;
use crate::opc::fault::Fault;
use crate::opc::package;
use crate::opc::package::{Body, Ent, Entry, Pack, Package, Slot};
use crate::opc::parts;
use crate::xml::name;

verus! {

/// The time and the date of new entries: the first ones that DOS knows. With
/// others the same package would be saved differently at another time.
pub const NEW_DOS: (u16, u16) = (0, 0x0021);

/// What a document is written as, in an entry.
pub open spec fn tree_bytes(e: Ent, d: crate::dom::model::Dom) -> Result<Seq<u8>, Fault> {
    match serialize::written(d, d.root, 0) {
        Some(b) => Ok(b),
        None => Err(
            fault::in_part(e.zip_name, fault::fault_of(serialize::too_deep(d))),
        ),
    }
}

/// The content of an entry where it may be other than that of the archive: a
/// document that was changed, or what was added.
pub open spec fn own_content(e: Ent) -> Result<Option<Seq<u8>>, Fault> {
    match e.body {
        Body::Tree(d) => if d.dirty || e.added {
            match tree_bytes(e, d) {
                Err(f) => Err(f),
                Ok(b) => Ok(Some(b)),
            }
        } else {
            Ok(None)
        },
        Body::Bytes(b) => if e.added {
            Ok(Some(b))
        } else {
            Ok(None)
        },
        _ => Ok(None),
    }
}

/// The other content of an entry of the archive, if it has one. An entry that
/// cannot be unpacked has another one than any that is written.
pub open spec fn payload(records: Seq<Rec>, e: Ent, z: int) -> Result<Option<Seq<u8>>, Fault> {
    match own_content(e) {
        Err(f) => Err(f),
        Ok(None) => Ok(None),
        Ok(Some(b)) => if records[z].content == Ok::<Seq<u8>, Error>(b) {
            Ok(None)
        } else {
            Ok(Some(b))
        },
    }
}

pub open spec fn new_write(e: Ent, data: Seq<u8>) -> Write {
    Write::New {
        name: e.zip_name,
        data,
        level: Level::Default,
        dos: NEW_DOS,
        external_attrs: 0,
    }
}

/// What is written for an entry, if anything is.
pub open spec fn write_of(records: Seq<Rec>, e: Ent) -> Result<Option<Write>, Fault> {
    if e.body is Gone {
        Ok(None)
    } else {
        match e.zip {
            Some(z) => match payload(records, e, z) {
                Err(f) => Err(f),
                Ok(None) => Ok(Some(Write::Verbatim { index: z })),
                Ok(Some(data)) => Ok(
                    Some(Write::Replace { index: z, data, level: Level::Default }),
                ),
            },
            None => match e.body {
                Body::Bytes(b) => Ok(Some(new_write(e, b))),
                Body::Tree(d) => match tree_bytes(e, d) {
                    Err(f) => Err(f),
                    Ok(b) => Ok(Some(new_write(e, b))),
                },
                _ => Ok(None),
            },
        }
    }
}

/// What is written for entries, in their order, from `k` on.
pub open spec fn writes_from(records: Seq<Rec>, s: Seq<Ent>, k: int) -> Result<Seq<Write>, Fault>
    decreases s.len() - k,
{
    if !(0 <= k < s.len()) {
        Ok(Seq::empty())
    } else {
        match write_of(records, s[k]) {
            Err(f) => Err(f),
            Ok(w) => match writes_from(records, s, k + 1) {
                Err(f) => Err(f),
                Ok(rest) => match w {
                    Some(x) => Ok(seq![x] + rest),
                    None => Ok(rest),
                },
            },
        }
    }
}

/// What is written when a package is saved.
pub open spec fn saved(p: Pack) -> Result<Seq<Write>, Fault> {
    writes_from(p.records, p.entries, 0)
}

impl<'a> Package<'a> {
    /// What has to be written for the package: entries to copy, to replace and
    /// to add, in their order.
    pub fn save(&self) -> (r: Result<Vec<EntrySource>, Error>)
        requires
            self.wf(),
        ensures
            match r {
                Ok(v) => saved(self@) == Ok::<Seq<Write>, Fault>(archive::writes(v@)),
                Err(e) => saved(self@) == Err::<Seq<Write>, Fault>(fault::fault_of(e)),
            },
    {
        let ghost records = self@.records;
        let ghost s = self@.entries;
        let mut out: Vec<EntrySource> = Vec::new();
        let mut k: usize = 0;
        proof {
            let all = writes_from(records, s, 0);
            assert(all is Ok ==> archive::writes(out@) + all->Ok_0 =~= all->Ok_0);
        }
        while k < self.entries.len()
            invariant
                self.wf(),
                k <= self.entries@.len(),
                records == self@.records,
                s == self@.entries,
                writes_from(records, s, k as int) is Err ==> saved(self@) == writes_from(
                    records,
                    s,
                    k as int,
                ),
                writes_from(records, s, k as int) is Ok ==> saved(self@) == Ok::<
                    Seq<Write>,
                    Fault,
                >(archive::writes(out@) + writes_from(records, s, k as int)->Ok_0),
            decreases self.entries@.len() - k,
        {
            let ghost before = out@;
            assert(s[k as int] == self.entries@[k as int]@);
            match self.entry_source(&self.entries[k]) {
                Err(e) => return Err(e),
                Ok(Some(w)) => {
                    out.push(w);
                    proof {
                        assert(archive::writes(out@) =~= archive::writes(before).push(w@));
                        if let Ok(rest) = writes_from(records, s, k + 1) {
                            assert(archive::writes(before) + (seq![w@] + rest) =~= archive::writes(
                                out@,
                            ) + rest);
                        }
                    }
                },
                Ok(None) => {},
            }
            k = k + 1;
        }
        assert(archive::writes(out@) + Seq::<Write>::empty() =~= archive::writes(out@));
        Ok(out)
    }

    /// What has to be written for an entry, if anything has.
    fn entry_source(&self, e: &Entry) -> (r: Result<Option<EntrySource>, Error>)
        requires
            e.wf(self.zip@.len()),
        ensures
            match r {
                Ok(w) => write_of(self@.records, e@) == Ok::<Option<Write>, Fault>(
                    match w {
                        Some(x) => Some(x@),
                        None => None,
                    },
                ),
                Err(x) => write_of(self@.records, e@) == Err::<Option<Write>, Fault>(
                    fault::fault_of(x),
                ),
            },
    {
        if let Slot::Deleted = &e.slot {
            return Ok(None);
        }
        match e.zip {
            Some(z) => match self.payload_for(e, z) {
                Err(x) => Err(x),
                Ok(None) => Ok(Some(EntrySource::Verbatim { index: z })),
                Ok(Some(data)) => Ok(
                    Some(EntrySource::Replace { index: z, data, level: Level::Default }),
                ),
            },
            None => {
                let data: Vec<u8> = match &e.slot {
                    Slot::Bytes(b) => slice_to_vec(b.as_slice()),
                    Slot::Dom(d) => match d.serialize() {
                        Ok(b) => b,
                        Err(x) => return Err(x.in_part(e.zip_name.as_str())),
                    },
                    _ => return Ok(None),
                };
                Ok(
                    Some(
                        EntrySource::New {
                            name: e.zip_name.as_str().to_owned(),
                            data,
                            level: Level::Default,
                            dos: NEW_DOS,
                            external_attrs: 0,
                        },
                    ),
                )
            },
        }
    }

    /// The other content of an entry of the archive, if it has one.
    fn payload_for(&self, e: &Entry, z: usize) -> (r: Result<Option<Vec<u8>>, Error>)
        requires
            e.wf(self.zip@.len()),
            z < self.zip@.len(),
        ensures
            match r {
                Ok(w) => payload(self@.records, e@, z as int) == Ok::<Option<Seq<u8>>, Fault>(
                    match w {
                        Some(x) => Some(x@),
                        None => None,
                    },
                ),
                Err(x) => payload(self@.records, e@, z as int) == Err::<Option<Seq<u8>>, Fault>(
                    fault::fault_of(x),
                ),
            },
    {
        let new: Vec<u8> = match &e.slot {
            Slot::Dom(d) => {
                if !d.is_dirty() && !e.added {
                    return Ok(None);
                }
                match d.serialize() {
                    Ok(b) => b,
                    Err(x) => return Err(x.in_part(e.zip_name.as_str())),
                }
            },
            Slot::Bytes(b) => {
                if !e.added {
                    return Ok(None);
                }
                slice_to_vec(b.as_slice())
            },
            _ => return Ok(None),
        };
        match self.zip.unpack(z) {
            Ok(was) => {
                if name::same(new.as_slice(), was.as_slice()) {
                    Ok(None)
                } else {
                    Ok(Some(new))
                }
            },
            Err(_) => Ok(Some(new)),
        }
    }
}

/// Every entry of an archive, as it is.
pub open spec fn copies(n: nat) -> Seq<Write> {
    Seq::new(n, |i: int| Write::Verbatim { index: i })
}

proof fn lemma_copied_from(records: Seq<Rec>, s: Seq<Ent>, k: int)
    requires
        0 <= k <= s.len(),
        forall|i: int|
            0 <= i < s.len() ==> (#[trigger] s[i]).zip == Some(i) && !s[i].added && match s[i].body {
                Body::Untouched => true,
                Body::Bytes(_) => true,
                Body::Tree(d) => !d.dirty,
                _ => false,
            },
    ensures
        writes_from(records, s, k) == Ok::<Seq<Write>, Fault>(copies(s.len()).skip(k)),
    decreases s.len() - k,
{
    let all = copies(s.len());
    if k < s.len() {
        lemma_copied_from(records, s, k + 1);
        assert(s[k].zip == Some(k));
        assert(all.skip(k) =~= seq![all[k]] + all.skip(k + 1));
    } else {
        assert(all.skip(k) =~= Seq::<Write>::empty());
    }
}

/// A package that was opened and not changed is saved by copying every entry of
/// the archive, in their order.
pub proof fn lemma_opened_then_saved(records: Seq<Rec>, limits: Limits)
    ensures
        match package::opened(records, limits) {
            Ok(p) => saved(p) == Ok::<Seq<Write>, Fault>(copies(records.len())),
            Err(_) => true,
        },
{
    if let Ok(p) = package::opened(records, limits) {
        package::lemma_entries_from(records, 0);
        package::lemma_untouched(records, 0);
        package::lemma_types_place(records, records.len() as int);
        lemma_copied_from(records, p.entries, 0);
        assert(copies(records.len()).skip(0) =~= copies(records.len()));
    }
}

/// What is written for one other entry that is written as before.
proof fn lemma_same_writes(records: Seq<Rec>, s: Seq<Ent>, t: Seq<Ent>, k: int)
    requires
        0 <= k,
        s.len() == t.len(),
        forall|i: int| 0 <= i < s.len() ==> write_of(records, #[trigger] t[i]) == write_of(records, s[i]),
    ensures
        writes_from(records, s, k) == writes_from(records, t, k),
    decreases s.len() - k,
{
    if k < s.len() {
        assert(write_of(records, t[k]) == write_of(records, s[k]));
        lemma_same_writes(records, s, t, k + 1);
    }
}

/// Reading an entry, in any way, changes nothing of what is saved.
pub proof fn lemma_reading_saves_the_same(p: Pack, i: int, owner: Seq<char>)
    requires
        0 <= i < p.entries.len(),
    ensures
        saved(parts::materialized(p, i).pack) == saved(p),
        saved(parts::treed(p, i).pack) == saved(p),
        saved(parts::related(p, i, owner).pack) == saved(p),
{
    let m = parts::materialized(p, i).pack;
    let t = parts::treed(p, i).pack;
    let r = parts::related(p, i, owner).pack;
    if let Some(b) = parts::plain_bytes(m.entries[i].body) {
        laws::lemma_read_then_written(b, p.limits);
    }
    assert forall|k: int| 0 <= k < p.entries.len() implies write_of(
        p.records,
        #[trigger] m.entries[k],
    ) == write_of(p.records, p.entries[k]) by {}
    lemma_same_writes(p.records, p.entries, m.entries, 0);
    assert forall|k: int| 0 <= k < p.entries.len() implies write_of(
        p.records,
        #[trigger] t.entries[k],
    ) == write_of(p.records, m.entries[k]) by {}
    lemma_same_writes(p.records, m.entries, t.entries, 0);
    assert forall|k: int| 0 <= k < p.entries.len() implies write_of(
        p.records,
        #[trigger] r.entries[k],
    ) == write_of(p.records, t.entries[k]) by {}
    lemma_same_writes(p.records, t.entries, r.entries, 0);
}

} // verus!
