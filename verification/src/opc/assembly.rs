//! Adding parts to a package and removing them.
use vstd::prelude::*;
use vstd::slice::slice_to_vec;
use vstd::string::*;

use crate::dom::model::Dom;
use crate::error::{Error, OpcError};
use crate::opc::content_types;
use crate::opc::fault;
use crate::opc::fault::Fault;
use crate::opc::order;
use crate::opc::order::Mark;
use crate::opc::package;
use crate::opc::package::{Body, Ent, Entry, Pack, Package, Slot, RELS_CONTENT_TYPE};
use crate::opc::partname;
use crate::opc::partname::PartName;
use crate::opc::parts;
use crate::opc::parts::Step;
use crate::opc::rels;
use crate::opc::rels::{Rels, TargetMode, EMPTY_RELS};
use crate::text;

verus! {

/// The package after a change of its types.
pub open spec fn retyped(p: Pack, e: content_types::Edited) -> Step {
    let q = Pack { types: e.types, ..parts::with_body(p, p.ct_at, Body::Tree(e.doc)) };
    match e.done {
        Ok(_) => parts::went(q),
        Err(x) => parts::stopped(q, fault::fault_of(x)),
    }
}

/// The document with the types of parts.
pub open spec fn types_doc(p: Pack) -> Dom {
    p.entries[p.ct_at].body->Tree_0
}

/// The package with one more part.
pub open spec fn part_added(p: Pack, part: Seq<char>, data: Seq<u8>, ct: Seq<char>) -> Step {
    if part == seq!['/'] {
        parts::stopped(p, Fault::BadPartName(part))
    } else if parts::place(p, part) is Some {
        parts::stopped(p, Fault::PartExists(part))
    } else {
        let t = retyped(p, content_types::ensured(p.types, types_doc(p), part, ct));
        match t.fault {
            Some(_) => t,
            None => match parts::place_any(p, part) {
                Some(i) => parts::went(
                    parts::with_entry(
                        t.pack,
                        i,
                        Ent {
                            body: Body::Bytes(data),
                            added: true,
                            rels: None,
                            ..t.pack.entries[i]
                        },
                    ),
                ),
                None => parts::went(
                    Pack {
                        entries: t.pack.entries.push(
                            Ent {
                                name: Some(part),
                                zip: None,
                                zip_name: part.skip(1),
                                body: Body::Bytes(data),
                                added: true,
                                rels: None,
                            },
                        ),
                        ..t.pack
                    },
                ),
            },
        }
    }
}

/// The package where an entry is removed, and its type with it.
pub open spec fn dropped(p: Pack, i: int, part: Seq<char>) -> Step {
    let q = parts::with_body(p, i, Body::Gone);
    retyped(q, content_types::override_removed(q.types, types_doc(q), part))
}

/// An entry of which no relationship points at a part.
pub open spec fn ent_unpointed(e: Ent, part: Seq<char>) -> (Ent, Option<Fault>) {
    match (e.body, e.rels) {
        (Body::Tree(d), Some(b)) => {
            let c = rels::unpointed(b, d, part);
            (
                Ent { body: Body::Tree(c.doc), rels: Some(c.book), ..e },
                match c.done {
                    Ok(_) => None,
                    Err(x) => Some(fault::fault_of(x)),
                },
            )
        },
        _ => (e, None),
    }
}

/// The package where no relationship of an entry points at a part.
pub open spec fn swept(p: Pack, j: int, part: Seq<char>) -> Step {
    let e = p.entries[j];
    if e.body is Gone || e.name is None || partname::owner_of(e.name->0) is None {
        parts::went(p)
    } else {
        let r = parts::related(p, j, partname::owner_of(e.name->0)->0);
        match r.fault {
            Some(_) => r,
            None => {
                let (e, f) = ent_unpointed(r.pack.entries[j], part);
                Step { pack: parts::with_entry(r.pack, j, e), fault: f }
            },
        }
    }
}

/// The package where no relationship of the entries from `j` on points at a
/// part.
pub open spec fn all_swept(p: Pack, j: int, part: Seq<char>) -> Step
    decreases p.entries.len() - j,
    via all_swept_ends
{
    if !(0 <= j < p.entries.len()) {
        parts::went(p)
    } else {
        let s = swept(p, j, part);
        match s.fault {
            Some(_) => s,
            None => all_swept(s.pack, j + 1, part),
        }
    }
}

#[via_fn]
proof fn all_swept_ends(p: Pack, j: int, part: Seq<char>) {
    if 0 <= j < p.entries.len() {
        lemma_swept_len(p, j, part);
    }
}

proof fn lemma_swept_len(p: Pack, j: int, part: Seq<char>)
    requires
        0 <= j < p.entries.len(),
    ensures
        swept(p, j, part).pack.entries.len() == p.entries.len(),
{
}

/// The package without a part.
pub open spec fn part_removed(p: Pack, part: Seq<char>) -> Step {
    match parts::place(p, part) {
        None => parts::stopped(p, Fault::PartNotFound(part)),
        Some(i) => {
            let a = dropped(p, i, part);
            match a.fault {
                Some(_) => a,
                None => {
                    let b = match partname::rels_of(part) {
                        Ok(rp) => match parts::place(a.pack, rp) {
                            Some(j) => dropped(a.pack, j, rp),
                            None => a,
                        },
                        Err(_) => a,
                    };
                    match b.fault {
                        Some(_) => b,
                        None => all_swept(b.pack, 0, part),
                    }
                },
            }
        },
    }
}

/// The package where a part is read for its relationships.
pub open spec fn rels_asked(p: Pack, owner: Seq<char>) -> Step {
    match partname::rels_of(owner) {
        Err(f) => parts::stopped(p, f),
        Ok(rp) => match parts::place(p, rp) {
            None => parts::stopped(p, Fault::PartNotFound(rp)),
            Some(i) => parts::related(p, i, owner),
        },
    }
}

/// The bytes of a file of relationships with none in it.
pub open spec fn empty_rels() -> Seq<u8> {
    vstd::utf8::encode_utf8(EMPTY_RELS@)
}

/// The package with one more relationship, and its identifier.
pub open spec fn relationship_added(
    p: Pack,
    owner: Seq<char>,
    rel_type: Seq<char>,
    target: Seq<char>,
    mode: TargetMode,
) -> (Pack, Result<Seq<char>, Fault>) {
    if owner != seq!['/'] && parts::place(p, owner) is None {
        (p, Err(Fault::PartNotFound(owner)))
    } else {
        match partname::rels_of(owner) {
            Err(f) => (p, Err(f)),
            Ok(rp) => {
                let a = if parts::place(p, rp) is Some {
                    parts::went(p)
                } else {
                    part_added(p, rp, empty_rels(), RELS_CONTENT_TYPE@)
                };
                match a.fault {
                    Some(f) => (a.pack, Err(f)),
                    None => link_made_in(a.pack, rp, owner, rel_type, target, mode),
                }
            },
        }
    }
}

/// The package with one more relationship in a file of relationships.
pub open spec fn link_made_in(
    p: Pack,
    rp: Seq<char>,
    owner: Seq<char>,
    rel_type: Seq<char>,
    target: Seq<char>,
    mode: TargetMode,
) -> (Pack, Result<Seq<char>, Fault>) {
    match parts::place(p, rp) {
        None => (p, Err(Fault::PartNotFound(rp))),
        Some(i) => {
            let r = parts::related(p, i, owner);
            match r.fault {
                Some(f) => (r.pack, Err(f)),
                None => {
                    let (e, x) = ent_linked(r.pack.entries[i], rp, rel_type, target, mode);
                    (parts::with_entry(r.pack, i, e), x)
                },
            }
        },
    }
}

/// An entry with one more relationship.
pub open spec fn ent_linked(
    e: Ent,
    rp: Seq<char>,
    rel_type: Seq<char>,
    target: Seq<char>,
    mode: TargetMode,
) -> (Ent, Result<Seq<char>, Fault>) {
    match (e.body, e.rels) {
        (Body::Tree(d), Some(b)) => {
            let c = rels::link_made(b, d, rel_type, target, mode);
            (
                Ent { body: Body::Tree(c.doc), rels: Some(c.book), ..e },
                match c.done {
                    Ok(id) => Ok(id),
                    Err(x) => Err(fault::fault_of(x)),
                },
            )
        },
        _ => (e, Err(Fault::BadRelationships(rp))),
    }
}

/// Removes the relationships of an entry that point at a part.
fn unpoint(e: &mut Entry, part: &PartName, n: Ghost<nat>) -> (r: Result<(), Error>)
    requires
        old(e).wf(n@),
        part.wf(),
    ensures
        final(e).wf(n@),
        final(e).name == old(e).name,
        final(e).slot is Dom == old(e).slot is Dom,
        final(e)@ == ent_unpointed(old(e)@, part@).0,
        match r {
            Ok(_) => ent_unpointed(old(e)@, part@).1 is None,
            Err(x) => ent_unpointed(old(e)@, part@).1 == Some(fault::fault_of(x)),
        },
{
    match &mut e.slot {
        Slot::Dom(doc) => match &mut e.rels {
            Some(b) => match b.remove_targeting(doc, part) {
                Ok(_) => Ok(()),
                Err(x) => Err(x),
            },
            None => Ok(()),
        },
        _ => Ok(()),
    }
}

/// Adds a relationship to an entry.
fn link(
    e: &mut Entry,
    rp: &PartName,
    rel_type: &str,
    target: &str,
    mode: TargetMode,
    n: Ghost<nat>,
) -> (r: Result<String, Error>)
    requires
        old(e).wf(n@),
    ensures
        final(e).wf(n@),
        final(e).name == old(e).name,
        final(e).slot is Dom == old(e).slot is Dom,
        ({
            let (x, y) = ent_linked(old(e)@, rp@, rel_type@, target@, mode);
            final(e)@ == x && match r {
                Ok(id) => y == Ok::<Seq<char>, Fault>(id@),
                Err(z) => y == Err::<Seq<char>, Fault>(fault::fault_of(z)),
            }
        }),
{
    match &mut e.slot {
        Slot::Dom(doc) => match &mut e.rels {
            Some(b) => b.add(doc, rel_type, target, mode),
            None => Err(Error::Opc(OpcError::BadRelationships(rp.as_str().to_owned()))),
        },
        _ => Err(Error::Opc(OpcError::BadRelationships(rp.as_str().to_owned()))),
    }
}

impl<'a> Package<'a> {
    /// The relationships of a part, or of the package.
    pub fn rels(&mut self, owner: &PartName) -> (r: Result<&Rels, Error>)
        requires
            old(self).wf(),
            owner.wf(),
        ensures
            final(self).wf(),
            final(self)@ == rels_asked(old(self)@, owner@).pack,
            match r {
                Ok(b) => {
                    &&& rels_asked(old(self)@, owner@).fault is None
                    &&& final(self)@.entries[parts::place(
                        old(self)@,
                        partname::rels_of(owner@)->Ok_0,
                    )->0].rels == Some(b@)
                },
                Err(e) => rels_asked(old(self)@, owner@).fault == Some(fault::fault_of(e)),
            },
    {
        let rp: PartName = match owner.rels_part() {
            Ok(n) => n,
            Err(e) => return Err(e),
        };
        let i: usize = match self.find(&rp) {
            Some(i) => i,
            None => return Err(fault::part_not_found(rp.as_str())),
        };
        let own: PartName = owner.clone();
        if let Err(e) = self.ensure_rels(i, own) {
            return Err(e);
        }
        assert(self@.entries[i as int] == self.entries@[i as int]@);
        match &self.entries[i].rels {
            Some(b) => Ok(b),
            None => Err(Error::Opc(OpcError::BadRelationships(rp.as_str().to_owned()))),
        }
    }

    /// Sees to it that a part has a type.
    fn ensure_content_type(&mut self, part: &PartName, content_type: &str) -> (r: Result<(), Error>)
        requires
            old(self).wf(),
            part.wf(),
        ensures
            final(self).wf(),
            final(self).entries@.len() == old(self).entries@.len(),
            final(self).index == old(self).index,
            parts::steps_to(
                r,
                final(self)@,
                retyped(
                    old(self)@,
                    content_types::ensured(
                        old(self)@.types,
                        types_doc(old(self)@),
                        part@,
                        content_type@,
                    ),
                ),
            ),
    {
        let ghost p = self@;
        let ghost before = self.entries@;
        let at: usize = self.ct_at;
        assert(p.entries[at as int] == before[at as int]@);
        match &mut self.entries[at].slot {
            Slot::Dom(doc) => {
                let r = self.content_types.ensure(doc, part, content_type);
                proof {
                    self.lemma_slot_set(before, p, at as int);
                }
                match r {
                    Ok(_) => Ok(()),
                    Err(e) => Err(e),
                }
            },
            _ => Err(Error::Opc(OpcError::NoContentTypes)),
        }
    }

    /// Takes away the type that a part has by its name.
    fn drop_override(&mut self, part: &PartName) -> (r: Result<(), Error>)
        requires
            old(self).wf(),
            part.wf(),
        ensures
            final(self).wf(),
            final(self).entries@.len() == old(self).entries@.len(),
            parts::steps_to(
                r,
                final(self)@,
                retyped(
                    old(self)@,
                    content_types::override_removed(
                        old(self)@.types,
                        types_doc(old(self)@),
                        part@,
                    ),
                ),
            ),
    {
        let ghost p = self@;
        let ghost before = self.entries@;
        let at: usize = self.ct_at;
        assert(p.entries[at as int] == before[at as int]@);
        match &mut self.entries[at].slot {
            Slot::Dom(doc) => {
                let r = self.content_types.remove_override(doc, part);
                proof {
                    self.lemma_slot_set(before, p, at as int);
                }
                match r {
                    Ok(_) => Ok(()),
                    Err(e) => Err(e),
                }
            },
            _ => Err(Error::Opc(OpcError::NoContentTypes)),
        }
    }

    /// Adds a part and its type. A part that was removed comes back to its
    /// place in the archive, with its new content.
    pub fn add_part(&mut self, part: PartName, data: Vec<u8>, content_type: &str) -> (r: Result<
        (),
        Error,
    >)
        requires
            old(self).wf(),
            part.wf(),
        ensures
            final(self).wf(),
            parts::steps_to(
                r,
                final(self)@,
                part_added(old(self)@, part@, data@, content_type@),
            ),
    {
        let ghost p = self@;
        if part.is_root() {
            return Err(fault::bad_part_name(part.as_str()));
        }
        if self.has(&part) {
            return Err(Error::Opc(OpcError::PartExists(part.as_str().to_owned())));
        }
        if let Err(e) = self.ensure_content_type(&part, content_type) {
            return Err(e);
        }
        let ghost q = self@;
        let ghost before = self.entries@;
        proof {
            lemma_same_place(p.entries, q.entries, text::lowered(part@), 0);
        }
        if let Some(i) = self.find_any(&part) {
            proof {
                package::lemma_key_place(q.entries, text::lowered(part@), 0);
                assert(q.entries[i as int] == before[i as int]@);
            }
            self.entries[i].slot = Slot::Bytes(data);
            self.entries[i].added = true;
            self.entries[i].rels = None;
            proof {
                assert(self.entries@ =~= before.update(i as int, self.entries@[i as int]));
                self.lemma_slot_set(before, q, i as int);
            }
            return Ok(());
        }
        let at: usize = self.entries.len();
        let key: Vec<char> = text::chars_of(part.key());
        let ghost marks = self.index@;
        let ghost name = part@;
        let zip_name: String = part.zip_name();
        let ghost kk = key@;
        proof {
            package::lemma_key_place(q.entries, kk, 0);
        }
        match order::search(&self.index, key.as_slice()) {
            Ok(x) => {
                proof {
                    assert(package::mark_ok(marks, q.entries, x as int));
                    assert(package::has_key(q.entries, marks[x as int].at as int, kk));
                }
            },
            Err(x) => {
                order::insert(&mut self.index, x, key, at);
                let e = Entry {
                    name: Some(part),
                    zip: None,
                    zip_name,
                    slot: Slot::Bytes(data),
                    added: true,
                    rels: None,
                };
                self.entries.push(e);
                proof {
                    let t = package::ents(self.entries@);
                    assert(t =~= q.entries.push(e@));
                    lemma_index_grown(marks, self.index@, q.entries, t, x as int);
                    assert forall|k: int| 0 <= k < self.entries@.len() implies (
                    #[trigger] self.entries@[k]).wf(self.zip@.len()) by {
                        if k < before.len() {
                            assert(self.entries@[k] == before[k]);
                        }
                    }
                }
            },
        }
        Ok(())
    }

    /// Adds a relationship of a part, or of the package, and returns its
    /// identifier. A part without a file of relationships gets one.
    pub fn add_relationship(
        &mut self,
        owner: &PartName,
        rel_type: &str,
        target: &str,
        mode: TargetMode,
    ) -> (r: Result<String, Error>)
        requires
            old(self).wf(),
            owner.wf(),
        ensures
            final(self).wf(),
            ({
                let a = relationship_added(old(self)@, owner@, rel_type@, target@, mode);
                final(self)@ == a.0 && match r {
                    Ok(id) => a.1 == Ok::<Seq<char>, Fault>(id@),
                    Err(e) => a.1 == Err::<Seq<char>, Fault>(fault::fault_of(e)),
                }
            }),
    {
        if !owner.is_root() && !self.has(owner) {
            return Err(fault::part_not_found(owner.as_str()));
        }
        let rp: PartName = match owner.rels_part() {
            Ok(n) => n,
            Err(e) => return Err(e),
        };
        if !self.has(&rp) {
            let data: Vec<u8> = slice_to_vec(EMPTY_RELS.as_bytes());
            let name: PartName = rp.clone();
            if let Err(e) = self.add_part(name, data, RELS_CONTENT_TYPE) {
                return Err(e);
            }
        }
        let ghost p = self@;
        let i: usize = match self.find(&rp) {
            Some(i) => i,
            None => return Err(fault::part_not_found(rp.as_str())),
        };
        let own: PartName = owner.clone();
        if let Err(e) = self.ensure_rels(i, own) {
            return Err(e);
        }
        let ghost q = self@;
        let ghost before = self.entries@;
        assert(q.entries[i as int] == before[i as int]@);
        let ghost records = self.zip@.len();
        let r = link(&mut self.entries[i], &rp, rel_type, target, mode, Ghost(records));
        proof {
            self.lemma_slot_set(before, q, i as int);
        }
        r
    }

    /// Removes a part, its file of relationships, and the relationships that
    /// point at it. A file of relationships in which nothing points at it stays
    /// as it is.
    pub fn remove_part(&mut self, part: &PartName) -> (r: Result<(), Error>)
        requires
            old(self).wf(),
            part.wf(),
        ensures
            final(self).wf(),
            parts::steps_to(r, final(self)@, part_removed(old(self)@, part@)),
    {
        let ghost p = self@;
        let i: usize = match self.find(part) {
            Some(i) => i,
            None => return Err(fault::part_not_found(part.as_str())),
        };
        if let Err(e) = self.drop_entry(i, part) {
            return Err(e);
        }
        if let Ok(rp) = part.rels_part() {
            if let Some(j) = self.find(&rp) {
                if let Err(e) = self.drop_entry(j, &rp) {
                    return Err(e);
                }
            }
        }
        let ghost b = self@;
        let n: usize = self.entries.len();
        let mut j: usize = 0;
        while j < n
            invariant
                self.wf(),
                part.wf(),
                j <= n,
                n == self.entries@.len(),
                part_removed(p, part@) == all_swept(b, 0, part@),
                all_swept(b, 0, part@) == all_swept(self@, j as int, part@),
                p == old(self)@,
            decreases n - j,
        {
            if let Err(e) = self.sweep(j, part) {
                return Err(e);
            }
            j = j + 1;
        }
        Ok(())
    }

    /// Removes an entry, and its type with it.
    fn drop_entry(&mut self, i: usize, part: &PartName) -> (r: Result<(), Error>)
        requires
            old(self).wf(),
            part.wf(),
            i < old(self).entries@.len(),
            old(self)@.entries[i as int].name is Some,
        ensures
            final(self).wf(),
            final(self).entries@.len() == old(self).entries@.len(),
            parts::steps_to(r, final(self)@, dropped(old(self)@, i as int, part@)),
    {
        let ghost p = self@;
        let ghost before = self.entries@;
        assert(p.entries[i as int] == before[i as int]@);
        self.entries[i].slot = Slot::Deleted;
        proof {
            self.lemma_slot_set(before, p, i as int);
        }
        self.drop_override(part)
    }

    /// Removes the relationships of an entry that point at a part.
    fn sweep(&mut self, j: usize, part: &PartName) -> (r: Result<(), Error>)
        requires
            old(self).wf(),
            part.wf(),
            j < old(self).entries@.len(),
        ensures
            final(self).wf(),
            final(self).entries@.len() == old(self).entries@.len(),
            parts::steps_to(r, final(self)@, swept(old(self)@, j as int, part@)),
    {
        let ghost p = self@;
        assert(p.entries[j as int] == self.entries@[j as int]@);
        if let Slot::Deleted = &self.entries[j].slot {
            return Ok(());
        }
        let owner: PartName = match &self.entries[j].name {
            None => return Ok(()),
            Some(n) => match n.rels_owner() {
                Some(o) => o,
                None => return Ok(()),
            },
        };
        if let Err(e) = self.ensure_rels(j, owner) {
            return Err(e);
        }
        let ghost q = self@;
        let ghost before = self.entries@;
        assert(q.entries[j as int] == before[j as int]@);
        let ghost records = self.zip@.len();
        let r = unpoint(&mut self.entries[j], part, Ghost(records));
        proof {
            self.lemma_slot_set(before, q, j as int);
        }
        r
    }
}

/// Places rest on the names alone.
proof fn lemma_same_place(s: Seq<Ent>, t: Seq<Ent>, key: Seq<char>, k: int)
    requires
        0 <= k,
        s.len() == t.len(),
        forall|i: int| 0 <= i < s.len() ==> (#[trigger] t[i]).name == s[i].name,
    ensures
        package::key_place(s, key, k) == package::key_place(t, key, k),
    decreases s.len() - k,
{
    if k < s.len() {
        assert(t[k].name == s[k].name);
        lemma_same_place(s, t, key, k + 1);
    }
}

/// An index with the key of one more entry.
proof fn lemma_index_grown(marks: Seq<Mark>, more: Seq<Mark>, s: Seq<Ent>, t: Seq<Ent>, x: int)
    requires
        package::indexed(marks, s),
        0 <= x <= marks.len(),
        t.len() == s.len() + 1,
        forall|i: int| 0 <= i < s.len() ==> #[trigger] t[i] == s[i],
        order::sorted(more),
        more == marks.insert(x, more[x]),
        more[x].at == s.len(),
        package::has_key(t, s.len() as int, more[x].key@),
    ensures
        package::indexed(more, t),
{
    assert forall|j: int| 0 <= j < more.len() implies #[trigger] package::mark_ok(more, t, j) by {
        if j < x {
            assert(package::mark_ok(marks, s, j));
            assert(more[j] == marks[j]);
            assert(t[marks[j].at as int] == s[marks[j].at as int]);
        } else if j > x {
            assert(package::mark_ok(marks, s, j - 1));
            assert(more[j] == marks[j - 1]);
            assert(t[marks[j - 1].at as int] == s[marks[j - 1].at as int]);
        }
    }
    assert forall|i: int| 0 <= i < t.len() implies #[trigger] package::marked(more, t, i) by {
        if i < s.len() {
            assert(package::marked(marks, s, i));
            assert(t[i] == s[i]);
            if s[i].name is Some {
                let j = choose|j: int| 0 <= j < marks.len() && (#[trigger] marks[j]).at == i;
                if j < x {
                    assert(more[j] == marks[j]);
                } else {
                    assert(more[j + 1] == marks[j]);
                }
            }
        } else {
            assert(more[x].at == i);
        }
    }
}

} // verus!
