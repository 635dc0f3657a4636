//! Reading and changing the parts of a package.
use vstd::prelude::*;
use vstd::slice::{slice_subrange, slice_to_vec};
use vstd::string::*;

use crate::dom::document::Document;
use crate::dom::model::Dom;
use crate::dom::parse;
use crate::error::{Error, OpcError};
use crate::opc::archive::Archive;
use crate::opc::content_types;
use crate::opc::content_types::ContentTypes;
use crate::opc::fault;
use crate::opc::fault::Fault;
use crate::opc::order;
use crate::opc::package;
use crate::opc::package::{Body, Ent, Entry, Pack, Package, Slot};
use crate::opc::partname;
use crate::opc::partname::PartName;
use crate::opc::rels;
use crate::opc::rels::Rels;
use crate::text;

verus! {

/// The place of a part, be it removed.
pub open spec fn place_any(p: Pack, part: Seq<char>) -> Option<int> {
    package::key_place(p.entries, text::lowered(part), 0)
}

/// The place of a part.
pub open spec fn place(p: Pack, part: Seq<char>) -> Option<int> {
    match place_any(p, part) {
        Some(i) => if p.entries[i].body is Gone {
            None
        } else {
            Some(i)
        },
        None => None,
    }
}

/// The names of the parts, in the order of the entries.
pub open spec fn names(s: Seq<Ent>) -> Seq<Seq<char>>
    decreases s.len(),
{
    if s.len() == 0 {
        Seq::empty()
    } else if s.last().name is Some && !(s.last().body is Gone) {
        names(s.drop_last()).push(s.last().name->0)
    } else {
        names(s.drop_last())
    }
}

/// A package after a change, and what stopped it.
pub struct Step {
    pub pack: Pack,
    pub fault: Option<Fault>,
}

pub open spec fn went(pack: Pack) -> Step {
    Step { pack, fault: None }
}

pub open spec fn stopped(pack: Pack, f: Fault) -> Step {
    Step { pack, fault: Some(f) }
}

/// The package with another entry.
pub open spec fn with_entry(p: Pack, i: int, e: Ent) -> Pack {
    Pack { entries: p.entries.update(i, e), ..p }
}

pub open spec fn with_body(p: Pack, i: int, b: Body) -> Pack {
    with_entry(p, i, Ent { body: b, ..p.entries[i] })
}

/// The package where the content of an entry is unpacked.
pub open spec fn materialized(p: Pack, i: int) -> Step {
    let e = p.entries[i];
    if e.body is Untouched {
        match e.zip {
            None => stopped(p, package::bad_slot()),
            Some(z) => match p.records[z].content {
                Ok(b) => went(with_body(p, i, Body::Bytes(b))),
                Err(x) => stopped(p, fault::in_part(e.zip_name, fault::fault_of(x))),
            },
        }
    } else {
        went(p)
    }
}

/// White space at the beginning cut off.
pub open spec fn trim_front(s: Seq<char>) -> Seq<char>
    decreases s.len(),
{
    if s.len() > 0 && text::whitespace(s[0]) {
        trim_front(s.skip(1))
    } else {
        s
    }
}

/// White space at the end cut off.
pub open spec fn trim_back(s: Seq<char>) -> Seq<char>
    decreases s.len(),
{
    if s.len() > 0 && text::whitespace(s.last()) {
        trim_back(s.drop_last())
    } else {
        s
    }
}

/// A type without its parameters.
pub open spec fn base_type(ct: Seq<char>) -> Seq<char> {
    trim_front(
        trim_back(
            match text::find(ct, 0, ';') {
                Some(k) => ct.take(k),
                None => ct,
            },
        ),
    )
}

/// Whether a type is one of XML.
pub open spec fn is_xml(ct: Seq<char>) -> bool {
    let b = base_type(ct);
    text::lowered(b) == text::lowered("application/xml"@) || text::lowered(b) == text::lowered(
        "text/xml"@,
    ) || (b.len() > 4 && partname::ends_with(b, "+xml"@))
}

/// What stands against reading an entry as a document.
pub open spec fn xml_fault(p: Pack, i: int) -> Option<Fault> {
    match p.entries[i].name {
        None => None,
        Some(n) => match content_types::type_of(p.types, n) {
            None => Some(Fault::UnknownContentType(n)),
            Some(ct) => if is_xml(ct) {
                None
            } else {
                Some(
                    fault::in_part(
                        n,
                        Fault::Plain(Error::Unsupported("opc: часть не является XML")),
                    ),
                )
            },
        },
    }
}

/// The bytes of an entry that is no document.
pub open spec fn plain_bytes(b: Body) -> Option<Seq<u8>> {
    match b {
        Body::Bytes(x) => Some(x),
        _ => None,
    }
}

/// The package where an entry is read as a document.
pub open spec fn treed(p: Pack, i: int) -> Step {
    if p.entries[i].body is Tree {
        went(p)
    } else {
        match xml_fault(p, i) {
            Some(f) => stopped(p, f),
            None => {
                let m = materialized(p, i);
                match m.fault {
                    Some(_) => m,
                    None => match plain_bytes(m.pack.entries[i].body) {
                        None => stopped(m.pack, package::bad_slot()),
                        Some(b) => match parse::parsed(b, p.limits) {
                            Ok(d) => went(with_body(m.pack, i, Body::Tree(d))),
                            Err(x) => stopped(
                                m.pack,
                                fault::in_part(p.entries[i].zip_name, fault::fault_of(x)),
                            ),
                        },
                    },
                }
            },
        }
    }
}

/// The package where an entry is read as relationships.
pub open spec fn related(p: Pack, i: int, owner: Seq<char>) -> Step {
    if p.entries[i].rels is Some {
        went(p)
    } else {
        let t = treed(p, i);
        match t.fault {
            Some(_) => t,
            None => match t.pack.entries[i].body {
                Body::Tree(d) => match rels::book_of(owner, d) {
                    Ok(b) => went(
                        with_entry(t.pack, i, Ent { rels: Some(b), ..t.pack.entries[i] }),
                    ),
                    Err(f) => stopped(t.pack, f),
                },
                _ => stopped(t.pack, package::bad_slot()),
            },
        }
    }
}

impl<'a> Package<'a> {
    /// The place of a part, be it removed.
    pub(crate) fn find_any(&self, part: &PartName) -> (r: Option<usize>)
        requires
            self.wf(),
            part.wf(),
        ensures
            match r {
                Some(i) => place_any(self@, part@) == Some(i as int) && i < self.entries@.len()
                    && self@.entries[i as int].name is Some,
                None => place_any(self@, part@) is None,
            },
    {
        let key: Vec<char> = text::chars_of(part.key());
        let ghost s = self@.entries;
        proof {
            package::lemma_key_place(s, key@, 0);
        }
        match order::search(&self.index, key.as_slice()) {
            Ok(p) => {
                proof {
                    assert(package::mark_ok(self.index@, s, p as int));
                    package::lemma_one_mark(
                        self.index@,
                        s,
                        p as int,
                        package::key_place(s, key@, 0)->0,
                    );
                }
                Some(self.index[p].at)
            },
            Err(p) => {
                proof {
                    if let Some(i) = package::key_place(s, key@, 0) {
                        assert(package::marked(self.index@, s, i));
                        let j = choose|j: int|
                            0 <= j < self.index@.len() && (#[trigger] self.index@[j]).at == i;
                        assert(package::mark_ok(self.index@, s, j));
                        order::lemma_total(key@, key@);
                        if j < p {
                            assert(order::before(self.index@[j].key@, key@));
                        } else {
                            assert(order::before(key@, self.index@[j].key@));
                        }
                    }
                }
                None
            },
        }
    }

    /// The place of a part.
    pub(crate) fn find(&self, part: &PartName) -> (r: Option<usize>)
        requires
            self.wf(),
            part.wf(),
        ensures
            match r {
                Some(i) => place(self@, part@) == Some(i as int) && i < self.entries@.len()
                    && self@.entries[i as int].name is Some,
                None => place(self@, part@) is None,
            },
    {
        match self.find_any(part) {
            Some(i) => {
                assert(self@.entries[i as int] == self.entries@[i as int]@);
                match &self.entries[i].slot {
                    Slot::Deleted => None,
                    _ => Some(i),
                }
            },
            None => None,
        }
    }

    /// The names of all parts, in the order of the entries. Directories and the
    /// types of parts are no parts.
    #[must_use]
    pub fn part_names(&self) -> (r: Vec<&PartName>)
        requires
            self.wf(),
        ensures
            r@.map_values(|n: &PartName| n@) == names(self@.entries),
    {
        let ghost all = self@.entries;
        let mut v: Vec<&PartName> = Vec::new();
        let mut k: usize = 0;
        assert(v@.map_values(|n: &PartName| n@) =~= names(all.take(0)));
        while k < self.entries.len()
            invariant
                k <= self.entries@.len(),
                all == self@.entries,
                v@.map_values(|n: &PartName| n@) == names(all.take(k as int)),
            decreases self.entries@.len() - k,
        {
            let ghost before = v@;
            let e = &self.entries[k];
            assert(all[k as int] == e@);
            assert(all.take(k + 1).drop_last() =~= all.take(k as int));
            let gone: bool = match &e.slot {
                Slot::Deleted => true,
                _ => false,
            };
            if !gone {
                if let Some(n) = &e.name {
                    v.push(n);
                    assert(v@.map_values(|n: &PartName| n@) =~= before.map_values(
                        |n: &PartName| n@,
                    ).push(n@));
                }
            }
            k = k + 1;
        }
        assert(all.take(k as int) =~= all);
        v
    }

    /// Whether a part is in the package.
    #[must_use]
    pub fn has(&self, part: &PartName) -> (r: bool)
        requires
            self.wf(),
            part.wf(),
        ensures
            r == (place(self@, part@) is Some),
    {
        self.find(part).is_some()
    }

    /// How many parts there are.
    #[must_use]
    pub fn part_count(&self) -> (r: usize)
        requires
            self.wf(),
        ensures
            r == names(self@.entries).len(),
    {
        let v = self.part_names();
        assert(v@.map_values(|n: &PartName| n@).len() == v@.len());
        v.len()
    }

    /// The type of a part; `None` when there is no such part, or no type.
    #[must_use]
    pub fn content_type(&self, part: &PartName) -> (r: Option<&str>)
        requires
            self.wf(),
            part.wf(),
        ensures
            content_types::text_view(r) == if place(self@, part@) is Some {
                content_types::type_of(self@.types, part@)
            } else {
                None
            },
    {
        if !self.has(part) {
            return None;
        }
        self.content_types.resolve(part)
    }

    /// The types of parts.
    #[must_use]
    pub fn content_types(&self) -> (r: &ContentTypes)
        ensures
            r@ == self@.types,
    {
        &self.content_types
    }

    /// The archive.
    #[must_use]
    pub fn zip(&self) -> (r: &Archive)
        ensures
            r@ == self@.records,
    {
        self.zip
    }

    /// Whether a part has a file of relationships.
    #[must_use]
    pub fn has_rels(&self, owner: &PartName) -> (r: bool)
        requires
            self.wf(),
            owner.wf(),
        ensures
            r == match partname::rels_of(owner@) {
                Ok(rp) => place(self@, rp) is Some,
                Err(_) => false,
            },
    {
        match owner.rels_part() {
            Ok(rp) => self.has(&rp),
            Err(_) => false,
        }
    }

    /// Unpacks the content of an entry.
    pub(crate) fn materialize(&mut self, i: usize) -> (r: Result<(), Error>)
        requires
            old(self).wf(),
            i < old(self).entries@.len(),
        ensures
            final(self).wf(),
            final(self).entries@.len() == old(self).entries@.len(),
            steps_to(r, final(self)@, materialized(old(self)@, i as int)),
    {
        let ghost p = self@;
        let ghost before = self.entries@;
        assert(p.entries[i as int] == self.entries@[i as int]@);
        match &self.entries[i].slot {
            Slot::Untouched => {},
            _ => return Ok(()),
        }
        let z: usize = match self.entries[i].zip {
            Some(z) => z,
            None => return Err(
                Error::Unsupported("opc: слот части в неожиданном состоянии"),
            ),
        };
        let raw: Vec<u8> = match self.zip.unpack(z) {
            Ok(b) => b,
            Err(e) => return Err(e.in_part(self.entries[i].zip_name.as_str())),
        };
        self.entries[i].slot = Slot::Bytes(raw);
        proof {
            self.lemma_slot_set(before, p, i as int);
        }
        Ok(())
    }

    /// Another content of an entry keeps what holds of a package.
    pub(crate) proof fn lemma_slot_set(self, before: Seq<Entry>, p: Pack, i: int)
        requires
            0 <= i < before.len(),
            p.entries == package::ents(before),
            package::indexed(self.index@, p.entries),
            forall|k: int|
                0 <= k < before.len() ==> (#[trigger] before[k]).wf(self.zip@.len()),
            self.entries@ == before.update(i, self.entries@[i]),
            self.entries@[i].name == before[i].name,
            self.entries@[i].wf(self.zip@.len()),
            self.ct_at < before.len(),
            before[self.ct_at as int].slot is Dom,
            before[self.ct_at as int].name is None,
            i == self.ct_at ==> self.entries@[i].slot is Dom,
        ensures
            self.wf(),
            package::ents(self.entries@) == p.entries.update(i, self.entries@[i]@),
    {
        let t = package::ents(self.entries@);
        assert(t =~= p.entries.update(i, self.entries@[i]@));
        assert forall|k: int| 0 <= k < t.len() implies (#[trigger] t[k]).name
            == p.entries[k].name by {
            assert(p.entries[k] == before[k]@);
        }
        package::lemma_reindexed(self.index@, p.entries, t);
    }
}

/// A text with the white space around it cut off.
pub(crate) fn trimmed(s: &[char]) -> (r: Vec<char>)
    ensures
        r@ == trim_front(trim_back(s@)),
{
    let mut hi: usize = s.len();
    assert(s@.take(hi as int) =~= s@);
    while hi > 0 && text::is_whitespace(s[hi - 1])
        invariant
            hi <= s@.len(),
            trim_back(s@) == trim_back(s@.take(hi as int)),
        ensures
            hi <= s@.len(),
            trim_back(s@) == s@.take(hi as int),
        decreases hi,
    {
        assert(s@.take(hi as int).drop_last() =~= s@.take(hi - 1));
        hi = hi - 1;
    }
    let ghost t = s@.take(hi as int);
    let mut lo: usize = 0;
    assert(t.skip(0) =~= t);
    while lo < hi && text::is_whitespace(s[lo])
        invariant
            lo <= hi <= s@.len(),
            t == s@.take(hi as int),
            trim_front(t) == trim_front(t.skip(lo as int)),
        ensures
            lo <= hi <= s@.len(),
            trim_front(t) == t.skip(lo as int),
        decreases hi - lo,
    {
        assert(t.skip(lo as int).skip(1) =~= t.skip(lo + 1));
        lo = lo + 1;
    }
    let r = slice_subrange(s, lo, hi);
    assert(r@ =~= t.skip(lo as int));
    slice_to_vec(r)
}

/// Whether a type is one of XML.
pub fn is_xml_content_type(ct: &str) -> (r: bool)
    ensures
        r == is_xml(ct@),
{
    let cs: Vec<char> = text::chars_of(ct);
    let n: usize = match text::position(cs.as_slice(), 0, ';') {
        Some(k) => k,
        None => cs.len(),
    };
    let front = slice_subrange(cs.as_slice(), 0, n);
    proof {
        assert(front@ =~= match text::find(ct@, 0, ';') {
            Some(k) => ct@.take(k),
            None => ct@,
        });
        reveal_strlit("+xml");
    }
    let base: Vec<char> = trimmed(front);
    let app: Vec<char> = text::chars_of("application/xml");
    let txt: Vec<char> = text::chars_of("text/xml");
    text::same_ignoring_case(base.as_slice(), app.as_slice()) || text::same_ignoring_case(
        base.as_slice(),
        txt.as_slice(),
    ) || (base.len() > 4 && partname::has_end(base.as_slice(), "+xml"))
}

impl<'a> Package<'a> {
    /// Refuses an entry that is no XML. That is decided by its type, not by its
    /// extension.
    fn require_xml(&self, i: usize) -> (r: Result<(), Error>)
        requires
            self.wf(),
            i < self.entries@.len(),
        ensures
            match r {
                Ok(_) => xml_fault(self@, i as int) is None,
                Err(e) => xml_fault(self@, i as int) == Some(fault::fault_of(e)),
            },
    {
        assert(self@.entries[i as int] == self.entries@[i as int]@);
        match &self.entries[i].name {
            None => Ok(()),
            Some(n) => match self.content_types.resolve(n) {
                None => Err(Error::Opc(OpcError::UnknownContentType(n.as_str().to_owned()))),
                Some(ct) => {
                    if is_xml_content_type(ct) {
                        Ok(())
                    } else {
                        Err(fault::unsupported_in("opc: часть не является XML", n.as_str()))
                    }
                },
            },
        }
    }

    /// Reads an entry as a document.
    pub(crate) fn ensure_dom(&mut self, i: usize) -> (r: Result<(), Error>)
        requires
            old(self).wf(),
            i < old(self).entries@.len(),
        ensures
            final(self).wf(),
            final(self).entries@.len() == old(self).entries@.len(),
            steps_to(r, final(self)@, treed(old(self)@, i as int)),
    {
        let ghost p = self@;
        assert(p.entries[i as int] == self.entries@[i as int]@);
        if let Slot::Dom(_) = &self.entries[i].slot {
            return Ok(());
        }
        if let Err(e) = self.require_xml(i) {
            return Err(e);
        }
        if let Err(e) = self.materialize(i) {
            return Err(e);
        }
        let ghost m = self@;
        let ghost before = self.entries@;
        assert(m.entries[i as int] == self.entries@[i as int]@);
        let raw: Vec<u8> = match &self.entries[i].slot {
            Slot::Bytes(b) => slice_to_vec(b.as_slice()),
            _ => return Err(Error::Unsupported("opc: слот части в неожиданном состоянии")),
        };
        match Document::parse(raw, &self.limits) {
            Ok(d) => {
                self.entries[i].slot = Slot::Dom(Box::new(d));
                proof {
                    self.lemma_slot_set(before, m, i as int);
                }
                Ok(())
            },
            Err(e) => Err(e.in_part(self.entries[i].zip_name.as_str())),
        }
    }

    /// Reads an entry as relationships.
    pub(crate) fn ensure_rels(&mut self, i: usize, owner: PartName) -> (r: Result<(), Error>)
        requires
            old(self).wf(),
            i < old(self).entries@.len(),
            owner.wf(),
        ensures
            final(self).wf(),
            final(self).entries@.len() == old(self).entries@.len(),
            steps_to(r, final(self)@, related(old(self)@, i as int, owner@)),
    {
        let ghost p = self@;
        assert(p.entries[i as int] == self.entries@[i as int]@);
        if self.entries[i].rels.is_some() {
            return Ok(());
        }
        if let Err(e) = self.ensure_dom(i) {
            return Err(e);
        }
        let ghost m = self@;
        let ghost before = self.entries@;
        assert(m.entries[i as int] == self.entries@[i as int]@);
        let parsed = match &self.entries[i].slot {
            Slot::Dom(d) => Rels::parse(owner, d),
            _ => return Err(Error::Unsupported("opc: слот части в неожиданном состоянии")),
        };
        match parsed {
            Ok(t) => {
                self.entries[i].rels = Some(t);
                proof {
                    self.lemma_slot_set(before, m, i as int);
                }
                Ok(())
            },
            Err(e) => Err(e),
        }
    }

    /// The bytes of a part. Those of a document that was changed are others
    /// now, so they are refused.
    pub fn bytes(&mut self, part: &PartName) -> (r: Result<&[u8], Error>)
        requires
            old(self).wf(),
            part.wf(),
        ensures
            final(self).wf(),
            ({
                let b = bytes_read(old(self)@, part@);
                final(self)@ == b.0 && match r {
                    Ok(x) => b.1 == Ok::<Seq<u8>, Fault>(x@),
                    Err(e) => b.1 == Err::<Seq<u8>, Fault>(fault::fault_of(e)),
                }
            }),
    {
        let i: usize = match self.find(part) {
            Some(i) => i,
            None => return Err(fault::part_not_found(part.as_str())),
        };
        if let Err(e) = self.materialize(i) {
            return Err(e);
        }
        assert(self@.entries[i as int] == self.entries@[i as int]@);
        match &self.entries[i].slot {
            Slot::Bytes(b) => Ok(b.as_slice()),
            Slot::Dom(d) => {
                if d.is_dirty() {
                    Err(
                        fault::unsupported_in(
                            "opc: часть изменена как дерево, байты берите из dom().serialize()",
                            part.as_str(),
                        ),
                    )
                } else {
                    Ok(d.src())
                }
            },
            _ => Err(fault::part_not_found(part.as_str())),
        }
    }

    /// The document of a part. It is read when it is asked for first.
    pub fn dom(&mut self, part: &PartName) -> (r: Result<&mut Document, Error>)
        requires
            old(self).wf(),
            part.wf(),
        ensures
            match r {
                Ok(d) => {
                    &&& tree_asked(old(self)@, part@).fault is None
                    &&& tree_asked(old(self)@, part@).pack.entries[place(
                        old(self)@,
                        part@,
                    )->0].body == Body::Tree(d@)
                    &&& d.wf()
                    &&& final(d).wf() ==> final(self).wf() && final(self)@ == with_body(
                        tree_asked(old(self)@, part@).pack,
                        place(old(self)@, part@)->0,
                        Body::Tree(final(d)@),
                    )
                },
                Err(e) => {
                    &&& tree_asked(old(self)@, part@).fault == Some(fault::fault_of(e))
                    &&& final(self).wf()
                    &&& final(self)@ == tree_asked(old(self)@, part@).pack
                },
            },
    {
        let i: usize = match self.find(part) {
            Some(i) => i,
            None => return Err(fault::part_not_found(part.as_str())),
        };
        if let Err(e) = self.ensure_dom(i) {
            return Err(e);
        }
        assert(self@.entries[i as int] == self.entries@[i as int]@);
        proof {
            package::lemma_key_place(old(self)@.entries, text::lowered(part@), 0);
            assert(old(self)@.entries[i as int] == old(self).entries@[i as int]@);
            assert(old(self)@.entries[i as int].name is Some);
            assert(self@.entries[i as int].name is Some);
            self.lemma_any_slot_set(i as int);
        }
        let e: &mut Entry = &mut self.entries[i];
        match &mut e.slot {
            Slot::Dom(d) => {
                Ok(d)
            },
            _ => Err(fault::part_not_found(part.as_str())),
        }
    }
}

/// The package where a part is read as a document.
pub open spec fn tree_asked(p: Pack, part: Seq<char>) -> Step {
    match place(p, part) {
        None => stopped(p, Fault::PartNotFound(part)),
        Some(i) => treed(p, i),
    }
}

/// The package where a part is unpacked, and its bytes.
pub open spec fn bytes_read(p: Pack, part: Seq<char>) -> (Pack, Result<Seq<u8>, Fault>) {
    match place(p, part) {
        None => (p, Err(Fault::PartNotFound(part))),
        Some(i) => {
            let m = materialized(p, i);
            match m.fault {
                Some(f) => (m.pack, Err(f)),
                None => match m.pack.entries[i].body {
                    Body::Bytes(b) => (m.pack, Ok(b)),
                    Body::Tree(d) => (
                        m.pack,
                        if d.dirty {
                            Err(
                                fault::in_part(
                                    part,
                                    Fault::Plain(
                                        Error::Unsupported(
                                            "opc: часть изменена как дерево, байты берите из dom().serialize()",
                                        ),
                                    ),
                                ),
                            )
                        } else {
                            Ok(d.src)
                        },
                    ),
                    _ => (m.pack, Err(Fault::PartNotFound(part))),
                },
            }
        },
    }
}

impl<'a> Package<'a> {
    /// Any other content of an entry keeps what holds of a package.
    proof fn lemma_any_slot_set(self, i: int)
        requires
            self.wf(),
            0 <= i < self.entries@.len(),
            i != self.ct_at,
        ensures
            forall|q: Package<'a>|
                only_slot(self, q, i) ==> #[trigger] q.wf() && q@ == with_entry(
                    self@,
                    i,
                    q.entries@[i]@,
                ),
    {
        assert forall|q: Package<'a>| only_slot(self, q, i) implies #[trigger] q.wf() && q@
            == with_entry(self@, i, q.entries@[i]@) by {
            q.lemma_slot_set(self.entries@, self@, i);
        }
    }
}

/// Two packages differ in the content of one entry alone.
pub open(crate) spec fn only_slot(p: Package<'_>, q: Package<'_>, i: int) -> bool {
    &&& q.zip == p.zip
    &&& q.limits == p.limits
    &&& q.index == p.index
    &&& q.content_types == p.content_types
    &&& q.ct_at == p.ct_at
    &&& q.entries@ == p.entries@.update(i, q.entries@[i])
    &&& q.entries@[i].name == p.entries@[i].name
    &&& q.entries@[i].wf(p.zip@.len())
}

/// A result, and the package behind it, are a step.
pub open spec fn steps_to(r: Result<(), Error>, after: Pack, s: Step) -> bool {
    after == s.pack && match r {
        Ok(_) => s.fault is None,
        Err(e) => s.fault == Some(fault::fault_of(e)),
    }
}

} // verus!
