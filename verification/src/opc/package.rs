//! A package: an archive, taken apart into parts.
//!
//! A part that is not changed is never packed again. Only a content that
//! differs from what was there is written anew.
use vstd::prelude::*;
use vstd::string::*;

use crate::dom::document::Document;
use crate::dom::model::Dom;
use crate::dom::parse;
use crate::error::{Error, OpcError};
use crate::limits::Limits;
use crate::opc::archive;
use crate::opc::archive::{Archive, Rec};
use crate::opc::content_types;
use crate::opc::content_types::{ContentTypes, Types, CONTENT_TYPES_NAME};
use crate::opc::fault;
use crate::opc::fault::Fault;
use crate::opc::order;
use crate::opc::order::Mark;
use crate::opc::partname;
use crate::opc::partname::PartName;
use crate::opc::rels;
use crate::opc::rels::{Book, Rels};
use crate::text;

verus! {

/// The type of a file of relationships.
pub const RELS_CONTENT_TYPE: &'static str =
    "application/vnd.openxmlformats-package.relationships+xml";

/// What is known of the content of an entry.
pub enum Slot {
    /// It was not read.
    Untouched,
    /// It was unpacked, or it was added.
    Bytes(Vec<u8>),
    /// It was read as a document.
    Dom(Box<Document>),
    /// The entry is removed.
    Deleted,
}

/// An entry of a package.
pub struct Entry {
    /// The name of the part. Directories and the types of parts are no parts.
    pub(crate) name: Option<PartName>,
    /// The place of the entry in the archive.
    pub(crate) zip: Option<usize>,
    pub(crate) zip_name: String,
    pub(crate) slot: Slot,
    /// The content was added: it is not that of the archive.
    pub(crate) added: bool,
    /// The relationships, when they were asked for.
    pub(crate) rels: Option<Rels>,
}

/// A package.
pub struct Package<'a> {
    pub(crate) zip: &'a Archive,
    pub(crate) limits: Limits,
    pub(crate) entries: Vec<Entry>,
    /// The keys of the parts, in their order.
    pub(crate) index: Vec<Mark>,
    pub(crate) content_types: ContentTypes,
    /// The place of the types of parts among the entries.
    pub(crate) ct_at: usize,
}

/// The content of an entry, as sequences.
pub enum Body {
    Untouched,
    Bytes(Seq<u8>),
    Tree(Dom),
    Gone,
}

/// An entry of a package, as sequences.
pub struct Ent {
    pub name: Option<Seq<char>>,
    pub zip: Option<int>,
    pub zip_name: Seq<char>,
    pub body: Body,
    pub added: bool,
    pub rels: Option<Book>,
}

/// A package, as sequences.
pub struct Pack {
    pub records: Seq<Rec>,
    pub limits: Limits,
    pub entries: Seq<Ent>,
    pub types: Types,
    pub ct_at: int,
}

impl Slot {
    pub open spec fn view(&self) -> Body {
        match self {
            Slot::Untouched => Body::Untouched,
            Slot::Bytes(b) => Body::Bytes(b@),
            Slot::Dom(d) => Body::Tree(d@),
            Slot::Deleted => Body::Gone,
        }
    }
}

impl Entry {
    pub open(crate) spec fn view(&self) -> Ent {
        Ent {
            name: match self.name {
                Some(n) => Some(n@),
                None => None,
            },
            zip: match self.zip {
                Some(i) => Some(i as int),
                None => None,
            },
            zip_name: self.zip_name@,
            body: self.slot@,
            added: self.added,
            rels: match self.rels {
                Some(r) => Some(r@),
                None => None,
            },
        }
    }

    /// The parts of an entry hold together.
    pub open(crate) spec fn wf(&self, records: nat) -> bool {
        &&& self.name matches Some(n) ==> n.wf()
        &&& self.zip matches Some(i) ==> i < records
        &&& self.slot is Untouched ==> self.zip is Some
        &&& self.slot matches Slot::Dom(d) ==> d.wf()
        &&& self.rels matches Some(r) ==> r.wf()
        &&& self.rels is Some ==> self.slot is Dom || self.slot is Deleted
    }
}

pub open spec fn ents(s: Seq<Entry>) -> Seq<Ent> {
    s.map_values(|e: Entry| e@)
}

/// Whether the entry with the index is a part with the key.
pub open spec fn has_key(s: Seq<Ent>, i: int, key: Seq<char>) -> bool {
    s[i].name is Some && text::lowered(s[i].name->0) == key
}

/// The place of the first entry with the key, from `k` on.
pub open spec fn key_place(s: Seq<Ent>, key: Seq<char>, k: int) -> Option<int>
    decreases s.len() - k,
{
    if !(0 <= k < s.len()) {
        None
    } else if has_key(s, k, key) {
        Some(k)
    } else {
        key_place(s, key, k + 1)
    }
}

/// Whether a key stands in the index with an entry that has it.
pub open spec fn mark_ok(marks: Seq<Mark>, s: Seq<Ent>, j: int) -> bool {
    marks[j].at < s.len() && has_key(s, marks[j].at as int, marks[j].key@)
}

/// Whether the entry with the index is marked.
pub open spec fn marked(marks: Seq<Mark>, s: Seq<Ent>, i: int) -> bool {
    s[i].name is Some ==> exists|j: int|
        0 <= j < marks.len() && (#[trigger] marks[j]).at == i
}

/// The index holds the keys of all parts, in their order.
pub open spec fn indexed(marks: Seq<Mark>, s: Seq<Ent>) -> bool {
    &&& order::sorted(marks)
    &&& forall|j: int| 0 <= j < marks.len() ==> #[trigger] mark_ok(marks, s, j)
    &&& forall|i: int| 0 <= i < s.len() ==> #[trigger] marked(marks, s, i)
}

impl<'a> Package<'a> {
    pub open(crate) spec fn view(&self) -> Pack {
        Pack {
            records: self.zip@,
            limits: self.limits,
            entries: ents(self.entries@),
            types: self.content_types@,
            ct_at: self.ct_at as int,
        }
    }

    /// The entries.
    pub open(crate) spec fn all(&self) -> Seq<Entry> {
        self.entries@
    }

    pub open(crate) spec fn wf(&self) -> bool {
        &&& forall|i: int|
            0 <= i < self.entries@.len() ==> (#[trigger] self.entries@[i]).wf(self.zip@.len())
        &&& self.ct_at < self.entries@.len()
        &&& self.entries@[self.ct_at as int].slot is Dom
        &&& self.entries@[self.ct_at as int].name is None
        &&& indexed(self.index@, ents(self.entries@))
    }
}

/// Whether an entry of an archive holds the types of parts.
pub open spec fn holds_types(name: Seq<char>) -> bool {
    text::lowered(name) == text::lowered(CONTENT_TYPES_NAME@)
}

/// The entries of a package that was not read yet, from the record `k` on.
pub open spec fn entries_from(records: Seq<Rec>, k: int) -> Result<Seq<Ent>, Fault>
    decreases records.len() - k,
{
    if !(0 <= k < records.len()) {
        Ok(Seq::empty())
    } else {
        let r = records[k];
        let plain = r.dir || holds_types(r.name);
        let full = seq!['/'] + r.name;
        if !plain && !partname::valid(full) {
            Err(Fault::BadPartName(full))
        } else {
            match entries_from(records, k + 1) {
                Err(e) => Err(e),
                Ok(rest) => Ok(
                    seq![
                        Ent {
                            name: if plain {
                                None
                            } else {
                                Some(full)
                            },
                            zip: Some(k),
                            zip_name: r.name,
                            body: Body::Untouched,
                            added: false,
                            rels: None,
                        },
                    ] + rest,
                ),
            }
        }
    }
}

/// The place of the last record before `k` that holds the types of parts.
pub open spec fn types_place(records: Seq<Rec>, k: int) -> Option<int>
    decreases k,
{
    if k <= 0 || k > records.len() {
        None
    } else if holds_types(records[k - 1].name) {
        Some(k - 1)
    } else {
        types_place(records, k - 1)
    }
}

/// Whether two entries before `k` have the key.
pub open spec fn twice(s: Seq<Ent>, key: Seq<char>, k: int) -> bool {
    exists|i: int, j: int|
        0 <= i < j < k && #[trigger] has_key(s, i, key) && #[trigger] has_key(s, j, key)
}

/// Whether the key is the first one that two entries have.
pub open spec fn first_twice(s: Seq<Ent>, key: Seq<char>, k: int) -> bool {
    twice(s, key, k) && forall|other: Seq<char>| #[trigger]
        twice(s, other, k) ==> other == key || order::before(key, other)
}

/// The first key that two entries have.
pub open spec fn twice_key(s: Seq<Ent>) -> Option<Seq<char>> {
    if exists|key: Seq<char>| twice(s, key, s.len() as int) {
        Some(choose|key: Seq<char>| first_twice(s, key, s.len() as int))
    } else {
        None
    }
}

/// The package that an archive is.
pub open spec fn opened(records: Seq<Rec>, limits: Limits) -> Result<Pack, Fault> {
    match entries_from(records, 0) {
        Err(e) => Err(e),
        Ok(s) => match types_place(records, records.len() as int) {
            None => Err(Fault::NoContentTypes),
            Some(at) => match twice_key(s) {
                Some(key) => Err(Fault::PartExists(key)),
                None => match records[at].content {
                    Err(e) => Err(Fault::Plain(e)),
                    Ok(b) => match parse::parsed(b, limits) {
                        Err(e) => Err(
                            fault::in_part(CONTENT_TYPES_NAME@, fault::fault_of(e)),
                        ),
                        Ok(d) => match content_types::types_of(d) {
                            Err(e) => Err(e),
                            Ok(types) => Ok(
                                Pack {
                                    records,
                                    limits,
                                    entries: s.update(at, Ent { body: Body::Tree(d), ..s[at] }),
                                    types,
                                    ct_at: at,
                                },
                            ),
                        },
                    },
                },
            },
        },
    }
}

pub proof fn lemma_entries_from(records: Seq<Rec>, k: int)
    requires
        0 <= k <= records.len(),
    ensures
        match entries_from(records, k) {
            Ok(s) => s.len() == records.len() - k && forall|i: int|
                0 <= i < s.len() ==> (#[trigger] s[i]).zip == Some(k + i) && s[i].zip_name
                    == records[k + i].name && (s[i].name is None <==> (records[k + i].dir
                    || holds_types(records[k + i].name))),
            Err(_) => true,
        },
    decreases records.len() - k,
{
    if k < records.len() {
        lemma_entries_from(records, k + 1);
        if let Ok(s) = entries_from(records, k) {
            let rest = entries_from(records, k + 1)->Ok_0;
            assert forall|i: int| 0 <= i < s.len() implies (#[trigger] s[i]).zip == Some(k + i)
                && s[i].zip_name == records[k + i].name && (s[i].name is None <==> (records[k
                + i].dir || holds_types(records[k + i].name))) by {
                if i > 0 {
                    assert(s[i] == rest[i - 1]);
                }
            }
        }
    }
}

/// The entries of a package that was not read yet are untouched, and none was
/// added.
pub proof fn lemma_untouched(records: Seq<Rec>, k: int)
    requires
        0 <= k <= records.len(),
    ensures
        match entries_from(records, k) {
            Ok(s) => forall|i: int|
                0 <= i < s.len() ==> (#[trigger] s[i]).body is Untouched && !s[i].added,
            Err(_) => true,
        },
    decreases records.len() - k,
{
    if k < records.len() {
        lemma_untouched(records, k + 1);
        if let Ok(s) = entries_from(records, k) {
            let rest = entries_from(records, k + 1)->Ok_0;
            assert forall|i: int| 0 <= i < s.len() implies (#[trigger] s[i]).body is Untouched by {
                if i > 0 {
                    assert(s[i] == rest[i - 1]);
                }
            }
        }
    }
}

pub proof fn lemma_types_place(records: Seq<Rec>, k: int)
    ensures
        types_place(records, k) matches Some(i) ==> 0 <= i < records.len(),
    decreases k,
{
    if 0 < k <= records.len() && !holds_types(records[k - 1].name) {
        lemma_types_place(records, k - 1);
    }
}

pub proof fn lemma_key_place(s: Seq<Ent>, key: Seq<char>, k: int)
    requires
        0 <= k,
    ensures
        match key_place(s, key, k) {
            Some(i) => k <= i < s.len() && has_key(s, i, key) && forall|j: int|
                k <= j < i ==> !#[trigger] has_key(s, j, key),
            None => forall|j: int| k <= j < s.len() ==> !#[trigger] has_key(s, j, key),
        },
    decreases s.len() - k,
{
    if k < s.len() && !has_key(s, k, key) {
        lemma_key_place(s, key, k + 1);
    }
}

/// In an index there is one mark for a key, and one entry.
pub proof fn lemma_one_mark(marks: Seq<Mark>, s: Seq<Ent>, p: int, i: int)
    requires
        indexed(marks, s),
        0 <= p < marks.len(),
        0 <= i < s.len(),
        has_key(s, i, marks[p].key@),
    ensures
        marks[p].at == i,
{
    assert(marked(marks, s, i));
    let j = choose|j: int| 0 <= j < marks.len() && (#[trigger] marks[j]).at == i;
    assert(mark_ok(marks, s, j));
    if j < p {
        assert(order::before(marks[j].key@, marks[p].key@));
        order::lemma_total(marks[j].key@, marks[p].key@);
    } else if p < j {
        assert(order::before(marks[p].key@, marks[j].key@));
        order::lemma_total(marks[p].key@, marks[j].key@);
    }
}

/// What is known of an index that is being built.
spec fn building(marks: Seq<Mark>, s: Seq<Ent>, k: int) -> bool {
    &&& 0 <= k <= s.len()
    &&& order::sorted(marks)
    &&& forall|j: int| 0 <= j < marks.len() ==> #[trigger] mark_ok(marks, s, j) && marks[j].at < k
    &&& forall|i: int| 0 <= i < k ==> #[trigger] keyed(marks, s, i)
}

/// The key of an entry stands in the index.
spec fn keyed(marks: Seq<Mark>, s: Seq<Ent>, i: int) -> bool {
    s[i].name is Some ==> exists|j: int|
        0 <= j < marks.len() && (#[trigger] marks[j]).key@ == text::lowered(s[i].name->0)
}

/// One more key in an index.
proof fn lemma_building_more(marks: Seq<Mark>, more: Seq<Mark>, s: Seq<Ent>, k: int, p: int)
    requires
        building(marks, s, k),
        k < s.len(),
        0 <= p <= marks.len(),
        order::sorted(more),
        more.len() == marks.len() + 1,
        forall|j: int| 0 <= j < p ==> more[j] == #[trigger] marks[j],
        forall|j: int| p <= j < marks.len() ==> more[j + 1] == #[trigger] marks[j],
        more[p].at == k,
        has_key(s, k, more[p].key@),
    ensures
        building(more, s, k + 1),
{
    assert forall|j: int| 0 <= j < more.len() implies #[trigger] mark_ok(more, s, j) && more[j].at
        < k + 1 by {
        lemma_mark_kept(marks, more, s, k, p, j);
    }
    assert forall|i: int| 0 <= i < k + 1 implies #[trigger] keyed(more, s, i) by {
        lemma_key_kept(marks, more, s, k, p, i);
    }
}

proof fn lemma_mark_kept(
    marks: Seq<Mark>,
    more: Seq<Mark>,
    s: Seq<Ent>,
    k: int,
    p: int,
    j: int,
)
    requires
        building(marks, s, k),
        k < s.len(),
        0 <= p <= marks.len(),
        more.len() == marks.len() + 1,
        forall|j: int| 0 <= j < p ==> more[j] == #[trigger] marks[j],
        forall|j: int| p <= j < marks.len() ==> more[j + 1] == #[trigger] marks[j],
        more[p].at == k,
        has_key(s, k, more[p].key@),
        0 <= j < more.len(),
    ensures
        mark_ok(more, s, j),
        more[j].at < k + 1,
{
    if j < p {
        assert(mark_ok(marks, s, j));
        assert(more[j] == marks[j]);
    } else if j > p {
        let i = j - 1;
        assert(mark_ok(marks, s, i));
        assert(more[i + 1] == marks[i]);
    }
}

proof fn lemma_key_kept(
    marks: Seq<Mark>,
    more: Seq<Mark>,
    s: Seq<Ent>,
    k: int,
    p: int,
    i: int,
)
    requires
        building(marks, s, k),
        k < s.len(),
        0 <= p <= marks.len(),
        more.len() == marks.len() + 1,
        forall|j: int| 0 <= j < p ==> more[j] == #[trigger] marks[j],
        forall|j: int| p <= j < marks.len() ==> more[j + 1] == #[trigger] marks[j],
        has_key(s, k, more[p].key@),
        0 <= i < k + 1,
    ensures
        keyed(more, s, i),
{
    if i < k {
        assert(keyed(marks, s, i));
        if s[i].name is Some {
            let j = choose|j: int|
                0 <= j < marks.len() && (#[trigger] marks[j]).key@ == text::lowered(s[i].name->0);
            if j < p {
                assert(more[j] == marks[j]);
            } else {
                assert(more[j + 1] == marks[j]);
            }
        }
    } else {
        assert(more[p].key@ == text::lowered(s[k].name->0));
    }
}

/// An index of all entries with no key twice holds every entry.
proof fn lemma_built(marks: Seq<Mark>, s: Seq<Ent>)
    requires
        building(marks, s, s.len() as int),
        forall|key: Seq<char>| !#[trigger] twice(s, key, s.len() as int),
    ensures
        indexed(marks, s),
{
    assert forall|i: int| 0 <= i < s.len() implies #[trigger] marked(marks, s, i) by {
        assert(keyed(marks, s, i));
        if s[i].name is Some {
            let key = text::lowered(s[i].name->0);
            let j = choose|j: int|
                0 <= j < marks.len() && (#[trigger] marks[j]).key@ == key;
            assert(mark_ok(marks, s, j));
            let x = marks[j].at as int;
            assert(has_key(s, x, key) && has_key(s, i, key));
            if x != i {
                assert(twice(s, key, s.len() as int));
            }
            assert(marks[j].at == i);
        }
    }
}

/// Two entries up to `k` have a key when two before do, or `k` has the key of
/// one before.
proof fn lemma_twice_more(s: Seq<Ent>, key: Seq<char>, k: int)
    requires
        0 <= k < s.len(),
    ensures
        twice(s, key, k + 1) == (twice(s, key, k) || (has_key(s, k, key) && exists|i: int|
            0 <= i < k && #[trigger] has_key(s, i, key))),
{
    if twice(s, key, k + 1) {
        let (i, j) = choose|i: int, j: int|
            0 <= i < j < k + 1 && #[trigger] has_key(s, i, key) && #[trigger] has_key(s, j, key);
        if j < k {
            assert(twice(s, key, k));
        }
    }
    if twice(s, key, k) {
        let (i, j) = choose|i: int, j: int|
            0 <= i < j < k && #[trigger] has_key(s, i, key) && #[trigger] has_key(s, j, key);
        assert(has_key(s, i, key) && has_key(s, j, key));
    }
    if has_key(s, k, key) && exists|i: int| 0 <= i < k && #[trigger] has_key(s, i, key) {
        let i = choose|i: int| 0 <= i < k && #[trigger] has_key(s, i, key);
        assert(has_key(s, i, key) && has_key(s, k, key));
    }
}

/// What is known of the first key that two entries have.
spec fn least_so_far(least: Option<Vec<char>>, s: Seq<Ent>, k: int) -> bool {
    match least {
        Some(w) => first_twice(s, w@, k),
        None => forall|key: Seq<char>| !#[trigger] twice(s, key, k),
    }
}

/// Makes the index of entries, or finds the first key that two of them have.
fn build_index(entries: &Vec<Entry>) -> (r: Result<Vec<Mark>, Vec<char>>)
    requires
        forall|i: int|
            0 <= i < entries@.len() ==> ((#[trigger] entries@[i]).name matches Some(n) ==> n.wf()),
    ensures
        match r {
            Ok(m) => indexed(m@, ents(entries@)) && twice_key(ents(entries@)) is None,
            Err(w) => twice_key(ents(entries@)) == Some(w@),
        },
{
    let ghost s = ents(entries@);
    let mut marks: Vec<Mark> = Vec::new();
    let mut least: Option<Vec<char>> = None;
    let mut k: usize = 0;
    assert forall|key: Seq<char>| !#[trigger] twice(s, key, 0) by {}
    while k < entries.len()
        invariant
            forall|i: int|
                0 <= i < entries@.len() ==> ((#[trigger] entries@[i]).name matches Some(n)
                    ==> n.wf()),
            s == ents(entries@),
            k <= entries@.len(),
            building(marks@, s, k as int),
            least_so_far(least, s, k as int),
        decreases entries@.len() - k,
    {
        let ghost old_marks = marks@;
        let ghost old_least = least;
        assert(s[k as int] == entries@[k as int]@);
        match &entries[k].name {
            None => {
                proof {
                    assert forall|key: Seq<char>|
                        #[trigger] twice(s, key, k + 1) == twice(s, key, k as int) by {
                        lemma_twice_more(s, key, k as int);
                    }
                    assert forall|key: Seq<char>|
                        #[trigger] twice(s, key, k as int) == twice(s, key, k + 1) by {
                        lemma_twice_more(s, key, k as int);
                    }
                    assert(keyed(marks@, s, k as int));
                    assert(least_so_far(least, s, k + 1));
                }
            },
            Some(n) => {
                let key: Vec<char> = text::chars_of(n.key());
                let ghost kk = key@;
                assert(has_key(s, k as int, kk));
                match order::search(&marks, key.as_slice()) {
                    Err(p) => {
                        proof {
                            lemma_new_key(marks@, s, k as int, kk, p as int);
                            assert forall|w: Seq<char>|
                                #[trigger] twice(s, w, k + 1) == twice(s, w, k as int) by {
                                lemma_twice_more(s, w, k as int);
                            }
                            assert forall|w: Seq<char>|
                                #[trigger] twice(s, w, k as int) == twice(s, w, k + 1) by {
                                lemma_twice_more(s, w, k as int);
                            }
                            assert(least_so_far(least, s, k + 1));
                        }
                        order::insert(&mut marks, p, key, k);
                        proof {
                            lemma_building_more(old_marks, marks@, s, k as int, p as int);
                        }
                    },
                    Ok(p) => {
                        proof {
                            assert(mark_ok(marks@, s, p as int));
                            assert(keyed(marks@, s, k as int));
                            assert forall|w: Seq<char>| #[trigger]
                                twice(s, w, k + 1) == (twice(s, w, k as int) || w == kk) by {
                                lemma_twice_more(s, w, k as int);
                                if w == kk {
                                    assert(has_key(s, marks@[p as int].at as int, w));
                                }
                            }
                            assert forall|w: Seq<char>| #[trigger]
                                twice(s, w, k as int) implies twice(s, w, k + 1) by {
                                lemma_twice_more(s, w, k as int);
                            }
                        }
                        least = match least {
                            None => Some(key),
                            Some(w) => match order::rank(key.as_slice(), w.as_slice()) {
                                order::Rank::Before => Some(key),
                                _ => Some(w),
                            },
                        };
                        proof {
                            let now = least->0@;
                            assert(twice(s, now, k + 1));
                            assert forall|w: Seq<char>| #[trigger]
                                twice(s, w, k + 1) implies w == now || order::before(now, w) by {
                                if let Some(v) = old_least {
                                    if twice(s, w, k as int) {
                                        if now != v@ && w != v@ {
                                            order::lemma_transitive(now, v@, w);
                                        }
                                    }
                                }
                            }
                            assert(first_twice(s, now, k + 1));
                        }
                    },
                }
            },
        }
        k = k + 1;
    }
    assert(s.len() == entries@.len());
    match least {
        Some(w) => {
            proof {
                let key = choose|key: Seq<char>| first_twice(s, key, s.len() as int);
                assert(first_twice(s, key, s.len() as int));
                order::lemma_total(key, w@);
                assert(twice(s, key, s.len() as int) && twice(s, w@, s.len() as int));
            }
            Err(w)
        },
        None => {
            proof {
                lemma_built(marks@, s);
            }
            Ok(marks)
        },
    }
}

/// A key that does not stand in an index is that of no entry in it.
proof fn lemma_new_key(marks: Seq<Mark>, s: Seq<Ent>, k: int, key: Seq<char>, p: int)
    requires
        building(marks, s, k),
        0 <= p <= marks.len(),
        forall|i: int| 0 <= i < p ==> order::before(#[trigger] marks[i].key@, key),
        forall|i: int| p <= i < marks.len() ==> order::before(key, #[trigger] marks[i].key@),
    ensures
        forall|i: int| 0 <= i < k ==> !#[trigger] has_key(s, i, key),
{
    assert forall|i: int| 0 <= i < k implies !#[trigger] has_key(s, i, key) by {
        if has_key(s, i, key) {
            assert(keyed(marks, s, i));
            let j = choose|j: int|
                0 <= j < marks.len() && (#[trigger] marks[j]).key@ == text::lowered(s[i].name->0);
            order::lemma_total(key, key);
            if j < p {
                assert(order::before(marks[j].key@, key));
            } else {
                assert(order::before(key, marks[j].key@));
            }
        }
    }
}

/// The error for a slot that is in no state in which it could be.
pub open spec fn bad_slot() -> Fault {
    Fault::Plain(Error::Unsupported("opc: слот части в неожиданном состоянии"))
}

impl<'a> Package<'a> {
    /// Opens a package. Only the types of parts are read.
    pub fn open(zip: &'a Archive, limits: Limits) -> (r: Result<Self, Error>)
        ensures
            match r {
                Ok(p) => p.wf() && opened(zip@, limits) == Ok::<Pack, Fault>(p@),
                Err(e) => opened(zip@, limits) == Err::<Pack, Fault>(fault::fault_of(e)),
            },
    {
        let ghost records = zip@;
        let mut entries: Vec<Entry> = Vec::new();
        let mut ct_at: Option<usize> = None;
        let mut i: usize = 0;
        proof {
            lemma_entries_from(records, 0);
            assert(ents(entries@) + entries_from(records, 0)->Ok_0 =~= entries_from(
                records,
                0,
            )->Ok_0);
        }
        let types_name: Vec<char> = text::chars_of(CONTENT_TYPES_NAME);
        while i < zip.records.len()
            invariant
                records == zip@,
                i <= records.len(),
                records.len() == zip.records@.len(),
                types_name@ == CONTENT_TYPES_NAME@,
                entries@.len() == i,
                forall|k: int|
                    0 <= k < entries@.len() ==> (#[trigger] entries@[k]).wf(records.len()),
                entries_from(records, i as int) is Ok ==> entries_from(records, 0)
                    == Ok::<Seq<Ent>, Fault>(
                    ents(entries@) + entries_from(records, i as int)->Ok_0,
                ),
                entries_from(records, i as int) is Err ==> entries_from(records, 0)
                    == entries_from(records, i as int),
                types_place(records, i as int) == match ct_at {
                    Some(k) => Some(k as int),
                    None => None,
                },
                ct_at matches Some(k) ==> k < i && holds_types(records[k as int].name),
            decreases records.len() - i,
        {
            let ghost before = entries@;
            assert(records[i as int] == zip.records@[i as int]@);
            let raw = &zip.records[i];
            let cs: Vec<char> = text::chars_of(raw.name.as_str());
            let is_ct: bool = text::same_ignoring_case(cs.as_slice(), types_name.as_slice());
            if is_ct {
                ct_at = Some(i);
            }
            let name: Option<PartName> = if raw.dir || is_ct {
                None
            } else {
                match PartName::from_zip_name(raw.name.as_str()) {
                    Ok(n) => Some(n),
                    Err(e) => return Err(e),
                }
            };
            let e = Entry {
                name,
                zip: Some(i),
                zip_name: raw.name.as_str().to_owned(),
                slot: Slot::Untouched,
                added: false,
                rels: None,
            };
            entries.push(e);
            proof {
                assert(ents(entries@) =~= ents(before).push(e@));
                if let Ok(rest) = entries_from(records, i + 1) {
                    assert(ents(before) + (seq![e@] + rest) =~= ents(entries@) + rest);
                }
            }
            i = i + 1;
        }
        proof {
            assert(ents(entries@) + Seq::<Ent>::empty() =~= ents(entries@));
        }
        let ghost s = ents(entries@);
        let at: usize = match ct_at {
            Some(k) => k,
            None => return Err(Error::Opc(OpcError::NoContentTypes)),
        };
        let index: Vec<Mark> = match build_index(&entries) {
            Ok(m) => m,
            Err(w) => return Err(
                Error::Opc(OpcError::PartExists(text::string_of(w.as_slice()))),
            ),
        };
        let raw: Vec<u8> = match zip.unpack(at) {
            Ok(b) => b,
            Err(e) => {
                proof {
                    archive::lemma_refused(zip.records@[at as int]);
                }
                return Err(e);
            },
        };
        let doc: Document = match Document::parse(raw, &limits) {
            Ok(d) => d,
            Err(e) => return Err(e.in_part(CONTENT_TYPES_NAME)),
        };
        let types: ContentTypes = match ContentTypes::parse(&doc) {
            Ok(t) => t,
            Err(e) => return Err(e),
        };
        let ghost before = entries@;
        proof {
            assert(s[at as int] == entries@[at as int]@);
            assert(s[at as int].name is None);
        }
        let slot: Slot = Slot::Dom(Box::new(doc));
        entries[at].slot = slot;
        proof {
            assert(ents(entries@) =~= s.update(
                at as int,
                Ent { body: Body::Tree(doc@), ..s[at as int] },
            ));
            lemma_reindexed(index@, s, ents(entries@));
        }
        Ok(
            Package { zip, limits, entries, index, content_types: types, ct_at: at },
        )
    }
}

/// The index rests on the names alone.
pub proof fn lemma_reindexed(marks: Seq<Mark>, s: Seq<Ent>, t: Seq<Ent>)
    requires
        indexed(marks, s),
        s.len() == t.len(),
        forall|i: int| 0 <= i < s.len() ==> (#[trigger] t[i]).name == s[i].name,
    ensures
        indexed(marks, t),
{
    assert forall|j: int| 0 <= j < marks.len() implies #[trigger] mark_ok(marks, t, j) by {
        assert(mark_ok(marks, s, j));
        assert(t[marks[j].at as int].name == s[marks[j].at as int].name);
    }
    assert forall|i: int| 0 <= i < t.len() implies #[trigger] marked(marks, t, i) by {
        assert(marked(marks, s, i));
        assert(t[i].name == s[i].name);
    }
}

} // verus!
