//! Relationships: a part points at others by identifiers, and a table beside it
//! says which targets they have.
use vstd::prelude::*;
use vstd::string::*;

use crate::dom::arena::NodeId;
use crate::dom::document::Document;
use crate::dom::edit;
use crate::dom::model::Dom;
use crate::dom::query;
use crate::error::{Error, OpcError};
use crate::opc::content_types;
use crate::opc::fault;
use crate::opc::fault::Fault;
use crate::opc::partname;
use crate::opc::partname::PartName;
use crate::opc::table;
use crate::opc::table::Field;
use crate::text;

verus! {

/// The namespace of relationships.
pub const RELATIONSHIPS_NS: &'static str =
    "http://schemas.openxmlformats.org/package/2006/relationships";

/// A file of relationships with none in it.
pub const EMPTY_RELS: &'static str =
    "<?xml version=\"1.0\" encoding=\"UTF-8\" standalone=\"yes\"?>\n<Relationships xmlns=\"http://schemas.openxmlformats.org/package/2006/relationships\"></Relationships>";

/// Where a target lies.
#[derive(Debug, Clone, Copy, PartialEq, Eq, Structural)]
pub enum TargetMode {
    /// The target is a part of the package.
    Internal,
    /// The target lies outside. It is never read as the name of a part.
    External,
}

/// A relationship.
#[derive(Debug, Clone)]
pub struct Rel {
    pub id: String,
    /// The URI of the type.
    pub rel_type: String,
    /// The target as it is written.
    pub target: String,
    pub mode: TargetMode,
    pub node: NodeId,
}

/// The relationships of a part.
#[derive(Debug)]
pub struct Rels {
    pub(crate) owner: PartName,
    pub(crate) root: NodeId,
    /// The prefix of new elements with its colon, or nothing.
    pub(crate) prefix: String,
    pub(crate) rels: Vec<Rel>,
}

/// A relationship, as texts.
pub struct Link {
    pub id: Seq<char>,
    pub rel_type: Seq<char>,
    pub target: Seq<char>,
    pub mode: TargetMode,
    pub node: int,
}

/// The relationships of a part, as texts.
pub struct Book {
    pub owner: Seq<char>,
    pub root: int,
    pub prefix: Seq<char>,
    pub links: Seq<Link>,
}

impl Rel {
    pub open spec fn view(&self) -> Link {
        Link {
            id: self.id@,
            rel_type: self.rel_type@,
            target: self.target@,
            mode: self.mode,
            node: self.node.num(),
        }
    }
}

pub open spec fn links_view(s: Seq<Rel>) -> Seq<Link> {
    s.map_values(|r: Rel| r@)
}

impl Rels {
    pub open(crate) spec fn view(&self) -> Book {
        Book {
            owner: self.owner@,
            root: self.root.num(),
            prefix: self.prefix@,
            links: links_view(self.rels@),
        }
    }

    pub open(crate) spec fn wf(&self) -> bool {
        self.owner.wf()
    }
}

/// The error for relationships that cannot be read.
pub open spec fn bad_rels(owner: Seq<char>, what: Seq<char>) -> Fault {
    Fault::BadRelationships(owner + ": "@ + what)
}

/// The mode that an attribute gives.
pub open spec fn mode_of(v: Option<Seq<char>>) -> Option<TargetMode> {
    match v {
        None => Some(TargetMode::Internal),
        Some(s) => if s == "External"@ {
            Some(TargetMode::External)
        } else if s == "Internal"@ {
            Some(TargetMode::Internal)
        } else {
            None
        },
    }
}

/// The relationships with the one that an element gives.
pub open spec fn link_added(d: Dom, b: Book, i: int) -> Result<Book, Fault> {
    if !content_types::is_called(d, i, "Relationship"@) {
        Ok(b)
    } else {
        match (
            content_types::field(d, i, "Id"@),
            content_types::field(d, i, "Type"@),
            content_types::field(d, i, "Target"@),
        ) {
            (Some(id), Some(rel_type), Some(target)) => match mode_of(
                content_types::field(d, i, "TargetMode"@),
            ) {
                Some(mode) => Ok(
                    Book {
                        links: b.links.push(Link { id, rel_type, target, mode, node: i }),
                        ..b
                    },
                ),
                None => Err(bad_rels(b.owner, "неизвестный TargetMode"@)),
            },
            _ => Err(bad_rels(b.owner, "Relationship без Id, Type или Target"@)),
        }
    }
}

/// The relationships that nodes give, one after the other, from `k` on.
pub open spec fn links_added(d: Dom, b: Book, s: Seq<int>, k: int) -> Result<Book, Fault>
    decreases s.len() - k,
{
    if !(0 <= k < s.len()) {
        Ok(b)
    } else {
        match link_added(d, b, s[k]) {
            Ok(c) => links_added(d, c, s, k + 1),
            Err(e) => Err(e),
        }
    }
}

/// The relationships that a document gives.
pub open spec fn book_of(owner: Seq<char>, d: Dom) -> Result<Book, Fault> {
    match query::first_element(d, d.kids(d.root), 0) {
        None => Err(
            Fault::Plain(Error::Xml { kind: crate::error::XmlError::NoRoot, offset: 0 }),
        ),
        Some(root) => if !content_types::is_called(d, root, "Relationships"@) || query::uri_of(
            d,
            root,
        ) != Some(RELATIONSHIPS_NS@) {
            Err(bad_rels(owner, "корень не Relationships"@))
        } else {
            links_added(
                d,
                Book { owner, root, prefix: table::prefix_text(d, root), links: Seq::empty() },
                d.kids(root),
                0,
            )
        },
    }
}

/// The place of the first relationship with an identifier, from `k` on.
pub open spec fn link_place(s: Seq<Link>, id: Seq<char>, k: int) -> Option<int>
    decreases s.len() - k,
{
    if !(0 <= k < s.len()) {
        None
    } else if s[k].id == id {
        Some(k)
    } else {
        link_place(s, id, k + 1)
    }
}

/// The relationships of a type.
pub open spec fn of_type(s: Seq<Link>, rel_type: Seq<char>) -> Seq<Link>
    decreases s.len(),
{
    if s.len() == 0 {
        Seq::empty()
    } else if s.last().rel_type == rel_type {
        of_type(s.drop_last(), rel_type).push(s.last())
    } else {
        of_type(s.drop_last(), rel_type)
    }
}

/// The part at which a relationship points; `None` when it points outside.
pub open spec fn link_target(owner: Seq<char>, l: Link) -> Result<Option<Seq<char>>, Fault> {
    match l.mode {
        TargetMode::External => Ok(None),
        TargetMode::Internal => match partname::resolved(owner, l.target) {
            Ok(t) => Ok(Some(t)),
            Err(e) => Err(e),
        },
    }
}

/// The identifier with a number.
pub open spec fn numbered_id(n: nat) -> Seq<char> {
    "rId"@ + text::decimal(n)
}

/// Whether no relationship has the identifier with a number.
pub open spec fn is_free(s: Seq<Link>, n: nat) -> bool {
    link_place(s, numbered_id(n), 0) is None
}

/// Whether `n` is the least number above that of the relationships whose
/// identifier is free.
pub open spec fn next_free(s: Seq<Link>, n: nat) -> bool {
    n > s.len() && is_free(s, n) && forall|m: nat| s.len() < m < n ==> !#[trigger] is_free(s, m)
}

/// A new identifier.
pub open spec fn fresh_id(s: Seq<Link>) -> Seq<char> {
    numbered_id(choose|n: nat| next_free(s, n))
}

/// The relationships and their document after a change, and what stopped it.
pub struct Changed<T> {
    pub book: Book,
    pub doc: Dom,
    pub done: Result<T, Error>,
}

/// The fields of an element that gives a relationship.
pub open spec fn link_fields(
    id: Seq<char>,
    rel_type: Seq<char>,
    target: Seq<char>,
    mode: TargetMode,
) -> Seq<table::FieldText> {
    let s = seq![
        table::FieldText { name: "Id"@, value: id },
        table::FieldText { name: "Type"@, value: rel_type },
        table::FieldText { name: "Target"@, value: target },
    ];
    if mode is External {
        s.push(table::FieldText { name: "TargetMode"@, value: "External"@ })
    } else {
        s
    }
}

/// The relationships with one more.
pub open spec fn link_made(
    b: Book,
    d: Dom,
    rel_type: Seq<char>,
    target: Seq<char>,
    mode: TargetMode,
) -> Changed<Seq<char>> {
    let id = fresh_id(b.links);
    let o = table::entry_added(
        d,
        b.root,
        b.prefix + "Relationship"@,
        link_fields(id, rel_type, target, mode),
    );
    match o.fault {
        Some(x) => Changed { book: b, doc: o.doc, done: Err(x) },
        None => Changed {
            book: Book {
                links: b.links.push(
                    Link { id, rel_type, target, mode, node: d.nodes.len() as int },
                ),
                ..b
            },
            doc: o.doc,
            done: Ok(id),
        },
    }
}

/// The relationships without the first one that has an identifier.
pub open spec fn link_removed(b: Book, d: Dom, id: Seq<char>) -> Changed<bool> {
    match link_place(b.links, id, 0) {
        None => Changed { book: b, doc: d, done: Ok(false) },
        Some(k) => match edit::node_removed(d, b.links[k].node) {
            Ok(e) => Changed {
                book: Book { links: b.links.remove(k), ..b },
                doc: e,
                done: Ok(true),
            },
            Err(x) => Changed { book: b, doc: d, done: Err(x) },
        },
    }
}

/// Whether a relationship points at a part.
pub open spec fn points_at(owner: Seq<char>, l: Link, part: Seq<char>) -> bool {
    l.mode is Internal && match partname::resolved(owner, l.target) {
        Ok(t) => text::lowered(t) == text::lowered(part),
        Err(_) => false,
    }
}

/// The relationships where those from the place `k` on that point at a part are
/// removed; `n` were removed before.
pub open spec fn links_swept(b: Book, d: Dom, part: Seq<char>, k: int, n: nat) -> Changed<nat>
    decreases b.links.len() - k,
{
    if !(0 <= k < b.links.len()) {
        Changed { book: b, doc: d, done: Ok(n) }
    } else if points_at(b.owner, b.links[k], part) {
        match edit::node_removed(d, b.links[k].node) {
            Ok(e) => links_swept(Book { links: b.links.remove(k), ..b }, e, part, k, n + 1),
            Err(x) => Changed { book: b, doc: d, done: Err(x) },
        }
    } else {
        links_swept(b, d, part, k + 1, n)
    }
}

/// The relationships without those that point at a part.
pub open spec fn unpointed(b: Book, d: Dom, part: Seq<char>) -> Changed<nat> {
    links_swept(b, d, part, 0, 0)
}

pub open spec fn count_view(r: Result<usize, Error>) -> Result<nat, Error> {
    match r {
        Ok(n) => Ok(n as nat),
        Err(e) => Err(e),
    }
}

fn bad(owner: &PartName, what: &str) -> (r: Error)
    ensures
        fault::fault_of(r) == bad_rels(owner@, what@),
{
    let mut m: String = owner.as_str().to_owned();
    m.append(": ");
    m.append(what);
    Error::Opc(OpcError::BadRelationships(m))
}

pub proof fn lemma_link_place(s: Seq<Link>, id: Seq<char>, k: int)
    requires
        0 <= k,
    ensures
        match link_place(s, id, k) {
            Some(j) => k <= j < s.len() && s[j].id == id,
            None => forall|j: int| k <= j < s.len() ==> (#[trigger] s[j]).id != id,
        },
    decreases s.len() - k,
{
    if k < s.len() && s[k].id != id {
        lemma_link_place(s, id, k + 1);
    }
}

/// Numbers that differ are written differently.
pub proof fn lemma_decimal_differs(a: nat, b: nat)
    requires
        text::decimal(a) == text::decimal(b),
    ensures
        a == b,
    decreases a,
{
    let x = text::decimal(a);
    let y = text::decimal(b);
    assert(x.last() == text::digit(a % 10));
    assert(y.last() == text::digit(b % 10));
    assert(a % 10 == b % 10);
    if a < 10 {
        assert(x.len() == 1);
        if b >= 10 {
            lemma_decimal_len(b / 10);
        }
    } else {
        lemma_decimal_len(a / 10);
        if b < 10 {
            assert(y.len() == 1);
        } else {
            assert(x.drop_last() =~= text::decimal(a / 10));
            assert(y.drop_last() =~= text::decimal(b / 10));
            lemma_decimal_differs(a / 10, b / 10);
        }
    }
}

proof fn lemma_decimal_len(a: nat)
    ensures
        text::decimal(a).len() > 0,
{
}

/// As many relationships as there are numbers that are taken.
proof fn lemma_taken(s: Seq<Link>, lo: nat, hi: nat)
    requires
        lo <= hi,
        forall|m: nat| lo <= m < hi ==> !#[trigger] is_free(s, m),
    ensures
        hi - lo <= s.len(),
{
    let at = Seq::new(
        (hi - lo) as nat,
        |k: int| link_place(s, numbered_id((lo + k) as nat), 0)->0,
    );
    assert forall|k: int| 0 <= k < at.len() implies 0 <= #[trigger] at[k] < s.len() && s[at[k]].id
        == numbered_id((lo + k) as nat) by {
        assert(!is_free(s, (lo + k) as nat));
        lemma_link_place(s, numbered_id((lo + k) as nat), 0);
    }
    assert forall|i: int, j: int|
        0 <= i < at.len() && 0 <= j < at.len() && i != j implies at[i] != at[j] by {
        if at[i] == at[j] {
            let x = numbered_id((lo + i) as nat);
            let y = numbered_id((lo + j) as nat);
            assert(x == y);
            let n = "rId"@.len() as int;
            assert(x.skip(n) =~= text::decimal((lo + i) as nat));
            assert(y.skip(n) =~= text::decimal((lo + j) as nat));
            lemma_decimal_differs((lo + i) as nat, (lo + j) as nat);
        }
    }
    assert(at.no_duplicates());
    at.unique_seq_to_set();
    let all = vstd::set_lib::set_int_range(0, s.len() as int);
    vstd::set_lib::lemma_int_range(0, s.len() as int);
    assert(at.to_set().subset_of(all));
    vstd::set_lib::lemma_len_subset(at.to_set(), all);
}

/// The least number from `n` on whose identifier is free is there.
proof fn lemma_free_from(s: Seq<Link>, n: nat)
    requires
        s.len() < n <= 2 * s.len() + 1,
        forall|m: nat| s.len() < m < n ==> !#[trigger] is_free(s, m),
    ensures
        exists|m: nat| next_free(s, m),
    decreases 2 * s.len() + 1 - n,
{
    if is_free(s, n) {
        assert(next_free(s, n));
    } else {
        lemma_taken(s, (s.len() + 1) as nat, (n + 1) as nat);
        lemma_free_from(s, n + 1);
    }
}

/// Some identifier is free.
pub proof fn lemma_free_exists(s: Seq<Link>)
    ensures
        exists|m: nat| next_free(s, m),
{
    lemma_free_from(s, (s.len() + 1) as nat);
}

impl Rels {
    /// The relationships that a document gives.
    pub fn parse(owner: PartName, doc: &Document) -> (r: Result<Self, Error>)
        requires
            doc.wf(),
            owner.wf(),
        ensures
            match r {
                Ok(t) => book_of(owner@, doc@) == Ok::<Book, Fault>(t@) && t.wf(),
                Err(e) => book_of(owner@, doc@) == Err::<Book, Fault>(fault::fault_of(e)),
            },
    {
        let ghost d = doc@;
        let root: NodeId = match doc.root_element() {
            Ok(n) => n,
            Err(e) => return Err(e),
        };
        let right: bool = content_types::called(doc, root, "Relationships")
            && match doc.element_uri(root) {
            Some(u) => text::same_text(u, RELATIONSHIPS_NS),
            None => false,
        };
        if !right {
            return Err(bad(&owner, "корень не Relationships"));
        }
        let ghost name = owner@;
        let mut t = Rels { owner, root, prefix: table::prefix_of(doc, root), rels: Vec::new() };
        let kids: Vec<NodeId> = doc.children(root);
        let ghost s = d.kids(root.num());
        let mut k: usize = 0;
        assert(links_view(t.rels@) =~= Seq::<Link>::empty());
        while k < kids.len()
            invariant
                doc.wf(),
                t.wf(),
                d == doc@,
                k <= kids@.len(),
                query::ids(kids@) == s,
                name == owner@,
                book_of(name, d) == links_added(d, t@, s, k as int),
            decreases kids@.len() - k,
        {
            assert(s[k as int] == kids@[k as int].num());
            if let Err(e) = t.read_entry(doc, kids[k]) {
                return Err(e);
            }
            k = k + 1;
        }
        assert(s.len() == kids@.len());
        Ok(t)
    }

    /// Takes up the relationship that an element gives.
    fn read_entry(&mut self, doc: &Document, n: NodeId) -> (r: Result<(), Error>)
        requires
            doc.wf(),
            old(self).wf(),
        ensures
            final(self).wf(),
            match r {
                Ok(_) => link_added(doc@, old(self)@, n.num()) == Ok::<Book, Fault>(final(self)@),
                Err(e) => link_added(doc@, old(self)@, n.num()) == Err::<Book, Fault>(
                    fault::fault_of(e),
                ),
            },
    {
        let ghost before = self@;
        if !content_types::called(doc, n, "Relationship") {
            return Ok(());
        }
        let id = doc.attr(n, None, "Id");
        let rel_type = doc.attr(n, None, "Type");
        let target = doc.attr(n, None, "Target");
        match (id, rel_type, target) {
            (Some(id), Some(rel_type), Some(target)) => {
                let mode: TargetMode = match doc.attr(n, None, "TargetMode") {
                    None => TargetMode::Internal,
                    Some(m) => {
                        if text::same_text(m.as_str(), "External") {
                            TargetMode::External
                        } else if text::same_text(m.as_str(), "Internal") {
                            TargetMode::Internal
                        } else {
                            return Err(bad(&self.owner, "неизвестный TargetMode"));
                        }
                    },
                };
                let rel = Rel { id, rel_type, target, mode, node: n };
                self.rels.push(rel);
                assert(self@.links =~= before.links.push(rel@));
                Ok(())
            },
            _ => Err(bad(&self.owner, "Relationship без Id, Type или Target")),
        }
    }

    /// The part to which the relationships belong.
    #[must_use]
    pub fn owner(&self) -> (r: &PartName)
        ensures
            r@ == self@.owner,
            self.wf() ==> r.wf(),
    {
        &self.owner
    }

    /// All relationships, in their order.
    #[must_use]
    pub fn iter(&self) -> (r: &[Rel])
        ensures
            links_view(r@) == self@.links,
    {
        self.rels.as_slice()
    }

    /// How many relationships there are.
    #[must_use]
    pub fn len(&self) -> (r: usize)
        ensures
            r == self@.links.len(),
    {
        self.rels.len()
    }

    #[must_use]
    pub fn is_empty(&self) -> (r: bool)
        ensures
            r == (self@.links.len() == 0),
    {
        self.rels.len() == 0
    }

    fn find(&self, id: &str) -> (r: Option<usize>)
        ensures
            match r {
                Some(k) => link_place(self@.links, id@, 0) == Some(k as int) && k
                    < self.rels@.len(),
                None => link_place(self@.links, id@, 0) is None,
            },
    {
        let mut k: usize = 0;
        while k < self.rels.len()
            invariant
                k <= self.rels@.len(),
                link_place(self@.links, id@, 0) == link_place(self@.links, id@, k as int),
            decreases self.rels@.len() - k,
        {
            assert(self@.links[k as int] == self.rels@[k as int]@);
            if text::same_text(self.rels[k].id.as_str(), id) {
                return Some(k);
            }
            k = k + 1;
        }
        None
    }

    /// The relationship with an identifier.
    #[must_use]
    pub fn by_id(&self, id: &str) -> (r: Option<&Rel>)
        ensures
            match r {
                Some(l) => match link_place(self@.links, id@, 0) {
                    Some(k) => l@ == self@.links[k],
                    None => false,
                },
                None => link_place(self@.links, id@, 0) is None,
            },
    {
        match self.find(id) {
            Some(k) => {
                assert(self@.links[k as int] == self.rels@[k as int]@);
                Some(&self.rels[k])
            },
            None => None,
        }
    }

    /// The relationships of a type, in their order.
    #[must_use]
    pub fn by_type(&self, rel_type: &str) -> (r: Vec<&Rel>)
        ensures
            r@.map_values(|l: &Rel| l@) == of_type(self@.links, rel_type@),
    {
        let mut v: Vec<&Rel> = Vec::new();
        let mut k: usize = 0;
        let ghost all = self@.links;
        assert(v@.map_values(|l: &Rel| l@) =~= of_type(all.take(0), rel_type@));
        while k < self.rels.len()
            invariant
                k <= self.rels@.len(),
                all == self@.links,
                v@.map_values(|l: &Rel| l@) == of_type(all.take(k as int), rel_type@),
            decreases self.rels@.len() - k,
        {
            let ghost before = v@;
            assert(all[k as int] == self.rels@[k as int]@);
            assert(all.take(k + 1).drop_last() =~= all.take(k as int));
            if text::same_text(self.rels[k].rel_type.as_str(), rel_type) {
                v.push(&self.rels[k]);
                assert(v@.map_values(|l: &Rel| l@) =~= before.map_values(|l: &Rel| l@).push(
                    self.rels@[k as int]@,
                ));
            }
            k = k + 1;
        }
        assert(all.take(k as int) =~= all);
        v
    }

    /// The part at which a relationship points; `None` when it points outside.
    pub fn resolve(&self, rel: &Rel) -> (r: Result<Option<PartName>, Error>)
        ensures
            match r {
                Ok(t) => link_target(self@.owner, rel@) == Ok::<Option<Seq<char>>, Fault>(
                    match t {
                        Some(n) => Some(n@),
                        None => None,
                    },
                ),
                Err(e) => link_target(self@.owner, rel@) == Err::<Option<Seq<char>>, Fault>(
                    fault::fault_of(e),
                ),
            },
            r matches Ok(Some(n)) ==> n.wf(),
    {
        match rel.mode {
            TargetMode::External => Ok(None),
            TargetMode::Internal => match self.owner.resolve(rel.target.as_str()) {
                Ok(n) => Ok(Some(n)),
                Err(e) => Err(e),
            },
        }
    }

    /// The part at which the relationship with an identifier points.
    pub fn target_of(&self, id: &str) -> (r: Result<PartName, Error>)
        ensures
            partname::name_view(r) == match link_place(self@.links, id@, 0) {
                None => Err(Fault::RelationshipNotFound(id@)),
                Some(k) => match link_target(self@.owner, self@.links[k]) {
                    Err(e) => Err(e),
                    Ok(Some(t)) => Ok(t),
                    Ok(None) => Err(
                        Fault::Plain(
                            Error::Unsupported("opc: внешняя цель не является частью пакета"),
                        ),
                    ),
                },
            },
            r matches Ok(n) ==> n.wf(),
    {
        let rel: &Rel = match self.by_id(id) {
            Some(l) => l,
            None => return Err(Error::Opc(OpcError::RelationshipNotFound(id.to_owned()))),
        };
        match self.resolve(rel) {
            Err(e) => Err(e),
            Ok(Some(n)) => Ok(n),
            Ok(None) => Err(Error::Unsupported("opc: внешняя цель не является частью пакета")),
        }
    }

    /// A new identifier: `rId` with the least number above that of the
    /// relationships that is free.
    #[must_use]
    pub fn next_id(&self) -> (r: String)
        ensures
            r@ == fresh_id(self@.links),
            link_place(self@.links, r@, 0) is None,
    {
        let ghost s = self@.links;
        let mut n: u128 = self.rels.len() as u128 + 1;
        let total: usize = self.rels.len();
        loop
            invariant
                s == self@.links,
                total == s.len(),
                total < n <= 2 * total + 1,
                forall|m: nat| s.len() < m < n ==> !#[trigger] is_free(s, m),
            decreases 2 * total + 1 - n,
        {
            let mut c: String = "rId".to_owned();
            text::push_decimal_wide(&mut c, n);
            assert(c@ == numbered_id(n as nat));
            match self.find(c.as_str()) {
                None => {
                    proof {
                        assert(is_free(s, n as nat));
                        assert(next_free(s, n as nat));
                        let m = choose|m: nat| next_free(s, m);
                        if m < n {
                            assert(!is_free(s, m));
                        }
                        if n < m {
                            assert(!is_free(s, n as nat));
                        }
                    }
                    return c;
                },
                Some(_) => {
                    proof {
                        assert(!is_free(s, n as nat));
                        lemma_taken(s, (total + 1) as nat, (n + 1) as nat);
                    }
                    n = n + 1;
                },
            }
        }
    }

    /// Adds a relationship and returns its identifier. The target is written as
    /// it is.
    pub fn add(
        &mut self,
        doc: &mut Document,
        rel_type: &str,
        target: &str,
        mode: TargetMode,
    ) -> (r: Result<String, Error>)
        requires
            old(doc).wf(),
            old(self).wf(),
        ensures
            final(doc).wf(),
            final(self).wf(),
            ({
                let c = link_made(old(self)@, old(doc)@, rel_type@, target@, mode);
                &&& final(self)@ == c.book
                &&& final(doc)@ == c.doc
                &&& query::result_view(r) == c.done
            }),
    {
        let ghost b = self@;
        let id: String = self.next_id();
        let made = {
            let three: [Field<'_>; 3] = [
                Field { name: "Id", value: id.as_str() },
                Field { name: "Type", value: rel_type },
                Field { name: "Target", value: target },
            ];
            if mode == TargetMode::External {
                let four: [Field<'_>; 4] = [
                    Field { name: "Id", value: id.as_str() },
                    Field { name: "Type", value: rel_type },
                    Field { name: "Target", value: target },
                    Field { name: "TargetMode", value: "External" },
                ];
                assert(table::fields(four@) =~= link_fields(id@, rel_type@, target@, mode));
                table::add_entry(
                    doc,
                    self.root,
                    self.prefix.as_str(),
                    "Relationship",
                    four.as_slice(),
                )
            } else {
                assert(table::fields(three@) =~= link_fields(id@, rel_type@, target@, mode));
                table::add_entry(
                    doc,
                    self.root,
                    self.prefix.as_str(),
                    "Relationship",
                    three.as_slice(),
                )
            }
        };
        let node: NodeId = match made {
            Ok(n) => n,
            Err(e) => return Err(e),
        };
        let rel = Rel {
            id: id.as_str().to_owned(),
            rel_type: rel_type.to_owned(),
            target: target.to_owned(),
            mode,
            node,
        };
        self.rels.push(rel);
        assert(self@.links =~= b.links.push(rel@));
        Ok(id)
    }

    /// Removes the relationship with an identifier. Returns whether there was
    /// one.
    pub fn remove_by_id(&mut self, doc: &mut Document, id: &str) -> (r: Result<bool, Error>)
        requires
            old(doc).wf(),
            old(self).wf(),
        ensures
            final(doc).wf(),
            final(self).wf(),
            ({
                let c = link_removed(old(self)@, old(doc)@, id@);
                final(self)@ == c.book && final(doc)@ == c.doc && r == c.done
            }),
    {
        let ghost b = self@;
        let k: usize = match self.find(id) {
            Some(k) => k,
            None => return Ok(false),
        };
        assert(b.links[k as int] == self.rels@[k as int]@);
        let node: NodeId = self.rels[k].node;
        if let Err(x) = doc.remove(node) {
            return Err(x);
        }
        let _gone = self.rels.remove(k);
        assert(self@.links =~= b.links.remove(k as int));
        Ok(true)
    }

    /// Removes the relationships that point at a part. Returns how many there
    /// were.
    pub fn remove_targeting(&mut self, doc: &mut Document, part: &PartName) -> (r: Result<
        usize,
        Error,
    >)
        requires
            old(doc).wf(),
            old(self).wf(),
            part.wf(),
        ensures
            final(doc).wf(),
            final(self).wf(),
            ({
                let c = unpointed(old(self)@, old(doc)@, part@);
                &&& final(self)@ == c.book
                &&& final(doc)@ == c.doc
                &&& count_view(r) == c.done
            }),
    {
        let all: usize = self.rels.len();
        let mut n: usize = 0;
        let mut k: usize = 0;
        while k < self.rels.len()
            invariant
                doc.wf(),
                self.wf(),
                part.wf(),
                k <= self.rels@.len(),
                n + self.rels@.len() == all,
                unpointed(old(self)@, old(doc)@, part@) == links_swept(
                    self@,
                    doc@,
                    part@,
                    k as int,
                    n as nat,
                ),
            decreases self.rels@.len() - k,
        {
            let ghost b = self@;
            assert(b.links[k as int] == self.rels@[k as int]@);
            if self.hits(k, part) {
                let node: NodeId = self.rels[k].node;
                if let Err(x) = doc.remove(node) {
                    return Err(x);
                }
                let _gone = self.rels.remove(k);
                assert(self@.links =~= b.links.remove(k as int));
                n = n + 1;
            } else {
                k = k + 1;
            }
        }
        Ok(n)
    }

    /// Whether the relationship at a place points at a part.
    fn hits(&self, k: usize, part: &PartName) -> (r: bool)
        requires
            self.wf(),
            part.wf(),
            k < self.rels@.len(),
        ensures
            r == points_at(self@.owner, self@.links[k as int], part@),
    {
        let rel: &Rel = &self.rels[k];
        assert(self@.links[k as int] == rel@);
        match rel.mode {
            TargetMode::External => false,
            TargetMode::Internal => match self.owner.resolve(rel.target.as_str()) {
                Ok(p) => text::same_text(p.key(), part.key()),
                Err(_) => false,
            },
        }
    }
}

} // verus!
