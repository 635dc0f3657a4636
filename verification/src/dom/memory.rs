//! The memory that a document takes.
//!
//! What is counted is the room that was set aside, not what is in use.
use vstd::prelude::*;
use vstd::string::*;

use crate::dom::arena::Node;
use crate::dom::document::Document;
use crate::dom::node::{Attr, ElementData};

verus! {

/// `Vec::capacity` of std: how many items there is room for. It is at least the
/// number of items; how much more it is depends on the allocator, and is not
/// stated.
#[verifier::external_body]
pub(crate) fn vec_room<T>(v: &Vec<T>) -> (r: usize)
    ensures
        r >= v@.len(),
{
    v.capacity()
}

/// `String::capacity` of std: how many bytes there is room for, which is for the
/// text in UTF-8 at least. How much room there is beyond it depends on the
/// allocator, and is not stated.
#[verifier::external_body]
pub(crate) fn text_room(s: &String) -> (r: usize)
    ensures
        r >= vstd::utf8::encode_utf8(s@).len(),
{
    s.capacity()
}

/// A number, or the largest one when it is larger.
pub open spec fn capped(n: int) -> int {
    if n <= usize::MAX {
        n
    } else {
        usize::MAX as int
    }
}

pub open spec fn total(s: Seq<usize>) -> int
    decreases s.len(),
{
    if s.len() == 0 {
        0
    } else {
        total(s.drop_last()) + s.last()
    }
}

/// The room of the tables of a document.
#[derive(Debug)]
pub struct Rooms {
    /// In bytes.
    pub src: usize,
    /// In bytes.
    pub arena: usize,
    /// In nodes.
    pub nodes: usize,
    /// In elements.
    pub elements: usize,
    /// In attributes.
    pub attrs: usize,
    /// In bytes, one for each namespace.
    pub uris: Vec<usize>,
}

pub open spec fn node_bytes(r: Rooms) -> int {
    r.nodes * vstd::layout::size_of::<Node>()
}

pub open spec fn element_bytes(r: Rooms) -> int {
    r.elements * vstd::layout::size_of::<ElementData>()
}

pub open spec fn attr_bytes(r: Rooms) -> int {
    r.attrs * vstd::layout::size_of::<Attr>()
}

/// All bytes for which there is room.
pub open spec fn all_bytes(r: Rooms) -> int {
    r.src + r.arena + node_bytes(r) + element_bytes(r) + attr_bytes(r) + total(r.uris@)
}

/// The room is enough for the document.
pub open(crate) spec fn holds(r: Rooms, d: Document) -> bool {
    &&& r.src >= d.src@.len()
    &&& r.arena >= d.arena@.len()
    &&& r.nodes >= d.nodes@.len()
    &&& r.elements >= d.elements@.len()
    &&& r.attrs >= d.attrs@.len()
    &&& r.uris@.len() == d.uris@.len()
    &&& forall|k: int|
        0 <= k < r.uris@.len() ==> #[trigger] r.uris@[k] >= vstd::utf8::encode_utf8(
            d.uris@[k]@,
        ).len()
}

/// The number of bytes can be that of the document.
pub open spec fn can_take(d: Document, n: usize) -> bool {
    exists|r: Rooms| #[trigger] holds(r, d) && n == capped(all_bytes(r))
}

/// How many bytes so many items take.
fn bytes_of(n: usize, size: usize) -> (r: usize)
    ensures
        r == capped(n * size),
{
    match n.checked_mul(size) {
        Some(v) => v,
        None => usize::MAX,
    }
}

/// The sum of the numbers.
pub fn sum(list: &Vec<usize>) -> (r: usize)
    ensures
        r == capped(total(list@)),
{
    let mut acc: usize = 0;
    let mut k: usize = 0;
    assert(total(list@.take(0)) == 0);
    while k < list.len()
        invariant
            k <= list@.len(),
            acc == capped(total(list@.take(k as int))),
            total(list@.take(k as int)) >= 0,
        decreases list@.len() - k,
    {
        proof {
            assert(list@.take(k + 1).drop_last() =~= list@.take(k as int));
            assert(list@.take(k + 1).last() == list@[k as int]);
        }
        acc = acc.saturating_add(list[k]);
        k = k + 1;
    }
    assert(list@.take(k as int) =~= list@);
    acc
}

pub proof fn lemma_total_nonneg(s: Seq<usize>)
    ensures
        total(s) >= 0,
    decreases s.len(),
{
    if s.len() > 0 {
        lemma_total_nonneg(s.drop_last());
    }
}

impl Rooms {
    /// What each table takes, with its name.
    #[must_use]
    pub fn breakdown(&self) -> (r: [(&'static str, usize); 5])
        ensures
            r@ == seq![
                ("исходник", self.src),
                ("узлы", capped(node_bytes(*self)) as usize),
                ("элементы", capped(element_bytes(*self)) as usize),
                ("атрибуты", capped(attr_bytes(*self)) as usize),
                ("арена", self.arena),
            ],
    {
        let r: [(&'static str, usize); 5] = [
            ("исходник", self.src),
            ("узлы", bytes_of(self.nodes, core::mem::size_of::<Node>())),
            ("элементы", bytes_of(self.elements, core::mem::size_of::<ElementData>())),
            ("атрибуты", bytes_of(self.attrs, core::mem::size_of::<Attr>())),
            ("арена", self.arena),
        ];
        r
    }

    /// All bytes.
    #[must_use]
    pub fn bytes(&self) -> (r: usize)
        ensures
            r == capped(all_bytes(*self)),
    {
        let nodes: usize = bytes_of(self.nodes, core::mem::size_of::<Node>());
        let elements: usize = bytes_of(self.elements, core::mem::size_of::<ElementData>());
        let attrs: usize = bytes_of(self.attrs, core::mem::size_of::<Attr>());
        let uris: usize = sum(&self.uris);
        proof {
            lemma_total_nonneg(self.uris@);
            vstd::arithmetic::mul::lemma_mul_nonnegative(
                self.nodes as int,
                vstd::layout::size_of::<Node>() as int,
            );
            vstd::arithmetic::mul::lemma_mul_nonnegative(
                self.elements as int,
                vstd::layout::size_of::<ElementData>() as int,
            );
            vstd::arithmetic::mul::lemma_mul_nonnegative(
                self.attrs as int,
                vstd::layout::size_of::<Attr>() as int,
            );
        }
        self.src.saturating_add(self.arena).saturating_add(nodes).saturating_add(
            elements,
        ).saturating_add(attrs).saturating_add(uris)
    }
}

impl Document {
    /// The room of the tables.
    #[must_use]
    pub fn rooms(&self) -> (r: Rooms)
        ensures
            holds(r, *self),
    {
        let mut uris: Vec<usize> = Vec::new();
        let mut k: usize = 0;
        while k < self.uris.len()
            invariant
                k <= self.uris@.len(),
                uris@.len() == k,
                forall|j: int|
                    0 <= j < k ==> #[trigger] uris@[j] >= vstd::utf8::encode_utf8(
                        self.uris@[j]@,
                    ).len(),
            decreases self.uris@.len() - k,
        {
            uris.push(text_room(&self.uris[k]));
            k = k + 1;
        }
        Rooms {
            src: vec_room(&self.src),
            arena: vec_room(&self.arena),
            nodes: vec_room(&self.nodes),
            elements: vec_room(&self.elements),
            attrs: vec_room(&self.attrs),
            uris,
        }
    }

    /// What the tables of the document take, each with its name, in bytes. How
    /// much room a table has depends on the allocator.
    #[must_use]
    pub fn memory_breakdown(&self) -> (r: [(&'static str, usize); 5])
        ensures
            exists|w: Rooms| #[trigger]
                holds(w, *self) && r@ == seq![
                    ("исходник", w.src),
                    ("узлы", capped(node_bytes(w)) as usize),
                    ("элементы", capped(element_bytes(w)) as usize),
                    ("атрибуты", capped(attr_bytes(w)) as usize),
                    ("арена", w.arena),
                ],
    {
        let w: Rooms = self.rooms();
        w.breakdown()
    }

    /// How many bytes the document takes. How much room a table has depends on
    /// the allocator.
    #[must_use]
    pub fn memory_bytes(&self) -> (r: usize)
        ensures
            can_take(*self, r),
    {
        let w: Rooms = self.rooms();
        let n: usize = w.bytes();
        assert(holds(w, *self));
        n
    }
}

} // verus!
