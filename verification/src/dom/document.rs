//! A document.
use vstd::prelude::*;
use vstd::string::*;

use crate::bytes::span::Span;
use crate::dom::arena;
use crate::dom::arena::{Links, Node, NodeId, NodeKind};
use crate::dom::model;
use crate::dom::node::{Attr, ElementData};
use crate::error::Error;
use crate::limits::Limits;

verus! {

/// A part that was read.
pub struct Document {
    /// The bytes of the part, with the byte order mark.
    pub(crate) src: Vec<u8>,
    /// New bytes. A space comes first: it separates new attributes.
    pub(crate) arena: Vec<u8>,
    pub(crate) nodes: Vec<Node>,
    pub(crate) elements: Vec<ElementData>,
    /// The attributes of all elements.
    pub(crate) attrs: Vec<Attr>,
    /// The namespaces.
    pub(crate) uris: Vec<String>,
    pub(crate) root: NodeId,
    pub(crate) bom: bool,
    pub(crate) dirty: bool,
    pub(crate) limits: Limits,
    pub(crate) links: Ghost<Links>,
}

pub open spec fn texts(s: Seq<String>) -> Seq<Seq<char>> {
    s.map_values(|t: String| t@)
}

/// The error for a node that is none of the document.
pub open spec fn no_node() -> Error {
    Error::Unsupported("dom: узел не принадлежит документу")
}

/// The error for a node that is no element.
pub open spec fn no_element() -> Error {
    Error::Unsupported("dom: узел не является элементом")
}

impl Document {
    pub open(crate) spec fn view(&self) -> model::Dom {
        model::Dom {
            src: self.src@,
            arena: self.arena@,
            nodes: arena::cores(self.nodes@),
            links: self.links@,
            elements: self.elements@,
            attrs: self.attrs@,
            uris: texts(self.uris@),
            root: self.root.num(),
            bom: self.bom,
            dirty: self.dirty,
            limits: self.limits,
        }
    }

    pub open(crate) spec fn wf(&self) -> bool {
        arena::linked(self.nodes@, self.links@) && model::wf(self@)
    }

    /// The bytes that were read.
    #[must_use]
    pub fn src(&self) -> (r: &[u8])
        ensures
            r@ == self@.src,
    {
        self.src.as_slice()
    }

    /// The root of the tree.
    #[must_use]
    pub fn document_node(&self) -> (r: NodeId)
        ensures
            r.num() == self@.root,
    {
        self.root
    }

    /// Whether the document was changed.
    #[must_use]
    pub fn is_dirty(&self) -> (r: bool)
        ensures
            r == self@.dirty,
    {
        self.dirty
    }

    /// Whether the part began with a byte order mark.
    #[must_use]
    pub fn has_bom(&self) -> (r: bool)
        ensures
            r == self@.bom,
    {
        self.bom
    }

    /// The number of nodes, with those that are not linked.
    #[must_use]
    pub fn node_count(&self) -> (r: usize)
        ensures
            r == self@.nodes.len(),
    {
        self.nodes.len()
    }

    /// The node with an identifier.
    pub(crate) fn node(&self, id: NodeId) -> (r: Result<Node, Error>)
        requires
            self.wf(),
        ensures
            match r {
                Ok(n) => {
                    &&& self@.has_node(id.num())
                    &&& n.bare() == self@.nodes[id.num()]
                    &&& arena::num_of(n.parent) == self@.up(id.num())
                    &&& arena::num_of(n.first_child) == arena::item(self@.kids(id.num()), 0)
                    &&& forall|p: int, k: int|
                        0 <= p < self@.nodes.len() && 0 <= k < self@.kids(p).len()
                            && #[trigger] self@.kids(p)[k] == id.num() ==> arena::num_of(n.next)
                            == arena::item(self@.kids(p), k + 1)
                },
                Err(e) => e == no_node() && !self@.has_node(id.num()),
            },
    {
        let i: usize = id.index();
        if i < self.nodes.len() {
            proof {
                assert(arena::ends_ok(self.nodes@, self.links@, i as int));
                assert forall|p: int, k: int|
                    0 <= p < self@.nodes.len() && 0 <= k < self@.kids(p).len()
                        && #[trigger] self@.kids(p)[k] == id.num() implies arena::num_of(
                    self.nodes@[i as int].next,
                ) == arena::item(self@.kids(p), k + 1) by {
                    assert(arena::sides_ok(self.nodes@, self.links@, p, k));
                }
            }
            Ok(self.nodes[i])
        } else {
            Err(Error::Unsupported("dom: узел не принадлежит документу"))
        }
    }

    /// The element of a node.
    pub(crate) fn elem(&self, id: NodeId) -> (r: Result<ElementData, Error>)
        requires
            self.wf(),
        ensures
            match r {
                Ok(e) => self@.is_element(id.num()) && e == self@.elem(id.num()) && model::elem_ok(
                    self@,
                    e,
                ),
                Err(e) => !self@.is_element(id.num()) && e == (if self@.has_node(id.num()) {
                    no_element()
                } else {
                    no_node()
                }),
            },
    {
        let n: Node = match self.node(id) {
            Ok(n) => n,
            Err(e) => return Err(e),
        };
        if n.kind != NodeKind::Element {
            return Err(Error::Unsupported("dom: узел не является элементом"));
        }
        proof {
            assert(model::node_ok(self@, id.num()));
        }
        Ok(self.elements[n.aux as usize])
    }

    /// The attributes of an element, in their order.
    pub(crate) fn attrs_of(&self, e: &ElementData) -> (r: &[Attr])
        requires
            self.wf(),
            model::elem_ok(self@, *e),
        ensures
            r@ == self@.attrs.subrange(e.attrs_from as int, e.attrs_from + e.attrs_len),
            forall|i: int| 0 <= i < r@.len() ==> model::attr_ok(self@, #[trigger] r@[i]),
    {
        let from: usize = e.attrs_from as usize;
        let n: usize = self.attrs.len();
        let r = vstd::slice::slice_subrange(
            self.attrs.as_slice(),
            from,
            from + e.attrs_len as usize,
        );
        proof {
            assert forall|i: int| 0 <= i < r@.len() implies model::attr_ok(
                self@,
                #[trigger] r@[i],
            ) by {
                assert(model::attr_at_ok(self@, from + i));
            }
        }
        r
    }

    /// The bytes of a span.
    pub(crate) fn bytes(&self, span: Span, in_arena: bool) -> (r: &[u8])
        requires
            self@.inside(span, in_arena),
        ensures
            r@ == self@.piece(span, in_arena),
    {
        let lo: usize = span.start as usize;
        let hi: usize = span.end as usize;
        if in_arena {
            vstd::slice::slice_subrange(self.arena.as_slice(), lo, hi)
        } else {
            vstd::slice::slice_subrange(self.src.as_slice(), lo, hi)
        }
    }
}

} // verus!
