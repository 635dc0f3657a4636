//! A document as sequences.
use vstd::prelude::*;

use crate::bytes::span::Span;
use crate::dom::ancestry;
use crate::dom::arena;
use crate::dom::arena::{Core, Links, NodeFlags};
use crate::dom::node::{Attr, AttrFlags, ElemFlags, ElementData};
use crate::limits::Limits;

verus! {

/// A document.
pub struct Dom {
    /// The bytes that were read.
    pub src: Seq<u8>,
    /// The bytes that were written since.
    pub arena: Seq<u8>,
    pub nodes: Seq<Core>,
    pub links: Links,
    pub elements: Seq<ElementData>,
    pub attrs: Seq<Attr>,
    pub uris: Seq<Seq<char>>,
    pub root: int,
    pub bom: bool,
    pub dirty: bool,
    pub limits: Limits,
}

impl Dom {
    pub open spec fn buf(self, in_arena: bool) -> Seq<u8> {
        if in_arena {
            self.arena
        } else {
            self.src
        }
    }

    /// The bytes of a span.
    pub open spec fn piece(self, s: Span, in_arena: bool) -> Seq<u8> {
        self.buf(in_arena).subrange(s.start as int, s.end as int)
    }

    pub open spec fn inside(self, s: Span, in_arena: bool) -> bool {
        s.within(self.buf(in_arena).len())
    }

    /// Whether there is a node with the index.
    pub open spec fn has_node(self, i: int) -> bool {
        0 <= i < self.nodes.len()
    }

    pub open spec fn is_element(self, i: int) -> bool {
        self.has_node(i) && self.nodes[i].kind is Element
    }

    /// What is known of an element.
    pub open spec fn elem(self, i: int) -> ElementData {
        self.elements[self.nodes[i].aux as int]
    }

    /// The attributes of an element.
    pub open spec fn attrs_of(self, i: int) -> Seq<Attr> {
        let e = self.elem(i);
        self.attrs.subrange(e.attrs_from as int, e.attrs_from + e.attrs_len)
    }

    pub open spec fn kids(self, i: int) -> Seq<int> {
        self.links.kids[i]
    }

    pub open spec fn up(self, i: int) -> Option<int> {
        self.links.up[i]
    }
}

pub open spec fn name_in_arena(e: ElementData) -> bool {
    arena::has(e.flags.marks, ElemFlags::QNAME_IN_ARENA)
}

pub open spec fn in_arena(c: Core) -> bool {
    arena::has(c.flags.marks, NodeFlags::IN_ARENA)
}

pub open spec fn is_empty_tag(c: Core) -> bool {
    arena::has(c.flags.marks, NodeFlags::EMPTY_TAG)
}

pub open spec fn ws_in_arena(a: Attr) -> bool {
    arena::has(a.flags.marks, AttrFlags::WS_IN_ARENA)
}

pub open spec fn attr_name_in_arena(a: Attr) -> bool {
    arena::has(a.flags.marks, AttrFlags::NAME_IN_ARENA)
}

pub open spec fn value_in_arena(a: Attr) -> bool {
    arena::has(a.flags.marks, AttrFlags::VALUE_IN_ARENA)
}

/// The spans of an attribute lie in their buffers.
pub open spec fn attr_ok(d: Dom, a: Attr) -> bool {
    &&& d.inside(a.pre_ws, ws_in_arena(a))
    &&& d.inside(a.name, attr_name_in_arena(a))
    &&& d.inside(a.ws_before_eq, ws_in_arena(a))
    &&& d.inside(a.ws_after_eq, ws_in_arena(a))
    &&& d.inside(a.value, value_in_arena(a))
    &&& a.quote == 34 || a.quote == 39
}

/// The attribute with the index is one.
pub open spec fn attr_at_ok(d: Dom, i: int) -> bool {
    attr_ok(d, d.attrs[i])
}

/// The spans of an element lie in their buffers, and its attributes among the
/// attributes.
pub open spec fn elem_ok(d: Dom, e: ElementData) -> bool {
    &&& d.inside(e.qname, name_in_arena(e))
    &&& d.inside(e.local, name_in_arena(e))
    &&& d.inside(e.close_qname, name_in_arena(e))
    &&& d.inside(e.pre_close_ws, false)
    &&& d.inside(e.close_trailing_ws, false)
    &&& e.attrs_from + e.attrs_len <= d.attrs.len()
    &&& e.ns_uri == ElementData::NO_NS || e.ns_uri < d.uris.len()
}

/// A node lies in its buffer, and has what a node of its kind has.
pub open spec fn node_ok(d: Dom, i: int) -> bool {
    let c = d.nodes[i];
    &&& d.inside(c.span, in_arena(c))
    &&& d.kids(i).len() > 0 ==> c.kind.holds_children()
    &&& c.kind is Element ==> c.aux < d.elements.len() && elem_ok(d, d.elem(i))
}

/// Two elements share nothing.
pub open spec fn apart(d: Dom, i: int, j: int) -> bool {
    d.nodes[i].kind is Element && d.nodes[j].kind is Element && i != j ==> {
        let e = d.elem(i);
        let f = d.elem(j);
        &&& d.nodes[i].aux != d.nodes[j].aux
        &&& e.attrs_len == 0 || f.attrs_len == 0 || e.attrs_from + e.attrs_len <= f.attrs_from
            || f.attrs_from + f.attrs_len <= e.attrs_from
    }
}

/// What is changed is known to the node above it.
pub open spec fn reported(d: Dom, i: int) -> bool {
    d.nodes[i].flags.changed() ==> match d.up(i) {
        Some(p) => arena::has(d.nodes[p].flags.marks, NodeFlags::HAS_DIRTY_DESC),
        None => true,
    }
}

/// A node of an unchanged document is unchanged.
pub open spec fn calm(d: Dom, i: int) -> bool {
    !d.dirty ==> !d.nodes[i].flags.changed()
}

/// The document is a tree with the root in it, beside trees that were cut off
/// or are not linked yet, and every span lies in its buffer.
pub open spec fn wf(d: Dom) -> bool {
    &&& d.nodes.len() <= u32::MAX
    &&& d.src.len() <= u32::MAX
    &&& 1 <= d.arena.len() <= u32::MAX
    &&& d.arena[0] == 32
    &&& d.elements.len() <= d.nodes.len()
    &&& d.links.up.len() == d.nodes.len()
    &&& arena::forest(d.links)
    &&& ancestry::acyclic(d.links.up)
    &&& d.has_node(d.root)
    &&& d.nodes[d.root].kind is Document
    &&& d.up(d.root) is None
    &&& forall|i: int| 0 <= i < d.nodes.len() ==> #[trigger] node_ok(d, i)
    &&& forall|i: int| 0 <= i < d.attrs.len() ==> #[trigger] attr_at_ok(d, i)
    &&& forall|i: int, j: int|
        0 <= i < d.nodes.len() && 0 <= j < d.nodes.len() ==> #[trigger] apart(d, i, j)
    &&& forall|i: int| 0 <= i < d.nodes.len() ==> #[trigger] reported(d, i)
    &&& forall|i: int| 0 <= i < d.nodes.len() ==> #[trigger] calm(d, i)
}

} // verus!
