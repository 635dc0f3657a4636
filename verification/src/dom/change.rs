//! Small changes of a document, of which edits are made.
use vstd::prelude::*;

use crate::bytes::span::Span;
use crate::dom::ancestry;
use crate::dom::arena;
use crate::dom::arena::{Core, NodeFlags};
use crate::dom::model;
use crate::dom::model::Dom;
use crate::dom::node::{Attr, ElementData};

verus! {

/// The document with more new bytes.
pub open spec fn arena_grown(d: Dom, b: Seq<u8>) -> Dom {
    Dom { arena: d.arena + b, ..d }
}

/// The span of more new bytes.
pub open spec fn new_span(d: Dom, b: Seq<u8>) -> Span {
    Span { start: d.arena.len() as u32, end: (d.arena.len() + b.len()) as u32 }
}

/// A node with more marks.
pub open spec fn with_mark(c: Core, bit: u8) -> Core {
    Core { flags: NodeFlags { marks: c.flags.marks | bit }, ..c }
}

/// The nodes with a mark on some of them.
pub open spec fn flagged(nodes: Seq<Core>, some: Seq<int>, bit: u8) -> Seq<Core> {
    Seq::new(
        nodes.len(),
        |i: int|
            if some.contains(i) {
                with_mark(nodes[i], bit)
            } else {
                nodes[i]
            },
    )
}

/// The document where a node and those above it know of a change below.
pub open spec fn chained(d: Dom, from: Option<int>) -> Dom {
    Dom {
        nodes: flagged(
            d.nodes,
            ancestry::lineage_of(d.links.up, from),
            NodeFlags::HAS_DIRTY_DESC,
        ),
        dirty: true,
        ..d
    }
}

/// The document where a node is changed, and those above it know.
pub open spec fn marked(d: Dom, i: int) -> Dom {
    chained(
        Dom { nodes: d.nodes.update(i, with_mark(d.nodes[i], NodeFlags::SELF_DIRTY)), ..d },
        d.up(i),
    )
}

/// The document with another attribute at a place.
pub open spec fn attr_replaced(d: Dom, j: int, a: Attr) -> Dom {
    Dom { attrs: d.attrs.update(j, a), ..d }
}

/// The document where an element has other attributes, behind all others.
pub open spec fn attrs_moved(d: Dom, i: int, list: Seq<Attr>) -> Dom {
    Dom {
        attrs: d.attrs + list,
        elements: d.elements.update(
            d.nodes[i].aux as int,
            ElementData {
                attrs_from: d.attrs.len() as u32,
                attrs_len: list.len() as u32,
                ..d.elem(i)
            },
        ),
        ..d
    }
}

/// The document with one more node, which is linked with no other.
pub open spec fn node_made(d: Dom, c: Core) -> Dom {
    Dom { nodes: d.nodes.push(c), links: arena::extended(d.links), ..d }
}

/// The document with one more element, which is linked with no other node.
pub open spec fn element_made(d: Dom, c: Core, e: ElementData) -> Dom {
    Dom { elements: d.elements.push(e), ..node_made(d, c) }
}

/// The document where an element that was written with one tag has two.
pub open spec fn opened_up(d: Dom, i: int) -> Dom {
    let c = d.nodes[i];
    if c.kind is Element && model::is_empty_tag(c) {
        let e = d.elem(i);
        Dom {
            nodes: d.nodes.update(
                i,
                Core {
                    flags: NodeFlags {
                        marks: (c.flags.marks & !NodeFlags::EMPTY_TAG) | NodeFlags::SELF_DIRTY,
                    },
                    ..c
                },
            ),
            elements: d.elements.update(c.aux as int, ElementData { close_qname: e.qname, ..e }),
            dirty: true,
            ..d
        }
    } else {
        d
    }
}

/// The document with a node as a child of another one.
pub open spec fn hooked(d: Dom, p: int, k: int, c: int) -> Dom {
    Dom { links: arena::inserted(d.links, p, k, c), ..d }
}

/// The document without a node among the children of its parent.
pub open spec fn unhooked(d: Dom, c: int) -> Dom {
    Dom { links: arena::detached(d.links, c), ..d }
}

/// Whether everything but what marks say of changes holds.
pub open spec fn nearly_wf(d: Dom) -> bool {
    &&& d.nodes.len() <= u32::MAX
    &&& d.src.len() <= u32::MAX
    &&& 1 <= d.arena.len() <= u32::MAX
    &&& d.arena[0] == 32
    &&& d.elements.len() <= d.nodes.len()
    &&& d.links.up.len() == d.nodes.len()
    &&& arena::forest(d.links)
    &&& ancestry::acyclic(d.links.up)
    &&& d.has_node(d.root)
    &&& d.nodes[d.root].kind is Document
    &&& d.up(d.root) is None
    &&& forall|i: int| 0 <= i < d.nodes.len() ==> #[trigger] model::node_ok(d, i)
    &&& forall|i: int| 0 <= i < d.attrs.len() ==> #[trigger] model::attr_at_ok(d, i)
    &&& forall|i: int, j: int|
        0 <= i < d.nodes.len() && 0 <= j < d.nodes.len() ==> #[trigger] model::apart(d, i, j)
}

/// What is changed, one node aside, is known above; the node above that one
/// need not know yet.
pub open spec fn reported_but(d: Dom, but: int) -> bool {
    forall|i: int| 0 <= i < d.nodes.len() && i != but ==> #[trigger] model::reported(d, i)
}

/// What is changed in a node is known above it, or will be when `from` and all
/// above it are told.
pub open spec fn near(d: Dom, from: Option<int>, i: int) -> bool {
    model::reported(d, i) || d.up(i) == from || ancestry::lineage_of(d.links.up, from).contains(i)
}

pub open spec fn all_near(d: Dom, from: Option<int>) -> bool {
    forall|i: int| 0 <= i < d.nodes.len() ==> #[trigger] near(d, from, i)
}

/// When a node knows of a change below it, so does the node above it.
pub open spec fn flow(d: Dom, i: int) -> bool {
    arena::has(d.nodes[i].flags.marks, NodeFlags::HAS_DIRTY_DESC) ==> match d.up(i) {
        Some(p) => arena::has(d.nodes[p].flags.marks, NodeFlags::HAS_DIRTY_DESC),
        None => true,
    }
}

/// From a node on, what knows of a change is below what knows of it.
pub open spec fn flows(d: Dom, from: Option<int>) -> bool {
    forall|k: int|
        0 <= k < ancestry::lineage_of(d.links.up, from).len() ==> flow(
            d,
            #[trigger] ancestry::lineage_of(d.links.up, from)[k],
        )
}

/// A mark on a node leaves what does not rest on marks.
pub proof fn lemma_mark_kept(c: Core, bit: u8)
    requires
        bit == 1 || bit == 2,
    ensures
        model::in_arena(with_mark(c, bit)) == model::in_arena(c),
        model::is_empty_tag(with_mark(c, bit)) == model::is_empty_tag(c),
        with_mark(c, bit).flags.changed(),
        arena::has(with_mark(c, bit).flags.marks, bit),
{
    arena::lemma_mark_bits();
    arena::lemma_marks(c.flags.marks, bit, 1);
    arena::lemma_marks(c.flags.marks, bit, 2);
    arena::lemma_marks(c.flags.marks, bit, 4);
    arena::lemma_marks(c.flags.marks, bit, 8);
}

/// What is above a node that knows of a change knows of it.
pub proof fn lemma_known_above(d: Dom, i: int, k: int)
    requires
        ancestry::acyclic(d.links.up),
        d.links.up.len() == d.nodes.len(),
        d.has_node(i),
        flows(d, Some(i)),
        arena::has(d.nodes[i].flags.marks, NodeFlags::HAS_DIRTY_DESC),
        0 <= k < ancestry::lineage(d.links.up, i).len(),
    ensures
        arena::has(
            d.nodes[ancestry::lineage(d.links.up, i)[k]].flags.marks,
            NodeFlags::HAS_DIRTY_DESC,
        ),
    decreases ancestry::rank_of(d.links.up)[i],
{
    let up = d.links.up;
    ancestry::lemma_lineage(up, i);
    let way = ancestry::lineage_of(up, Some(i));
    if k > 0 {
        let p = up[i]->0;
        assert(way[0] == i);
        assert(flow(d, way[0]));
        assert(way[k] == ancestry::lineage(up, p)[k - 1]);
        assert(flows(d, Some(p))) by {
            let rest = ancestry::lineage_of(up, Some(p));
            assert forall|j: int| 0 <= j < rest.len() implies flow(d, #[trigger] rest[j]) by {
                assert(way[j + 1] == rest[j]);
            }
        }
        lemma_known_above(d, p, k - 1);
    }
}

/// Marks on nodes leave what does not rest on marks.
pub proof fn lemma_flagged_nearly(d: Dom, e: Dom)
    requires
        nearly_wf(d),
        e.nodes.len() == d.nodes.len(),
        e == (Dom { nodes: e.nodes, dirty: e.dirty, ..d }),
        forall|i: int|
            0 <= i < d.nodes.len() ==> {
                &&& (#[trigger] e.nodes[i]).kind == d.nodes[i].kind
                &&& e.nodes[i].span == d.nodes[i].span
                &&& e.nodes[i].aux == d.nodes[i].aux
                &&& model::in_arena(e.nodes[i]) == model::in_arena(d.nodes[i])
            },
    ensures
        nearly_wf(e),
{
    assert(e.nodes[d.root].kind == d.nodes[d.root].kind);
    assert forall|i: int| 0 <= i < e.nodes.len() implies #[trigger] model::node_ok(e, i) by {
        assert(model::node_ok(d, i));
        assert(e.nodes[i].kind == d.nodes[i].kind);
    }
    assert forall|i: int| 0 <= i < e.attrs.len() implies #[trigger] model::attr_at_ok(e, i) by {
        assert(model::attr_at_ok(d, i));
    }
    assert forall|i: int, j: int|
        0 <= i < e.nodes.len() && 0 <= j < e.nodes.len() implies #[trigger] model::apart(
        e,
        i,
        j,
    ) by {
        assert(model::apart(d, i, j));
        assert(e.nodes[i].kind == d.nodes[i].kind);
        assert(e.nodes[j].kind == d.nodes[j].kind);
    }
}

/// The chain from a node on tells all above it.
pub proof fn lemma_chained_wf(d: Dom, from: Option<int>)
    requires
        nearly_wf(d),
        all_near(d, from),
        from matches Some(p) ==> d.has_node(p),
    ensures
        model::wf(chained(d, from)),
{
    let e = chained(d, from);
    let up = d.links.up;
    let way = ancestry::lineage_of(up, from);
    arena::lemma_mark_bits();
    assert forall|i: int| 0 <= i < d.nodes.len() implies {
        &&& (#[trigger] e.nodes[i]).kind == d.nodes[i].kind
        &&& e.nodes[i].span == d.nodes[i].span
        &&& e.nodes[i].aux == d.nodes[i].aux
        &&& model::in_arena(e.nodes[i]) == model::in_arena(d.nodes[i])
    } by {
        lemma_mark_kept(d.nodes[i], NodeFlags::HAS_DIRTY_DESC);
    }
    lemma_flagged_nearly(d, e);
    assert forall|i: int| 0 <= i < e.nodes.len() implies #[trigger] model::reported(e, i) by {
        lemma_mark_kept(d.nodes[i], NodeFlags::HAS_DIRTY_DESC);
        assert(near(d, from, i));
        if let Some(p) = up[i] {
            assert(arena::child_of(d.links, i));
            lemma_mark_kept(d.nodes[p], NodeFlags::HAS_DIRTY_DESC);
            if way.contains(i) {
                let k = way.index_of(i);
                ancestry::lemma_lineage_closed(up, from->0, k);
                assert(way.contains(p));
            } else if d.up(i) == from {
                ancestry::lemma_lineage(up, p);
                assert(way[0] == p);
                assert(way.contains(p));
            }
        }
    }
    assert forall|i: int| 0 <= i < e.nodes.len() implies #[trigger] model::calm(e, i) by {
    }
}

/// In a document all changes are known above.
pub proof fn lemma_wf_flows(d: Dom, from: Option<int>)
    requires
        model::wf(d),
        from matches Some(p) ==> d.has_node(p),
    ensures
        all_near(d, from),
        flows(d, from),
{
    assert forall|i: int| 0 <= i < d.nodes.len() implies #[trigger] near(d, from, i) by {
        assert(model::reported(d, i));
    }
    if let Some(p) = from {
        ancestry::lemma_lineage(d.links.up, p);
        let way = ancestry::lineage_of(d.links.up, from);
        assert forall|k: int| 0 <= k < way.len() implies flow(d, #[trigger] way[k]) by {
            assert(model::reported(d, way[k]));
        }
    }
}

pub proof fn lemma_wf_parts(d: Dom)
    requires
        model::wf(d),
    ensures
        nearly_wf(d),
        forall|b: int| #[trigger] reported_but(d, b),
{
    assert forall|b: int| #[trigger] reported_but(d, b) by {
        assert forall|i: int| 0 <= i < d.nodes.len() && i != b implies #[trigger] model::reported(
            d,
            i,
        ) by {}
    }
}

/// More new bytes leave every span in its buffer.
pub proof fn lemma_arena_grown_wf(d: Dom, b: Seq<u8>)
    requires
        model::wf(d),
        d.arena.len() + b.len() <= u32::MAX,
    ensures
        model::wf(arena_grown(d, b)),
        arena_grown(d, b).inside(new_span(d, b), true),
        arena_grown(d, b).piece(new_span(d, b), true) == b,
{
    let e = arena_grown(d, b);
    assert(e.piece(new_span(d, b), true) =~= b);
    assert forall|i: int| 0 <= i < e.nodes.len() implies #[trigger] model::node_ok(e, i) by {
        assert(model::node_ok(d, i));
    }
    assert forall|i: int| 0 <= i < e.attrs.len() implies #[trigger] model::attr_at_ok(e, i) by {
        assert(model::attr_at_ok(d, i));
    }
    assert forall|i: int, j: int|
        0 <= i < e.nodes.len() && 0 <= j < e.nodes.len() implies #[trigger] model::apart(
        e,
        i,
        j,
    ) by {
        assert(model::apart(d, i, j));
    }
    assert forall|i: int| 0 <= i < e.nodes.len() implies #[trigger] model::reported(e, i) by {
        assert(model::reported(d, i));
    }
    assert forall|i: int| 0 <= i < e.nodes.len() implies #[trigger] model::calm(e, i) by {
        assert(model::calm(d, i));
    }
}

pub proof fn lemma_attr_replaced_nearly(d: Dom, j: int, a: Attr)
    requires
        model::wf(d),
        0 <= j < d.attrs.len(),
        model::attr_ok(d, a),
    ensures
        nearly_wf(attr_replaced(d, j, a)),
        forall|b: int| #[trigger] reported_but(attr_replaced(d, j, a), b),
{
    let e = attr_replaced(d, j, a);
    assert forall|i: int| 0 <= i < e.nodes.len() implies #[trigger] model::node_ok(e, i) by {
        assert(model::node_ok(d, i));
    }
    assert forall|i: int| 0 <= i < e.attrs.len() implies #[trigger] model::attr_at_ok(e, i) by {
        assert(model::attr_at_ok(d, i));
    }
    assert forall|x: int, y: int|
        0 <= x < e.nodes.len() && 0 <= y < e.nodes.len() implies #[trigger] model::apart(
        e,
        x,
        y,
    ) by {
        assert(model::apart(d, x, y));
    }
    assert forall|b: int| #[trigger] reported_but(e, b) by {
        assert forall|i: int| 0 <= i < e.nodes.len() && i != b implies #[trigger] model::reported(
            e,
            i,
        ) by {
            assert(model::reported(d, i));
        }
    }
}

pub proof fn lemma_attrs_moved_nearly(d: Dom, i: int, list: Seq<Attr>)
    requires
        model::wf(d),
        d.is_element(i),
        d.attrs.len() + list.len() <= u32::MAX,
        forall|k: int| 0 <= k < list.len() ==> model::attr_ok(d, #[trigger] list[k]),
    ensures
        nearly_wf(attrs_moved(d, i, list)),
        forall|b: int| #[trigger] reported_but(attrs_moved(d, i, list), b),
        attrs_moved(d, i, list).attrs_of(i) == list,
{
    let e = attrs_moved(d, i, list);
    assert(model::node_ok(d, i));
    assert(e.attrs_of(i) =~= list);
    assert forall|k: int| 0 <= k < e.attrs.len() implies #[trigger] model::attr_at_ok(e, k) by {
        if k < d.attrs.len() {
            assert(model::attr_at_ok(d, k));
        } else {
            assert(model::attr_ok(d, list[k - d.attrs.len()]));
        }
    }
    assert forall|k: int| 0 <= k < e.nodes.len() implies #[trigger] model::node_ok(e, k) by {
        assert(model::node_ok(d, k));
        assert(model::apart(d, k, i));
    }
    assert forall|x: int, y: int|
        0 <= x < e.nodes.len() && 0 <= y < e.nodes.len() implies #[trigger] model::apart(
        e,
        x,
        y,
    ) by {
        assert(model::apart(d, x, y));
        assert(model::apart(d, x, i));
        assert(model::apart(d, y, i));
        assert(model::node_ok(d, x));
        assert(model::node_ok(d, y));
    }
    assert forall|b: int| #[trigger] reported_but(e, b) by {
        assert forall|k: int| 0 <= k < e.nodes.len() && k != b implies #[trigger] model::reported(
            e,
            k,
        ) by {
            assert(model::reported(d, k));
        }
    }
}

/// One more node that is linked with no other keeps what holds of a document.
pub proof fn lemma_node_made_wf(d: Dom, c: Core)
    requires
        model::wf(d),
        d.nodes.len() < u32::MAX,
        d.inside(c.span, model::in_arena(c)),
        !(c.kind is Element),
        c.flags.changed() ==> d.dirty,
    ensures
        model::wf(node_made(d, c)),
{
    let e = node_made(d, c);
    let n = d.nodes.len() as int;
    arena::lemma_extended(d.links);
    ancestry::lemma_extend_acyclic(d.links.up);
    assert forall|i: int| 0 <= i < e.nodes.len() implies #[trigger] model::node_ok(e, i) by {
        if i < n {
            assert(model::node_ok(d, i));
        }
    }
    assert forall|i: int| 0 <= i < e.attrs.len() implies #[trigger] model::attr_at_ok(e, i) by {
        assert(model::attr_at_ok(d, i));
    }
    assert forall|x: int, y: int|
        0 <= x < e.nodes.len() && 0 <= y < e.nodes.len() implies #[trigger] model::apart(
        e,
        x,
        y,
    ) by {
        if x < n && y < n {
            assert(model::apart(d, x, y));
        }
    }
    assert forall|i: int| 0 <= i < e.nodes.len() implies #[trigger] model::reported(e, i) by {
        if i < n {
            assert(model::reported(d, i));
            assert(arena::child_of(d.links, i));
        }
    }
    assert forall|i: int| 0 <= i < e.nodes.len() implies #[trigger] model::calm(e, i) by {
        if i < n {
            assert(model::calm(d, i));
        }
    }
}

/// One more element that is linked with no other node keeps what holds of a
/// document.
pub proof fn lemma_element_made_wf(d: Dom, c: Core, x: ElementData)
    requires
        model::wf(d),
        d.nodes.len() < u32::MAX,
        d.inside(c.span, model::in_arena(c)),
        c.kind is Element,
        c.aux == d.elements.len(),
        model::elem_ok(d, x),
        x.attrs_len == 0 || forall|i: int|
            0 <= i < d.nodes.len() && (#[trigger] d.nodes[i]).kind is Element ==> d.elem(
                i,
            ).attrs_from + d.elem(i).attrs_len <= x.attrs_from,
        c.flags.changed() ==> d.dirty,
    ensures
        model::wf(element_made(d, c, x)),
{
    let e = element_made(d, c, x);
    let n = d.nodes.len() as int;
    arena::lemma_extended(d.links);
    ancestry::lemma_extend_acyclic(d.links.up);
    assert forall|i: int| 0 <= i < e.nodes.len() implies #[trigger] model::node_ok(e, i) by {
        if i < n {
            assert(model::node_ok(d, i));
        }
    }
    assert forall|i: int| 0 <= i < e.attrs.len() implies #[trigger] model::attr_at_ok(e, i) by {
        assert(model::attr_at_ok(d, i));
    }
    assert forall|p: int, q: int|
        0 <= p < e.nodes.len() && 0 <= q < e.nodes.len() implies #[trigger] model::apart(
        e,
        p,
        q,
    ) by {
        if p < n {
            assert(model::node_ok(d, p));
            assert(e.nodes[p] == d.nodes[p]);
        }
        if q < n {
            assert(model::node_ok(d, q));
            assert(e.nodes[q] == d.nodes[q]);
        }
        if p < n && q < n {
            assert(model::apart(d, p, q));
        }
    }
    assert forall|i: int| 0 <= i < e.nodes.len() implies #[trigger] model::reported(e, i) by {
        if i < n {
            assert(model::reported(d, i));
            assert(arena::child_of(d.links, i));
        }
    }
    assert forall|i: int| 0 <= i < e.nodes.len() implies #[trigger] model::calm(e, i) by {
        if i < n {
            assert(model::calm(d, i));
        }
    }
}

/// An element that gets a closing tag.
pub proof fn lemma_opened_up_nearly(d: Dom, i: int)
    requires
        nearly_wf(d),
        reported_but(d, i),
        d.has_node(i),
    ensures
        nearly_wf(opened_up(d, i)),
        reported_but(opened_up(d, i), i),
        opened_up(d, i).links == d.links,
        opened_up(d, i).nodes.len() == d.nodes.len(),
        opened_up(d, i).nodes[i].kind == d.nodes[i].kind,
        !model::is_empty_tag(opened_up(d, i).nodes[i]) || !(d.nodes[i].kind is Element),
{
    let e = opened_up(d, i);
    let c = d.nodes[i];
    arena::lemma_mark_bits();
    if c.kind is Element && model::is_empty_tag(c) {
        let m = c.flags.marks;
        assert(((m & !4u8) | 1u8) & 4u8 == 0) by (bit_vector);
        assert((((m & !4u8) | 1u8) & 8u8 != 0) == (m & 8u8 != 0)) by (bit_vector);
        assert((((m & !4u8) | 1u8) & 2u8 != 0) == (m & 2u8 != 0)) by (bit_vector);
        assert(model::node_ok(d, i));
        assert forall|k: int| 0 <= k < e.nodes.len() implies #[trigger] model::node_ok(e, k) by {
            assert(model::node_ok(d, k));
            assert(model::apart(d, k, i));
        }
        assert forall|k: int| 0 <= k < e.attrs.len() implies #[trigger] model::attr_at_ok(e, k) by {
            assert(model::attr_at_ok(d, k));
        }
        assert forall|p: int, q: int|
            0 <= p < e.nodes.len() && 0 <= q < e.nodes.len() implies #[trigger] model::apart(
            e,
            p,
            q,
        ) by {
            assert(model::apart(d, p, q));
            assert(model::apart(d, p, i));
            assert(model::apart(d, q, i));
            assert(model::node_ok(d, p));
            assert(model::node_ok(d, q));
        }
        assert forall|k: int| 0 <= k < e.nodes.len() && k != i implies #[trigger] model::reported(
            e,
            k,
        ) by {
            assert(model::reported(d, k));
            assert(arena::child_of(d.links, k));
        }
    }
}

/// A node that hangs on another one.
pub proof fn lemma_hooked_nearly(d: Dom, p: int, k: int, c: int)
    requires
        nearly_wf(d),
        d.has_node(p),
        d.has_node(c),
        c != d.root,
        d.up(c) is None,
        0 <= k <= d.kids(p).len(),
        d.nodes[p].kind.holds_children(),
        !ancestry::below(d.links.up, p, c),
    ensures
        nearly_wf(hooked(d, p, k, c)),
{
    let e = hooked(d, p, k, c);
    arena::lemma_inserted(d.links, p, k, c);
    ancestry::lemma_link_acyclic(d.links.up, p, c);
    assert forall|i: int| 0 <= i < e.nodes.len() implies #[trigger] model::node_ok(e, i) by {
        assert(model::node_ok(d, i));
    }
    assert forall|i: int| 0 <= i < e.attrs.len() implies #[trigger] model::attr_at_ok(e, i) by {
        assert(model::attr_at_ok(d, i));
    }
    assert forall|x: int, y: int|
        0 <= x < e.nodes.len() && 0 <= y < e.nodes.len() implies #[trigger] model::apart(
        e,
        x,
        y,
    ) by {
        assert(model::apart(d, x, y));
    }
}

/// A node that is taken off another one.
pub proof fn lemma_unhooked_nearly(d: Dom, c: int)
    requires
        nearly_wf(d),
        d.has_node(c),
        d.up(c) is Some,
    ensures
        nearly_wf(unhooked(d, c)),
{
    let e = unhooked(d, c);
    arena::lemma_place(d.links, c);
    arena::lemma_detached(d.links, c);
    ancestry::lemma_unlink_acyclic(d.links.up, c);
    assert forall|i: int| 0 <= i < e.nodes.len() implies #[trigger] model::node_ok(e, i) by {
        assert(model::node_ok(d, i));
    }
    assert forall|i: int| 0 <= i < e.attrs.len() implies #[trigger] model::attr_at_ok(e, i) by {
        assert(model::attr_at_ok(d, i));
    }
    assert forall|x: int, y: int|
        0 <= x < e.nodes.len() && 0 <= y < e.nodes.len() implies #[trigger] model::apart(
        e,
        x,
        y,
    ) by {
        assert(model::apart(d, x, y));
    }
}

} // verus!
