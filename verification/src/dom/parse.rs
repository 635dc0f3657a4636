//! From the events of a part to its tree.
use vstd::prelude::*;
use vstd::string::*;

use crate::bytes::span::Span;
use crate::dom::ancestry;
use crate::dom::arena;
use crate::dom::arena::{Core, Links, Node, NodeFlags, NodeId, NodeKind};
use crate::dom::document;
use crate::dom::document::Document;
use crate::dom::links;
use crate::dom::model;
use crate::dom::node::{Attr, AttrFlags, ElemFlags, ElementData};
use crate::error::{Error, LimitError, XmlError};
use crate::limits::Limits;
use crate::text;
use crate::xml::laws;
use crate::xml::lexer;
use crate::xml::lexer::{EndTag, Piece, RawAttr, StartTag};
use crate::xml::name;
use crate::xml::reader;
use crate::xml::reader::Event;

verus! {

/// A tree that is being built, and the elements that are open, the document
/// first.
pub struct Grow {
    pub nodes: Seq<Core>,
    pub links: Links,
    pub elements: Seq<ElementData>,
    pub attrs: Seq<Attr>,
    pub uris: Seq<Seq<char>>,
    pub stack: Seq<int>,
}

/// The error for more than can be counted.
pub open spec fn overflow() -> Error {
    Error::Limit(LimitError::PartTooLarge { got: u32::MAX as u64, max: u32::MAX as u64 })
}

/// The error for a node too many, of `n` there are.
pub open spec fn node_quota(n: int, limits: Limits) -> Option<Error> {
    let max = limits.max_nodes_per_part;
    if n + 1 > max {
        Some(Error::Limit(LimitError::TooManyNodes { got: (n + 1) as u64, max }))
    } else if n >= u32::MAX {
        Some(Error::Limit(LimitError::TooManyNodes { got: n as u64, max }))
    } else {
        None
    }
}

/// One more node, as the last child of what is open.
pub open spec fn hung(g: Grow, c: Core) -> Grow {
    let n = g.nodes.len() as int;
    let l = arena::extended(g.links);
    let p = g.stack.last();
    Grow {
        nodes: g.nodes.push(c),
        links: arena::inserted(l, p, l.kids[p].len() as int, n),
        ..g
    }
}

/// A node without children.
pub open spec fn leaf(g: Grow, kind: NodeKind, span: Span, limits: Limits) -> Result<Grow, Error> {
    match node_quota(g.nodes.len() as int, limits) {
        Some(e) => Err(e),
        None => Ok(
            hung(g, Core { span, aux: Node::NO_AUX, kind, flags: NodeFlags { marks: 0 } }),
        ),
    }
}

/// The place of a text among texts, from `i` on.
pub open spec fn uri_place(uris: Seq<Seq<char>>, u: Seq<char>, i: int) -> Option<int>
    decreases uris.len() - i,
{
    if !(0 <= i < uris.len()) {
        None
    } else if uris[i] == u {
        Some(i)
    } else {
        uri_place(uris, u, i + 1)
    }
}

/// The texts with one of them, and its number.
pub open spec fn interned(uris: Seq<Seq<char>>, u: Option<Seq<char>>) -> (Seq<Seq<char>>, u32) {
    match u {
        None => (uris, ElementData::NO_NS),
        Some(t) => match uri_place(uris, t, 0) {
            Some(i) => (uris, i as u32),
            None => (uris.push(t), uris.len() as u32),
        },
    }
}

pub open spec fn attr_of(a: RawAttr) -> Attr {
    Attr {
        pre_ws: a.pre_ws,
        name: a.name,
        ws_before_eq: a.ws_before_eq,
        ws_after_eq: a.ws_after_eq,
        value: a.value,
        quote: a.quote,
        flags: AttrFlags { marks: 0 },
    }
}

pub open spec fn attrs_made(s: Seq<RawAttr>) -> Seq<Attr> {
    s.map_values(|a: RawAttr| attr_of(a))
}

pub open spec fn nil() -> Span {
    Span { start: 0, end: 0 }
}

/// The element of an opening tag.
pub open spec fn element_of(src: Seq<u8>, t: lexer::Open, from: int, ns: u32) -> ElementData {
    let w = name::local(lexer::cut(src, t.name)).len();
    ElementData {
        qname: t.name,
        local: Span { start: (t.name.end - w) as u32, end: t.name.end },
        pre_close_ws: t.pre_close_ws,
        close_qname: nil(),
        close_trailing_ws: nil(),
        attrs_from: from as u32,
        attrs_len: t.attrs.len() as u32,
        ns_uri: ns,
        flags: ElemFlags { marks: 0 },
    }
}

/// An element opens.
pub open spec fn started(
    src: Seq<u8>,
    g: Grow,
    t: lexer::Open,
    ns: Option<Seq<char>>,
    limits: Limits,
) -> Result<Grow, Error> {
    let n = g.nodes.len() as int;
    let (uris, u) = interned(g.uris, ns);
    match node_quota(n, limits) {
        Some(e) => Err(e),
        None => if g.attrs.len() + t.attrs.len() > u32::MAX {
            Err(overflow())
        } else {
            let h = hung(
                Grow {
                    elements: g.elements.push(element_of(src, t, g.attrs.len() as int, u)),
                    attrs: g.attrs + attrs_made(t.attrs),
                    uris,
                    ..g
                },
                Core {
                    span: t.span,
                    aux: g.elements.len() as u32,
                    kind: NodeKind::Element,
                    flags: NodeFlags {
                        marks: if t.empty {
                            NodeFlags::EMPTY_TAG
                        } else {
                            0
                        },
                    },
                },
            );
            if t.empty {
                Ok(h)
            } else {
                Ok(Grow { stack: g.stack.push(n), ..h })
            }
        },
    }
}

/// A span up to a further end.
pub open spec fn stretched(s: Span, end: u32) -> Span {
    Span {
        start: s.start,
        end: if end < s.start {
            s.start
        } else {
            end
        },
    }
}

/// The innermost element closes: its span grows to the end of its closing tag.
pub open spec fn ended(g: Grow, t: EndTag) -> Result<Grow, Error> {
    if g.stack.len() <= 1 {
        lexer::fault(XmlError::UnbalancedTag, t.span.start as int)
    } else {
        let i = g.stack.last();
        let c = g.nodes[i];
        let e = g.elements[c.aux as int];
        Ok(
            Grow {
                nodes: g.nodes.update(
                    i,
                    Core { span: stretched(c.span, t.span.end), ..c },
                ),
                elements: g.elements.update(
                    c.aux as int,
                    ElementData {
                        close_qname: t.name,
                        close_trailing_ws: t.trailing_ws,
                        ..e
                    },
                ),
                stack: g.stack.drop_last(),
                ..g
            },
        )
    }
}

/// What an event adds.
pub open spec fn stepped(src: Seq<u8>, g: Grow, i: reader::Item, limits: Limits) -> Result<
    Grow,
    Error,
> {
    match i.part {
        lexer::Part::Decl(x) => leaf(g, NodeKind::Decl, x, limits),
        lexer::Part::Pi(x) => leaf(g, NodeKind::Pi, x, limits),
        lexer::Part::Comment(x) => leaf(g, NodeKind::Comment, x, limits),
        lexer::Part::CData(x) => leaf(g, NodeKind::CData, x, limits),
        lexer::Part::Text(x) => leaf(g, NodeKind::Text, x, limits),
        lexer::Part::Start(t) => started(src, g, t, i.ns, limits),
        lexer::Part::End(t) => ended(g, t),
    }
}

/// What events add, one after the other.
pub open spec fn grown(src: Seq<u8>, g: Grow, items: Seq<reader::Item>, limits: Limits) -> Result<
    Grow,
    Error,
>
    decreases items.len(),
{
    if items.len() == 0 {
        Ok(g)
    } else {
        match stepped(src, g, items[0], limits) {
            Ok(h) => grown(src, h, items.skip(1), limits),
            Err(e) => Err(e),
        }
    }
}

/// The document before the first event.
pub open spec fn seed(src: Seq<u8>) -> Grow {
    Grow {
        nodes: seq![
            Core {
                span: Span { start: 0, end: src.len() as u32 },
                aux: Node::NO_AUX,
                kind: NodeKind::Document,
                flags: NodeFlags { marks: 0 },
            },
        ],
        links: Links { kids: seq![Seq::empty()], up: seq![None] },
        elements: Seq::empty(),
        attrs: Seq::empty(),
        uris: Seq::empty(),
        stack: seq![0int],
    }
}

/// The document of a tree.
pub open spec fn dom_of(src: Seq<u8>, g: Grow, limits: Limits) -> model::Dom {
    model::Dom {
        src,
        arena: seq![32u8],
        nodes: g.nodes,
        links: g.links,
        elements: g.elements,
        attrs: g.attrs,
        uris: g.uris,
        root: 0,
        bom: reader::has_bom(src),
        dirty: false,
        limits,
    }
}

/// The document of a part.
pub open spec fn parsed(src: Seq<u8>, limits: Limits) -> Result<model::Dom, Error> {
    if src.len() > limits.max_part_bytes {
        Err(
            Error::Limit(
                LimitError::PartTooLarge { got: src.len() as u64, max: limits.max_part_bytes },
            ),
        )
    } else if src.len() > u32::MAX {
        Err(
            Error::Limit(
                LimitError::PartTooLarge { got: src.len() as u64, max: u32::MAX as u64 },
            ),
        )
    } else {
        let (items, failure) = reader::events(src, limits);
        match node_quota(0, limits) {
            Some(e) => Err(e),
            None => match grown(src, seed(src), items, limits) {
                Err(e) => Err(e),
                Ok(g) => match failure {
                    Some(e) => Err(e),
                    None => Ok(dom_of(src, g, limits)),
                },
            },
        }
    }
}

/// What is open are the document and elements below it.
pub open spec fn stack_ok(g: Grow) -> bool {
    &&& g.stack.len() > 0
    &&& g.stack[0] == 0
    &&& forall|k: int|
        0 <= k < g.stack.len() ==> 0 <= #[trigger] g.stack[k] < g.nodes.len()
            && g.nodes[g.stack[k]].kind.holds_children()
    &&& forall|k: int| 0 < k < g.stack.len() ==> g.nodes[#[trigger] g.stack[k]].kind is Element
}

/// Everything points at the source.
pub open spec fn sourced(g: Grow) -> bool {
    &&& forall|i: int| 0 <= i < g.nodes.len() ==> !model::in_arena(#[trigger] g.nodes[i])
    &&& forall|i: int| 0 <= i < g.elements.len() ==> (#[trigger] g.elements[i]).flags.marks == 0
}

pub open spec fn grow_ok(src: Seq<u8>, g: Grow, limits: Limits) -> bool {
    &&& model::wf(dom_of(src, g, limits))
    &&& stack_ok(g)
    &&& sourced(g)
    &&& g.uris.len() <= g.elements.len()
}

pub proof fn lemma_seed(src: Seq<u8>, limits: Limits)
    requires
        src.len() <= u32::MAX,
    ensures
        grow_ok(src, seed(src), limits),
{
    let d = dom_of(src, seed(src), limits);
    arena::lemma_mark_bits();
    assert(ancestry::ranked(d.links.up, seq![0nat]));
}

/// A tree with one more node that is no element yet keeps what holds of it.
proof fn lemma_hung(src: Seq<u8>, g: Grow, c: Core, limits: Limits)
    requires
        grow_ok(src, g, limits),
        g.nodes.len() < u32::MAX,
        c.span.within(src.len()),
        !model::in_arena(c),
        !c.flags.changed(),
        !(c.kind is Element),
    ensures
        grow_ok(src, hung(g, c), limits),
{
    lemma_hung_links(g);
    let h = hung(g, c);
    let d = dom_of(src, g, limits);
    let e = dom_of(src, h, limits);
    let n = g.nodes.len() as int;
    assert forall|i: int| 0 <= i < e.nodes.len() implies #[trigger] model::node_ok(e, i) by {
        if i < n {
            assert(model::node_ok(d, i));
            assert(stack_ok(g));
        }
    }
    assert forall|i: int| 0 <= i < e.attrs.len() implies #[trigger] model::attr_at_ok(e, i) by {
        assert(model::attr_at_ok(d, i));
    }
    assert forall|i: int, j: int|
        0 <= i < e.nodes.len() && 0 <= j < e.nodes.len() implies #[trigger] model::apart(
        e,
        i,
        j,
    ) by {
        if i < n && j < n {
            assert(model::apart(d, i, j));
        }
    }
    assert forall|i: int| 0 <= i < e.nodes.len() implies #[trigger] model::calm(e, i) by {
        if i < n {
            assert(model::calm(d, i));
        }
    }
    assert forall|i: int| 0 <= i < e.nodes.len() implies #[trigger] model::reported(e, i) by {
        assert(model::calm(e, i));
    }
    assert(model::node_ok(d, 0));
}

/// The links of a tree with one more node.
pub proof fn lemma_hung_links(g: Grow)
    requires
        arena::forest(g.links),
        ancestry::acyclic(g.links.up),
        g.links.up.len() == g.nodes.len(),
        stack_ok(g),
    ensures
        ({
            let n = g.nodes.len() as int;
            let l = arena::extended(g.links);
            let p = g.stack.last();
            let m = arena::inserted(l, p, l.kids[p].len() as int, n);
            &&& arena::forest(l)
            &&& l.up[n] is None
            &&& arena::forest(m)
            &&& ancestry::acyclic(m.up)
            &&& m.up.len() == n + 1
            &&& m.kids.len() == n + 1
            &&& m.kids[p] == g.links.kids[p].push(n)
            &&& m.kids[n].len() == 0
            &&& forall|i: int| 0 <= i < n && i != p ==> m.kids[i] == g.links.kids[i]
            &&& forall|i: int| 0 <= i < n ==> m.up[i] == g.links.up[i]
        }),
{
    let n = g.nodes.len() as int;
    let l = arena::extended(g.links);
    let p = g.stack.last();
    let m = arena::inserted(l, p, l.kids[p].len() as int, n);
    arena::lemma_extended(g.links);
    ancestry::lemma_extend_acyclic(g.links.up);
    assert(g.stack[g.stack.len() - 1] == p);
    assert(l.kids[p] == g.links.kids[p]);
    arena::lemma_inserted(l, p, l.kids[p].len() as int, n);
    lemma_not_below_new(g.links, n, p);
    ancestry::lemma_link_acyclic(l.up, p, n);
    assert(m.kids[p] =~= g.links.kids[p].push(n));
}

/// No node is below one that is linked with no other.
proof fn lemma_not_below_new(l: Links, n: int, i: int)
    requires
        arena::forest(l),
        ancestry::acyclic(l.up),
        n == l.up.len(),
        0 <= i < n,
        ancestry::acyclic(arena::extended(l).up),
    ensures
        !ancestry::below(arena::extended(l).up, i, n),
    decreases ancestry::rank_of(arena::extended(l).up)[i],
{
    let v = arena::extended(l).up;
    ancestry::lemma_below(v, i, n);
    if let Some(p) = v[i] {
        ancestry::lemma_lineage(v, i);
        assert(arena::child_of(l, i));
        lemma_not_below_new(l, n, p);
    }
}

/// A tree with one more element keeps what holds of it.
proof fn lemma_started(
    src: Seq<u8>,
    g: Grow,
    t: lexer::Open,
    ns: Option<Seq<char>>,
    limits: Limits,
)
    requires
        grow_ok(src, g, limits),
        src.len() <= u32::MAX,
        laws::start_fits(src, t, t.span.start as int, t.span.end as int),
        started(src, g, t, ns, limits) is Ok,
    ensures
        grow_ok(src, started(src, g, t, ns, limits)->Ok_0, limits),
{
    lemma_hung_links(g);
    arena::lemma_mark_bits();
    let h = started(src, g, t, ns, limits)->Ok_0;
    let d = dom_of(src, g, limits);
    let e = dom_of(src, h, limits);
    let n = g.nodes.len() as int;
    let (uris, u) = interned(g.uris, ns);
    lemma_attrs_inside(src, t.attrs, t.name.end as int, t.pre_close_ws.start as int);
    lemma_local_len(lexer::cut(src, t.name));
    if let Some(x) = ns {
        lemma_uri_place(g.uris, x, 0);
    }
    assert forall|i: int| 0 <= i < e.attrs.len() implies #[trigger] model::attr_at_ok(e, i) by {
        if i < d.attrs.len() {
            assert(model::attr_at_ok(d, i));
        } else {
            let a = t.attrs[i - d.attrs.len()];
            assert(e.attrs[i] == attr_of(a));
            assert(laws::attr_fits(src, a, a.pre_ws.start as int, a.value.end + 1));
        }
    }
    let new = element_of(src, t, g.attrs.len() as int, u);
    assert(e.elem(n) == new);
    assert(model::elem_ok(e, new));
    assert forall|i: int| 0 <= i < e.nodes.len() implies #[trigger] model::node_ok(e, i) by {
        if i < n {
            assert(model::node_ok(d, i));
            assert(stack_ok(g));
        }
    }
    assert forall|i: int, j: int|
        0 <= i < e.nodes.len() && 0 <= j < e.nodes.len() implies #[trigger] model::apart(
        e,
        i,
        j,
    ) by {
        if i < n {
            assert(model::node_ok(d, i));
        }
        if j < n {
            assert(model::node_ok(d, j));
        }
        if i < n && j < n {
            assert(model::apart(d, i, j));
        }
    }
    assert forall|i: int| 0 <= i < e.nodes.len() implies #[trigger] model::calm(e, i) by {
        if i < n {
            assert(model::calm(d, i));
        }
    }
    assert forall|i: int| 0 <= i < e.nodes.len() implies #[trigger] model::reported(e, i) by {
        assert(model::calm(e, i));
    }
    assert forall|k: int| 0 <= k < h.stack.len() implies 0 <= #[trigger] h.stack[k] < h.nodes.len()
        && h.nodes[h.stack[k]].kind.holds_children() by {
        if k < g.stack.len() {
            assert(0 <= g.stack[k] < g.nodes.len());
        }
    }
    assert forall|k: int| 0 < k < h.stack.len() implies h.nodes[#[trigger] h.stack[k]].kind is Element by {
        if k < g.stack.len() {
            assert(g.nodes[g.stack[k]].kind is Element);
        }
    }
}

proof fn lemma_uri_place(uris: Seq<Seq<char>>, u: Seq<char>, i: int)
    requires
        0 <= i,
    ensures
        match uri_place(uris, u, i) {
            Some(k) => i <= k < uris.len(),
            None => true,
        },
    decreases uris.len() - i,
{
    if i < uris.len() && uris[i] != u {
        lemma_uri_place(uris, u, i + 1);
    }
}

pub proof fn lemma_local_len(s: Seq<u8>)
    ensures
        name::local(s).len() <= s.len(),
{
    name::lemma_find(s, 0, 58);
}

/// The attributes of a tag lie in the part.
pub proof fn lemma_attrs_inside(s: Seq<u8>, list: Seq<RawAttr>, lo: int, hi: int)
    requires
        laws::attrs_fit(s, list, lo, hi),
        hi <= s.len(),
    ensures
        lo <= hi,
        forall|i: int|
            0 <= i < list.len() ==> laws::attr_fits(
                s,
                #[trigger] list[i],
                list[i].pre_ws.start as int,
                list[i].value.end + 1,
            ),
    decreases list.len(),
{
    if list.len() > 0 {
        let init = list.drop_last();
        lemma_attrs_inside(s, init, lo, list.last().pre_ws.start as int);
        assert forall|i: int| 0 <= i < list.len() implies laws::attr_fits(
            s,
            #[trigger] list[i],
            list[i].pre_ws.start as int,
            list[i].value.end + 1,
        ) by {
            if i < init.len() {
                assert(init[i] == list[i]);
            }
        }
    }
}

/// A tree whose innermost element closes keeps what holds of it.
proof fn lemma_ended(src: Seq<u8>, g: Grow, t: EndTag, limits: Limits)
    requires
        grow_ok(src, g, limits),
        laws::end_fits(src, t, t.span.start as int, t.span.end as int),
        g.stack.len() > 1,
    ensures
        grow_ok(src, ended(g, t)->Ok_0, limits),
{
    let h = ended(g, t)->Ok_0;
    let d = dom_of(src, g, limits);
    let e = dom_of(src, h, limits);
    let n = g.nodes.len() as int;
    let x = g.stack[g.stack.len() - 1];
    arena::lemma_mark_bits();
    assert(g.nodes[x].kind is Element);
    assert(model::node_ok(d, x));
    assert forall|i: int| 0 <= i < e.nodes.len() implies #[trigger] model::node_ok(e, i) by {
        assert(model::node_ok(d, i));
        assert(model::apart(d, i, x));
    }
    assert forall|i: int| 0 <= i < e.attrs.len() implies #[trigger] model::attr_at_ok(e, i) by {
        assert(model::attr_at_ok(d, i));
    }
    assert forall|i: int, j: int|
        0 <= i < e.nodes.len() && 0 <= j < e.nodes.len() implies #[trigger] model::apart(
        e,
        i,
        j,
    ) by {
        assert(model::apart(d, i, j));
        assert(model::apart(d, i, x));
        assert(model::apart(d, j, x));
        assert(model::node_ok(d, i));
        assert(model::node_ok(d, j));
    }
    assert forall|i: int| 0 <= i < e.nodes.len() implies #[trigger] model::calm(e, i) by {
        assert(model::calm(d, i));
    }
    assert forall|i: int| 0 <= i < e.nodes.len() implies #[trigger] model::reported(e, i) by {
        assert(model::calm(e, i));
    }
    assert forall|k: int| 0 <= k < h.stack.len() implies 0 <= #[trigger] h.stack[k] < h.nodes.len()
        && h.nodes[h.stack[k]].kind.holds_children() by {
        assert(0 <= g.stack[k] < g.nodes.len());
    }
    assert forall|k: int| 0 < k < h.stack.len() implies h.nodes[#[trigger] h.stack[k]].kind is Element by {
        assert(g.nodes[g.stack[k]].kind is Element);
    }
}

/// An event keeps what holds of a tree.
pub proof fn lemma_stepped(src: Seq<u8>, g: Grow, i: reader::Item, limits: Limits)
    requires
        grow_ok(src, g, limits),
        src.len() <= u32::MAX,
        laws::item_fits(src, i),
    ensures
        match stepped(src, g, i, limits) {
            Ok(h) => grow_ok(src, h, limits),
            Err(_) => true,
        },
{
    arena::lemma_mark_bits();
    if let Ok(h) = stepped(src, g, i, limits) {
        let x = laws::span_of(i.part);
        match i.part {
            lexer::Part::Start(t) => lemma_started(src, g, t, i.ns, limits),
            lexer::Part::End(t) => lemma_ended(src, g, t, limits),
            lexer::Part::Decl(_) => lemma_hung(src, g, h.nodes.last(), limits),
            lexer::Part::Pi(_) => lemma_hung(src, g, h.nodes.last(), limits),
            lexer::Part::Comment(_) => lemma_hung(src, g, h.nodes.last(), limits),
            lexer::Part::CData(_) => lemma_hung(src, g, h.nodes.last(), limits),
            lexer::Part::Text(_) => lemma_hung(src, g, h.nodes.last(), limits),
        }
    }
}

struct Builder<'a> {
    src: &'a [u8],
    limits: &'a Limits,
    nodes: Vec<Node>,
    elements: Vec<ElementData>,
    attrs: Vec<Attr>,
    uris: Vec<String>,
    stack: Vec<NodeId>,
    links: Ghost<Links>,
}

spec fn nums(s: Seq<NodeId>) -> Seq<int> {
    s.map_values(|n: NodeId| n.num())
}

impl<'a> Builder<'a> {
    spec fn view(&self) -> Grow {
        Grow {
            nodes: arena::cores(self.nodes@),
            links: self.links@,
            elements: self.elements@,
            attrs: self.attrs@,
            uris: document::texts(self.uris@),
            stack: nums(self.stack@),
        }
    }

    spec fn wf(&self) -> bool {
        &&& self.src@.len() <= u32::MAX
        &&& arena::linked(self.nodes@, self.links@)
        &&& grow_ok(self.src@, self@, *self.limits)
    }

    /// Checks that there may be one more node.
    fn room(&self) -> (r: Option<Error>)
        requires
            self.nodes@.len() <= u32::MAX,
        ensures
            r == node_quota(self@.nodes.len() as int, *self.limits),
    {
        let n: usize = self.nodes.len();
        let max: u64 = self.limits.max_nodes_per_part;
        if n as u64 >= max {
            return Some(Error::Limit(LimitError::TooManyNodes { got: n as u64 + 1, max }));
        }
        if n >= u32::MAX as usize {
            return Some(Error::Limit(LimitError::TooManyNodes { got: n as u64, max }));
        }
        None
    }

    /// Adds a node as the last child of what is open.
    fn hang(&mut self, kind: NodeKind, span: Span, flags: NodeFlags, aux: u32) -> (r: NodeId)
        requires
            arena::linked(old(self).nodes@, old(self).links@),
            arena::forest(old(self).links@),
            ancestry::acyclic(old(self).links@.up),
            stack_ok(old(self)@),
            old(self).nodes@.len() < u32::MAX,
        ensures
            arena::linked(final(self).nodes@, final(self).links@),
            final(self)@ == hung(old(self)@, Core { span, aux, kind, flags }),
            final(self).src == old(self).src,
            final(self).limits == old(self).limits,
            final(self).stack == old(self).stack,
            r.num() == old(self).nodes@.len(),
    {
        let ghost g = self@;
        let ghost l = arena::extended(self.links@);
        let n: usize = self.nodes.len();
        let id: NodeId = match NodeId::from_index(n) {
            Some(id) => id,
            None => NodeId::first(),
        };
        let mut node: Node = Node::new(kind, span, flags);
        node.aux = aux;
        proof {
            lemma_hung_links(g);
            arena::lemma_linked_extended(self.nodes@, self.links@, node);
        }
        self.nodes.push(node);
        let top: NodeId = self.stack[self.stack.len() - 1];
        proof {
            assert(g.stack[g.stack.len() - 1] == top.num());
            assert(arena::cores(self.nodes@) =~= g.nodes.push(node.bare()));
        }
        links::link_last(&mut self.nodes, top, id, Ghost(l));
        self.links = Ghost(
            arena::inserted(l, top.num(), l.kids[top.num()].len() as int, id.num()),
        );
        id
    }

    fn leaf(&mut self, kind: NodeKind, span: Span) -> (r: Result<(), Error>)
        requires
            old(self).wf(),
        ensures
            final(self).src == old(self).src,
            final(self).limits == old(self).limits,
            match r {
                Ok(_) => arena::linked(final(self).nodes@, final(self).links@) && leaf(
                    old(self)@,
                    kind,
                    span,
                    *old(self).limits,
                ) == Ok::<Grow, Error>(final(self)@),
                Err(e) => leaf(old(self)@, kind, span, *old(self).limits) == Err::<Grow, Error>(e),
            },
    {
        if let Some(e) = self.room() {
            return Err(e);
        }
        let _id = self.hang(kind, span, NodeFlags { marks: 0 }, u32::MAX);
        Ok(())
    }

    /// The number of a namespace.
    fn intern(&mut self, ns: &Option<String>) -> (r: u32)
        requires
            old(self).uris@.len() <= u32::MAX,
        ensures
            (document::texts(final(self).uris@), r) == interned(
                old(self)@.uris,
                match ns {
                    Some(t) => Some(t@),
                    None => None,
                },
            ),
            final(self).src == old(self).src,
            final(self).limits == old(self).limits,
            final(self).nodes == old(self).nodes,
            final(self).elements == old(self).elements,
            final(self).attrs == old(self).attrs,
            final(self).stack == old(self).stack,
            final(self).links == old(self).links,
    {
        let t: &String = match ns {
            Some(t) => t,
            None => return u32::MAX,
        };
        let ghost all = document::texts(self.uris@);
        let mut i: usize = 0;
        while i < self.uris.len()
            invariant
                self == old(self),
                self.uris@.len() <= u32::MAX,
                i <= self.uris@.len(),
                all == document::texts(self.uris@),
                *ns == Some(*t),
                uri_place(all, t@, i as int) == uri_place(all, t@, 0),
            decreases self.uris@.len() - i,
        {
            assert(all[i as int] == self.uris@[i as int]@);
            if text::same_text(self.uris[i].as_str(), t.as_str()) {
                return i as u32;
            }
            i = i + 1;
        }
        let n: u32 = self.uris.len() as u32;
        self.uris.push(t.clone());
        assert(document::texts(self.uris@) =~= all.push(t@));
        n
    }

    fn start(&mut self, t: &StartTag, ns: &Option<String>) -> (r: Result<(), Error>)
        requires
            old(self).wf(),
            laws::start_fits(old(self).src@, t@, t.span.start as int, t.span.end as int),
        ensures
            final(self).src == old(self).src,
            final(self).limits == old(self).limits,
            match r {
                Ok(_) => arena::linked(final(self).nodes@, final(self).links@) && started(
                    old(self).src@,
                    old(self)@,
                    t@,
                    match ns {
                        Some(u) => Some(u@),
                        None => None,
                    },
                    *old(self).limits,
                ) == Ok::<Grow, Error>(final(self)@),
                Err(e) => started(
                    old(self).src@,
                    old(self)@,
                    t@,
                    match ns {
                        Some(u) => Some(u@),
                        None => None,
                    },
                    *old(self).limits,
                ) == Err::<Grow, Error>(e),
            },
    {
        let ghost g = self@;
        proof {
            lemma_attrs_inside(self.src@, t.attrs@, t.name.end as int, t.pre_close_ws.start as int);
            lemma_local_len(lexer::cut(self.src@, t.name));
        }
        let u: u32 = self.intern(ns);
        if let Some(e) = self.room() {
            return Err(e);
        }
        let from: usize = self.attrs.len();
        let count: usize = t.attrs.len();
        if from > u32::MAX as usize || count > u32::MAX as usize - from {
            return Err(
                Error::Limit(
                    LimitError::PartTooLarge { got: u32::MAX as u64, max: u32::MAX as u64 },
                ),
            );
        }
        let mut i: usize = 0;
        let ghost raw = t.attrs@;
        assert(self.attrs@ =~= g.attrs + attrs_made(raw.take(0)));
        while i < count
            invariant
                i <= count,
                count == t.attrs@.len(),
                raw == t.attrs@,
                self.attrs@ == g.attrs + attrs_made(raw.take(i as int)),
                self.src == old(self).src,
                self.limits == old(self).limits,
                self.nodes == old(self).nodes,
                self.elements == old(self).elements,
                self.stack == old(self).stack,
                self.links == old(self).links,
                (document::texts(self.uris@), u) == interned(
                    g.uris,
                    match ns {
                        Some(t) => Some(t@),
                        None => None,
                    },
                ),
            decreases count - i,
        {
            let a: RawAttr = t.attrs[i];
            self.attrs.push(
                Attr {
                    pre_ws: a.pre_ws,
                    name: a.name,
                    ws_before_eq: a.ws_before_eq,
                    ws_after_eq: a.ws_after_eq,
                    value: a.value,
                    quote: a.quote,
                    flags: AttrFlags { marks: 0 },
                },
            );
            i = i + 1;
            assert(self.attrs@ =~= g.attrs + attrs_made(raw.take(i as int)));
        }
        assert(raw.take(i as int) =~= raw);
        let whole = vstd::slice::slice_subrange(
            self.src,
            t.name.start as usize,
            t.name.end as usize,
        );
        let w: usize = name::local_of(whole).len();
        let aux: u32 = self.elements.len() as u32;
        self.elements.push(
            ElementData {
                qname: t.name,
                local: Span { start: t.name.end - w as u32, end: t.name.end },
                pre_close_ws: t.pre_close_ws,
                close_qname: Span { start: 0, end: 0 },
                close_trailing_ws: Span { start: 0, end: 0 },
                attrs_from: from as u32,
                attrs_len: count as u32,
                ns_uri: u,
                flags: ElemFlags { marks: 0 },
            },
        );
        let flags: NodeFlags = if t.empty {
            NodeFlags { marks: 4 }
        } else {
            NodeFlags { marks: 0 }
        };
        let id: NodeId = self.hang(NodeKind::Element, t.span, flags, aux);
        if !t.empty {
            let ghost open = self.stack@;
            self.stack.push(id);
            assert(nums(self.stack@) =~= nums(open).push(id.num()));
        }
        Ok(())
    }

    fn end(&mut self, t: EndTag) -> (r: Result<(), Error>)
        requires
            old(self).wf(),
        ensures
            final(self).src == old(self).src,
            final(self).limits == old(self).limits,
            match r {
                Ok(_) => arena::linked(final(self).nodes@, final(self).links@) && ended(
                    old(self)@,
                    t,
                ) == Ok::<Grow, Error>(final(self)@),
                Err(e) => ended(old(self)@, t) == Err::<Grow, Error>(e),
            },
    {
        let ghost g = self@;
        let ghost before = self.nodes@;
        let n: usize = self.stack.len();
        if n <= 1 {
            return Err(lexer::fail(XmlError::UnbalancedTag, t.span.start as usize));
        }
        let id: NodeId = self.stack[n - 1];
        proof {
            assert(g.stack[n - 1] == id.num());
            assert(g.nodes[g.stack[n - 1]].kind is Element);
            assert(model::node_ok(dom_of(self.src@, g, *self.limits), id.num()));
        }
        let i: usize = id.index();
        let s: Span = self.nodes[i].span;
        let aux: usize = self.nodes[i].aux as usize;
        self.nodes[i].span = Span::clamped(s.start, t.span.end);
        self.elements[aux].close_qname = t.name;
        self.elements[aux].close_trailing_ws = t.trailing_ws;
        let ghost open = self.stack@;
        let _id = self.stack.pop();
        proof {
            arena::lemma_linked_frame(before, self.nodes@, self.links@);
            assert(nums(self.stack@) =~= nums(open).drop_last());
            let h = ended(g, t)->Ok_0;
            assert(arena::cores(self.nodes@) =~= h.nodes);
            assert(self.elements@ =~= h.elements);
        }
        Ok(())
    }

    fn step(&mut self, ev: &Event) -> (r: Result<(), Error>)
        requires
            old(self).wf(),
            laws::item_fits(old(self).src@, ev@),
        ensures
            final(self).src == old(self).src,
            final(self).limits == old(self).limits,
            match r {
                Ok(_) => final(self).wf() && stepped(
                    old(self).src@,
                    old(self)@,
                    ev@,
                    *old(self).limits,
                ) == Ok::<Grow, Error>(final(self)@),
                Err(e) => stepped(old(self).src@, old(self)@, ev@, *old(self).limits) == Err::<
                    Grow,
                    Error,
                >(e),
            },
    {
        proof {
            lemma_stepped(self.src@, self@, ev@, *self.limits);
        }
        match &ev.piece {
            Piece::Decl(x) => self.leaf(NodeKind::Decl, *x),
            Piece::Pi(x) => self.leaf(NodeKind::Pi, *x),
            Piece::Comment(x) => self.leaf(NodeKind::Comment, *x),
            Piece::CData(x) => self.leaf(NodeKind::CData, *x),
            Piece::Text(x) => self.leaf(NodeKind::Text, *x),
            Piece::Start(t) => self.start(t, &ev.ns),
            Piece::End(t) => self.end(*t),
        }
    }
}

impl Document {
    /// Reads a part. Its bytes stay in the document.
    pub fn parse(bytes: Vec<u8>, limits: &Limits) -> (r: Result<Self, Error>)
        ensures
            match r {
                Ok(d) => d.wf() && parsed(bytes@, *limits) == Ok::<model::Dom, Error>(d@),
                Err(e) => parsed(bytes@, *limits) == Err::<model::Dom, Error>(e),
            },
    {
        let n: usize = bytes.len();
        if let Err(e) = limits.check_part_size(n as u64) {
            return Err(e);
        }
        if n > u32::MAX as usize {
            return Err(
                Error::Limit(LimitError::PartTooLarge { got: n as u64, max: u32::MAX as u64 }),
            );
        }
        let src = bytes.as_slice();
        let scan = reader::scan(src, limits);
        let mut b = Builder {
            src,
            limits,
            nodes: Vec::new(),
            elements: Vec::new(),
            attrs: Vec::new(),
            uris: Vec::new(),
            stack: Vec::new(),
            links: Ghost(Links { kids: seq![Seq::empty()], up: seq![None] }),
        };
        if let Some(e) = b.room() {
            return Err(e);
        }
        let first: NodeId = NodeId::first();
        b.nodes.push(
            Node::new(
                NodeKind::Document,
                Span { start: 0, end: n as u32 },
                NodeFlags { marks: 0 },
            ),
        );
        b.stack.push(first);
        let ghost items = reader::events(src@, *limits).0;
        proof {
            lemma_seed(src@, *limits);
            assert(b@.nodes =~= seed(src@).nodes);
            assert(b@.links.kids =~= seed(src@).links.kids);
            assert(b@.stack =~= seed(src@).stack);
            assert(b@.uris =~= seed(src@).uris);
            laws::lemma_items_fit(
                src@,
                reader::body_start(src@),
                reader::body_start(src@),
                reader::Progress { frames: Seq::empty(), rooted: false },
                *limits,
            );
            assert(items.skip(0) =~= items);
        }
        let mut i: usize = 0;
        while i < scan.events.len()
            invariant
                i <= scan.events@.len(),
                src@ == bytes@,
                bytes@.len() <= limits.max_part_bytes,
                bytes@.len() <= u32::MAX,
                node_quota(0, *limits) is None,
                items == reader::events(src@, *limits).0,
                b.wf(),
                b.src == src,
                b.limits == limits,
                items == reader::items(scan.events@),
                forall|k: int| 0 <= k < items.len() ==> laws::item_fits(src@, #[trigger] items[k]),
                grown(src@, b@, items.skip(i as int), *limits) == grown(
                    src@,
                    seed(src@),
                    items,
                    *limits,
                ),
            decreases scan.events@.len() - i,
        {
            proof {
                assert(items[i as int] == scan.events@[i as int]@);
                assert(items.skip(i as int)[0] == items[i as int]);
                assert(items.skip(i as int).skip(1) =~= items.skip(i + 1));
            }
            if let Err(e) = b.step(&scan.events[i]) {
                return Err(e);
            }
            i = i + 1;
        }
        if let Some(e) = scan.failure {
            return Err(e);
        }
        let nodes = b.nodes;
        let elements = b.elements;
        let attrs = b.attrs;
        let uris = b.uris;
        let links = b.links;
        let mut arena: Vec<u8> = Vec::new();
        arena.push(32);
        assert(arena@ =~= seq![32u8]);
        let lim: Limits = limits.duplicate();
        Ok(
            Document {
                src: bytes,
                arena,
                nodes,
                elements,
                attrs,
                uris,
                root: first,
                bom: scan.bom,
                dirty: false,
                limits: lim,
                links,
            },
        )
    }
}

} // verus!
