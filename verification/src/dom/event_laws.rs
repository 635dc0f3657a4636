//! What the events of a part add to its tree.
use vstd::prelude::*;

use crate::bytes::Span;
use crate::dom::arena;
use crate::dom::model::Dom;
use crate::dom::parse;
use crate::dom::parse::Grow;
use crate::dom::query;
use crate::limits::Limits;
use crate::xml::lexer;
use crate::xml::lexer::{EndTag, Open};
use crate::xml::name;
use crate::xml::reader;

verus! {

/// A node is the same in a bigger tree: its kind, its bytes, its name, its
/// namespace and its attributes, and what it hangs on.
pub open spec fn kept(d: Dom, e: Dom, i: int) -> bool {
    &&& e.nodes[i] == d.nodes[i]
    &&& e.up(i) == d.up(i)
    &&& d.nodes[i].kind is Element ==> {
        &&& query::qname_of(e, i) == query::qname_of(d, i)
        &&& query::local_name_of(e, i) == query::local_name_of(d, i)
        &&& query::uri_of(e, i) == query::uri_of(d, i)
        &&& e.attrs_of(i) == d.attrs_of(i)
    }
}

/// One more node is the last child of the innermost element that is open.
pub open spec fn added_last(d: Dom, e: Dom, p: int) -> bool {
    let n = d.nodes.len() as int;
    &&& e.nodes.len() == n + 1
    &&& e.up(n) == Some(p)
    &&& e.kids(n).len() == 0
    &&& e.kids(p) == d.kids(p) + seq![n]
    &&& forall|i: int| d.has_node(i) && i != p ==> #[trigger] e.kids(i) == d.kids(i)
    &&& forall|i: int| d.has_node(i) ==> #[trigger] kept(d, e, i)
}

proof fn lemma_hung_last(src: Seq<u8>, g: Grow, h: Grow, limits: Limits)
    requires
        parse::grow_ok(src, g, limits),
        h.nodes.len() == g.nodes.len() + 1,
        h.nodes.take(g.nodes.len() as int) == g.nodes,
        h.links == parse::hung(g, h.nodes.last()).links,
        g.elements.len() <= h.elements.len(),
        h.elements.take(g.elements.len() as int) == g.elements,
        g.attrs.len() <= h.attrs.len(),
        h.attrs.take(g.attrs.len() as int) == g.attrs,
        g.uris.len() <= h.uris.len(),
        h.uris.take(g.uris.len() as int) == g.uris,
    ensures
        added_last(parse::dom_of(src, g, limits), parse::dom_of(src, h, limits), g.stack.last()),
{
    let d = parse::dom_of(src, g, limits);
    let e = parse::dom_of(src, h, limits);
    let p = g.stack.last();
    let n = g.nodes.len() as int;
    assert(g.stack[g.stack.len() - 1] == p);
    assert(e.kids(p) =~= d.kids(p) + seq![n]);
    assert forall|i: int| d.has_node(i) implies #[trigger] kept(d, e, i) by {
        assert(crate::dom::model::node_ok(d, i));
        assert(h.nodes.take(n)[i] == h.nodes[i]);
        if d.nodes[i].kind is Element {
            let x = d.nodes[i].aux as int;
            assert(h.elements.take(g.elements.len() as int)[x] == h.elements[x]);
            assert(e.elem(i) == d.elem(i));
            let s = d.elem(i);
            assert(e.attrs_of(i) =~= d.attrs_of(i)) by {
                assert forall|k: int| s.attrs_from <= k < s.attrs_from + s.attrs_len implies
                    h.attrs[k] == g.attrs[k] by {
                    assert(h.attrs.take(g.attrs.len() as int)[k] == h.attrs[k]);
                }
            }
            if s.ns_uri != u32::MAX {
                assert(h.uris.take(g.uris.len() as int)[s.ns_uri as int] == h.uris[s.ns_uri as int]);
            }
        }
    }
}

/// A text, a comment, an instruction, a declaration or a section adds one node
/// of its kind with its bytes, as the last child of what is open, and changes
/// nothing else.
pub proof fn lemma_piece_adds_a_node(src: Seq<u8>, g: Grow, i: reader::Item, limits: Limits)
    requires
        parse::grow_ok(src, g, limits),
        !(i.part is Start),
        !(i.part is End),
    ensures
        parse::stepped(src, g, i, limits) matches Ok(h) ==> {
            let d = parse::dom_of(src, g, limits);
            let e = parse::dom_of(src, h, limits);
            let n = d.nodes.len() as int;
            &&& added_last(d, e, g.stack.last())
            &&& h.stack == g.stack
            &&& match i.part {
                lexer::Part::Decl(x) => e.nodes[n].kind is Decl && e.nodes[n].span == x,
                lexer::Part::Pi(x) => e.nodes[n].kind is Pi && e.nodes[n].span == x,
                lexer::Part::Comment(x) => e.nodes[n].kind is Comment && e.nodes[n].span == x,
                lexer::Part::CData(x) => e.nodes[n].kind is CData && e.nodes[n].span == x,
                lexer::Part::Text(x) => e.nodes[n].kind is Text && e.nodes[n].span == x,
                _ => true,
            }
        },
{
    if let Ok(h) = parse::stepped(src, g, i, limits) {
        assert(h.nodes.take(g.nodes.len() as int) =~= g.nodes);
        assert(h.elements.take(g.elements.len() as int) =~= g.elements);
        assert(h.attrs.take(g.attrs.len() as int) =~= g.attrs);
        assert(h.uris.take(g.uris.len() as int) =~= g.uris);
        lemma_hung_last(src, g, h, limits);
    }
}

proof fn lemma_uri_found(uris: Seq<Seq<char>>, u: Seq<char>, i: int)
    requires
        0 <= i <= uris.len(),
    ensures
        parse::uri_place(uris, u, i) matches Some(k) ==> i <= k < uris.len() && uris[k] == u,
    decreases uris.len() - i,
{
    if i < uris.len() && uris[i] != u {
        lemma_uri_found(uris, u, i + 1);
    }
}

/// An opening tag adds an element, as the last child of what is open: with the
/// name of the tag, in the namespace that the tag stands in, and with the
/// attributes of the tag in their order. Unless the tag is an empty one, the
/// element is what is open then.
pub proof fn lemma_opening_tag_adds_an_element(
    src: Seq<u8>,
    g: Grow,
    t: Open,
    ns: Option<Seq<char>>,
    limits: Limits,
)
    requires
        parse::grow_ok(src, g, limits),
        t.name.within(src.len()),
    ensures
        parse::started(src, g, t, ns, limits) matches Ok(h) ==> {
            let d = parse::dom_of(src, g, limits);
            let e = parse::dom_of(src, h, limits);
            let n = d.nodes.len() as int;
            let full = src.subrange(t.name.start as int, t.name.end as int);
            &&& added_last(d, e, g.stack.last())
            &&& h.stack == if t.empty {
                g.stack
            } else {
                g.stack.push(n)
            }
            &&& e.nodes[n].kind is Element && e.nodes[n].span == t.span
            &&& query::qname_of(e, n) == full
            &&& query::local_name_of(e, n) == name::local(full)
            &&& query::uri_of(e, n) == ns
            &&& e.attrs_of(n).len() == t.attrs.len()
            &&& forall|k: int|
                0 <= k < t.attrs.len() ==> {
                    let a = #[trigger] e.attrs_of(n)[k];
                    &&& query::attr_name(e, a) == src.subrange(
                        t.attrs[k].name.start as int,
                        t.attrs[k].name.end as int,
                    )
                    &&& query::attr_value(e, a) == src.subrange(
                        t.attrs[k].value.start as int,
                        t.attrs[k].value.end as int,
                    )
                }
        },
{
    if let Ok(h) = parse::started(src, g, t, ns, limits) {
        let e = parse::dom_of(src, h, limits);
        let n = g.nodes.len() as int;
        let full = src.subrange(t.name.start as int, t.name.end as int);
        if ns is Some {
            lemma_uri_found(g.uris, ns->0, 0);
        }
        assert(h.nodes.take(n) =~= g.nodes);
        assert(h.elements.take(g.elements.len() as int) =~= g.elements);
        assert(h.attrs.take(g.attrs.len() as int) =~= g.attrs);
        assert(h.uris.take(g.uris.len() as int) =~= g.uris);
        lemma_hung_last(src, g, h, limits);
        arena::lemma_mark_bits();
        parse::lemma_local_len(full);
        name::lemma_find(full, 0, 58);
        assert(0u8 & 1u8 == 0) by (bit_vector);
        assert(0u8 & 2u8 == 0) by (bit_vector);
        assert(query::qname_of(e, n) =~= full);
        assert(query::local_name_of(e, n) =~= name::local(full));
        assert(e.attrs_of(n) =~= parse::attrs_made(t.attrs));
    }
}

/// A closing tag ends the innermost element that is open: its bytes reach to the
/// end of the tag, and what was open around it is open again. Nothing else
/// changes.
pub proof fn lemma_closing_tag_ends_the_innermost(
    src: Seq<u8>,
    g: Grow,
    t: EndTag,
    limits: Limits,
)
    requires
        parse::grow_ok(src, g, limits),
        t.span.start <= t.span.end,
        g.nodes[g.stack.last()].span.end <= t.span.start,
    ensures
        parse::ended(g, t) is Ok == (g.stack.len() > 1),
        parse::ended(g, t) matches Ok(h) ==> {
            let d = parse::dom_of(src, g, limits);
            let e = parse::dom_of(src, h, limits);
            let i = g.stack.last();
            &&& h.stack == g.stack.drop_last()
            &&& e.links == d.links && e.attrs == d.attrs && e.uris == d.uris
            &&& e.nodes.len() == d.nodes.len()
            &&& e.nodes[i].kind == d.nodes[i].kind
            &&& e.nodes[i].span == (Span { start: d.nodes[i].span.start, end: t.span.end })
            &&& forall|j: int| d.has_node(j) && j != i ==> #[trigger] e.nodes[j] == d.nodes[j]
            &&& e.elem(i).qname == d.elem(i).qname && e.elem(i).local == d.elem(i).local
                && e.elem(i).ns_uri == d.elem(i).ns_uri && e.attrs_of(i) == d.attrs_of(i)
            &&& e.elem(i).close_qname == t.name
        },
{
    if let Ok(h) = parse::ended(g, t) {
        let d = parse::dom_of(src, g, limits);
        let i = g.stack.last();
        assert(g.stack[g.stack.len() - 1] == i);
        assert(crate::dom::model::node_ok(d, i));
    }
}

} // verus!
