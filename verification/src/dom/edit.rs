//! Changing a document.
//!
//! An edit marks the changed node, and every node above it. All other nodes are
//! still written by copying. Bytes of the source stay as they are: a new value
//! is escaped and becomes new bytes.
use vstd::prelude::*;
use vstd::string::*;

use crate::bytes::span::Span;
use crate::dom::ancestry;
use crate::dom::arena;
use crate::dom::arena::{Core, Links, Node, NodeFlags, NodeId, NodeKind};
use crate::dom::change;
use crate::dom::document;
use crate::dom::document::Document;
use crate::dom::model;
use crate::dom::model::Dom;
use crate::dom::node::{Attr, AttrFlags, ElemFlags, ElementData};
use crate::dom::parse;
use crate::dom::query;
use crate::dom::serialize;
use crate::error::{Error, LimitError, XmlError};
use crate::xml::escape;
use crate::xml::lexer;
use crate::xml::name;

verus! {

/// What is written for a value.
pub open spec fn value_bytes(v: Seq<char>, quote: Option<char>) -> Seq<u8> {
    vstd::utf8::encode_utf8(escape::escaped(v, quote))
}

pub open spec fn quote_char(q: u8) -> char {
    if q == 34 {
        '"'
    } else {
        '\''
    }
}

/// What is wrong with new bytes for a value: a character that is not allowed,
/// or that there are too many.
pub open spec fn value_fault(d: Dom, v: Seq<char>, quote: Option<char>) -> Option<Error> {
    match escape::first_illegal(v, 0) {
        Some(i) => Some(escape::illegal(v, i)),
        None => if d.arena.len() + value_bytes(v, quote).len() > u32::MAX {
            Some(parse::overflow())
        } else {
            None
        },
    }
}

/// The error for a node that is no element of the document.
pub open spec fn element_fault(d: Dom, i: int) -> Option<Error> {
    if !d.has_node(i) {
        Some(document::no_node())
    } else if !(d.nodes[i].kind is Element) {
        Some(document::no_element())
    } else {
        None
    }
}

/// The document where an attribute has another value.
pub open spec fn value_changed(d: Dom, i: int, k: int, v: Seq<char>) -> Dom {
    let j = d.elem(i).attrs_from + k;
    let a = d.attrs[j];
    let b = value_bytes(v, Some(quote_char(a.quote)));
    change::marked(
        change::attr_replaced(
            change::arena_grown(d, b),
            j,
            Attr {
                value: change::new_span(d, b),
                flags: AttrFlags { marks: a.flags.marks | AttrFlags::VALUE_IN_ARENA },
                ..a
            },
        ),
        i,
    )
}

/// A new attribute: behind a space, in double quotes.
pub open spec fn new_attr(d: Dom, q: Seq<u8>, b: Seq<u8>) -> Attr {
    let n = d.arena.len();
    Attr {
        pre_ws: Span { start: 0, end: 1 },
        name: change::new_span(d, q),
        ws_before_eq: parse::nil(),
        ws_after_eq: parse::nil(),
        value: Span { start: (n + q.len()) as u32, end: (n + q.len() + b.len()) as u32 },
        quote: 34,
        flags: AttrFlags { marks: 7 },
    }
}

/// What stands against other attributes of an element.
pub open spec fn attrs_fault(d: Dom, count: int) -> Option<Error> {
    if count > d.limits.max_attrs_per_element {
        Some(
            Error::Limit(
                LimitError::TooManyAttrs {
                    got: count as u64,
                    max: d.limits.max_attrs_per_element,
                },
            ),
        )
    } else if d.attrs.len() + count > u32::MAX {
        Some(parse::overflow())
    } else {
        None
    }
}

/// The document where an element has one more attribute.
pub open spec fn attr_added(d: Dom, i: int, q: Seq<u8>, v: Seq<char>) -> Result<Dom, Error> {
    let b = value_bytes(v, Some('"'));
    let e = change::arena_grown(d, q);
    let list = d.attrs_of(i).push(new_attr(d, q, b));
    if d.arena.len() + q.len() > u32::MAX {
        Err(parse::overflow())
    } else {
        match value_fault(e, v, Some('"')) {
            Some(x) => Err(x),
            None => match attrs_fault(d, list.len() as int) {
                Some(x) => Err(x),
                None => Ok(
                    change::marked(
                        change::attrs_moved(change::arena_grown(e, b), i, list),
                        i,
                    ),
                ),
            },
        }
    }
}

/// The document where an attribute has a value. The attribute is the one whose
/// name is written so; when there is none it is added.
pub open spec fn attr_set(d: Dom, i: int, q: Seq<char>, v: Seq<char>) -> Result<Dom, Error> {
    let qb = vstd::utf8::encode_utf8(q);
    if !name::qname_ok(qb) {
        lexer::fault(XmlError::BadName, 0)
    } else {
        match element_fault(d, i) {
            Some(e) => Err(e),
            None => match query::raw_place(d, d.attrs_of(i), qb, 0) {
                Some(k) => match value_fault(
                    d,
                    v,
                    Some(quote_char(d.attrs[d.elem(i).attrs_from + k].quote)),
                ) {
                    Some(e) => Err(e),
                    None => Ok(value_changed(d, i, k, v)),
                },
                None => attr_added(d, i, qb, v),
            },
        }
    }
}

/// The document where an element has no attribute of a name.
pub open spec fn attr_removed(d: Dom, i: int, ns: Option<Seq<char>>, local: Seq<char>) -> Result<
    (Dom, bool),
    Error,
> {
    match element_fault(d, i) {
        Some(e) => Err(e),
        None => match query::attr_place(d, i, ns, local, 0) {
            None => Ok((d, false)),
            Some(k) => {
                let list = d.attrs_of(i).remove(k);
                match attrs_fault(d, list.len() as int) {
                    Some(e) => Err(e),
                    None => Ok((change::marked(change::attrs_moved(d, i, list), i), true)),
                }
            },
        },
    }
}

/// The links where a node has no children.
pub open spec fn emptied(l: Links, i: int) -> Links {
    Links {
        kids: l.kids.update(i, Seq::empty()),
        up: Seq::new(
            l.up.len(),
            |c: int|
                if l.up[c] == Some(i) {
                    None
                } else {
                    l.up[c]
                },
        ),
    }
}

/// What stands against one more node.
pub open spec fn room_fault(d: Dom) -> Option<Error> {
    let n = d.nodes.len();
    let max = d.limits.max_nodes_per_part;
    if n + 1 > max {
        Some(Error::Limit(LimitError::TooManyNodes { got: (n + 1) as u64, max }))
    } else if n >= u32::MAX {
        Some(Error::Unsupported("dom: исчерпано пространство узлов"))
    } else {
        None
    }
}

/// The document where a text stands in new bytes.
pub open spec fn leaf_only(d: Dom, i: int, b: Seq<u8>) -> Dom {
    let c = d.nodes[i];
    Dom {
        nodes: d.nodes.update(
            i,
            Core {
                span: change::new_span(d, b),
                flags: NodeFlags { marks: c.flags.marks | NodeFlags::IN_ARENA },
                ..c
            },
        ),
        ..change::arena_grown(d, b)
    }
}

/// The document where a text is written as other bytes.
pub open spec fn leaf_set(d: Dom, i: int, b: Seq<u8>) -> Dom {
    change::marked(leaf_only(d, i, b), i)
}

/// The document where a text is another one.
pub open spec fn leaf_text_set(d: Dom, i: int, v: Seq<char>) -> Dom {
    leaf_set(d, i, value_bytes(v, None))
}

/// The document where an element has one text and nothing else.
pub open spec fn element_text_set(d: Dom, i: int, v: Seq<char>) -> Dom {
    let b = value_bytes(v, None);
    let n = d.nodes.len() as int;
    let c = Core {
        span: change::new_span(d, b),
        aux: Node::NO_AUX,
        kind: NodeKind::Text,
        flags: NodeFlags { marks: 9 },
    };
    let e = change::node_made(
        Dom { links: emptied(d.links, i), dirty: true, ..change::arena_grown(d, b) },
        c,
    );
    change::chained(change::hooked(change::opened_up(e, i), i, 0, n), Some(i))
}

/// The document where a node has a text.
pub open spec fn text_set(d: Dom, i: int, v: Seq<char>) -> Result<Dom, Error> {
    if !d.has_node(i) || !(d.nodes[i].kind is Text || d.nodes[i].kind is Element) {
        Err(Error::Unsupported("dom: текст задаётся только элементу или текстовому узлу"))
    } else {
        match value_fault(d, v, None) {
            Some(e) => Err(e),
            None => if d.nodes[i].kind is Text {
                Ok(leaf_text_set(d, i, v))
            } else {
                match room_fault(d) {
                    Some(e) => Err(e),
                    None => Ok(element_text_set(d, i, v)),
                }
            },
        }
    }
}

/// What is known of a new element.
pub open spec fn new_element_data(d: Dom, q: Seq<u8>) -> ElementData {
    let s = change::new_span(d, q);
    ElementData {
        qname: s,
        local: Span { start: (s.end - name::local(q).len()) as u32, end: s.end },
        pre_close_ws: parse::nil(),
        close_qname: s,
        close_trailing_ws: parse::nil(),
        attrs_from: if d.attrs.len() <= u32::MAX {
            d.attrs.len() as u32
        } else {
            0
        },
        attrs_len: 0,
        ns_uri: ElementData::NO_NS,
        flags: ElemFlags { marks: 1 },
    }
}

/// The document with one more element, which is linked with no other node.
pub open spec fn element_added(d: Dom, q: Seq<char>) -> Result<Dom, Error> {
    let qb = vstd::utf8::encode_utf8(q);
    if !name::qname_ok(qb) {
        lexer::fault(XmlError::BadName, 0)
    } else if d.arena.len() + qb.len() > u32::MAX {
        Err(parse::overflow())
    } else {
        match room_fault(d) {
            Some(e) => Err(e),
            None => Ok(
                change::element_made(
                    Dom { dirty: true, ..change::arena_grown(d, qb) },
                    Core {
                        span: parse::nil(),
                        aux: d.elements.len() as u32,
                        kind: NodeKind::Element,
                        flags: NodeFlags { marks: 5 },
                    },
                    new_element_data(d, qb),
                ),
            ),
        }
    }
}

/// What stands against a node as a child of another one.
pub open spec fn attach_fault(d: Dom, p: int, c: int) -> Option<Error> {
    if !d.has_node(p) {
        Some(document::no_node())
    } else if !d.nodes[p].kind.holds_children() {
        Some(Error::Unsupported("dom: у узла этого вида не может быть детей"))
    } else if c == d.root {
        Some(Error::Unsupported("dom: узел-документ не может быть ребёнком"))
    } else if !d.has_node(c) {
        Some(document::no_node())
    } else if d.up(c) is Some {
        Some(Error::Unsupported("dom: узел уже подключён к дереву"))
    } else if ancestry::below(d.links.up, p, c) {
        Some(Error::Unsupported("dom: подключение создало бы цикл"))
    } else {
        None
    }
}

/// The document where a node is the last child of another one.
pub open spec fn child_appended(d: Dom, p: int, c: int) -> Result<Dom, Error> {
    match attach_fault(d, p, c) {
        Some(e) => Err(e),
        None => Ok(
            change::chained(
                change::hooked(change::opened_up(d, p), p, d.kids(p).len() as int, c),
                Some(p),
            ),
        ),
    }
}

/// The document where a node stands before another one.
pub open spec fn child_inserted(d: Dom, anchor: int, c: int) -> Result<Dom, Error> {
    if !d.has_node(anchor) || d.up(anchor) is None {
        Err(Error::Unsupported("dom: у якоря нет родителя"))
    } else {
        let p = d.up(anchor)->0;
        match attach_fault(d, p, c) {
            Some(e) => Err(e),
            None => Ok(
                change::chained(
                    change::hooked(d, p, arena::place_of(d.links, anchor), c),
                    Some(p),
                ),
            ),
        }
    }
}

/// The document where a node is cut off from its parent.
pub open spec fn node_removed(d: Dom, c: int) -> Result<Dom, Error> {
    if c == d.root {
        Err(Error::Unsupported("dom: узел-документ удалить нельзя"))
    } else if !d.has_node(c) || d.up(c) is None {
        Err(Error::Unsupported("dom: узел уже отсоединён"))
    } else {
        Ok(change::chained(change::unhooked(d, c), d.up(c)))
    }
}

/// The marks of a value.
pub proof fn lemma_value_marks(m: u8)
    ensures
        arena::has(m | 2, 1) == arena::has(m, 1),
        arena::has(m | 2, 2),
        arena::has(m | 2, 4) == arena::has(m, 4),
        arena::has(7, 1) && arena::has(7, 2) && arena::has(7, 4),
{
    assert(((m | 2u8) & 1u8 != 0) == (m & 1u8 != 0)) by (bit_vector);
    assert((m | 2u8) & 2u8 != 0) by (bit_vector);
    assert(((m | 2u8) & 4u8 != 0) == (m & 4u8 != 0)) by (bit_vector);
    assert(7u8 & 1u8 != 0 && 7u8 & 2u8 != 0 && 7u8 & 4u8 != 0) by (bit_vector);
}

proof fn lemma_set_again(m: u8)
    requires
        arena::has(m, 2),
    ensures
        m | 2 == m,
{
    assert(m & 2u8 != 0 ==> m | 2u8 == m) by (bit_vector);
}

impl Document {
    /// Adds new bytes.
    pub(crate) fn push_arena(&mut self, b: &[u8]) -> (r: Span)
        requires
            old(self).wf(),
            old(self)@.arena.len() + b@.len() <= u32::MAX,
        ensures
            final(self).wf(),
            final(self)@ == change::arena_grown(old(self)@, b@),
            r == change::new_span(old(self)@, b@),
    {
        let start: u32 = self.arena.len() as u32;
        proof {
            change::lemma_arena_grown_wf(self@, b@);
        }
        serialize::append(&mut self.arena, b);
        let end: u32 = self.arena.len() as u32;
        Span { start, end }
    }

    /// Tells a node and all above it of a change below.
    pub(crate) fn mark_dirty_chain(&mut self, from: Option<NodeId>)
        requires
            arena::linked(old(self).nodes@, old(self).links@),
            change::nearly_wf(old(self)@),
            change::all_near(old(self)@, arena::num_of(from)),
            change::flows(old(self)@, arena::num_of(from)),
            from matches Some(p) ==> old(self)@.has_node(p.num()),
        ensures
            final(self).wf(),
            final(self)@ == change::chained(old(self)@, arena::num_of(from)),
    {
        let ghost d = self@;
        let ghost up = d.links.up;
        let ghost way = ancestry::lineage_of(up, arena::num_of(from));
        let ghost mut k: int = 0;
        let mut cur: Option<NodeId> = from;
        self.dirty = true;
        proof {
            if let Some(p) = from {
                ancestry::lemma_lineage(up, p.num());
                ancestry::lemma_lineage_distinct(up, p.num());
            }
            assert(way.skip(0) =~= way);
            assert(self@.nodes =~= change::flagged(d.nodes, way.take(0), 2));
        }
        loop
            invariant
                d == old(self)@,
                up == d.links.up,
                way == ancestry::lineage_of(up, arena::num_of(from)),
                change::nearly_wf(d),
                change::flows(d, arena::num_of(from)),
                forall|j: int| 0 <= j < way.len() ==> 0 <= #[trigger] way[j] < d.nodes.len(),
                way.no_duplicates(),
                arena::linked(self.nodes@, self.links@),
                self@ == (Dom { nodes: self@.nodes, dirty: true, ..d }),
                0 <= k <= way.len(),
                way.skip(k) == ancestry::lineage_of(up, arena::num_of(cur)),
                self@.nodes == change::flagged(d.nodes, way.take(k), 2),
                cur matches Some(c) ==> d.has_node(c.num()) && k < way.len(),
            ensures
                self@.nodes == change::flagged(d.nodes, way, 2),
                arena::linked(self.nodes@, self.links@),
                self@ == (Dom { nodes: self@.nodes, dirty: true, ..d }),
            decreases way.len() - k,
        {
            let id: NodeId = match cur {
                Some(c) => c,
                None => {
                    proof {
                        assert(way.skip(k).len() == 0);
                        assert(way.take(k) =~= way);
                    }
                    break;
                },
            };
            let i: usize = id.index();
            let ghost before = self.nodes@;
            proof {
                ancestry::lemma_lineage(up, id.num());
                assert(way.skip(k)[0] == way[k]);
                assert(way[k] == id.num());
                assert(arena::ends_ok(self.nodes@, self.links@, i as int));
            }
            if self.nodes[i].flags.has(2) {
                proof {
                    assert(!way.take(k).contains(i as int));
                    assert(self@.nodes[i as int] == d.nodes[i as int]);
                    lemma_rest_known(d, way, k, id.num());
                    assert(self@.nodes =~= change::flagged(d.nodes, way, 2));
                }
                break;
            }
            let parent: Option<NodeId> = self.nodes[i].parent;
            self.nodes[i].flags.set(2);
            proof {
                arena::lemma_linked_frame(before, self.nodes@, self.links@);
                assert(self@.nodes =~= change::flagged(d.nodes, way.take(k + 1), 2)) by {
                    let a = change::flagged(d.nodes, way.take(k), 2);
                    let b = change::flagged(d.nodes, way.take(k + 1), 2);
                    assert forall|j: int| 0 <= j < d.nodes.len() implies self@.nodes[j] == b[j] by {
                        assert(way.take(k + 1)[k] == id.num());
                        if j != i {
                            assert(way.take(k).contains(j) == way.take(k + 1).contains(j)) by {
                                if way.take(k).contains(j) {
                                    let x = way.take(k).index_of(j);
                                    assert(way.take(k + 1)[x] == j);
                                }
                                if way.take(k + 1).contains(j) {
                                    let x = way.take(k + 1).index_of(j);
                                    assert(way.take(k)[x] == j);
                                }
                            }
                            assert(self@.nodes[j] == a[j]);
                        } else {
                            assert(a[j] == before[j].bare());
                            if way.take(k).contains(j) {
                                change::lemma_mark_kept(d.nodes[j], 2);
                            }
                        }
                    }
                }
                assert(way.skip(k + 1) =~= way.skip(k).skip(1));
                assert(way.skip(k) == seq![id.num()] + ancestry::lineage_of(
                    up,
                    arena::num_of(parent),
                ));
                assert(way.skip(k).skip(1) =~= ancestry::lineage_of(up, arena::num_of(parent)));
                if let Some(p) = parent {
                    assert(arena::child_of(d.links, id.num()));
                    ancestry::lemma_lineage(up, p.num());
                    assert(way.skip(k + 1).len() > 0);
                }
                k = k + 1;
            }
            cur = parent;
        }
        proof {
            change::lemma_chained_wf(d, arena::num_of(from));
        }
    }

    /// Marks a node as changed, and tells all above it.
    pub(crate) fn mark_self_dirty(&mut self, n: NodeId)
        requires
            arena::linked(old(self).nodes@, old(self).links@),
            change::nearly_wf(old(self)@),
            forall|b: int| #[trigger] change::reported_but(old(self)@, b),
            old(self)@.has_node(n.num()),
        ensures
            final(self).wf(),
            final(self)@ == change::marked(old(self)@, n.num()),
    {
        let ghost d = self@;
        let ghost before = self.nodes@;
        let i: usize = n.index();
        assert(arena::ends_ok(self.nodes@, self.links@, i as int));
        let parent: Option<NodeId> = self.nodes[i].parent;
        self.nodes[i].flags.set(1);
        proof {
            arena::lemma_linked_frame(before, self.nodes@, self.links@);
            let f = Dom {
                nodes: d.nodes.update(n.num(), change::with_mark(d.nodes[n.num()], 1)),
                ..d
            };
            assert(self@.nodes =~= f.nodes);
            lemma_marked_ready(d, n.num());
        }
        self.mark_dirty_chain(parent);
    }

    /// Sets the value of an attribute by its name as it is written. The quotes
    /// and the white space of an attribute that is there stay; a new one comes
    /// last.
    pub fn set_attr(&mut self, n: NodeId, qname: &str, value: &str) -> (r: Result<(), Error>)
        requires
            old(self).wf(),
        ensures
            final(self).wf(),
            match r {
                Ok(_) => attr_set(old(self)@, n.num(), qname@, value@) == Ok::<Dom, Error>(
                    final(self)@,
                ),
                Err(e) => attr_set(old(self)@, n.num(), qname@, value@) == Err::<Dom, Error>(e)
                    && final(self)@ == old(self)@,
            },
    {
        let ghost d = self@;
        let q = qname.as_bytes();
        if !name::is_qname(q) {
            return Err(Error::Xml { kind: XmlError::BadName, offset: 0 });
        }
        let e: ElementData = match self.elem(n) {
            Ok(e) => e,
            Err(x) => return Err(x),
        };
        if let Some(k) = self.find_attr_raw(n, q) {
            let total: usize = self.attrs.len();
            let at: usize = e.attrs_from as usize + k;
            let a: Attr = self.attrs[at];
            proof {
                assert(model::attr_at_ok(d, at as int));
            }
            let quote: char = if a.quote == 34 {
                '"'
            } else {
                '\''
            };
            let t: String = match escape::escape(value, Some(quote)) {
                Ok(t) => t,
                Err(x) => return Err(x),
            };
            proof {
                escape::lemma_all_legal(value@, 0);
            }
            let b = t.as_str().as_bytes();
            if self.arena.len() > u32::MAX as usize || b.len() > u32::MAX as usize
                - self.arena.len() {
                return Err(
                    Error::Limit(
                        LimitError::PartTooLarge { got: u32::MAX as u64, max: u32::MAX as u64 },
                    ),
                );
            }
            let v: Span = self.push_arena(b);
            let ghost f = self@;
            proof {
                change::lemma_arena_grown_wf(d, b@);
                lemma_value_marks(a.flags.marks);
            }
            self.attrs[at].value = v;
            self.attrs[at].flags.set(2);
            proof {
                let a2 = self.attrs@[at as int];
                assert(model::attr_at_ok(f, at as int));
                assert(model::attr_ok(f, a2));
                assert(self@.attrs =~= change::attr_replaced(f, at as int, a2).attrs);
                change::lemma_attr_replaced_nearly(f, at as int, a2);
            }
            self.mark_self_dirty(n);
            return Ok(());
        }
        self.add_attr(n, &e, q, value)
    }

    fn add_attr(&mut self, n: NodeId, e: &ElementData, q: &[u8], value: &str) -> (r: Result<
        (),
        Error,
    >)
        requires
            old(self).wf(),
            old(self)@.is_element(n.num()),
            *e == old(self)@.elem(n.num()),
        ensures
            final(self).wf(),
            match r {
                Ok(_) => attr_added(old(self)@, n.num(), q@, value@) == Ok::<Dom, Error>(
                    final(self)@,
                ),
                Err(x) => attr_added(old(self)@, n.num(), q@, value@) == Err::<Dom, Error>(x)
                    && final(self)@ == old(self)@,
            },
    {
        let ghost d = self@;
        proof {
            assert(model::node_ok(d, n.num()));
        }
        let free: usize = u32::MAX as usize - self.arena.len();
        if q.len() > free {
            return Err(
                Error::Limit(
                    LimitError::PartTooLarge { got: u32::MAX as u64, max: u32::MAX as u64 },
                ),
            );
        }
        let t: String = match escape::escape(value, Some('"')) {
            Ok(t) => t,
            Err(x) => return Err(x),
        };
        proof {
            escape::lemma_all_legal(value@, 0);
        }
        let b = t.as_str().as_bytes();
        if b.len() > free - q.len() {
            return Err(
                Error::Limit(
                    LimitError::PartTooLarge { got: u32::MAX as u64, max: u32::MAX as u64 },
                ),
            );
        }
        if let Err(x) = self.check_attrs_room(e.attrs_len as u64 + 1) {
            return Err(x);
        }
        let name: Span = self.push_arena(q);
        let ghost f = self@;
        let v: Span = self.push_arena(b);
        let ghost g = self@;
        proof {
            change::lemma_arena_grown_wf(d, q@);
            change::lemma_arena_grown_wf(f, b@);
            lemma_value_marks(0);
        }
        let attr = Attr {
            pre_ws: Span { start: 0, end: 1 },
            name,
            ws_before_eq: Span { start: 0, end: 0 },
            ws_after_eq: Span { start: 0, end: 0 },
            value: v,
            quote: 34,
            flags: AttrFlags { marks: 7 },
        };
        let mut list: Vec<Attr> = self.copy_attrs(e);
        proof {
            assert(list@ =~= d.attrs_of(n.num()));
            assert forall|k: int| 0 <= k < list@.len() implies model::attr_ok(
                g,
                #[trigger] list@[k],
            ) by {
                assert(model::attr_at_ok(g, e.attrs_from + k));
            }
        }
        list.push(attr);
        self.move_attrs(n, e, list);
        self.mark_self_dirty(n);
        Ok(())
    }

    /// Checks that an element may have so many attributes.
    fn check_attrs_room(&self, count: u64) -> (r: Result<(), Error>)
        requires
            count <= u32::MAX + 1,
        ensures
            r == match attrs_fault(self@, count as int) {
                Some(e) => Err(e),
                None => Ok(()),
            },
    {
        if let Err(x) = self.limits.check_attrs(count) {
            return Err(x);
        }
        if self.attrs.len() > u32::MAX as usize || count > u32::MAX as u64
            - self.attrs.len() as u64 {
            return Err(
                Error::Limit(
                    LimitError::PartTooLarge { got: u32::MAX as u64, max: u32::MAX as u64 },
                ),
            );
        }
        Ok(())
    }

    pub(crate) fn copy_attrs(&self, e: &ElementData) -> (r: Vec<Attr>)
        requires
            self.wf(),
            e.attrs_from + e.attrs_len <= self@.attrs.len(),
        ensures
            r@ == self@.attrs.subrange(e.attrs_from as int, e.attrs_from + e.attrs_len),
    {
        let from: usize = e.attrs_from as usize;
        let n: usize = e.attrs_len as usize;
        let total: usize = self.attrs.len();
        let mut v: Vec<Attr> = Vec::new();
        let mut i: usize = 0;
        while i < n
            invariant
                i <= n,
                n == e.attrs_len,
                from == e.attrs_from,
                total == self.attrs@.len(),
                from + n <= total,
                v@ == self.attrs@.subrange(from as int, from + i),
            decreases n - i,
        {
            v.push(self.attrs[from + i]);
            i = i + 1;
            assert(v@ =~= self.attrs@.subrange(from as int, from + i));
        }
        v
    }

    /// Gives an element other attributes, behind those of all elements.
    fn move_attrs(&mut self, n: NodeId, e: &ElementData, list: Vec<Attr>)
        requires
            old(self).wf(),
            old(self)@.is_element(n.num()),
            *e == old(self)@.elem(n.num()),
            old(self)@.attrs.len() + list@.len() <= u32::MAX,
            forall|k: int|
                0 <= k < list@.len() ==> model::attr_ok(old(self)@, #[trigger] list@[k]),
        ensures
            arena::linked(final(self).nodes@, final(self).links@),
            final(self)@ == change::attrs_moved(old(self)@, n.num(), list@),
            change::nearly_wf(final(self)@),
            forall|b: int| #[trigger] change::reported_but(final(self)@, b),
    {
        let ghost d = self@;
        proof {
            assert(model::node_ok(d, n.num()));
            change::lemma_attrs_moved_nearly(d, n.num(), list@);
        }
        let from: u32 = self.attrs.len() as u32;
        let count: u32 = list.len() as u32;
        let mut i: usize = 0;
        assert(self.attrs@ =~= d.attrs + list@.take(0));
        while i < list.len()
            invariant
                i <= list@.len(),
                self.attrs@ == d.attrs + list@.take(i as int),
                self@ == (Dom { attrs: self.attrs@, ..d }),
                self.nodes == old(self).nodes,
                self.links == old(self).links,
                self.elements == old(self).elements,
            decreases list@.len() - i,
        {
            self.attrs.push(list[i]);
            i = i + 1;
            assert(self.attrs@ =~= d.attrs + list@.take(i as int));
        }
        assert(list@.take(i as int) =~= list@);
        let aux: usize = self.nodes[n.index()].aux as usize;
        self.elements[aux].attrs_from = from;
        self.elements[aux].attrs_len = count;
        proof {
            let f = change::attrs_moved(d, n.num(), list@);
            assert(self@.elements =~= f.elements);
        }
    }

    /// Removes an attribute by its namespace and its name without a prefix.
    /// Returns whether there was one.
    pub fn remove_attr(&mut self, n: NodeId, ns: Option<&str>, local: &str) -> (r: Result<
        bool,
        Error,
    >)
        requires
            old(self).wf(),
        ensures
            final(self).wf(),
            match r {
                Ok(b) => attr_removed(old(self)@, n.num(), query::opt_view(ns), local@) == Ok::<
                    (Dom, bool),
                    Error,
                >((final(self)@, b)),
                Err(e) => attr_removed(old(self)@, n.num(), query::opt_view(ns), local@) == Err::<
                    (Dom, bool),
                    Error,
                >(e) && final(self)@ == old(self)@,
            },
    {
        let ghost d = self@;
        let e: ElementData = match self.elem(n) {
            Ok(e) => e,
            Err(x) => return Err(x),
        };
        let k: usize = match self.find_attr(n, ns, local) {
            Some((_, k)) => k,
            None => return Ok(false),
        };
        let mut list: Vec<Attr> = self.copy_attrs(&e);
        proof {
            assert(list@ =~= d.attrs_of(n.num()));
            assert forall|j: int| 0 <= j < list@.len() implies model::attr_ok(
                d,
                #[trigger] list@[j],
            ) by {
                assert(model::attr_at_ok(d, e.attrs_from + j));
            }
        }
        let ghost all = list@;
        let _a = list.remove(k);
        proof {
            assert(list@ =~= all.remove(k as int));
            assert forall|j: int| 0 <= j < list@.len() implies model::attr_ok(
                d,
                #[trigger] list@[j],
            ) by {
                if j < k {
                    assert(list@[j] == all[j]);
                } else {
                    assert(list@[j] == all[j + 1]);
                }
            }
        }
        if let Err(x) = self.check_attrs_room(list.len() as u64) {
            return Err(x);
        }
        self.move_attrs(n, &e, list);
        self.mark_self_dirty(n);
        Ok(true)
    }
}

/// When a node knows of a change, the rest of the way does.
proof fn lemma_rest_known(d: Dom, way: Seq<int>, k: int, i: int)
    requires
        change::nearly_wf(d),
        d.has_node(i),
        0 <= k < way.len(),
        way.skip(k) == ancestry::lineage(d.links.up, i),
        forall|j: int| 0 <= j < way.len() ==> change::flow(d, #[trigger] way[j]),
        forall|j: int| 0 <= j < way.len() ==> 0 <= #[trigger] way[j] < d.nodes.len(),
        arena::has(d.nodes[i].flags.marks, 2),
    ensures
        change::flagged(d.nodes, way.take(k), 2) == change::flagged(d.nodes, way, 2),
{
    let up = d.links.up;
    let rest = ancestry::lineage(up, i);
    assert(change::flows(d, Some(i))) by {
        assert forall|j: int| 0 <= j < rest.len() implies change::flow(
            d,
            #[trigger] ancestry::lineage_of(up, Some(i))[j],
        ) by {
            assert(rest[j] == way[k + j]);
        }
    }
    let a = change::flagged(d.nodes, way.take(k), 2);
    let b = change::flagged(d.nodes, way, 2);
    assert forall|j: int| 0 <= j < d.nodes.len() implies a[j] == b[j] by {
        if way.contains(j) && !way.take(k).contains(j) {
            let x = way.index_of(j);
            if x < k {
                assert(way.take(k)[x] == j);
            }
            assert(rest[x - k] == j);
            change::lemma_known_above(d, i, x - k);
            lemma_set_again(d.nodes[j].flags.marks);
        }
        if way.take(k).contains(j) {
            let x = way.take(k).index_of(j);
            assert(way[x] == j);
        }
    }
    assert(a =~= b);
}

/// What marking a node needs before all above it are told.
proof fn lemma_marked_ready(d: Dom, i: int)
    requires
        change::nearly_wf(d),
        forall|b: int| #[trigger] change::reported_but(d, b),
        d.has_node(i),
    ensures
        ({
            let f = Dom { nodes: d.nodes.update(i, change::with_mark(d.nodes[i], 1)), ..d };
            &&& change::nearly_wf(f)
            &&& change::all_near(f, d.up(i))
            &&& change::flows(f, d.up(i))
            &&& d.up(i) matches Some(p) ==> f.has_node(p)
        }),
{
    let f = Dom { nodes: d.nodes.update(i, change::with_mark(d.nodes[i], 1)), ..d };
    change::lemma_mark_kept(d.nodes[i], 1);
    change::lemma_flagged_nearly(d, f);
    arena::lemma_marks(d.nodes[i].flags.marks, 1, 2);
    arena::lemma_mark_bits();
    assert(arena::child_of(d.links, i));
    assert(change::reported_but(d, -1));
    assert forall|j: int| 0 <= j < f.nodes.len() implies #[trigger] change::near(
        f,
        d.up(i),
        j,
    ) by {
        assert(model::reported(d, j));
        assert(arena::child_of(d.links, j));
    }
    if let Some(p) = d.up(i) {
        ancestry::lemma_lineage(d.links.up, p);
        let way = ancestry::lineage_of(d.links.up, d.up(i));
        assert forall|k: int| 0 <= k < way.len() implies change::flow(f, #[trigger] way[k]) by {
            assert(model::reported(d, way[k]));
            assert(arena::child_of(d.links, way[k]));
        }
    }
}

} // verus!
