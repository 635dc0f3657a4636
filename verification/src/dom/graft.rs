//! Hanging nodes on others and taking them off.
use vstd::prelude::*;
use vstd::string::*;

use crate::bytes::span::Span;
use crate::dom::ancestry;
use crate::dom::arena;
use crate::dom::arena::{Core, Links, Node, NodeFlags, NodeId, NodeKind};
use crate::dom::change;
use crate::dom::document::Document;
use crate::dom::edit;
use crate::dom::links;
use crate::dom::model;
use crate::dom::model::Dom;
use crate::dom::node::{ElemFlags, ElementData};
use crate::dom::parse;
use crate::error::{Error, LimitError, XmlError};
use crate::xml::escape;
use crate::xml::name;

verus! {

/// The links where the first children of a node are cut off.
pub open spec fn cut_down(l: Links, i: int, k: int) -> Links {
    Links {
        kids: l.kids.update(i, l.kids[i].skip(k)),
        up: Seq::new(
            l.up.len(),
            |c: int|
                if l.kids[i].take(k).contains(c) {
                    None
                } else {
                    l.up[c]
                },
        ),
    }
}

proof fn lemma_cut_none(l: Links, i: int)
    requires
        0 <= i < l.kids.len(),
    ensures
        cut_down(l, i, 0) == l,
{
    let m = cut_down(l, i, 0);
    assert(l.kids[i].skip(0) =~= l.kids[i]);
    assert(m.kids =~= l.kids);
    assert(m.up =~= l.up);
}

proof fn lemma_cut_one(l: Links, i: int, k: int)
    requires
        arena::forest(l),
        0 <= i < l.kids.len(),
        0 <= k < l.kids[i].len(),
    ensures
        arena::detached(cut_down(l, i, k), l.kids[i][k]) == cut_down(l, i, k + 1),
        cut_down(l, i, k).up[l.kids[i][k]] == Some(i),
{
    let s = l.kids[i];
    let m = cut_down(l, i, k);
    let n = cut_down(l, i, k + 1);
    let c = s[k];
    assert(arena::distinct(l, i));
    assert(arena::kid_at(l, i, k));
    assert(!s.take(k).contains(c));
    assert(m.kids[i] == s.skip(k));
    assert(s.skip(k)[0] == c);
    assert(s.skip(k).index_of(c) == 0) by {
        assert(s.skip(k).contains(c));
        let j = s.skip(k).index_of(c);
        assert(s.skip(k)[j] == s[k + j]);
    }
    assert(s.skip(k).remove(0) =~= s.skip(k + 1));
    assert(arena::detached(m, c).kids =~= n.kids);
    assert forall|x: int| 0 <= x < l.up.len() implies arena::detached(m, c).up[x] == n.up[x] by {
        if s.take(k).contains(x) {
            let j = s.take(k).index_of(x);
            assert(s.take(k + 1)[j] == x);
        }
        if s.take(k + 1).contains(x) && x != c {
            let j = s.take(k + 1).index_of(x);
            assert(s.take(k)[j] == x);
        }
        assert(s.take(k + 1)[k] == c);
    }
    assert(arena::detached(m, c).up =~= n.up);
}

proof fn lemma_cut_all(l: Links, i: int)
    requires
        arena::forest(l),
        0 <= i < l.kids.len(),
    ensures
        cut_down(l, i, l.kids[i].len() as int) == edit::emptied(l, i),
{
    let s = l.kids[i];
    let m = cut_down(l, i, s.len() as int);
    let n = edit::emptied(l, i);
    assert(s.skip(s.len() as int) =~= Seq::<int>::empty());
    assert(m.kids =~= n.kids);
    assert(s.take(s.len() as int) =~= s);
    assert forall|c: int| 0 <= c < l.up.len() implies m.up[c] == n.up[c] by {
        assert(arena::child_of(l, c));
        if s.contains(c) {
            let k = s.index_of(c);
            assert(arena::kid_at(l, i, k));
        }
    }
    assert(m.up =~= n.up);
}

/// Taking a node off keeps what holds of a document.
pub proof fn lemma_unhooked_wf(d: Dom, c: int)
    requires
        model::wf(d),
        d.has_node(c),
        d.up(c) is Some,
    ensures
        model::wf(change::unhooked(d, c)),
{
    let e = change::unhooked(d, c);
    change::lemma_unhooked_nearly(d, c);
    assert forall|i: int| 0 <= i < e.nodes.len() implies #[trigger] model::reported(e, i) by {
        assert(model::reported(d, i));
    }
    assert forall|i: int| 0 <= i < e.nodes.len() implies #[trigger] model::calm(e, i) by {
        assert(model::calm(d, i));
    }
}

/// A document that is said to be changed is one.
pub proof fn lemma_dirty_wf(d: Dom)
    requires
        model::wf(d),
    ensures
        model::wf(Dom { dirty: true, ..d }),
{
    let e = Dom { dirty: true, ..d };
    assert forall|i: int| 0 <= i < e.nodes.len() implies #[trigger] model::node_ok(e, i) by {
        assert(model::node_ok(d, i));
    }
    assert forall|i: int| 0 <= i < e.attrs.len() implies #[trigger] model::attr_at_ok(e, i) by {
        assert(model::attr_at_ok(d, i));
    }
    assert forall|i: int, j: int|
        0 <= i < e.nodes.len() && 0 <= j < e.nodes.len() implies #[trigger] model::apart(
        e,
        i,
        j,
    ) by {
        assert(model::apart(d, i, j));
    }
    assert forall|i: int| 0 <= i < e.nodes.len() implies #[trigger] model::reported(e, i) by {
        assert(model::reported(d, i));
    }
    assert forall|i: int| 0 <= i < e.nodes.len() implies #[trigger] model::calm(e, i) by {}
}

/// An element that gets a closing tag knows of no more changes than before.
proof fn lemma_opened_flow(d: Dom, i: int)
    requires
        model::wf(d),
        d.has_node(i),
    ensures
        change::flow(change::opened_up(d, i), i),
{
    let m = d.nodes[i].flags.marks;
    assert((((m & !4u8) | 1u8) & 2u8 != 0) == (m & 2u8 != 0)) by (bit_vector);
    assert(model::reported(d, i));
    ancestry::lemma_lineage(d.links.up, i);
}

/// What telling all above needs when a node hangs on another one.
proof fn lemma_hooked_ready(e: Dom, p: int, k: int, c: int)
    requires
        change::nearly_wf(e),
        change::reported_but(e, p),
        change::flow(e, p),
        e.has_node(p),
        e.has_node(c),
        c != e.root,
        e.up(c) is None,
        0 <= k <= e.kids(p).len(),
        e.nodes[p].kind.holds_children(),
        !ancestry::below(e.links.up, p, c),
    ensures
        change::nearly_wf(change::hooked(e, p, k, c)),
        change::all_near(change::hooked(e, p, k, c), Some(p)),
        change::flows(change::hooked(e, p, k, c), Some(p)),
{
    let f = change::hooked(e, p, k, c);
    let up = f.links.up;
    change::lemma_hooked_nearly(e, p, k, c);
    ancestry::lemma_lineage(up, p);
    ancestry::lemma_lineage(up, c);
    ancestry::lemma_lineage_distinct(up, p);
    ancestry::lemma_lineage(e.links.up, p);
    let way = ancestry::lineage_of(up, Some(p));
    assert(ancestry::lineage(e.links.up, p)[0] == p);
    assert(p != c);
    assert(way[0] == p);
    assert forall|i: int| 0 <= i < f.nodes.len() implies #[trigger] change::near(
        f,
        Some(p),
        i,
    ) by {
        if i == p {
            assert(way.contains(p));
        } else if i != c {
            assert(model::reported(e, i));
        }
    }
    assert forall|j: int| 0 <= j < way.len() implies change::flow(f, #[trigger] way[j]) by {
        let x = way[j];
        if x == c {
            assert(ancestry::rank_of(up)[c] < ancestry::rank_of(up)[p]);
        } else if x != p {
            assert(model::reported(e, x));
        }
    }
}

impl Document {
    /// Cuts off the children of a node.
    fn unlink_children(&mut self, n: NodeId)
        requires
            old(self).wf(),
            old(self)@.has_node(n.num()),
        ensures
            final(self).wf(),
            final(self)@ == (Dom { links: edit::emptied(old(self)@.links, n.num()), ..old(self)@ }),
    {
        let ghost d = self@;
        let ghost l = d.links;
        let ghost i = n.num();
        let ghost mut k: int = 0;
        proof {
            lemma_cut_none(l, i);
        }
        loop
            invariant
                self.wf(),
                d == old(self)@,
                l == d.links,
                i == n.num(),
                arena::forest(l),
                d.has_node(i),
                l.kids.len() == d.nodes.len(),
                0 <= k <= l.kids[i].len(),
                self@ == (Dom { links: cut_down(l, i, k), ..d }),
            ensures
                self.wf(),
                self@ == (Dom { links: cut_down(l, i, l.kids[i].len() as int), ..d }),
            decreases l.kids[i].len() - k,
        {
            assert(arena::ends_ok(self.nodes@, self.links@, i));
            let c: NodeId = match self.nodes[n.index()].first_child {
                Some(c) => c,
                None => break,
            };
            proof {
                assert(self@.kids(i) == l.kids[i].skip(k));
                assert(c.num() == l.kids[i][k]);
                lemma_cut_one(l, i, k);
                assert(arena::kid_at(l, i, k));
                lemma_unhooked_wf(self@, c.num());
            }
            links::unlink(&mut self.nodes, c, Ghost(self.links@));
            self.links = Ghost(arena::detached(self.links@, c.num()));
            proof {
                k = k + 1;
            }
        }
        proof {
            lemma_cut_all(l, i);
        }
    }

    /// Checks that there may be one more node.
    fn check_room(&self) -> (r: Result<(), Error>)
        requires
            self.wf(),
        ensures
            r == match edit::room_fault(self@) {
                Some(e) => Err(e),
                None => Ok(()),
            },
    {
        if let Err(e) = self.limits.check_nodes(self.nodes.len() as u64 + 1) {
            return Err(e);
        }
        if self.nodes.len() >= u32::MAX as usize {
            return Err(Error::Unsupported("dom: исчерпано пространство узлов"));
        }
        Ok(())
    }

    /// Adds a node that is linked with no other.
    fn add_node(&mut self, kind: NodeKind, span: Span, flags: NodeFlags) -> (r: NodeId)
        requires
            old(self).wf(),
            old(self)@.nodes.len() < u32::MAX,
            old(self)@.inside(span, arena::has(flags.marks, NodeFlags::IN_ARENA)),
            !(kind is Element),
            flags.changed() ==> old(self)@.dirty,
        ensures
            final(self).wf(),
            final(self)@ == change::node_made(
                old(self)@,
                Core { span, aux: Node::NO_AUX, kind, flags },
            ),
            r.num() == old(self)@.nodes.len(),
    {
        let ghost d = self@;
        let ghost before = self.nodes@;
        let at: usize = self.nodes.len();
        let n: Node = Node::new(kind, span, flags);
        proof {
            change::lemma_node_made_wf(d, n.bare());
            arena::lemma_linked_extended(before, self.links@, n);
        }
        self.nodes.push(n);
        self.links = Ghost(arena::extended(self.links@));
        proof {
            assert(self@.nodes =~= d.nodes.push(n.bare()));
        }
        NodeId::from_index(at).unwrap()
    }

    /// Gives an element that is written with one tag a closing one.
    fn open_for_children(&mut self, n: NodeId)
        requires
            old(self).wf(),
            old(self)@.has_node(n.num()),
        ensures
            arena::linked(final(self).nodes@, final(self).links@),
            final(self)@ == change::opened_up(old(self)@, n.num()),
            change::nearly_wf(final(self)@),
            change::reported_but(final(self)@, n.num()),
            change::flow(final(self)@, n.num()),
    {
        let ghost d = self@;
        let ghost before = self.nodes@;
        let i: usize = n.index();
        proof {
            change::lemma_wf_parts(d);
            change::lemma_opened_up_nearly(d, i as int);
            lemma_opened_flow(d, i as int);
            assert(model::node_ok(d, i as int));
        }
        if self.nodes[i].kind == NodeKind::Element && self.nodes[i].flags.has(4) {
            let aux: usize = self.nodes[i].aux as usize;
            let qname: Span = self.elements[aux].qname;
            self.elements[aux].close_qname = qname;
            self.nodes[i].flags.clear(4);
            self.nodes[i].flags.set(1);
            self.dirty = true;
            proof {
                let f = change::opened_up(d, i as int);
                assert(self@.nodes =~= f.nodes);
                assert(self@.elements =~= f.elements);
                arena::lemma_linked_frame(before, self.nodes@, self.links@);
            }
        }
    }

    /// Replaces the text of a text node, or all children of an element by one
    /// text. An element that is written with one tag gets two. A text that is
    /// refused changes nothing.
    pub fn set_text(&mut self, n: NodeId, value: &str) -> (r: Result<(), Error>)
        requires
            old(self).wf(),
        ensures
            final(self).wf(),
            match r {
                Ok(_) => edit::text_set(old(self)@, n.num(), value@) == Ok::<Dom, Error>(
                    final(self)@,
                ),
                Err(e) => edit::text_set(old(self)@, n.num(), value@) == Err::<Dom, Error>(e)
                    && final(self)@ == old(self)@,
            },
    {
        let ghost d = self@;
        let kind: NodeKind = match self.node(n) {
            Ok(c) => c.kind,
            Err(_) => return Err(
                Error::Unsupported("dom: текст задаётся только элементу или текстовому узлу"),
            ),
        };
        if kind != NodeKind::Text && kind != NodeKind::Element {
            return Err(
                Error::Unsupported("dom: текст задаётся только элементу или текстовому узлу"),
            );
        }
        let t: String = match escape::escape(value, None) {
            Ok(t) => t,
            Err(x) => return Err(x),
        };
        proof {
            escape::lemma_all_legal(value@, 0);
        }
        let b = t.as_str().as_bytes();
        if b.len() > u32::MAX as usize - self.arena.len() {
            return Err(
                Error::Limit(
                    LimitError::PartTooLarge { got: u32::MAX as u64, max: u32::MAX as u64 },
                ),
            );
        }
        if kind == NodeKind::Text {
            self.set_leaf_text(n, b);
            return Ok(());
        }
        if let Err(x) = self.check_room() {
            return Err(x);
        }
        self.unlink_children(n);
        let ghost d1 = self@;
        let span: Span = self.push_arena(b);
        let ghost d2 = self@;
        self.dirty = true;
        proof {
            change::lemma_arena_grown_wf(d1, b@);
            lemma_dirty_wf(d2);
            assert(9u8 & 8u8 != 0) by (bit_vector);
        }
        let text: NodeId = self.add_node(NodeKind::Text, span, NodeFlags::new(9));
        let ghost d3 = self@;
        self.open_for_children(n);
        let ghost d4 = self@;
        proof {
            ancestry::lemma_lineage(d4.links.up, n.num());
            lemma_not_below_new(d1.links.up, n.num());
            assert(d4.kids(n.num()) == Seq::<int>::empty());
            lemma_hooked_ready(d4, n.num(), 0, text.num());
        }
        links::link_last(&mut self.nodes, n, text, Ghost(self.links@));
        self.links = Ghost(
            arena::inserted(
                self.links@,
                n.num(),
                self.links@.kids[n.num()].len() as int,
                text.num(),
            ),
        );
        self.mark_dirty_chain(Some(n));
        Ok(())
    }

    fn set_leaf_text(&mut self, n: NodeId, b: &[u8])
        requires
            old(self).wf(),
            old(self)@.has_node(n.num()),
            old(self)@.nodes[n.num()].kind is Text,
            old(self)@.arena.len() + b@.len() <= u32::MAX,
        ensures
            final(self).wf(),
            final(self)@ == edit::leaf_set(old(self)@, n.num(), b@),
    {
        let ghost d = self@;
        let i: usize = n.index();
        let span: Span = self.push_arena(b);
        let ghost d2 = self@;
        let ghost before = self.nodes@;
        self.nodes[i].span = span;
        self.nodes[i].flags.set(8);
        proof {
            change::lemma_arena_grown_wf(d, b@);
            change::lemma_wf_parts(d2);
            arena::lemma_linked_frame(before, self.nodes@, self.links@);
            assert(self@.nodes =~= d2.nodes.update(i as int, self@.nodes[i as int]));
            lemma_leaf_nearly(d2, self@, i as int);
            assert(self@.nodes =~= edit::leaf_only(d, n.num(), b@).nodes);
        }
        self.mark_self_dirty(n);
    }

    /// Makes an element that is linked with no other node. As long as it is
    /// not, nothing of it is written. Its namespace is not known.
    pub fn new_element(&mut self, qname: &str) -> (r: Result<NodeId, Error>)
        requires
            old(self).wf(),
        ensures
            final(self).wf(),
            match r {
                Ok(n) => edit::element_added(old(self)@, qname@) == Ok::<Dom, Error>(final(self)@)
                    && n.num() == old(self)@.nodes.len(),
                Err(e) => edit::element_added(old(self)@, qname@) == Err::<Dom, Error>(e)
                    && final(self)@ == old(self)@,
            },
    {
        let ghost d = self@;
        let q = qname.as_bytes();
        if !name::is_qname(q) {
            return Err(Error::Xml { kind: XmlError::BadName, offset: 0 });
        }
        if q.len() > u32::MAX as usize - self.arena.len() {
            return Err(
                Error::Limit(
                    LimitError::PartTooLarge { got: u32::MAX as u64, max: u32::MAX as u64 },
                ),
            );
        }
        if let Err(x) = self.check_room() {
            return Err(x);
        }
        let at: usize = self.nodes.len();
        let name: Span = self.push_arena(q);
        let w: usize = name::local_of(q).len();
        let ghost d2 = self@;
        self.dirty = true;
        let ghost d3 = self@;
        proof {
            change::lemma_arena_grown_wf(d, q@);
            lemma_dirty_wf(d2);
            parse::lemma_local_len(q@);
        }
        let total: usize = self.attrs.len();
        let from: u32 = if total <= u32::MAX as usize {
            total as u32
        } else {
            0
        };
        let e = ElementData {
            qname: name,
            local: Span { start: name.end - w as u32, end: name.end },
            pre_close_ws: Span { start: 0, end: 0 },
            close_qname: name,
            close_trailing_ws: Span { start: 0, end: 0 },
            attrs_from: from,
            attrs_len: 0,
            ns_uri: u32::MAX,
            flags: ElemFlags { marks: 1 },
        };
        let mut n: Node = Node::new(
            NodeKind::Element,
            Span { start: 0, end: 0 },
            NodeFlags::new(5),
        );
        n.aux = self.elements.len() as u32;
        proof {
            assert(1u8 & 1u8 != 0) by (bit_vector);
            assert(model::elem_ok(d3, e));
            change::lemma_element_made_wf(d3, n.bare(), e);
            arena::lemma_linked_extended(self.nodes@, self.links@, n);
        }
        self.elements.push(e);
        self.nodes.push(n);
        self.links = Ghost(arena::extended(self.links@));
        proof {
            assert(self@.nodes =~= d3.nodes.push(n.bare()));
        }
        Ok(NodeId::from_index(at).unwrap())
    }

    /// Checks that a node may be a child of another one.
    fn check_attachable(&self, parent: NodeId, child: NodeId) -> (r: Result<(), Error>)
        requires
            self.wf(),
        ensures
            r == match edit::attach_fault(self@, parent.num(), child.num()) {
                Some(e) => Err(e),
                None => Ok(()),
            },
    {
        let p: Node = match self.node(parent) {
            Ok(p) => p,
            Err(e) => return Err(e),
        };
        if !p.kind.may_have_children() {
            return Err(Error::Unsupported("dom: у узла этого вида не может быть детей"));
        }
        if child.index() == self.root.index() {
            return Err(Error::Unsupported("dom: узел-документ не может быть ребёнком"));
        }
        let c: Node = match self.node(child) {
            Ok(c) => c,
            Err(e) => return Err(e),
        };
        if c.parent.is_some() {
            return Err(Error::Unsupported("dom: узел уже подключён к дереву"));
        }
        let ghost up = self@.links.up;
        let mut cur: NodeId = parent;
        loop
            invariant
                self.wf(),
                up == self@.links.up,
                self@.has_node(cur.num()),
                self@.has_node(parent.num()),
                self@.nodes[parent.num()].kind.holds_children(),
                child.num() != self@.root,
                self@.has_node(child.num()),
                self@.up(child.num()) is None,
                ancestry::below(up, parent.num(), child.num()) == ancestry::below(
                    up,
                    cur.num(),
                    child.num(),
                ),
            ensures
                !ancestry::below(up, parent.num(), child.num()),
            decreases ancestry::rank_of(up)[cur.num()],
        {
            proof {
                ancestry::lemma_below(up, cur.num(), child.num());
                ancestry::lemma_lineage(up, cur.num());
                assert(arena::ends_ok(self.nodes@, self.links@, cur.num()));
            }
            if cur.index() == child.index() {
                return Err(Error::Unsupported("dom: подключение создало бы цикл"));
            }
            match self.nodes[cur.index()].parent {
                Some(q) => cur = q,
                None => break,
            }
        }
        Ok(())
    }

    /// Makes a node the last child of another one.
    pub fn append_child(&mut self, parent: NodeId, child: NodeId) -> (r: Result<(), Error>)
        requires
            old(self).wf(),
        ensures
            final(self).wf(),
            match r {
                Ok(_) => edit::child_appended(old(self)@, parent.num(), child.num()) == Ok::<
                    Dom,
                    Error,
                >(final(self)@),
                Err(e) => edit::child_appended(old(self)@, parent.num(), child.num()) == Err::<
                    Dom,
                    Error,
                >(e) && final(self)@ == old(self)@,
            },
    {
        let ghost d = self@;
        if let Err(e) = self.check_attachable(parent, child) {
            return Err(e);
        }
        self.open_for_children(parent);
        let ghost e = self@;
        proof {
            assert(e.links == d.links);
            assert(e.nodes[parent.num()].kind == d.nodes[parent.num()].kind);
            lemma_hooked_ready(
                e,
                parent.num(),
                e.kids(parent.num()).len() as int,
                child.num(),
            );
        }
        links::link_last(&mut self.nodes, parent, child, Ghost(self.links@));
        self.links = Ghost(
            arena::inserted(
                self.links@,
                parent.num(),
                self.links@.kids[parent.num()].len() as int,
                child.num(),
            ),
        );
        self.mark_dirty_chain(Some(parent));
        Ok(())
    }

    /// Puts a node before another one, among the children of its parent.
    pub fn insert_before(&mut self, anchor: NodeId, child: NodeId) -> (r: Result<(), Error>)
        requires
            old(self).wf(),
        ensures
            final(self).wf(),
            match r {
                Ok(_) => edit::child_inserted(old(self)@, anchor.num(), child.num()) == Ok::<
                    Dom,
                    Error,
                >(final(self)@),
                Err(e) => edit::child_inserted(old(self)@, anchor.num(), child.num()) == Err::<
                    Dom,
                    Error,
                >(e) && final(self)@ == old(self)@,
            },
    {
        let ghost d = self@;
        let parent: NodeId = match self.parent(anchor) {
            Some(p) => p,
            None => return Err(Error::Unsupported("dom: у якоря нет родителя")),
        };
        if let Err(e) = self.check_attachable(parent, child) {
            return Err(e);
        }
        let ghost p = parent.num();
        let ghost k = arena::place_of(d.links, anchor.num());
        proof {
            change::lemma_wf_parts(d);
            arena::lemma_place(d.links, anchor.num());
            assert(change::reported_but(d, p));
            assert(model::reported(d, p));
            lemma_hooked_ready(d, p, k, child.num());
        }
        links::link_before(&mut self.nodes, parent, anchor, child, Ghost(self.links@));
        self.links = Ghost(arena::inserted(self.links@, p, k, child.num()));
        self.mark_dirty_chain(Some(parent));
        Ok(())
    }

    /// Cuts a node off from its parent. It stays a node of the document, and
    /// may hang on another one later.
    pub fn remove(&mut self, n: NodeId) -> (r: Result<(), Error>)
        requires
            old(self).wf(),
        ensures
            final(self).wf(),
            match r {
                Ok(_) => edit::node_removed(old(self)@, n.num()) == Ok::<Dom, Error>(final(self)@),
                Err(e) => edit::node_removed(old(self)@, n.num()) == Err::<Dom, Error>(e)
                    && final(self)@ == old(self)@,
            },
    {
        let ghost d = self@;
        if n.index() == self.root.index() {
            return Err(Error::Unsupported("dom: узел-документ удалить нельзя"));
        }
        let parent: NodeId = match self.parent(n) {
            Some(p) => p,
            None => return Err(Error::Unsupported("dom: узел уже отсоединён")),
        };
        proof {
            arena::lemma_place(d.links, n.num());
            lemma_unhooked_wf(d, n.num());
            change::lemma_wf_parts(change::unhooked(d, n.num()));
            change::lemma_wf_flows(change::unhooked(d, n.num()), Some(parent.num()));
        }
        links::unlink(&mut self.nodes, n, Ghost(self.links@));
        self.links = Ghost(arena::detached(self.links@, n.num()));
        self.mark_dirty_chain(Some(parent));
        Ok(())
    }
}

/// A new node is above none.
proof fn lemma_not_below_new(up: Seq<Option<int>>, i: int)
    requires
        ancestry::acyclic(up),
        0 <= i < up.len(),
    ensures
        !ancestry::below(up.push(None), i, up.len() as int),
    decreases ancestry::rank_of(up)[i],
{
    let v = up.push(None);
    ancestry::lemma_extend_acyclic(up);
    ancestry::lemma_below(v, i, up.len() as int);
    ancestry::lemma_lineage(up, i);
    if let Some(p) = up[i] {
        lemma_not_below_new(up, p);
    }
}

/// A text that is written elsewhere keeps what does not rest on marks.
proof fn lemma_leaf_nearly(d: Dom, e: Dom, i: int)
    requires
        model::wf(d),
        d.has_node(i),
        d.nodes[i].kind is Text,
        e == (Dom { nodes: e.nodes, ..d }),
        e.nodes == d.nodes.update(i, e.nodes[i]),
        e.nodes[i].kind is Text,
        e.nodes[i].flags.marks == d.nodes[i].flags.marks | 8,
        e.inside(e.nodes[i].span, true),
    ensures
        change::nearly_wf(e),
        forall|b: int| #[trigger] change::reported_but(e, b),
{
    arena::lemma_mark_bits();
    arena::lemma_marks(d.nodes[i].flags.marks, 8, 1);
    arena::lemma_marks(d.nodes[i].flags.marks, 8, 2);
    arena::lemma_marks(d.nodes[i].flags.marks, 8, 8);
    assert forall|j: int| 0 <= j < e.nodes.len() implies #[trigger] model::node_ok(e, j) by {
        assert(model::node_ok(d, j));
    }
    assert forall|j: int| 0 <= j < e.attrs.len() implies #[trigger] model::attr_at_ok(e, j) by {
        assert(model::attr_at_ok(d, j));
    }
    assert forall|x: int, y: int|
        0 <= x < e.nodes.len() && 0 <= y < e.nodes.len() implies #[trigger] model::apart(
        e,
        x,
        y,
    ) by {
        assert(model::apart(d, x, y));
    }
    assert forall|b: int| #[trigger] change::reported_but(e, b) by {
        assert forall|j: int| 0 <= j < e.nodes.len() && j != b implies #[trigger] model::reported(
            e,
            j,
        ) by {
            assert(model::reported(d, j));
            assert(arena::child_of(d.links, j));
        }
    }
}

} // verus!
