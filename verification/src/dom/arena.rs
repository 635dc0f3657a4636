//! Nodes and the links between them.
//!
//! Nodes lie in one vector and point at each other by index.
use vstd::prelude::*;

use crate::bytes::span::Span;

verus! {

/// A node of a document.
#[derive(Debug, Clone, Copy, PartialEq, Eq, Hash, PartialOrd, Ord, Structural)]
pub struct NodeId {
    at: u32,
}

impl NodeId {
    /// The index of the node.
    pub closed spec fn num(self) -> int {
        self.at as int
    }

    /// The node with the index `i`; `None` when the index is too great.
    #[must_use]
    pub fn from_index(i: usize) -> (r: Option<Self>)
        ensures
            r is Some <==> i < u32::MAX,
            r matches Some(id) ==> id.num() == i,
    {
        if i < u32::MAX as usize {
            Some(NodeId { at: i as u32 })
        } else {
            None
        }
    }

    /// The index of the node.
    #[must_use]
    pub fn index(self) -> (r: usize)
        ensures
            r == self.num(),
    {
        self.at as usize
    }

    /// The first node of a document, which is the document itself.
    pub(crate) fn first() -> (r: Self)
        ensures
            r.num() == 0,
    {
        NodeId { at: 0 }
    }
}

/// What a node is.
#[derive(Debug, Clone, Copy, PartialEq, Eq, Structural)]
pub enum NodeKind {
    /// The root of the tree: what stands before, in and behind the root
    /// element.
    Document,
    /// `<?xml ... ?>`
    Decl,
    Element,
    /// Characters, with their references as they stand.
    Text,
    /// `<![CDATA[ ... ]]>`
    CData,
    /// `<!-- ... -->`
    Comment,
    /// A processing instruction.
    Pi,
}

impl NodeKind {
    pub open spec fn holds_children(self) -> bool {
        self is Document || self is Element
    }

    /// Whether such a node can have children.
    #[must_use]
    pub fn may_have_children(self) -> (r: bool)
        ensures
            r == self.holds_children(),
    {
        match self {
            NodeKind::Document => true,
            NodeKind::Element => true,
            _ => false,
        }
    }
}

/// The marks of a node.
#[derive(Debug, Clone, Copy, PartialEq, Eq, Structural)]
pub struct NodeFlags {
    pub marks: u8,
}

/// Whether a bit is among the marks.
pub open spec fn has(marks: u8, bit: u8) -> bool {
    marks & bit != 0
}

impl Default for NodeFlags {
    fn default() -> (r: Self)
        ensures
            r.marks == 0,
    {
        NodeFlags { marks: 0 }
    }
}

impl NodeFlags {
    /// The node was changed: its span is not what has to be written.
    pub const SELF_DIRTY: u8 = 1;

    /// A node below was changed, or the children are others.
    pub const HAS_DIRTY_DESC: u8 = 2;

    /// The element is written with one tag, `<a/>` and not `<a></a>`.
    pub const EMPTY_TAG: u8 = 4;

    /// The span is one of the new bytes and not of the source.
    pub const IN_ARENA: u8 = 8;

    /// Whether the span of the node is not what has to be written.
    pub open spec fn changed(self) -> bool {
        has(self.marks, NodeFlags::SELF_DIRTY) || has(self.marks, NodeFlags::HAS_DIRTY_DESC)
    }

    #[must_use]
    pub fn new(bits: u8) -> (r: Self)
        ensures
            r.marks == bits,
    {
        NodeFlags { marks: bits }
    }

    #[must_use]
    pub fn bits(self) -> (r: u8)
        ensures
            r == self.marks,
    {
        self.marks
    }

    #[must_use]
    pub fn has(self, bit: u8) -> (r: bool)
        ensures
            r == has(self.marks, bit),
    {
        self.marks & bit != 0
    }

    pub fn set(&mut self, bit: u8)
        ensures
            final(self).marks == old(self).marks | bit,
    {
        self.marks = self.marks | bit;
    }

    pub fn clear(&mut self, bit: u8)
        ensures
            final(self).marks == old(self).marks & !bit,
    {
        self.marks = self.marks & !bit;
    }

    /// Whether the span of the node is not what has to be written.
    #[must_use]
    pub fn dirty(self) -> (r: bool)
        ensures
            r == self.changed(),
    {
        let m: u8 = self.marks;
        assert((m & 3 != 0) == (m & 1 != 0 || m & 2 != 0)) by (bit_vector);
        self.marks & 3 != 0
    }
}

/// Setting and clearing marks, bit by bit.
pub proof fn lemma_marks(m: u8, bit: u8, other: u8)
    ensures
        has(m | bit, other) == (has(m, other) || has(bit, other)),
        has(m & !bit, other) == has(m, other & !bit),
{
    assert(((m | bit) & other != 0) == (m & other != 0 || bit & other != 0)) by (bit_vector);
    assert(((m & !bit) & other != 0) == (m & (other & !bit) != 0)) by (bit_vector);
}

/// The four marks are four bits.
pub proof fn lemma_mark_bits()
    ensures
        forall|a: u8, b: u8|
            (a == 1 || a == 2 || a == 4 || a == 8) && (b == 1 || b == 2 || b == 4 || b == 8) ==> (
            #[trigger] has(a, b)) == (a == b),
        forall|a: u8| #[trigger] has(0, a) == false,
        forall|m: u8, a: u8| #[trigger] has(m, a & !a) == false,
{
    assert(forall|a: u8, b: u8|
        (a == 1 || a == 2 || a == 4 || a == 8) && (b == 1 || b == 2 || b == 4 || b == 8) ==> (
        (#[trigger] (a & b)) != 0) == (a == b)) by (bit_vector);
    assert(forall|a: u8| (#[trigger] (0u8 & a)) == 0) by (bit_vector);
    assert(forall|m: u8, a: u8| (#[trigger] (m & (a & !a))) == 0) by (bit_vector);
}

/// A node of the tree.
#[derive(Debug, Clone, Copy)]
pub struct Node {
    pub parent: Option<NodeId>,
    pub first_child: Option<NodeId>,
    pub last_child: Option<NodeId>,
    pub prev: Option<NodeId>,
    pub next: Option<NodeId>,
    /// What the node takes, with its children and its closing tag.
    pub span: Span,
    /// The index of what is known of an element.
    pub aux: u32,
    pub kind: NodeKind,
    pub flags: NodeFlags,
}

/// A node without its links.
pub struct Core {
    pub span: Span,
    pub aux: u32,
    pub kind: NodeKind,
    pub flags: NodeFlags,
}

/// The index of a node that may be missing.
pub open spec fn num_of(n: Option<NodeId>) -> Option<int> {
    match n {
        Some(id) => Some(id.num()),
        None => None,
    }
}

impl Node {
    /// What stands for the index of an element, where there is none.
    pub const NO_AUX: u32 = u32::MAX;

    pub open spec fn bare(self) -> Core {
        Core { span: self.span, aux: self.aux, kind: self.kind, flags: self.flags }
    }

    /// A node that is linked with no other.
    pub(crate) fn new(kind: NodeKind, span: Span, flags: NodeFlags) -> (r: Self)
        ensures
            r.bare() == (Core { span, aux: Node::NO_AUX, kind, flags }),
            r.parent is None,
            r.first_child is None,
            r.last_child is None,
            r.prev is None,
            r.next is None,
    {
        Node {
            parent: None,
            first_child: None,
            last_child: None,
            prev: None,
            next: None,
            span,
            aux: u32::MAX,
            kind,
            flags,
        }
    }

    #[must_use]
    pub fn kind(&self) -> (r: NodeKind)
        ensures
            r == self.kind,
    {
        self.kind
    }

    #[must_use]
    pub fn span(&self) -> (r: Span)
        ensures
            r == self.span,
    {
        self.span
    }

    #[must_use]
    pub fn flags(&self) -> (r: NodeFlags)
        ensures
            r == self.flags,
    {
        self.flags
    }

    #[must_use]
    pub fn parent(&self) -> (r: Option<NodeId>)
        ensures
            r == self.parent,
    {
        self.parent
    }

    #[must_use]
    pub fn first_child(&self) -> (r: Option<NodeId>)
        ensures
            r == self.first_child,
    {
        self.first_child
    }

    #[must_use]
    pub fn next_sibling(&self) -> (r: Option<NodeId>)
        ensures
            r == self.next,
    {
        self.next
    }
}

/// The nodes without their links.
pub open spec fn cores(ns: Seq<Node>) -> Seq<Core> {
    ns.map_values(|n: Node| n.bare())
}

/// Which nodes are the children of which, in their order, and the parents.
pub struct Links {
    pub kids: Seq<Seq<int>>,
    pub up: Seq<Option<int>>,
}

/// The child of `p` at `k` is a node with the parent `p`.
pub open spec fn kid_at(l: Links, p: int, k: int) -> bool {
    0 <= l.kids[p][k] < l.up.len() && l.up[l.kids[p][k]] == Some(p)
}

/// A node with a parent is one of its children.
pub open spec fn child_of(l: Links, c: int) -> bool {
    l.up[c] is Some ==> 0 <= l.up[c]->0 < l.kids.len() && l.kids[l.up[c]->0].contains(c)
}

/// No node is a child of `p` twice.
pub open spec fn distinct(l: Links, p: int) -> bool {
    l.kids[p].no_duplicates()
}

/// Children and parents agree, and no node is a child twice.
pub open spec fn forest(l: Links) -> bool {
    &&& l.kids.len() == l.up.len()
    &&& forall|p: int, k: int|
        0 <= p < l.kids.len() && 0 <= k < l.kids[p].len() ==> #[trigger] kid_at(l, p, k)
    &&& forall|c: int| 0 <= c < l.up.len() ==> #[trigger] child_of(l, c)
    &&& forall|p: int| 0 <= p < l.kids.len() ==> #[trigger] distinct(l, p)
}

/// The node of `s` at `k`.
pub open spec fn item(s: Seq<int>, k: int) -> Option<int> {
    if 0 <= k < s.len() {
        Some(s[k])
    } else {
        None
    }
}

/// A node points at its parent and at its first and last child.
pub open spec fn ends_ok(ns: Seq<Node>, l: Links, i: int) -> bool {
    &&& num_of(ns[i].parent) == l.up[i]
    &&& num_of(ns[i].first_child) == item(l.kids[i], 0)
    &&& num_of(ns[i].last_child) == item(l.kids[i], l.kids[i].len() - 1)
    &&& l.up[i] is None ==> ns[i].prev is None && ns[i].next is None
}

/// A child points at the children beside it.
pub open spec fn sides_ok(ns: Seq<Node>, l: Links, p: int, k: int) -> bool {
    &&& num_of(ns[l.kids[p][k]].prev) == item(l.kids[p], k - 1)
    &&& num_of(ns[l.kids[p][k]].next) == item(l.kids[p], k + 1)
}

/// The links of the nodes are these.
pub open spec fn linked(ns: Seq<Node>, l: Links) -> bool {
    &&& l.up.len() == ns.len()
    &&& l.kids.len() == ns.len()
    &&& forall|i: int| 0 <= i < ns.len() ==> #[trigger] ends_ok(ns, l, i)
    &&& forall|p: int, k: int|
        0 <= p < l.kids.len() && 0 <= k < l.kids[p].len() ==> #[trigger] sides_ok(ns, l, p, k)
}

/// The links with `c` as the child of `p` at place `k`.
pub open spec fn inserted(l: Links, p: int, k: int, c: int) -> Links {
    Links { kids: l.kids.update(p, l.kids[p].insert(k, c)), up: l.up.update(c, Some(p)) }
}

/// The place of a node among the children of its parent.
pub open spec fn place_of(l: Links, c: int) -> int {
    l.kids[l.up[c]->0].index_of(c)
}

/// The links without `c` among the children of its parent.
pub open spec fn detached(l: Links, c: int) -> Links {
    Links {
        kids: l.kids.update(l.up[c]->0, l.kids[l.up[c]->0].remove(place_of(l, c))),
        up: l.up.update(c, None),
    }
}

/// The links of one more node.
pub open spec fn extended(l: Links) -> Links {
    Links { kids: l.kids.push(Seq::empty()), up: l.up.push(None) }
}

pub proof fn lemma_place(l: Links, c: int)
    requires
        forest(l),
        0 <= c < l.up.len(),
        l.up[c] is Some,
    ensures
        0 <= l.up[c]->0 < l.kids.len(),
        0 <= place_of(l, c) < l.kids[l.up[c]->0].len(),
        l.kids[l.up[c]->0][place_of(l, c)] == c,
{
    assert(child_of(l, c));
}

pub proof fn lemma_inserted(l: Links, p: int, k: int, c: int)
    requires
        forest(l),
        0 <= p < l.kids.len(),
        0 <= k <= l.kids[p].len(),
        0 <= c < l.up.len(),
        l.up[c] is None,
    ensures
        forest(inserted(l, p, k, c)),
{
    let m = inserted(l, p, k, c);
    let s = l.kids[p];
    let t = m.kids[p];
    assert(!s.contains(c)) by {
        if s.contains(c) {
            let j = s.index_of(c);
            assert(kid_at(l, p, j));
        }
    }
    assert forall|q: int, j: int|
        0 <= q < m.kids.len() && 0 <= j < m.kids[q].len() implies #[trigger] kid_at(m, q, j) by {
        if q == p {
            if j < k {
                assert(t[j] == s[j]);
                assert(kid_at(l, p, j));
            } else if j > k {
                assert(t[j] == s[j - 1]);
                assert(kid_at(l, p, j - 1));
            }
        } else {
            assert(kid_at(l, q, j));
        }
    }
    assert forall|d: int| 0 <= d < m.up.len() implies #[trigger] child_of(m, d) by {
        if d == c {
            assert(t[k] == c);
        } else {
            assert(child_of(l, d));
            if l.up[d] == Some(p) {
                let j = s.index_of(d);
                if j < k {
                    assert(t[j] == d);
                } else {
                    assert(t[j + 1] == d);
                }
            }
        }
    }
    assert forall|q: int| 0 <= q < m.kids.len() implies #[trigger] distinct(m, q) by {
        assert(distinct(l, q));
        if q == p {
            assert forall|a: int, b: int| 0 <= a < t.len() && 0 <= b < t.len() && a != b implies t[a]
                != t[b] by {
                let x = if a < k {
                    a
                } else {
                    a - 1
                };
                let y = if b < k {
                    b
                } else {
                    b - 1
                };
                if a == k {
                    assert(t[b] == s[y]);
                } else if b == k {
                    assert(t[a] == s[x]);
                } else {
                    assert(t[a] == s[x] && t[b] == s[y]);
                }
            }
        }
    }
}

pub proof fn lemma_detached(l: Links, c: int)
    requires
        forest(l),
        0 <= c < l.up.len(),
        l.up[c] is Some,
    ensures
        forest(detached(l, c)),
{
    lemma_place(l, c);
    let m = detached(l, c);
    let p = l.up[c]->0;
    let k = place_of(l, c);
    let s = l.kids[p];
    let t = m.kids[p];
    assert(distinct(l, p));
    assert forall|q: int, j: int|
        0 <= q < m.kids.len() && 0 <= j < m.kids[q].len() implies #[trigger] kid_at(m, q, j) by {
        if q == p {
            let x = if j < k {
                j
            } else {
                j + 1
            };
            assert(t[j] == s[x]);
            assert(kid_at(l, p, x));
            assert(s[x] != s[k]);
        } else {
            assert(kid_at(l, q, j));
        }
    }
    assert forall|d: int| 0 <= d < m.up.len() implies #[trigger] child_of(m, d) by {
        assert(child_of(l, d));
        if d != c && l.up[d] == Some(p) {
            let j = s.index_of(d);
            if j < k {
                assert(t[j] == d);
            } else {
                assert(t[j - 1] == d);
            }
        }
    }
    assert forall|q: int| 0 <= q < m.kids.len() implies #[trigger] distinct(m, q) by {
        assert(distinct(l, q));
        if q == p {
            assert forall|a: int, b: int| 0 <= a < t.len() && 0 <= b < t.len() && a != b implies t[a]
                != t[b] by {
                let x = if a < k {
                    a
                } else {
                    a + 1
                };
                let y = if b < k {
                    b
                } else {
                    b + 1
                };
                assert(t[a] == s[x] && t[b] == s[y]);
            }
        }
    }
}

pub proof fn lemma_extended(l: Links)
    requires
        forest(l),
    ensures
        forest(extended(l)),
{
    let m = extended(l);
    assert forall|q: int, j: int|
        0 <= q < m.kids.len() && 0 <= j < m.kids[q].len() implies #[trigger] kid_at(m, q, j) by {
        assert(kid_at(l, q, j));
    }
    assert forall|d: int| 0 <= d < m.up.len() implies #[trigger] child_of(m, d) by {
        if d < l.up.len() {
            assert(child_of(l, d));
        }
    }
    assert forall|q: int| 0 <= q < m.kids.len() implies #[trigger] distinct(m, q) by {
        if q < l.kids.len() {
            assert(distinct(l, q));
        }
    }
}

/// One more node, linked with no other.
pub proof fn lemma_linked_extended(ns: Seq<Node>, l: Links, n: Node)
    requires
        linked(ns, l),
        forest(l),
        n.parent is None,
        n.first_child is None,
        n.last_child is None,
        n.prev is None,
        n.next is None,
    ensures
        linked(ns.push(n), extended(l)),
{
    let m = extended(l);
    let t = ns.push(n);
    assert forall|i: int| 0 <= i < t.len() implies #[trigger] ends_ok(t, m, i) by {
        if i < ns.len() {
            assert(ends_ok(ns, l, i));
        }
    }
    assert forall|p: int, k: int|
        0 <= p < m.kids.len() && 0 <= k < m.kids[p].len() implies #[trigger] sides_ok(
        t,
        m,
        p,
        k,
    ) by {
        assert(sides_ok(ns, l, p, k));
        assert(kid_at(l, p, k));
    }
}

/// Links stand in the links alone.
pub proof fn lemma_linked_frame(a: Seq<Node>, b: Seq<Node>, l: Links)
    requires
        linked(a, l),
        forest(l),
        a.len() == b.len(),
        forall|i: int|
            0 <= i < a.len() ==> {
                &&& (#[trigger] b[i]).parent == a[i].parent
                &&& b[i].first_child == a[i].first_child
                &&& b[i].last_child == a[i].last_child
                &&& b[i].prev == a[i].prev
                &&& b[i].next == a[i].next
            },
    ensures
        linked(b, l),
{
    assert forall|i: int| 0 <= i < b.len() implies #[trigger] ends_ok(b, l, i) by {
        assert(ends_ok(a, l, i));
        assert(b[i].parent == a[i].parent);
    }
    assert forall|p: int, k: int|
        0 <= p < l.kids.len() && 0 <= k < l.kids[p].len() implies #[trigger] sides_ok(
        b,
        l,
        p,
        k,
    ) by {
        assert(sides_ok(a, l, p, k));
        assert(kid_at(l, p, k));
        assert(b[l.kids[p][k]].prev == a[l.kids[p][k]].prev);
    }
}

} // verus!
