//! Copying a node with all that is below it.
//!
//! The spans of a copy are those of what was copied, so a copy of what was not
//! changed is written as that was. Attributes are copied too: a value is
//! changed in place, and one that is shared would change in both.
use vstd::prelude::*;

use crate::dom::ancestry;
use crate::dom::arena;
use crate::dom::arena::{Core, Node, NodeFlags, NodeId, NodeKind};
use crate::dom::change;
use crate::dom::document;
use crate::dom::document::Document;
use crate::dom::edit;
use crate::dom::links;
use crate::dom::model;
use crate::dom::model::Dom;
use crate::dom::node::{Attr, ElementData};
use crate::dom::parse;
use crate::error::{Error, LimitError};

verus! {

/// What was there stays as it was.
pub open spec fn kept(a: Dom, b: Dom) -> bool {
    let n = a.nodes.len() as int;
    &&& n <= b.nodes.len()
    &&& b.src == a.src
    &&& b.arena == a.arena
    &&& b.uris == a.uris
    &&& b.root == a.root
    &&& b.bom == a.bom
    &&& b.dirty == a.dirty
    &&& b.limits == a.limits
    &&& a.elements.len() <= b.elements.len()
    &&& a.attrs.len() <= b.attrs.len()
    &&& b.attrs.take(a.attrs.len() as int) == a.attrs
    &&& b.elements.take(a.elements.len() as int) == a.elements
    &&& forall|i: int| 0 <= i < n ==> #[trigger] same_node(a, b, i)
}

/// A node, its parent and its children are the same.
pub open spec fn same_node(a: Dom, b: Dom, i: int) -> bool {
    b.nodes[i] == a.nodes[i] && b.kids(i) == a.kids(i) && b.up(i) == a.up(i)
}

/// A node is a copy of another one, their links aside.
pub open spec fn twin(a: Dom, b: Dom, i: int, c: int) -> bool {
    &&& b.nodes[c].kind == a.nodes[i].kind
    &&& b.nodes[c].span == a.nodes[i].span
    &&& b.nodes[c].flags == a.nodes[i].flags
    &&& a.nodes[i].kind is Element ==> {
        &&& b.elem(c) == (ElementData { attrs_from: b.elem(c).attrs_from, ..a.elem(i) })
        &&& b.attrs_of(c) == a.attrs_of(i)
    }
}

/// The first `j` children of a copy are copies of those of what was copied.
/// The new node with the number `k` is a copy of `s[k]`.
pub open spec fn kids_copied(a: Dom, b: Dom, s: Seq<int>, k: int, j: int) -> bool {
    let n = a.nodes.len() as int;
    &&& b.kids(n + k).len() == j
    &&& 0 <= j <= a.kids(s[k]).len()
    &&& forall|i: int| 0 <= i < j ==> #[trigger] kid_copied(a, b, s, k, i)
}

pub open spec fn kid_copied(a: Dom, b: Dom, s: Seq<int>, k: int, i: int) -> bool {
    let n = a.nodes.len() as int;
    let c = b.kids(n + k)[i];
    n <= c < n + s.len() && s[c - n] == a.kids(s[k])[i]
}

/// The parent of a copy is the copy of the parent.
pub open spec fn parent_copied(a: Dom, b: Dom, s: Seq<int>, m: int) -> bool {
    let n = a.nodes.len() as int;
    match b.up(n + m) {
        None => m == 0,
        Some(p) => m > 0 && n <= p < n + s.len() && a.up(s[m]) == Some(s[p - n]),
    }
}

/// A node that was copied.
pub open spec fn source(a: Dom, b: Dom, s: Seq<int>, from: int, k: int) -> bool {
    &&& a.has_node(s[k])
    &&& ancestry::below(a.links.up, s[k], from)
    &&& twin(a, b, s[k], a.nodes.len() + k)
    &&& parent_copied(a, b, s, k)
}

/// New nodes are copies of nodes below one, each of another one.
pub open spec fn copying(a: Dom, b: Dom, s: Seq<int>, from: int) -> bool {
    &&& model::wf(a)
    &&& model::wf(b)
    &&& kept(a, b)
    &&& s.len() > 0
    &&& s[0] == from
    &&& s.no_duplicates()
    &&& b.nodes.len() == a.nodes.len() + s.len()
    &&& forall|k: int| 0 <= k < s.len() ==> #[trigger] source(a, b, s, from, k)
}

/// The new nodes are a copy of a node with all that is below it: every copy has
/// a copy of every child, in their order.
pub open spec fn copied(a: Dom, b: Dom, s: Seq<int>, from: int) -> bool {
    &&& copying(a, b, s, from)
    &&& forall|k: int|
        0 <= k < s.len() ==> #[trigger] kids_copied(
            a,
            b,
            s,
            k,
            a.kids(s[k]).len() as int,
        )
}

/// What stands against one more copy.
pub open spec fn copy_fault(a: Dom, b: Dom, c: int) -> Option<Error> {
    match edit::room_fault(b) {
        Some(e) => Some(e),
        None => if a.nodes[c].kind is Element && b.attrs.len() + a.elem(c).attrs_len > u32::MAX {
            Some(parse::overflow())
        } else {
            None
        },
    }
}

/// A copy stopped before a node.
pub open spec fn copy_stopped(a: Dom, b: Dom, s: Seq<int>, from: int, c: int) -> bool {
    &&& a.has_node(c)
    &&& ancestry::below(a.links.up, c, from)
    &&& !s.contains(c)
    &&& if s.len() == 0 {
        b == a
    } else {
        copying(a, b, s, from)
    }
}

/// More attributes, of no element yet.
spec fn attrs_grown(d: Dom, list: Seq<Attr>) -> Dom {
    Dom { attrs: d.attrs + list, ..d }
}

proof fn lemma_attrs_grown_wf(d: Dom, list: Seq<Attr>)
    requires
        model::wf(d),
        forall|k: int| 0 <= k < list.len() ==> model::attr_ok(d, #[trigger] list[k]),
    ensures
        model::wf(attrs_grown(d, list)),
        forall|i: int|
            0 <= i < d.nodes.len() && (#[trigger] d.nodes[i]).kind is Element ==> attrs_grown(
                d,
                list,
            ).attrs_of(i) == d.attrs_of(i),
{
    let e = attrs_grown(d, list);
    assert forall|i: int| 0 <= i < e.nodes.len() implies #[trigger] model::node_ok(e, i) by {
        assert(model::node_ok(d, i));
    }
    assert forall|i: int| 0 <= i < e.attrs.len() implies #[trigger] model::attr_at_ok(e, i) by {
        if i < d.attrs.len() {
            assert(model::attr_at_ok(d, i));
        } else {
            assert(model::attr_ok(d, list[i - d.attrs.len()]));
        }
    }
    assert forall|i: int, j: int|
        0 <= i < e.nodes.len() && 0 <= j < e.nodes.len() implies #[trigger] model::apart(
        e,
        i,
        j,
    ) by {
        assert(model::apart(d, i, j));
    }
    assert forall|i: int| 0 <= i < e.nodes.len() implies #[trigger] model::reported(e, i) by {
        assert(model::reported(d, i));
    }
    assert forall|i: int| 0 <= i < e.nodes.len() implies #[trigger] model::calm(e, i) by {
        assert(model::calm(d, i));
    }
    assert forall|i: int|
        0 <= i < d.nodes.len() && (#[trigger] d.nodes[i]).kind is Element implies e.attrs_of(i)
        == d.attrs_of(i) by {
        assert(model::node_ok(d, i));
        assert(e.attrs_of(i) =~= d.attrs_of(i));
    }
}

/// One more node that is a copy of another one and is linked with no other.
pub open spec fn node_copied(d: Dom, i: int) -> Dom {
    let c = d.nodes[i];
    if c.kind is Element {
        let e = d.elem(i);
        change::element_made(
            Dom { attrs: d.attrs + d.attrs_of(i), ..d },
            Core { aux: d.elements.len() as u32, ..c },
            ElementData { attrs_from: d.attrs.len() as u32, ..e },
        )
    } else {
        change::node_made(d, Core { aux: Node::NO_AUX, ..c })
    }
}

proof fn lemma_node_copied(d: Dom, i: int)
    requires
        model::wf(d),
        d.has_node(i),
        copy_fault(d, d, i) is None,
    ensures
        model::wf(node_copied(d, i)),
        kept(d, node_copied(d, i)),
        twin(d, node_copied(d, i), i, d.nodes.len() as int),
        node_copied(d, i).nodes.len() == d.nodes.len() + 1,
        node_copied(d, i).kids(d.nodes.len() as int).len() == 0,
        node_copied(d, i).up(d.nodes.len() as int) is None,
{
    let b = node_copied(d, i);
    let n = d.nodes.len() as int;
    assert(model::node_ok(d, i));
    assert(model::calm(d, i));
    assert(d.links.kids.len() == n && d.links.up.len() == n);
    assert forall|k: int| 0 <= k < n implies #[trigger] same_node(d, b, k) by {}
    if d.nodes[i].kind is Element {
        let list = d.attrs_of(i);
        let x = b.elem(n);
        assert forall|k: int| 0 <= k < list.len() implies model::attr_ok(
            d,
            #[trigger] list[k],
        ) by {
            assert(model::attr_at_ok(d, d.elem(i).attrs_from + k));
        }
        lemma_attrs_grown_wf(d, list);
        let g = attrs_grown(d, list);
        assert forall|k: int|
            0 <= k < g.nodes.len() && (#[trigger] g.nodes[k]).kind is Element implies g.elem(
            k,
        ).attrs_from + g.elem(k).attrs_len <= d.attrs.len() by {
            assert(model::node_ok(d, k));
        }
        change::lemma_element_made_wf(
            g,
            Core { aux: d.elements.len() as u32, ..d.nodes[i] },
            ElementData { attrs_from: d.attrs.len() as u32, ..d.elem(i) },
        );
        assert(b.attrs_of(n) =~= list);
        assert(b.attrs.take(d.attrs.len() as int) =~= d.attrs);
        assert(b.elements.take(d.elements.len() as int) =~= d.elements);
    } else {
        change::lemma_node_made_wf(d, Core { aux: Node::NO_AUX, ..d.nodes[i] });
        assert(b.attrs.take(d.attrs.len() as int) =~= d.attrs);
        assert(b.elements.take(d.elements.len() as int) =~= d.elements);
    }
}

/// A new node is above none.
pub proof fn lemma_new_above_none(up: Seq<Option<int>>, i: int)
    requires
        ancestry::acyclic(up),
        ancestry::acyclic(up.push(None)),
        0 <= i < up.len(),
    ensures
        !ancestry::below(up.push(None), i, up.len() as int),
    decreases ancestry::rank_of(up)[i],
{
    ancestry::lemma_below(up.push(None), i, up.len() as int);
    ancestry::lemma_lineage(up, i);
    if let Some(p) = up[i] {
        lemma_new_above_none(up, p);
    }
}

/// The new node hangs on another one.
proof fn lemma_copy_hooked(d: Dom, p: int, c: int)
    requires
        model::wf(d),
        d.has_node(p),
        c == d.nodes.len() - 1,
        p < c,
        d.up(c) is None,
        d.kids(c).len() == 0,
        d.nodes[p].kind.holds_children(),
        d.nodes[c].flags.changed() ==> arena::has(
            d.nodes[p].flags.marks,
            NodeFlags::HAS_DIRTY_DESC,
        ),
        c != d.root,
        !ancestry::below(d.links.up, p, c),
    ensures
        model::wf(change::hooked(d, p, d.kids(p).len() as int, c)),
{
    let k = d.kids(p).len() as int;
    let f = change::hooked(d, p, k, c);
    change::lemma_wf_parts(d);
    change::lemma_hooked_nearly(d, p, k, c);
    assert forall|i: int| 0 <= i < f.nodes.len() implies #[trigger] model::reported(f, i) by {
        assert(model::reported(d, i));
    }
    assert forall|i: int| 0 <= i < f.nodes.len() implies #[trigger] model::calm(f, i) by {
        assert(model::calm(d, i));
    }
}

/// As many different numbers below `n` as there are at most.
pub proof fn lemma_few(s: Seq<int>, n: int)
    requires
        s.no_duplicates(),
        forall|k: int| 0 <= k < s.len() ==> 0 <= #[trigger] s[k] < n,
        0 <= n,
    ensures
        s.len() <= n,
{
    s.unique_seq_to_set();
    let all = vstd::set_lib::set_int_range(0, n);
    vstd::set_lib::lemma_int_range(0, n);
    assert(s.to_set().subset_of(all));
    vstd::set_lib::lemma_len_subset(s.to_set(), all);
}

/// What is below a node that is below another one is below that.
pub proof fn lemma_below_below(up: Seq<Option<int>>, i: int, x: int, c: int)
    requires
        ancestry::acyclic(up),
        0 <= i < up.len(),
        ancestry::below(up, i, x),
        ancestry::below(up, x, c),
    ensures
        ancestry::below(up, i, c),
    decreases ancestry::rank_of(up)[i],
{
    ancestry::lemma_below(up, i, x);
    ancestry::lemma_below(up, i, c);
    ancestry::lemma_lineage(up, i);
    if i != x {
        lemma_below_below(up, up[i]->0, x, c);
    }
}

/// A child of a node that was copied is below what is copied, and was not
/// copied itself before its turn.
proof fn lemma_next_child(a: Dom, b: Dom, s: Seq<int>, from: int, k: int, j: int)
    requires
        copying(a, b, s, from),
        0 <= k < s.len(),
        kids_copied(a, b, s, k, j),
        j < a.kids(s[k]).len(),
    ensures
        a.has_node(a.kids(s[k])[j]),
        ancestry::below(a.links.up, a.kids(s[k])[j], from),
        !s.contains(a.kids(s[k])[j]),
        a.up(a.kids(s[k])[j]) == Some(s[k]),
        a.nodes[s[k]].kind.holds_children(),
{
    let n = a.nodes.len() as int;
    let up = a.links.up;
    let c = a.kids(s[k])[j];
    assert(source(a, b, s, from, k));
    assert(arena::kid_at(a.links, s[k], j));
    assert(model::node_ok(a, s[k]));
    ancestry::lemma_below(up, c, from);
    if s.contains(c) {
        let m = s.index_of(c);
        assert(source(a, b, s, from, m));
        if m == 0 {
            // The node would be above itself.
            ancestry::lemma_lineage(up, c);
            ancestry::lemma_lineage_distinct(up, s[k]);
            ancestry::lemma_lineage(up, s[k]);
            let way = ancestry::lineage(up, s[k]);
            let i = way.index_of(c);
            assert(way[i] == c);
            assert(way[0] == s[k]);
        } else {
            assert(parent_copied(a, b, s, m));
            let p = b.up(n + m)->0;
            assert(s[p - n] == s[k]);
            assert(p - n == k);
            assert(arena::child_of(b.links, n + m));
            let i = b.kids(n + k).index_of(n + m);
            assert(kid_copied(a, b, s, k, i));
            assert(arena::distinct(a.links, s[k]));
            assert(a.kids(s[k])[i] == a.kids(s[k])[j]);
        }
    }
}

/// One more copy, as the last child of the copy of its parent.
proof fn lemma_child_copied(a: Dom, b: Dom, s: Seq<int>, from: int, k: int, j: int, f: Dom)
    requires
        copying(a, b, s, from),
        0 <= k < s.len(),
        kids_copied(a, b, s, k, j),
        j < a.kids(s[k]).len(),
        copy_fault(a, b, a.kids(s[k])[j]) is None,
        ({
            let c = a.kids(s[k])[j];
            let g = node_copied(b, c);
            f == change::hooked(g, a.nodes.len() + k, j, (a.nodes.len() + s.len()) as int)
        }),
    ensures
        copying(a, f, s.push(a.kids(s[k])[j]), from),
        kids_copied(a, f, s.push(a.kids(s[k])[j]), k, j + 1),
        kids_copied(a, f, s.push(a.kids(s[k])[j]), s.len() as int, 0),
        forall|m: int, x: int|
            0 <= m < s.len() && m != k && kids_copied(a, b, s, m, x) ==> #[trigger] kids_copied(
                a,
                f,
                s.push(a.kids(s[k])[j]),
                m,
                x,
            ),
{
    let n = a.nodes.len() as int;
    let c = a.kids(s[k])[j];
    let p = n + k;
    let q = n + s.len();
    let g = node_copied(b, c);
    let t = s.push(c);
    lemma_next_child(a, b, s, from, k, j);
    assert(source(a, b, s, from, k));
    assert(same_node(a, b, c));
    assert(model::node_ok(a, c));
    assert(copy_fault(b, b, c) is None) by {
        if a.nodes[c].kind is Element {
            assert(b.elements.take(a.elements.len() as int)[a.nodes[c].aux as int]
                == b.elements[a.nodes[c].aux as int]);
            assert(b.elem(c) == a.elem(c));
        }
    }
    lemma_node_copied(b, c);
    assert(same_node(b, g, p));
    assert(model::reported(a, c));
    ancestry::lemma_extend_acyclic(b.links.up);
    lemma_new_above_none(b.links.up, p);
    assert(g.links.up == b.links.up.push(None));
    assert(g.nodes[p].flags == a.nodes[s[k]].flags);
    assert(g.nodes[q].flags == a.nodes[c].flags);
    lemma_copy_hooked(g, p, q);
    assert(g.kids(p) == b.kids(p));
    arena::lemma_inserted(g.links, p, j, q);
    assert(f.kids(p) =~= b.kids(p).push(q));
    assert forall|i: int| 0 <= i < n implies #[trigger] same_node(a, f, i) by {
        assert(same_node(a, b, i));
        assert(same_node(b, g, i));
    }
    assert(f.attrs.take(a.attrs.len() as int) =~= b.attrs.take(a.attrs.len() as int)) by {
        assert(g.attrs.take(b.attrs.len() as int) == b.attrs);
        assert forall|i: int| 0 <= i < a.attrs.len() implies f.attrs[i] == b.attrs[i] by {
            assert(g.attrs.take(b.attrs.len() as int)[i] == g.attrs[i]);
        }
    }
    assert(f.elements.take(a.elements.len() as int) =~= b.elements.take(a.elements.len() as int))
        by {
        assert(g.elements.take(b.elements.len() as int) == b.elements);
        assert forall|i: int| 0 <= i < a.elements.len() implies f.elements[i] == b.elements[i] by {
            assert(g.elements.take(b.elements.len() as int)[i] == g.elements[i]);
        }
    }
    assert forall|m: int| 0 <= m < t.len() implies #[trigger] source(a, f, t, from, m) by {
        if m < s.len() {
            assert(source(a, b, s, from, m));
            assert(same_node(b, g, n + m));
            assert(t[m] == s[m]);
            assert(model::node_ok(b, n + m));
            lemma_twin_kept(a, b, g, s[m], n + m);
            assert(parent_copied(a, b, s, m));
            if let Some(x) = b.up(n + m) {
                assert(t[x - n] == s[x - n]);
            }
        } else {
            assert(t[m] == c);
            lemma_twin_source(a, b, g, c, q);
            assert(f.up(q) == Some(p));
            assert(t[k] == s[k]);
        }
    }
    assert forall|i: int| 0 <= i < j + 1 implies #[trigger] kid_copied(a, f, t, k, i) by {
        assert(t[k] == s[k]);
        if i < j {
            assert(kid_copied(a, b, s, k, i));
            assert(f.kids(p)[i] == b.kids(p)[i]);
            assert(t[b.kids(p)[i] - n] == s[b.kids(p)[i] - n]);
        }
    }
    assert forall|m: int, x: int|
        0 <= m < s.len() && m != k && kids_copied(a, b, s, m, x) implies #[trigger] kids_copied(
        a,
        f,
        t,
        m,
        x,
    ) by {
        assert(same_node(b, g, n + m));
        assert(t[m] == s[m]);
        assert(f.kids(n + m) == b.kids(n + m));
        assert forall|i: int| 0 <= i < x implies #[trigger] kid_copied(a, f, t, m, i) by {
            assert(kid_copied(a, b, s, m, i));
            let y = b.kids(n + m)[i];
            assert(t[y - n] == s[y - n]);
        }
    }
}

/// A copy stays one when another node is copied.
proof fn lemma_twin_kept(a: Dom, b: Dom, g: Dom, i: int, c: int)
    requires
        twin(a, b, i, c),
        kept(b, g),
        b.has_node(c),
        model::node_ok(b, c),
    ensures
        twin(a, g, i, c),
{
    assert(same_node(b, g, c));
    if a.nodes[i].kind is Element {
        assert(g.elements.take(b.elements.len() as int)[b.nodes[c].aux as int]
            == g.elements[b.nodes[c].aux as int]);
        assert(g.elem(c) == b.elem(c));
        assert(g.attrs_of(c) =~= b.attrs_of(c)) by {
            let e = b.elem(c);
            assert forall|k: int| 0 <= k < e.attrs_len implies #[trigger] g.attrs_of(c)[k]
                == b.attrs_of(c)[k] by {
                assert(g.attrs.take(b.attrs.len() as int)[e.attrs_from + k] == g.attrs[e.attrs_from
                    + k]);
            }
        }
    }
}

/// A copy of a node that stayed as it was is a copy of what it was.
proof fn lemma_twin_source(a: Dom, b: Dom, g: Dom, i: int, c: int)
    requires
        kept(a, b),
        a.has_node(i),
        model::node_ok(a, i),
        twin(b, g, i, c),
    ensures
        twin(a, g, i, c),
{
    assert(same_node(a, b, i));
    if a.nodes[i].kind is Element {
        assert(b.elements.take(a.elements.len() as int)[a.nodes[i].aux as int]
            == b.elements[a.nodes[i].aux as int]);
        assert(b.elem(i) == a.elem(i));
        assert(b.attrs_of(i) =~= a.attrs_of(i)) by {
            let e = a.elem(i);
            assert forall|k: int| 0 <= k < e.attrs_len implies #[trigger] b.attrs_of(i)[k]
                == a.attrs_of(i)[k] by {
                assert(b.attrs.take(a.attrs.len() as int)[e.attrs_from + k] == b.attrs[e.attrs_from
                    + k]);
            }
        }
    }
}

/// The first copy.
proof fn lemma_first_copied(a: Dom, from: int)
    requires
        model::wf(a),
        a.has_node(from),
        copy_fault(a, a, from) is None,
    ensures
        copying(a, node_copied(a, from), seq![from], from),
        kids_copied(a, node_copied(a, from), seq![from], 0, 0),
{
    let b = node_copied(a, from);
    let s = seq![from];
    lemma_node_copied(a, from);
    ancestry::lemma_below(a.links.up, from, from);
    assert(source(a, b, s, from, 0));
}

impl Document {
    /// Copies a node without its links.
    fn copy_node(&mut self, n: NodeId) -> (r: Result<NodeId, Error>)
        requires
            old(self).wf(),
            old(self)@.has_node(n.num()),
        ensures
            final(self).wf(),
            match r {
                Ok(c) => copy_fault(old(self)@, old(self)@, n.num()) is None && c.num() == old(
                    self,
                )@.nodes.len() && final(self)@ == node_copied(old(self)@, n.num()),
                Err(e) => copy_fault(old(self)@, old(self)@, n.num()) == Some(e) && final(self)@
                    == old(self)@,
            },
    {
        let ghost d = self@;
        let at: usize = self.nodes.len();
        if let Err(e) = self.limits.check_nodes(at as u64 + 1) {
            return Err(e);
        }
        if at >= u32::MAX as usize {
            return Err(Error::Unsupported("dom: исчерпано пространство узлов"));
        }
        let was: Node = self.nodes[n.index()];
        let mut copy: Node = Node::new(was.kind, was.span, was.flags);
        assert(was.bare() == d.nodes[n.num()]);
        if was.kind == NodeKind::Element {
            proof {
                assert(model::node_ok(d, n.num()));
            }
            let e: ElementData = self.elements[was.aux as usize];
            let total: usize = self.attrs.len();
            if total > u32::MAX as usize || e.attrs_len as usize > u32::MAX as usize - total {
                return Err(
                    Error::Limit(
                        LimitError::PartTooLarge { got: u32::MAX as u64, max: u32::MAX as u64 },
                    ),
                );
            }
            proof {
                lemma_node_copied(d, n.num());
            }
            let list: Vec<Attr> = self.copy_attrs(&e);
            copy.aux = self.elements.len() as u32;
            let mut made: ElementData = e;
            made.attrs_from = total as u32;
            self.push_attrs(&list);
            self.elements.push(made);
        } else {
            proof {
                lemma_node_copied(d, n.num());
            }
        }
        proof {
            arena::lemma_linked_extended(self.nodes@, self.links@, copy);
        }
        self.nodes.push(copy);
        self.links = Ghost(arena::extended(self.links@));
        proof {
            assert(self@.nodes =~= d.nodes.push(copy.bare()));
            assert(self@ == node_copied(d, n.num()));
        }
        Ok(NodeId::from_index(at).unwrap())
    }

    fn push_attrs(&mut self, list: &Vec<Attr>)
        ensures
            *final(self) == (Document { attrs: final(self).attrs, ..*old(self) }),
            final(self).attrs@ == old(self).attrs@ + list@,
    {
        let mut i: usize = 0;
        assert(self.attrs@ =~= old(self).attrs@ + list@.take(0));
        while i < list.len()
            invariant
                i <= list@.len(),
                *self == (Document { attrs: self.attrs, ..*old(self) }),
                self.attrs@ == old(self).attrs@ + list@.take(i as int),
            decreases list@.len() - i,
        {
            self.attrs.push(list[i]);
            i = i + 1;
            assert(self.attrs@ =~= old(self).attrs@ + list@.take(i as int));
        }
        assert(list@.take(i as int) =~= list@);
    }
}

/// What stands against a copy of a node that stayed as it was.
proof fn lemma_same_fault(a: Dom, b: Dom, c: int)
    requires
        kept(a, b),
        a.has_node(c),
        model::node_ok(a, c),
    ensures
        copy_fault(b, b, c) == copy_fault(a, b, c),
{
    assert(same_node(a, b, c));
    if a.nodes[c].kind is Element {
        assert(b.elements.take(a.elements.len() as int)[a.nodes[c].aux as int]
            == b.elements[a.nodes[c].aux as int]);
        assert(b.elem(c) == a.elem(c));
    }
}

/// A copy has no children while it waits for them, and all of them then.
spec fn kids_due(a: Dom, b: Dom, s: Seq<int>, todo: Seq<int>, k: int) -> bool {
    kids_copied(
        a,
        b,
        s,
        k,
        if todo.contains(k) {
            0
        } else {
            a.kids(s[k]).len() as int
        },
    )
}

/// Which copies have no children yet.
spec fn waiting(a: Dom, b: Dom, s: Seq<int>, todo: Seq<int>, but: int) -> bool {
    &&& todo.no_duplicates()
    &&& forall|i: int| 0 <= i < todo.len() ==> 0 <= #[trigger] todo[i] < s.len() && todo[i] != but
    &&& forall|k: int|
        0 <= k < s.len() && k != but ==> #[trigger] kids_due(a, b, s, todo, k)
}

/// The nodes whose children are to be copied, with their copies.
spec fn pairs(work: Seq<(NodeId, NodeId)>, n: int, s: Seq<int>, todo: Seq<int>) -> bool {
    &&& work.len() == todo.len()
    &&& forall|i: int|
        0 <= i < work.len() ==> (#[trigger] work[i]).0.num() == s[todo[i]] && work[i].1.num() == n
            + todo[i]
}

impl Document {
    /// Copies a node with all that is below it. The copy hangs on no other
    /// node.
    ///
    /// When there are too many nodes, the copies that were made stay nodes of
    /// the document, but hang on nothing.
    pub fn clone_subtree(&mut self, n: NodeId) -> (r: Result<NodeId, Error>)
        requires
            old(self).wf(),
        ensures
            final(self).wf(),
            match r {
                Ok(c) => {
                    &&& old(self)@.has_node(n.num())
                    &&& c.num() == old(self)@.nodes.len()
                    &&& exists|s: Seq<int>| copied(old(self)@, final(self)@, s, n.num())
                },
                Err(e) => if old(self)@.has_node(n.num()) {
                    exists|s: Seq<int>, c: int| #[trigger]
                        copy_stopped(old(self)@, final(self)@, s, n.num(), c) && copy_fault(
                            old(self)@,
                            final(self)@,
                            c,
                        ) == Some(e)
                } else {
                    e == document::no_node() && final(self)@ == old(self)@
                },
            },
    {
        let ghost a = self@;
        let ghost from = n.num();
        let ghost nn = a.nodes.len() as int;
        if let Err(e) = self.node(n) {
            return Err(e);
        }
        proof {
            ancestry::lemma_below(a.links.up, from, from);
        }
        let top: NodeId = match self.copy_node(n) {
            Ok(c) => c,
            Err(e) => {
                proof {
                    assert(copy_stopped(a, self@, Seq::<int>::empty(), from, from));
                }
                return Err(e);
            },
        };
        let ghost mut s: Seq<int> = seq![from];
        let ghost mut todo: Seq<int> = seq![0int];
        proof {
            lemma_first_copied(a, from);
            assert(todo[0] == 0);
            assert(todo.contains(0));
            assert forall|k: int| 0 <= k < s.len() && k != -1 implies #[trigger] kids_due(
                a,
                self@,
                s,
                todo,
                k,
            ) by {
                assert(k == 0);
            }
        }
        let mut work: Vec<(NodeId, NodeId)> = Vec::new();
        work.push((n, top));
        loop
            invariant
                self.wf(),
                a == old(self)@,
                nn == a.nodes.len(),
                from == n.num(),
                a.has_node(from),
                copying(a, self@, s, from),
                waiting(a, self@, s, todo, -1),
                pairs(work@, nn, s, todo),
            ensures
                self.wf(),
                copied(a, self@, s, from),
            decreases nn - (s.len() - todo.len()),
        {
            let (src, dst): (NodeId, NodeId) = match work.pop() {
                Some(p) => p,
                None => {
                    proof {
                        assert forall|k: int| 0 <= k < s.len() implies #[trigger] kids_copied(
                            a,
                            self@,
                            s,
                            k,
                            a.kids(s[k]).len() as int,
                        ) by {
                            assert(!todo.contains(k));
                            assert(kids_due(a, self@, s, todo, k));
                        }
                    }
                    break;
                },
            };
            let ghost k = todo.last();
            let ghost before = todo;
            let ghost had = s.len() - todo.len();
            proof {
                assert(before[before.len() - 1] == k);
                todo = todo.drop_last();
                lemma_taken_out(a, self@, s, before);
                assert(source(a, self@, s, from, k));
                assert(same_node(a, self@, s[k]));
                assert forall|i: int| 0 <= i < s.len() implies 0 <= #[trigger] s[i] < nn by {
                    assert(source(a, self@, s, from, i));
                }
                lemma_few(s, nn);
            }
            let first: Node = match self.node(src) {
                Ok(x) => x,
                Err(e) => {
                    return Err(e);
                },
            };
            let mut cur: Option<NodeId> = first.first_child;
            let ghost mut j: int = 0;
            loop
                invariant
                    self.wf(),
                    a == old(self)@,
                    nn == a.nodes.len(),
                    from == n.num(),
                    a.has_node(from),
                    copying(a, self@, s, from),
                    0 <= k < s.len(),
                    dst.num() == nn + k,
                    waiting(a, self@, s, todo, k),
                    pairs(work@, nn, s, todo),
                    kids_copied(a, self@, s, k, j),
                    arena::num_of(cur) == arena::item(a.kids(s[k]), j),
                    s.len() - todo.len() == had + 1,
                ensures
                    self.wf(),
                    copying(a, self@, s, from),
                    waiting(a, self@, s, todo, -1),
                    pairs(work@, nn, s, todo),
                    s.len() - todo.len() == had + 1,
                decreases a.kids(s[k]).len() - j,
            {
                let c: NodeId = match cur {
                    Some(c) => c,
                    None => {
                        proof {
                            lemma_put_back(a, self@, s, todo, k);
                        }
                        break;
                    },
                };
                let ghost b = self@;
                proof {
                    lemma_next_child(a, b, s, from, k, j);
                    assert(same_node(a, b, c.num()));
                    assert(same_node(a, b, s[k]));
                    assert(source(a, b, s, from, k));
                    assert(model::node_ok(a, c.num()));
                    lemma_same_fault(a, b, c.num());
                }
                let copy: NodeId = match self.copy_node(c) {
                    Ok(x) => x,
                    Err(e) => {
                        proof {
                            assert(copy_stopped(a, self@, s, from, c.num()));
                        }
                        return Err(e);
                    },
                };
                proof {
                    lemma_node_copied(b, c.num());
                    assert(same_node(b, self@, nn + k));
                }
                links::link_last(&mut self.nodes, dst, copy, Ghost(self.links@));
                self.links = Ghost(
                    arena::inserted(
                        self.links@,
                        dst.num(),
                        self.links@.kids[dst.num()].len() as int,
                        copy.num(),
                    ),
                );
                work.push((c, copy));
                proof {
                    lemma_child_copied(a, b, s, from, k, j, self@);
                    lemma_more_waiting(a, b, self@, s, todo, k, j);
                    let t = s.push(c.num());
                    assert forall|i: int| 0 <= i < work@.len() implies (#[trigger] work@[i]).0.num()
                        == t[todo.push(s.len() as int)[i]] && work@[i].1.num() == nn + todo.push(
                        s.len() as int,
                    )[i] by {
                        if i < todo.len() {
                            assert(todo.push(s.len() as int)[i] == todo[i]);
                        }
                    }
                    assert(t[k] == s[k]);
                    todo = todo.push(s.len() as int);
                    s = t;
                    assert(same_node(a, self@, s[k]));
                    assert(self@.kids(s[k])[j] == c.num());
                    j = j + 1;
                }
                let after: Node = match self.node(c) {
                    Ok(x) => x,
                    Err(e) => {
                        return Err(e);
                    },
                };
                cur = after.next;
            }
        }
        Ok(top)
    }
}

/// Taking the last one out of those that wait.
proof fn lemma_taken_out(a: Dom, b: Dom, s: Seq<int>, todo: Seq<int>)
    requires
        waiting(a, b, s, todo, -1),
        todo.len() > 0,
    ensures
        waiting(a, b, s, todo.drop_last(), todo.last()),
        kids_copied(a, b, s, todo.last(), 0),
{
    let k = todo.last();
    let rest = todo.drop_last();
    assert(todo[todo.len() - 1] == k);
    assert(todo.contains(k));
    assert(kids_due(a, b, s, todo, k));
    assert forall|i: int| 0 <= i < rest.len() implies 0 <= #[trigger] rest[i] < s.len() && rest[i]
        != k by {
        assert(rest[i] == todo[i]);
    }
    assert forall|m: int| 0 <= m < s.len() && m != k implies #[trigger] kids_due(a, b, s, rest, m) by {
        assert(rest.contains(m) == todo.contains(m)) by {
            if todo.contains(m) {
                let i = todo.index_of(m);
                assert(rest[i] == m);
            }
            if rest.contains(m) {
                let i = rest.index_of(m);
                assert(todo[i] == m);
            }
        }
        assert(kids_due(a, b, s, todo, m));
    }
}

/// A copy that has all its children waits no more.
proof fn lemma_put_back(a: Dom, b: Dom, s: Seq<int>, todo: Seq<int>, k: int)
    requires
        waiting(a, b, s, todo, k),
        0 <= k < s.len(),
        kids_copied(a, b, s, k, a.kids(s[k]).len() as int),
    ensures
        waiting(a, b, s, todo, -1),
{
    assert(!todo.contains(k)) by {
        if todo.contains(k) {
            let i = todo.index_of(k);
            assert(todo[i] != k);
        }
    }
    assert forall|m: int| 0 <= m < s.len() && m != -1 implies #[trigger] kids_due(a, b, s, todo, m) by {}
}

/// A new copy waits for its children.
proof fn lemma_more_waiting(
    a: Dom,
    b: Dom,
    f: Dom,
    s: Seq<int>,
    todo: Seq<int>,
    k: int,
    j: int,
)
    requires
        waiting(a, b, s, todo, k),
        0 <= k < s.len(),
        kids_copied(a, f, s.push(a.kids(s[k])[j]), s.len() as int, 0),
        forall|m: int, x: int|
            0 <= m < s.len() && m != k && kids_copied(a, b, s, m, x) ==> #[trigger] kids_copied(
                a,
                f,
                s.push(a.kids(s[k])[j]),
                m,
                x,
            ),
    ensures
        waiting(a, f, s.push(a.kids(s[k])[j]), todo.push(s.len() as int), k),
{
    let t = s.push(a.kids(s[k])[j]);
    let more = todo.push(s.len() as int);
    assert forall|i: int| 0 <= i < more.len() implies 0 <= #[trigger] more[i] < t.len() && more[i]
        != k by {
        if i < todo.len() {
            assert(more[i] == todo[i]);
        }
    }
    assert forall|m: int| 0 <= m < t.len() && m != k implies #[trigger] kids_due(a, f, t, more, m) by {
        if m < s.len() {
            assert(more.contains(m) == todo.contains(m)) by {
                if todo.contains(m) {
                    let i = todo.index_of(m);
                    assert(more[i] == m);
                }
                if more.contains(m) {
                    let i = more.index_of(m);
                    assert(todo[i] == m);
                }
            }
            assert(t[m] == s[m]);
            let x = if todo.contains(m) {
                0
            } else {
                a.kids(s[m]).len() as int
            };
            assert(kids_due(a, b, s, todo, m));
            assert(kids_copied(a, b, s, m, x));
            assert(kids_copied(a, f, t, m, x));
        } else {
            assert(more[todo.len() as int] == m);
            assert(more.contains(m));
        }
    }
}

} // verus!
