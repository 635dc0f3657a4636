//! Whether the nodes of a tree take every byte of the part once.
//!
//! The children of an element lie side by side between its tags, and those of
//! the document between the byte order mark and the end.
use vstd::prelude::*;

use crate::bytes::span::Span;
use crate::dom::arena;
use crate::dom::arena::{Core, Node, NodeId, NodeKind};
use crate::dom::document::Document;
use crate::dom::model;
use crate::dom::model::Dom;
use crate::dom::node::ElementData;
use crate::dom::parse;
use crate::limits::Limits;
use crate::xml::laws;
use crate::xml::lexer;
use crate::xml::reader;

verus! {

/// A place where children do not lie side by side.
#[derive(Debug, Clone, Copy, PartialEq, Eq, Structural)]
pub struct CoverageBreak {
    /// The node with the children.
    pub parent: NodeId,
    /// The child that begins elsewhere, or `None`, when the last one ends
    /// elsewhere.
    pub child: Option<NodeId>,
    pub expected: u32,
    pub found: u32,
}

/// A place where children do not lie side by side, with the nodes as indices.
pub struct Gap {
    pub parent: int,
    pub child: Option<int>,
    pub expected: int,
    pub found: int,
}

impl CoverageBreak {
    pub open spec fn view(&self) -> Gap {
        Gap {
            parent: self.parent.num(),
            child: arena::num_of(self.child),
            expected: self.expected as int,
            found: self.found as int,
        }
    }
}

/// Where the first child of a node has to begin.
pub open spec fn inner_start(d: Dom, i: int) -> int {
    let c = d.nodes[i];
    if c.kind is Element {
        let x = d.elem(i).opened_at(model::is_empty_tag(c));
        if x > u32::MAX {
            u32::MAX as int
        } else {
            x
        }
    } else if d.bom {
        3
    } else {
        0
    }
}

/// Where the last child of a node has to end.
pub open spec fn inner_end(d: Dom, i: int) -> int {
    if d.nodes[i].kind is Element {
        let x = d.elem(i).closed_at();
        if x < 0 {
            0
        } else {
            x
        }
    } else {
        d.src.len() as int
    }
}

/// The first break among the children of a node, from the child `k` on, which
/// has to begin at `at`.
pub open spec fn gap_from(d: Dom, i: int, k: int, at: int) -> Option<Gap>
    decreases d.kids(i).len() - k,
{
    if !(0 <= k < d.kids(i).len()) {
        if at == inner_end(d, i) {
            None
        } else {
            Some(Gap { parent: i, child: None, expected: inner_end(d, i), found: at })
        }
    } else {
        let c = d.kids(i)[k];
        let s = d.nodes[c].span;
        if s.start != at {
            Some(Gap { parent: i, child: Some(c), expected: at, found: s.start as int })
        } else {
            gap_from(d, i, k + 1, s.end as int)
        }
    }
}

/// The first break among the children of a node.
pub open spec fn gap_in(d: Dom, i: int) -> Option<Gap> {
    if d.kids(i).len() == 0 {
        None
    } else {
        gap_from(d, i, 0, inner_start(d, i))
    }
}

/// The first break among the nodes, from `i` on.
pub open spec fn first_gap(d: Dom, i: int) -> Option<Gap>
    decreases d.nodes.len() - i,
{
    if !(0 <= i < d.nodes.len()) {
        None
    } else {
        match gap_in(d, i) {
            Some(g) => Some(g),
            None => first_gap(d, i + 1),
        }
    }
}

pub open spec fn gap_of(r: Result<(), CoverageBreak>) -> Option<Gap> {
    match r {
        Ok(_) => None,
        Err(b) => Some(b@),
    }
}

impl Document {
    /// Checks that the children of every node lie side by side. Nodes of a
    /// changed document need not.
    pub fn check_coverage(&self) -> (r: Result<(), CoverageBreak>)
        requires
            self.wf(),
        ensures
            gap_of(r) == if self@.dirty {
                None
            } else {
                first_gap(self@, 0)
            },
    {
        if self.dirty {
            return Ok(());
        }
        let n: usize = self.nodes.len();
        let mut i: usize = 0;
        while i < n
            invariant
                self.wf(),
                !self@.dirty,
                n == self@.nodes.len(),
                i <= n,
                first_gap(self@, 0) == first_gap(self@, i as int),
            decreases n - i,
        {
            if let Err(b) = self.check_children(i) {
                return Err(b);
            }
            i = i + 1;
        }
        Ok(())
    }

    /// Checks that the children of a node lie side by side.
    fn check_children(&self, i: usize) -> (r: Result<(), CoverageBreak>)
        requires
            self.wf(),
            i < self@.nodes.len(),
        ensures
            gap_of(r) == gap_in(self@, i as int),
    {
        let ghost d = self@;
        let id: NodeId = NodeId::from_index(i).unwrap();
        let n: Node = self.nodes[i];
        proof {
            assert(arena::ends_ok(self.nodes@, self.links@, i as int));
            assert(model::node_ok(d, i as int));
        }
        if n.first_child.is_none() {
            return Ok(());
        }
        let lo: u32;
        let hi: u32;
        if n.kind == NodeKind::Element {
            let e: ElementData = self.elements[n.aux as usize];
            lo = e.open_end(n.flags.has(4));
            hi = e.close_start();
        } else {
            lo = if self.bom {
                3
            } else {
                0
            };
            hi = self.src.len() as u32;
        }
        let mut at: u32 = lo;
        let mut cur: Option<NodeId> = n.first_child;
        let ghost mut k: int = 0;
        loop
            invariant
                self.wf(),
                d == self@,
                i < d.nodes.len(),
                id.num() == i,
                hi == inner_end(d, i as int),
                d.kids(i as int).len() > 0,
                0 <= k <= d.kids(i as int).len(),
                arena::num_of(cur) == arena::item(d.kids(i as int), k),
                gap_in(d, i as int) == gap_from(d, i as int, k, at as int),
            ensures
                gap_in(d, i as int) == if at == hi {
                    None
                } else {
                    Some(
                        Gap {
                            parent: i as int,
                            child: None,
                            expected: hi as int,
                            found: at as int,
                        },
                    )
                },
            decreases d.kids(i as int).len() - k,
        {
            let c: NodeId = match cur {
                Some(c) => c,
                None => break,
            };
            proof {
                assert(arena::kid_at(d.links, i as int, k));
                assert(arena::sides_ok(self.nodes@, self.links@, i as int, k));
            }
            let m: Node = self.nodes[c.index()];
            if m.span.start != at {
                return Err(
                    CoverageBreak {
                        parent: id,
                        child: Some(c),
                        expected: at,
                        found: m.span.start,
                    },
                );
            }
            at = m.span.end;
            cur = m.next;
            proof {
                k = k + 1;
            }
        }
        if at != hi {
            return Err(CoverageBreak { parent: id, child: None, expected: hi, found: at });
        }
        Ok(())
    }
}

/// Where the next child of a node has to begin, after `k` children.
pub open spec fn seam(d: Dom, i: int, k: int) -> int {
    if k == 0 {
        inner_start(d, i)
    } else {
        d.nodes[d.kids(i)[k - 1]].span.end as int
    }
}

/// A child begins where the one before it ends.
pub open spec fn begins_well(d: Dom, i: int, k: int) -> bool {
    d.nodes[d.kids(i)[k]].span.start == seam(d, i, k)
}

/// The last child of a node ends where it has to.
pub open spec fn ends_well(d: Dom, i: int) -> bool {
    d.kids(i).len() > 0 ==> seam(d, i, d.kids(i).len() as int) == inner_end(d, i)
}

/// What is open is the last child of what was open before it.
pub open spec fn nested(d: Dom, stack: Seq<int>, j: int) -> bool {
    d.kids(stack[j]).len() > 0 && d.kids(stack[j]).last() == stack[j + 1] && stack[j] < stack[j
        + 1]
}

/// The tree takes every byte up to `p` once, with some elements open.
pub open spec fn tiled(d: Dom, stack: Seq<int>, p: int) -> bool {
    &&& stack.len() > 0
    &&& forall|i: int, k: int|
        0 <= i < d.nodes.len() && 0 <= k < d.kids(i).len() ==> #[trigger] begins_well(d, i, k)
    &&& forall|i: int|
        0 <= i < d.nodes.len() && !stack.contains(i) ==> #[trigger] ends_well(d, i)
    &&& forall|j: int| 0 <= j < stack.len() - 1 ==> #[trigger] nested(d, stack, j)
    &&& seam(d, stack.last(), d.kids(stack.last()).len() as int) == p
    &&& forall|j: int| 0 <= j < stack.len() ==> d.nodes[#[trigger] stack[j]].span.start <= p
}

/// No break is where every child begins and the last one ends as it has to.
proof fn lemma_no_gap(d: Dom, i: int, k: int)
    requires
        0 <= i < d.nodes.len(),
        0 <= k <= d.kids(i).len(),
        d.kids(i).len() > 0,
        forall|j: int| 0 <= j < d.kids(i).len() ==> #[trigger] begins_well(d, i, j),
        ends_well(d, i),
    ensures
        gap_from(d, i, k, seam(d, i, k)) is None,
    decreases d.kids(i).len() - k,
{
    if k < d.kids(i).len() {
        assert(begins_well(d, i, k));
        lemma_no_gap(d, i, k + 1);
    }
}

proof fn lemma_no_gaps(d: Dom, i: int)
    requires
        0 <= i <= d.nodes.len(),
        forall|x: int, k: int|
            0 <= x < d.nodes.len() && 0 <= k < d.kids(x).len() ==> #[trigger] begins_well(d, x, k),
        forall|x: int| 0 <= x < d.nodes.len() ==> #[trigger] ends_well(d, x),
    ensures
        first_gap(d, i) is None,
    decreases d.nodes.len() - i,
{
    if i < d.nodes.len() {
        assert(ends_well(d, i));
        if d.kids(i).len() > 0 {
            lemma_no_gap(d, i, 0);
        }
        lemma_no_gaps(d, i + 1);
    }
}

/// What is open lies deeper and deeper.
pub proof fn lemma_nested_order(d: Dom, stack: Seq<int>, a: int, b: int)
    requires
        forall|j: int| 0 <= j < stack.len() - 1 ==> #[trigger] nested(d, stack, j),
        0 <= a < b < stack.len(),
    ensures
        stack[a] < stack[b],
    decreases b - a,
{
    assert(nested(d, stack, a));
    if a + 1 < b {
        lemma_nested_order(d, stack, a + 1, b);
    }
}

/// One more node where the last one ends.
proof fn lemma_hung_tiled(d: Dom, e: Dom, stack: Seq<int>, p: int, q: int, keep: bool)
    requires
        tiled(d, stack, p),
        arena::forest(d.links),
        d.links.up.len() == d.nodes.len(),
        forall|j: int| 0 <= j < stack.len() ==> 0 <= #[trigger] stack[j] < d.nodes.len(),
        e.src == d.src,
        e.bom == d.bom,
        ({
            let n = d.nodes.len() as int;
            let t = stack.last();
            &&& e.nodes.len() == n + 1
            &&& forall|i: int| 0 <= i < n ==> e.nodes[i] == d.nodes[i]
            &&& forall|i: int|
                0 <= i < n && (#[trigger] d.nodes[i]).kind is Element ==> e.elem(i) == d.elem(i)
            &&& e.links.kids.len() == n + 1
            &&& e.kids(t) == d.kids(t).push(n)
            &&& e.kids(n).len() == 0
            &&& forall|i: int| 0 <= i < n && i != t ==> e.kids(i) == d.kids(i)
            &&& e.nodes[n].span.start == p
            &&& p <= q
            &&& keep ==> inner_start(e, n) == q
            &&& !keep ==> e.nodes[n].span.end == q
        }),
    ensures
        tiled(
            e,
            if keep {
                stack.push(d.nodes.len() as int)
            } else {
                stack
            },
            q,
        ),
{
    let n = d.nodes.len() as int;
    let t = stack.last();
    let more = if keep {
        stack.push(n)
    } else {
        stack
    };
    assert(stack[stack.len() - 1] == t);
    assert(e.nodes[t] == d.nodes[t]);
    assert forall|i: int| 0 <= i < n implies inner_start(e, i) == inner_start(d, i) && inner_end(
        e,
        i,
    ) == inner_end(d, i) by {
        assert(e.nodes[i] == d.nodes[i]);
    }
    assert forall|i: int, k: int|
        0 <= i < e.nodes.len() && 0 <= k < e.kids(i).len() implies #[trigger] begins_well(
        e,
        i,
        k,
    ) by {
        if i < n {
            if k < d.kids(i).len() {
                assert(begins_well(d, i, k));
                assert(arena::kid_at(d.links, i, k));
                assert(e.kids(i)[k] == d.kids(i)[k]);
                if k > 0 {
                    assert(arena::kid_at(d.links, i, k - 1));
                    assert(e.kids(i)[k - 1] == d.kids(i)[k - 1]);
                }
            } else {
                assert(i == t && k == d.kids(t).len());
                if k > 0 {
                    assert(arena::kid_at(d.links, t, k - 1));
                    assert(e.kids(t)[k - 1] == d.kids(t)[k - 1]);
                }
            }
        }
    }
    assert forall|i: int| 0 <= i < e.nodes.len() && !more.contains(i) implies #[trigger] ends_well(
        e,
        i,
    ) by {
        if i < n {
            if stack.contains(i) {
                let j = stack.index_of(i);
                assert(more[j] == i);
            }
            assert(i != t);
            assert(ends_well(d, i));
            if d.kids(i).len() > 0 {
                assert(arena::kid_at(d.links, i, d.kids(i).len() - 1));
            }
        }
    }
    assert forall|j: int| 0 <= j < more.len() - 1 implies #[trigger] nested(e, more, j) by {
        if j < stack.len() - 1 {
            assert(nested(d, stack, j));
            lemma_nested_order(d, stack, j, stack.len() - 1);
            assert(0 <= stack[j] < n);
        } else {
            assert(more[j] == t);
        }
    }
    if !keep {
        assert(e.kids(t)[e.kids(t).len() - 1] == n);
    }
    assert forall|j: int| 0 <= j < more.len() implies e.nodes[#[trigger] more[j]].span.start
        <= q by {
        if j < stack.len() {
            assert(e.nodes[stack[j]] == d.nodes[stack[j]]);
        }
    }
}

/// The innermost element closes where its last child ends.
proof fn lemma_ended_tiled(d: Dom, e: Dom, stack: Seq<int>, p: int, q: int)
    requires
        tiled(d, stack, p),
        stack.len() > 1,
        arena::forest(d.links),
        d.links.up.len() == d.nodes.len(),
        forall|j: int| 0 <= j < stack.len() ==> 0 <= #[trigger] stack[j] < d.nodes.len(),
        e.src == d.src,
        e.bom == d.bom,
        e.links == d.links,
        ({
            let t = stack.last();
            let s = d.nodes[t].span;
            &&& e.nodes == d.nodes.update(
                t,
                Core { span: Span { start: s.start, end: q as u32 }, ..d.nodes[t] },
            )
            &&& d.nodes[t].kind is Element
            &&& 0 <= p <= q <= u32::MAX
            &&& e.elem(t).pre_close_ws == d.elem(t).pre_close_ws
            &&& e.elem(t).closed_at() == p
            &&& forall|i: int|
                0 <= i < d.nodes.len() && i != t && (#[trigger] d.nodes[i]).kind is Element
                    ==> e.elem(i) == d.elem(i)
        }),
    ensures
        tiled(e, stack.drop_last(), q),
{
    let t = stack.last();
    let less = stack.drop_last();
    let z = stack.len() - 1;
    assert(stack[z] == t);
    let u = stack[z - 1];
    assert(less.last() == u);
    assert(nested(d, stack, z - 1));
    assert(d.kids(u).last() == t);
    let last = d.kids(u).len() - 1;
    assert(arena::kid_at(d.links, u, last));
    assert(arena::distinct(d.links, u));
    assert forall|i: int| 0 <= i < d.nodes.len() implies inner_start(e, i) == inner_start(d, i)
        && (i != t ==> inner_end(e, i) == inner_end(d, i)) by {
        if i != t {
            assert(e.nodes[i] == d.nodes[i]);
        }
    }
    // Only the last child of `u` is longer than before.
    assert forall|i: int, k: int|
        0 <= i < d.nodes.len() && 0 <= k < d.kids(i).len() && !(i == u && k == last) implies d.kids(
        i,
    )[k] != t by {
        assert(arena::kid_at(d.links, i, k));
    }
    assert forall|i: int, k: int|
        0 <= i < e.nodes.len() && 0 <= k < e.kids(i).len() implies #[trigger] begins_well(
        e,
        i,
        k,
    ) by {
        assert(begins_well(d, i, k));
        assert(arena::kid_at(d.links, i, k));
        if k > 0 {
            assert(d.kids(i)[k - 1] != t);
            assert(arena::kid_at(d.links, i, k - 1));
        }
    }
    assert forall|i: int| 0 <= i < e.nodes.len() && !less.contains(i) implies #[trigger] ends_well(
        e,
        i,
    ) by {
        if d.kids(i).len() > 0 {
            let w = d.kids(i).len() - 1;
            assert(arena::kid_at(d.links, i, w));
            assert(less[z - 1] == u);
            assert(i != u);
            assert(d.kids(i)[w] != t);
            if i != t {
                if stack.contains(i) {
                    let j = stack.index_of(i);
                    assert(less[j] == i);
                }
                assert(ends_well(d, i));
            }
        }
    }
    assert forall|j: int| 0 <= j < less.len() - 1 implies #[trigger] nested(e, less, j) by {
        assert(nested(d, stack, j));
    }
    assert forall|j: int| 0 <= j < less.len() implies e.nodes[#[trigger] less[j]].span.start
        <= q by {
        assert(less[j] == stack[j]);
        lemma_nested_order(d, stack, j, z);
    }
}

/// The first event of a part finds nothing before it.
pub proof fn lemma_seed_tiled(src: Seq<u8>, limits: Limits)
    ensures
        tiled(
            parse::dom_of(src, parse::seed(src), limits),
            parse::seed(src).stack,
            reader::body_start(src),
        ),
{
}

/// An event of a part that stands at `p` takes the bytes from there.
pub proof fn lemma_stepped_tiled(
    src: Seq<u8>,
    g: parse::Grow,
    i: reader::Item,
    p: int,
    q: int,
    limits: Limits,
)
    requires
        src.len() <= u32::MAX,
        parse::grow_ok(src, g, limits),
        tiled(parse::dom_of(src, g, limits), g.stack, p),
        laws::part_fits(src, i.part, p, q),
        parse::stepped(src, g, i, limits) is Ok,
    ensures
        ({
            let h = parse::stepped(src, g, i, limits)->Ok_0;
            tiled(parse::dom_of(src, h, limits), h.stack, q)
        }),
{
    let h = parse::stepped(src, g, i, limits)->Ok_0;
    let d = parse::dom_of(src, g, limits);
    let e = parse::dom_of(src, h, limits);
    let n = d.nodes.len() as int;
    parse::lemma_hung_links(g);
    arena::lemma_mark_bits();
    match i.part {
        lexer::Part::End(t) => {
            let x = g.stack[g.stack.len() - 1];
            assert(g.nodes[x].kind is Element);
            assert(model::node_ok(d, x));
            let w = g.stack.len() - 2;
            assert(nested(d, g.stack, w));
            let u = g.stack[w];
            let last = d.kids(u).len() - 1;
            assert(begins_well(d, u, last));
            assert forall|k: int|
                0 <= k < d.nodes.len() && k != x && (#[trigger] d.nodes[k]).kind is Element implies e.elem(
            k) == d.elem(k) by {
                assert(model::apart(d, k, x));
                assert(model::node_ok(d, k));
                assert(e.nodes[k] == d.nodes[k]);
            }
            assert(e.elem(x).closed_at() == p);
            lemma_ended_tiled(d, e, g.stack, p, q);
        },
        lexer::Part::Start(t) => {
            assert forall|k: int|
                0 <= k < n && (#[trigger] d.nodes[k]).kind is Element implies e.elem(k) == d.elem(
                k,
            ) by {
                assert(model::node_ok(d, k));
            }
            lemma_hung_tiled(d, e, g.stack, p, q, !t.empty);
        },
        _ => {
            lemma_hung_tiled(d, e, g.stack, p, q, false);
        },
    }
}

/// The tree of the events from `p` on takes every byte from there once.
proof fn lemma_grown_tiled(
    src: Seq<u8>,
    p: int,
    at: reader::Progress,
    g: parse::Grow,
    limits: Limits,
)
    requires
        reader::body_start(src) <= p <= src.len() <= u32::MAX,
        parse::grow_ok(src, g, limits),
        tiled(parse::dom_of(src, g, limits), g.stack, p),
        g.stack.len() == at.frames.len() + 1,
        reader::read(src, p, reader::body_start(src), at, limits).1 is None,
        parse::grown(
            src,
            g,
            reader::read(src, p, reader::body_start(src), at, limits).0,
            limits,
        ) is Ok,
    ensures
        ({
            let h = parse::grown(
                src,
                g,
                reader::read(src, p, reader::body_start(src), at, limits).0,
                limits,
            )->Ok_0;
            &&& tiled(parse::dom_of(src, h, limits), h.stack, src.len() as int)
            &&& parse::grow_ok(src, h, limits)
            &&& h.stack.len() == 1
        }),
    decreases src.len() - p,
{
    let from = reader::body_start(src);
    if p < src.len() {
        laws::lemma_piece_fits(src, p, p == from, limits);
        if let Ok((part, e)) = lexer::piece_at(src, p, p == from, limits) {
            if let Ok((ns, next)) = reader::admitted(src, part, at, limits) {
                let item = reader::Item { part, ns };
                let rest = reader::read(src, e, from, next, limits).0;
                let all = reader::read(src, p, from, at, limits).0;
                assert(all == seq![item] + rest);
                assert(all[0] == item);
                assert(all.skip(1) =~= rest);
                assert(parse::stepped(src, g, item, limits) is Ok);
                let h = parse::stepped(src, g, item, limits)->Ok_0;
                parse::lemma_stepped(src, g, item, limits);
                lemma_stepped_tiled(src, g, item, p, e, limits);
                lemma_grown_tiled(src, e, next, h, limits);
            }
        }
    }
}

/// The nodes of a part that was read take every byte of it once.
pub proof fn lemma_parsed_covered(src: Seq<u8>, limits: Limits)
    ensures
        match parse::parsed(src, limits) {
            Ok(d) => !d.dirty && first_gap(d, 0) is None,
            Err(_) => true,
        },
{
    if let Ok(d) = parse::parsed(src, limits) {
        let g = parse::seed(src);
        let at = reader::Progress { frames: Seq::empty(), rooted: false };
        parse::lemma_seed(src, limits);
        lemma_seed_tiled(src, limits);
        lemma_grown_tiled(src, reader::body_start(src), at, g, limits);
        let h = parse::grown(src, g, reader::events(src, limits).0, limits)->Ok_0;
        assert(h.stack[0] == 0);
        assert forall|x: int| 0 <= x < d.nodes.len() implies #[trigger] ends_well(d, x) by {
            if x != 0 {
                assert(!h.stack.contains(x));
            }
        }
        lemma_no_gaps(d, 0);
    }
}

} // verus!
