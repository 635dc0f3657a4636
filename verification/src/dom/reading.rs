//! A part that was read is a tree of what stands in it.
use vstd::prelude::*;

use crate::dom::ancestry;
use crate::dom::arena;
use crate::dom::copy;
use crate::dom::coverage;
use crate::dom::locality;
use crate::dom::model;
use crate::dom::model::Dom;
use crate::dom::parse;
use crate::dom::serialize;
use crate::dom::sited;
use crate::limits::Limits;
use crate::xml::laws;
use crate::xml::lexer;
use crate::xml::lexer::RawAttr;
use crate::xml::reader;

verus! {

/// A node of a tree that is being built is what stands in the source, up to
/// the closing tag when it is open.
pub open spec fn grown_at(d: Dom, open: bool, i: int) -> bool {
    let c = d.nodes[i];
    &&& !model::in_arena(c)
    &&& !c.flags.changed()
    &&& sited::hollow(d, i)
    &&& c.kind is Document <==> i == 0
    &&& c.kind is Document ==> c.span.start == 0 && c.span.end == d.src.len()
    &&& c.kind is Element ==> {
        &&& sited::opening_sits(d, i)
        &&& model::is_empty_tag(c) ==> !open && d.elem(i).opened_at(true) == c.span.end && d.elem(
            i,
        ).close_trailing_ws.start == d.elem(i).close_trailing_ws.end
        &&& !open && !model::is_empty_tag(c) ==> sited::closing_sits(d, i) && coverage::seam(
            d,
            i,
            d.kids(i).len() as int,
        ) == coverage::inner_end(d, i)
    }
}

pub open spec fn growing(d: Dom, stack: Seq<int>) -> bool {
    forall|i: int| d.has_node(i) ==> #[trigger] grown_at(d, stack.contains(i), i)
}

/// A node that an event leaves alone stays what it is.
proof fn lemma_grown_kept(d: Dom, e: Dom, open: bool, i: int)
    requires
        grown_at(d, open, i),
        e.src == d.src,
        e.nodes[i] == d.nodes[i],
        d.nodes[i].kind is Element ==> e.elem(i) == d.elem(i) && e.attrs_of(i) == d.attrs_of(i),
        !open ==> e.kids(i) == d.kids(i),
        !open && d.nodes[i].kind is Element && !model::is_empty_tag(d.nodes[i]) ==> coverage::seam(
            e,
            i,
            e.kids(i).len() as int,
        ) == coverage::seam(d, i, d.kids(i).len() as int),
    ensures
        grown_at(e, open, i),
{
}

/// The attributes of a tag are what stands in the source.
proof fn lemma_attrs_made_sit(src: Seq<u8>, list: Seq<RawAttr>, lo: int, hi: int)
    requires
        laws::attrs_fit(src, list, lo, hi),
    ensures
        sited::attrs_sit(src, parse::attrs_made(list), lo, hi),
    decreases list.len(),
{
    if list.len() > 0 {
        let s = parse::attrs_made(list);
        lemma_attrs_made_sit(src, list.drop_last(), lo, list.last().pre_ws.start as int);
        assert(s.drop_last() =~= parse::attrs_made(list.drop_last()));
        assert(s.last() == parse::attr_of(list.last()));
    }
}

/// An event adds what stands in the source.
pub proof fn lemma_stepped_growing(
    src: Seq<u8>,
    g: parse::Grow,
    i: reader::Item,
    p: int,
    q: int,
    limits: Limits,
)
    requires
        src.len() <= u32::MAX,
        parse::grow_ok(src, g, limits),
        coverage::tiled(parse::dom_of(src, g, limits), g.stack, p),
        growing(parse::dom_of(src, g, limits), g.stack),
        laws::part_fits(src, i.part, p, q),
        parse::stepped(src, g, i, limits) is Ok,
    ensures
        ({
            let h = parse::stepped(src, g, i, limits)->Ok_0;
            growing(parse::dom_of(src, h, limits), h.stack)
        }),
{
    match i.part {
        lexer::Part::End(t) => lemma_ended_growing(src, g, i, p, q, limits),
        lexer::Part::Start(t) => lemma_started_growing(src, g, i, p, q, limits),
        _ => lemma_leaf_growing(src, g, i, p, q, limits),
    }
}

proof fn lemma_leaf_growing(
    src: Seq<u8>,
    g: parse::Grow,
    i: reader::Item,
    p: int,
    q: int,
    limits: Limits,
)
    requires
        src.len() <= u32::MAX,
        parse::grow_ok(src, g, limits),
        growing(parse::dom_of(src, g, limits), g.stack),
        laws::part_fits(src, i.part, p, q),
        parse::stepped(src, g, i, limits) is Ok,
        !(i.part is Start),
        !(i.part is End),
    ensures
        ({
            let h = parse::stepped(src, g, i, limits)->Ok_0;
            growing(parse::dom_of(src, h, limits), h.stack)
        }),
{
    let h = parse::stepped(src, g, i, limits)->Ok_0;
    let d = parse::dom_of(src, g, limits);
    let e = parse::dom_of(src, h, limits);
    let n = d.nodes.len() as int;
    parse::lemma_hung_links(g);
    arena::lemma_mark_bits();
    let x = g.stack[g.stack.len() - 1];
    assert forall|k: int| e.has_node(k) implies #[trigger] grown_at(e, h.stack.contains(k), k) by {
        if k < n {
            assert(grown_at(d, g.stack.contains(k), k));
            if !g.stack.contains(k) {
                assert(k != x);
                if d.kids(k).len() > 0 {
                    assert(arena::kid_at(d.links, k, d.kids(k).len() - 1));
                }
            }
            lemma_grown_kept(d, e, g.stack.contains(k), k);
        } else {
            assert(n > 0);
        }
    }
}

proof fn lemma_started_growing(
    src: Seq<u8>,
    g: parse::Grow,
    i: reader::Item,
    p: int,
    q: int,
    limits: Limits,
)
    requires
        src.len() <= u32::MAX,
        parse::grow_ok(src, g, limits),
        growing(parse::dom_of(src, g, limits), g.stack),
        laws::part_fits(src, i.part, p, q),
        parse::stepped(src, g, i, limits) is Ok,
        i.part is Start,
    ensures
        ({
            let h = parse::stepped(src, g, i, limits)->Ok_0;
            growing(parse::dom_of(src, h, limits), h.stack)
        }),
{
    let h = parse::stepped(src, g, i, limits)->Ok_0;
    let d = parse::dom_of(src, g, limits);
    let e = parse::dom_of(src, h, limits);
    let n = d.nodes.len() as int;
    let t = i.part->Start_0;
    parse::lemma_hung_links(g);
    arena::lemma_mark_bits();
    let x = g.stack[g.stack.len() - 1];
    assert forall|k: int| e.has_node(k) implies #[trigger] grown_at(e, h.stack.contains(k), k) by {
        if k < n {
            assert(grown_at(d, g.stack.contains(k), k));
            assert(model::node_ok(d, k));
            if h.stack.contains(k) && !g.stack.contains(k) {
                let j = h.stack.index_of(k);
                assert(j < g.stack.len() ==> g.stack[j] == k);
            }
            if g.stack.contains(k) {
                let j = g.stack.index_of(k);
                assert(h.stack[j] == k);
            } else {
                assert(k != x);
                if d.kids(k).len() > 0 {
                    assert(arena::kid_at(d.links, k, d.kids(k).len() - 1));
                }
            }
            if d.nodes[k].kind is Element {
                assert(e.attrs_of(k) =~= d.attrs_of(k));
            }
            lemma_grown_kept(d, e, g.stack.contains(k), k);
        } else {
            lemma_attrs_made_sit(src, t.attrs, t.name.end as int, t.pre_close_ws.start as int);
            assert(e.attrs_of(n) =~= parse::attrs_made(t.attrs));
            if h.stack.contains(n) {
                let j = h.stack.index_of(n);
                if t.empty {
                    assert(0 <= g.stack[j] < n);
                }
            }
            if !t.empty {
                assert(h.stack[h.stack.len() - 1] == n);
            }
            assert(n > 0);
        }
    }
}

/// Children lie behind the opening tag.
proof fn lemma_seams(d: Dom, i: int, k: int)
    requires
        model::wf(d),
        d.has_node(i),
        0 <= k <= d.kids(i).len(),
        forall|j: int| 0 <= j < d.kids(i).len() ==> #[trigger] coverage::begins_well(d, i, j),
    ensures
        coverage::inner_start(d, i) <= coverage::seam(d, i, k),
    decreases k,
{
    if k > 0 {
        lemma_seams(d, i, k - 1);
        assert(coverage::begins_well(d, i, k - 1));
        assert(arena::kid_at(d.links, i, k - 1));
        assert(model::node_ok(d, d.kids(i)[k - 1]));
    }
}

proof fn lemma_ended_growing(
    src: Seq<u8>,
    g: parse::Grow,
    i: reader::Item,
    p: int,
    q: int,
    limits: Limits,
)
    requires
        src.len() <= u32::MAX,
        parse::grow_ok(src, g, limits),
        coverage::tiled(parse::dom_of(src, g, limits), g.stack, p),
        growing(parse::dom_of(src, g, limits), g.stack),
        laws::part_fits(src, i.part, p, q),
        parse::stepped(src, g, i, limits) is Ok,
        i.part is End,
    ensures
        ({
            let h = parse::stepped(src, g, i, limits)->Ok_0;
            growing(parse::dom_of(src, h, limits), h.stack)
        }),
{
    let h = parse::stepped(src, g, i, limits)->Ok_0;
    let d = parse::dom_of(src, g, limits);
    let e = parse::dom_of(src, h, limits);
    let t = i.part->End_0;
    let z = g.stack.len() - 1;
    let x = g.stack[z];
    let u = g.stack[z - 1];
    assert(g.nodes[x].kind is Element);
    assert(model::node_ok(d, x));
    assert(coverage::nested(d, g.stack, z - 1));
    assert(arena::kid_at(d.links, u, d.kids(u).len() - 1));
    assert(d.up(x) == Some(u));
    assert(h.stack[z - 1] == u);
    assert forall|k: int| e.has_node(k) implies #[trigger] grown_at(e, h.stack.contains(k), k) by {
        assert(grown_at(d, g.stack.contains(k), k));
        if k == x {
            assert(g.stack.contains(x));
            if h.stack.contains(x) {
                let j = h.stack.index_of(x);
                coverage::lemma_nested_order(d, g.stack, j, z);
            }
            assert(e.attrs_of(x) =~= d.attrs_of(x));
            if d.kids(x).len() > 0 {
                let y = d.kids(x)[d.kids(x).len() - 1];
                assert(arena::kid_at(d.links, x, d.kids(x).len() - 1));
                assert(y != x);
            }
            assert(coverage::seam(e, x, e.kids(x).len() as int) == p);
            assert forall|j: int| 0 <= j < d.kids(x).len() implies #[trigger] coverage::begins_well(
                d,
                x,
                j,
            ) by {}
            lemma_seams(d, x, d.kids(x).len() as int);
            assert(e.elem(x).closed_at() == p);
            assert(sited::opening_sits(e, x));
            assert(sited::closing_sits(e, x));
        } else {
            if g.stack.contains(k) {
                let j = g.stack.index_of(k);
                assert(h.stack[j] == k);
            } else {
                if h.stack.contains(k) {
                    let j = h.stack.index_of(k);
                    assert(g.stack[j] == k);
                }
                assert(k != u);
                if d.kids(k).len() > 0 {
                    let y = d.kids(k)[d.kids(k).len() - 1];
                    assert(arena::kid_at(d.links, k, d.kids(k).len() - 1));
                    assert(y != x);
                }
            }
            if d.nodes[k].kind is Element {
                assert(model::node_ok(d, k));
                assert(model::apart(d, k, x));
                assert(e.nodes[k] == d.nodes[k]);
                assert(e.attrs_of(k) =~= d.attrs_of(k));
            }
            lemma_grown_kept(d, e, g.stack.contains(k), k);
        }
    }
}

/// No node lies too deep to be written.
pub open spec fn shallow(d: Dom) -> bool {
    forall|i: int| d.has_node(i) ==> #[trigger] locality::depth_of(d, i) <= serialize::deepest(d)
}

/// A child of any node would not lie too deep to be written.
pub open spec fn roomy(d: Dom) -> bool {
    forall|i: int| d.has_node(i) ==> #[trigger] locality::depth_of(d, i) < serialize::deepest(d)
}

/// What is open lies one deeper each, and nothing lies deeper than the quota and
/// one more.
pub open spec fn stepwise(d: Dom, stack: Seq<int>) -> bool {
    &&& forall|j: int|
        0 <= j < stack.len() ==> locality::depth_of(d, #[trigger] stack[j]) == j
    &&& forall|i: int|
        d.has_node(i) ==> #[trigger] locality::depth_of(d, i) <= d.limits.max_xml_depth + 1
    &&& forall|i: int| d.has_node(i) && i != 0 ==> (#[trigger] d.links.up[i]) is Some
}

/// Every node hangs in the tree.
pub open spec fn whole(d: Dom) -> bool {
    forall|i: int| d.has_node(i) ==> #[trigger] ancestry::below(d.links.up, i, d.root)
}

/// When every node but one has a parent, all are below that one.
proof fn lemma_whole(d: Dom, i: int)
    requires
        model::wf(d),
        forall|k: int| d.has_node(k) && k != d.root ==> (#[trigger] d.links.up[k]) is Some,
        d.has_node(i),
    ensures
        ancestry::below(d.links.up, i, d.root),
    decreases ancestry::rank_of(d.links.up)[i],
{
    ancestry::lemma_below(d.links.up, i, d.root);
    ancestry::lemma_lineage(d.links.up, i);
    if i != d.root {
        assert(d.links.up[i] is Some);
        lemma_whole(d, d.links.up[i]->0);
    }
}

/// The ways up are the same where the parents are.
proof fn lemma_same_ways(up: Seq<Option<int>>, more: Seq<Option<int>>, i: int)
    requires
        ancestry::acyclic(up),
        ancestry::acyclic(more),
        up.len() <= more.len(),
        forall|k: int| 0 <= k < up.len() ==> more[k] == #[trigger] up[k],
        0 <= i < up.len(),
    ensures
        ancestry::lineage(more, i) == ancestry::lineage(up, i),
    decreases ancestry::rank_of(up)[i],
{
    ancestry::lemma_lineage(up, i);
    ancestry::lemma_lineage(more, i);
    assert(more[i] == up[i]);
    if let Some(p) = up[i] {
        lemma_same_ways(up, more, p);
    }
}

/// An event hangs what it adds one deeper than what is open.
proof fn lemma_stepped_stepwise(
    src: Seq<u8>,
    g: parse::Grow,
    i: reader::Item,
    at: reader::Progress,
    limits: Limits,
)
    requires
        parse::grow_ok(src, g, limits),
        stepwise(parse::dom_of(src, g, limits), g.stack),
        g.stack.len() == at.frames.len() + 1,
        at.frames.len() <= limits.max_xml_depth,
        reader::admitted(src, i.part, at, limits) is Ok,
        parse::stepped(src, g, i, limits) is Ok,
    ensures
        ({
            let h = parse::stepped(src, g, i, limits)->Ok_0;
            let next = reader::admitted(src, i.part, at, limits)->Ok_0.1;
            &&& stepwise(parse::dom_of(src, h, limits), h.stack)
            &&& h.stack.len() == next.frames.len() + 1
            &&& next.frames.len() <= limits.max_xml_depth
        }),
{
    let h = parse::stepped(src, g, i, limits)->Ok_0;
    let d = parse::dom_of(src, g, limits);
    let e = parse::dom_of(src, h, limits);
    let n = d.nodes.len() as int;
    let x = g.stack[g.stack.len() - 1];
    parse::lemma_hung_links(g);
    if !(i.part is End) {
        assert forall|k: int| 0 <= k < n implies ancestry::lineage(e.links.up, k)
            == ancestry::lineage(d.links.up, k) by {
            lemma_same_ways(d.links.up, e.links.up, k);
        }
        ancestry::lemma_lineage(e.links.up, n);
        assert(e.up(n) == Some(x));
        assert forall|k: int| e.has_node(k) && k != 0 implies (#[trigger] e.links.up[k]) is Some by {
            if k < n {
                assert(d.links.up[k] is Some);
            }
        }
        assert(locality::depth_of(d, x) == g.stack.len() - 1);
        ancestry::lemma_lineage(e.links.up, x);
        assert(locality::depth_of(e, n) == g.stack.len());
        assert forall|k: int| e.has_node(k) implies #[trigger] locality::depth_of(e, k)
            <= limits.max_xml_depth + 1 by {
            if k < n {
                assert(locality::depth_of(d, k) <= limits.max_xml_depth + 1);
            }
        }
        assert forall|j: int| 0 <= j < h.stack.len() implies locality::depth_of(
            e,
            #[trigger] h.stack[j],
        ) == j by {
            if j < g.stack.len() {
                assert(h.stack[j] == g.stack[j]);
            }
        }
    } else {
        assert forall|j: int| 0 <= j < h.stack.len() implies locality::depth_of(
            e,
            #[trigger] h.stack[j],
        ) == j by {
            assert(h.stack[j] == g.stack[j]);
        }
        assert forall|k: int| e.has_node(k) implies #[trigger] locality::depth_of(e, k)
            <= limits.max_xml_depth + 1 by {
            assert(locality::depth_of(d, k) <= limits.max_xml_depth + 1);
        }
    }
}

/// The tree of the events from `p` on is a tree of what stands in the source.
proof fn lemma_grown_growing(
    src: Seq<u8>,
    p: int,
    at: reader::Progress,
    g: parse::Grow,
    limits: Limits,
)
    requires
        reader::body_start(src) <= p <= src.len() <= u32::MAX,
        parse::grow_ok(src, g, limits),
        coverage::tiled(parse::dom_of(src, g, limits), g.stack, p),
        growing(parse::dom_of(src, g, limits), g.stack),
        stepwise(parse::dom_of(src, g, limits), g.stack),
        g.stack.len() == at.frames.len() + 1,
        at.frames.len() <= limits.max_xml_depth,
        reader::read(src, p, reader::body_start(src), at, limits).1 is None,
        parse::grown(
            src,
            g,
            reader::read(src, p, reader::body_start(src), at, limits).0,
            limits,
        ) is Ok,
    ensures
        ({
            let h = parse::grown(
                src,
                g,
                reader::read(src, p, reader::body_start(src), at, limits).0,
                limits,
            )->Ok_0;
            let d = parse::dom_of(src, h, limits);
            &&& coverage::tiled(d, h.stack, src.len() as int)
            &&& growing(d, h.stack)
            &&& stepwise(d, h.stack)
            &&& parse::grow_ok(src, h, limits)
            &&& h.stack.len() == 1
        }),
    decreases src.len() - p,
{
    let from = reader::body_start(src);
    if p < src.len() {
        laws::lemma_piece_fits(src, p, p == from, limits);
        if let Ok((part, e)) = lexer::piece_at(src, p, p == from, limits) {
            if let Ok((ns, next)) = reader::admitted(src, part, at, limits) {
                let item = reader::Item { part, ns };
                let rest = reader::read(src, e, from, next, limits).0;
                let all = reader::read(src, p, from, at, limits).0;
                assert(all == seq![item] + rest);
                assert(all[0] == item);
                assert(all.skip(1) =~= rest);
                assert(parse::stepped(src, g, item, limits) is Ok);
                let h = parse::stepped(src, g, item, limits)->Ok_0;
                parse::lemma_stepped(src, g, item, limits);
                coverage::lemma_stepped_tiled(src, g, item, p, e, limits);
                lemma_stepped_growing(src, g, item, p, e, limits);
                lemma_stepped_stepwise(src, g, item, at, limits);
                lemma_grown_growing(src, e, next, h, limits);
            }
        }
    }
}

/// The way up from a node is no longer than there are nodes.
proof fn lemma_way_short(d: Dom, i: int)
    requires
        model::wf(d),
        d.has_node(i),
    ensures
        locality::depth_of(d, i) < d.nodes.len(),
{
    ancestry::lemma_lineage(d.links.up, i);
    ancestry::lemma_lineage_distinct(d.links.up, i);
    copy::lemma_few(ancestry::lineage(d.links.up, i), d.nodes.len() as int);
}

/// A part that was read is a tree of what stands in it: the tags and the texts
/// of every node are those bytes of the part that its spans say, every node
/// hangs in the tree, and none lies so deep that a child of it could not be
/// written.
pub proof fn lemma_parsed_sited(src: Seq<u8>, limits: Limits)
    ensures
        match parse::parsed(src, limits) {
            Ok(d) => model::wf(d) && sited::sited(d) && roomy(d) && whole(d) && !d.dirty && d.src
                == src,
            Err(_) => true,
        },
{
    if let Ok(d) = parse::parsed(src, limits) {
        let g = parse::seed(src);
        let at = reader::Progress { frames: Seq::empty(), rooted: false };
        let d0 = parse::dom_of(src, g, limits);
        parse::lemma_seed(src, limits);
        coverage::lemma_seed_tiled(src, limits);
        arena::lemma_mark_bits();
        ancestry::lemma_lineage(d0.links.up, 0);
        assert(growing(d0, g.stack)) by {
            assert forall|i: int| d0.has_node(i) implies #[trigger] grown_at(
                d0,
                g.stack.contains(i),
                i,
            ) by {
                assert(i == 0);
            }
        }
        assert(stepwise(d0, g.stack));
        lemma_grown_growing(src, reader::body_start(src), at, g, limits);
        let h = parse::grown(src, g, reader::events(src, limits).0, limits)->Ok_0;
        assert(h.stack[0] == 0);
        assert forall|i: int| d.has_node(i) implies #[trigger] sited::sited_at(d, i) by {
            assert(grown_at(d, h.stack.contains(i), i));
            if i != 0 {
                assert(!h.stack.contains(i));
            }
            assert forall|k: int| 0 <= k < d.kids(i).len() implies #[trigger] coverage::begins_well(
                d,
                i,
                k,
            ) by {}
            if i == 0 && d.bom {
                assert(src.take(3) =~= lexer::BOM@);
            }
        }
        assert forall|i: int| d.has_node(i) implies #[trigger] locality::depth_of(d, i)
            < serialize::deepest(d) by {
            lemma_way_short(d, i);
            assert(locality::depth_of(d, i) <= limits.max_xml_depth + 1);
        }
        assert forall|i: int| d.has_node(i) implies #[trigger] ancestry::below(
            d.links.up,
            i,
            d.root,
        ) by {
            lemma_whole(d, i);
        }
    }
}

/// A tree whose nodes do not lie too deep can be written.
pub proof fn lemma_shallow_written(d: Dom, i: int)
    requires
        arena::forest(d.links),
        ancestry::acyclic(d.links.up),
        d.links.up.len() == d.nodes.len(),
        shallow(d),
        d.has_node(i),
    ensures
        serialize::written(d, i, locality::depth_of(d, i)) is Some,
    decreases serialize::deepest(d) + 1 - locality::depth_of(d, i), 0nat,
{
    let k = locality::depth_of(d, i);
    assert(k <= serialize::deepest(d));
    if d.nodes[i].flags.changed() && d.nodes[i].kind.holds_children() {
        assert forall|j: int| 0 <= j < d.kids(i).len() implies d.has_node(#[trigger] d.kids(i)[j])
            && locality::depth_of(d, d.kids(i)[j]) == k + 1 by {
            assert(arena::kid_at(d.links, i, j));
            ancestry::lemma_lineage(d.links.up, d.kids(i)[j]);
            ancestry::lemma_lineage(d.links.up, i);
        }
        lemma_shallow_all(d, d.kids(i), k + 1);
    }
}

proof fn lemma_shallow_all(d: Dom, s: Seq<int>, depth: nat)
    requires
        arena::forest(d.links),
        ancestry::acyclic(d.links.up),
        d.links.up.len() == d.nodes.len(),
        shallow(d),
        forall|j: int|
            0 <= j < s.len() ==> d.has_node(#[trigger] s[j]) && locality::depth_of(d, s[j])
                == depth,
    ensures
        serialize::written_all(d, s, depth) is Some,
    decreases serialize::deepest(d) + 1 - depth, s.len() + 1,
{
    if s.len() > 0 {
        let t = s.drop_last();
        assert forall|j: int| 0 <= j < t.len() implies d.has_node(#[trigger] t[j])
            && locality::depth_of(d, t[j]) == depth by {
            assert(t[j] == s[j]);
        }
        lemma_shallow_all(d, t, depth);
        assert(locality::depth_of(d, s[s.len() - 1]) == depth);
        lemma_shallow_written(d, s.last());
    }
}

} // verus!
