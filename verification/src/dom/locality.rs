//! Where an edit shows in what is written.
use vstd::prelude::*;

use crate::dom::ancestry;
use crate::dom::arena;
use crate::dom::arena::NodeFlags;
use crate::dom::copy;
use crate::dom::coverage;
use crate::dom::laws;
use crate::dom::model;
use crate::dom::model::Dom;
use crate::dom::node::Attr;
use crate::dom::serialize;
use crate::dom::sited;
use crate::xml::lexer;

verus! {

/// What an element says of itself is the same, its marks aside.
pub open spec fn same_tags(d: Dom, e: Dom, i: int) -> bool {
    &&& e.nodes[i].kind == d.nodes[i].kind
    &&& e.nodes[i].aux == d.nodes[i].aux
    &&& e.nodes[i].span == d.nodes[i].span
    &&& model::in_arena(e.nodes[i]) == model::in_arena(d.nodes[i])
    &&& model::is_empty_tag(e.nodes[i]) == model::is_empty_tag(d.nodes[i])
    &&& d.nodes[i].kind is Element ==> e.elem(i) == d.elem(i) && e.attrs_of(i) == d.attrs_of(i)
}

/// A node and its children are the same.
pub open spec fn same_at(d: Dom, e: Dom, i: int) -> bool {
    same_tags(d, e, i) && e.nodes[i].flags == d.nodes[i].flags && e.kids(i) == d.kids(i)
}

/// The bytes are there, and what is said of the whole is the same.
pub open spec fn same_ground(d: Dom, e: Dom) -> bool {
    laws::holds_bytes(d, e) && e.bom == d.bom && e.limits == d.limits && e.root == d.root
        && d.nodes.len() <= e.nodes.len()
}

/// A node and all that is below it are the same.
pub open spec fn same_below(d: Dom, e: Dom, j: int) -> bool {
    forall|x: int|
        d.has_node(x) && ancestry::below(d.links.up, x, j) ==> #[trigger] same_at(d, e, x)
}

/// Attributes are written alike where their bytes are the same.
pub proof fn lemma_attrs_text_same(d: Dom, e: Dom, s: Seq<Attr>)
    requires
        laws::holds_bytes(d, e),
        forall|k: int| 0 <= k < s.len() ==> model::attr_ok(d, #[trigger] s[k]),
    ensures
        serialize::attrs_text(e, s) == serialize::attrs_text(d, s),
    decreases s.len(),
{
    if s.len() > 0 {
        let a = s.last();
        assert(model::attr_ok(d, s[s.len() - 1]));
        assert forall|k: int| 0 <= k < s.drop_last().len() implies model::attr_ok(
            d,
            #[trigger] s.drop_last()[k],
        ) by {
            assert(model::attr_ok(d, s[k]));
        }
        lemma_attrs_text_same(d, e, s.drop_last());
        laws::lemma_same_piece(d, e, a.pre_ws, model::ws_in_arena(a));
        laws::lemma_same_piece(d, e, a.name, model::attr_name_in_arena(a));
        laws::lemma_same_piece(d, e, a.ws_before_eq, model::ws_in_arena(a));
        laws::lemma_same_piece(d, e, a.ws_after_eq, model::ws_in_arena(a));
        laws::lemma_same_piece(d, e, a.value, model::value_in_arena(a));
    }
}

/// The attributes of an element lie in their buffers.
pub proof fn lemma_attrs_ok(d: Dom, i: int)
    requires
        model::wf(d),
        d.is_element(i),
    ensures
        forall|k: int|
            0 <= k < d.attrs_of(i).len() ==> model::attr_ok(d, #[trigger] d.attrs_of(i)[k]),
        d.attrs_of(i).len() == d.elem(i).attrs_len,
{
    assert(model::node_ok(d, i));
    assert forall|k: int| 0 <= k < d.attrs_of(i).len() implies model::attr_ok(
        d,
        #[trigger] d.attrs_of(i)[k],
    ) by {
        assert(model::attr_at_ok(d, d.elem(i).attrs_from + k));
    }
}

/// The same tags are written alike.
pub proof fn lemma_tags_same(d: Dom, e: Dom, i: int)
    requires
        model::wf(d),
        laws::holds_bytes(d, e),
        d.has_node(i),
        same_tags(d, e, i),
    ensures
        e.piece(e.nodes[i].span, model::in_arena(e.nodes[i])) == d.piece(
            d.nodes[i].span,
            model::in_arena(d.nodes[i]),
        ),
        d.nodes[i].kind is Element ==> serialize::head_text(e, i) == serialize::head_text(d, i)
            && serialize::tail_text(e, i) == serialize::tail_text(d, i),
{
    let c = d.nodes[i];
    assert(model::node_ok(d, i));
    laws::lemma_same_piece(d, e, c.span, model::in_arena(c));
    if c.kind is Element {
        let x = d.elem(i);
        lemma_attrs_ok(d, i);
        lemma_attrs_text_same(d, e, d.attrs_of(i));
        laws::lemma_same_piece(d, e, x.qname, model::name_in_arena(x));
        laws::lemma_same_piece(d, e, x.pre_close_ws, false);
        laws::lemma_same_piece(d, e, x.close_qname, model::name_in_arena(x));
        laws::lemma_same_piece(d, e, x.close_trailing_ws, false);
    }
}

/// What is the same, with all that is below it, is written alike.
pub proof fn lemma_written_same(d: Dom, e: Dom, j: int, depth: nat)
    requires
        model::wf(d),
        same_ground(d, e),
        d.has_node(j),
        same_below(d, e, j),
    ensures
        serialize::written(e, j, depth) == serialize::written(d, j, depth),
    decreases serialize::deepest(d) + 1 - depth, 0nat,
{
    let c = d.nodes[j];
    ancestry::lemma_below(d.links.up, j, j);
    assert(same_at(d, e, j));
    lemma_tags_same(d, e, j);
    if depth <= serialize::deepest(d) && c.flags.changed() && c.kind.holds_children() {
        assert forall|k: int| 0 <= k < d.kids(j).len() implies d.has_node(
            #[trigger] d.kids(j)[k],
        ) && same_below(d, e, d.kids(j)[k]) by {
            assert(arena::kid_at(d.links, j, k));
            lemma_kid_same(d, e, j, k);
        }
        lemma_written_all_same(d, e, d.kids(j), depth + 1);
    }
}

proof fn lemma_kid_same(d: Dom, e: Dom, j: int, k: int)
    requires
        model::wf(d),
        d.has_node(j),
        0 <= k < d.kids(j).len(),
        same_below(d, e, j),
    ensures
        d.has_node(d.kids(j)[k]),
        same_below(d, e, d.kids(j)[k]),
{
    let c = d.kids(j)[k];
    assert(arena::kid_at(d.links, j, k));
    assert forall|x: int| d.has_node(x) && ancestry::below(d.links.up, x, c) implies #[trigger] same_at(
        d,
        e,
        x,
    ) by {
        ancestry::lemma_below(d.links.up, c, j);
        ancestry::lemma_below(d.links.up, j, j);
        copy::lemma_below_below(d.links.up, x, c, j);
    }
}

/// The same for nodes one behind the other.
pub proof fn lemma_written_all_same(d: Dom, e: Dom, s: Seq<int>, depth: nat)
    requires
        model::wf(d),
        same_ground(d, e),
        forall|k: int|
            0 <= k < s.len() ==> d.has_node(#[trigger] s[k]) && same_below(d, e, s[k]),
    ensures
        serialize::written_all(e, s, depth) == serialize::written_all(d, s, depth),
    decreases serialize::deepest(d) + 1 - depth, s.len() + 1,
{
    if s.len() > 0 {
        assert(same_below(d, e, s[s.len() - 1]));
        let t = s.drop_last();
        assert forall|k: int| 0 <= k < t.len() implies d.has_node(#[trigger] t[k]) && same_below(
            d,
            e,
            t[k],
        ) by {
            assert(t[k] == s[k]);
        }
        lemma_written_all_same(d, e, t, depth);
        lemma_written_same(d, e, s.last(), depth);
    }
}

/// One node and what is below it may be others; the nodes above it are marked,
/// and all others are the same.
pub open spec fn touched(d: Dom, e: Dom, i: int) -> bool {
    &&& same_ground(d, e)
    &&& d.has_node(i)
    &&& forall|x: int| d.has_node(x) && x != i ==> #[trigger] spared(d, e, i, x)
}

/// A node above `i` is only marked, and another one is the same.
pub open spec fn spared(d: Dom, e: Dom, i: int, x: int) -> bool {
    if ancestry::below(d.links.up, i, x) {
        only_marked(d, e, x)
    } else {
        same_at(d, e, x)
    }
}

/// A node knows of a change below it, and is the same otherwise.
pub open spec fn only_marked(d: Dom, e: Dom, x: int) -> bool {
    &&& same_tags(d, e, x)
    &&& arena::has(e.nodes[x].flags.marks, NodeFlags::HAS_DIRTY_DESC)
    &&& e.kids(x) == d.kids(x)
}

/// An edit of one node leaves alone what is written for every node that is not
/// above it.
pub proof fn lemma_elsewhere_same(d: Dom, e: Dom, i: int, j: int, depth: nat)
    requires
        model::wf(d),
        touched(d, e, i),
        d.has_node(j),
        !ancestry::below(d.links.up, i, j),
    ensures
        serialize::written(e, j, depth) == serialize::written(d, j, depth),
{
    lemma_below_same(d, e, i, j);
    lemma_written_same(d, e, j, depth);
}

/// What is below a node that is not above the edited one is the same.
pub proof fn lemma_below_same(d: Dom, e: Dom, i: int, j: int)
    requires
        model::wf(d),
        touched(d, e, i),
        d.has_node(j),
        !ancestry::below(d.links.up, i, j),
    ensures
        same_below(d, e, j),
{
    assert forall|x: int| d.has_node(x) && ancestry::below(d.links.up, x, j) implies #[trigger] same_at(
        d,
        e,
        x,
    ) by {
        if ancestry::below(d.links.up, i, x) {
            copy::lemma_below_below(d.links.up, i, x, j);
        }
        ancestry::lemma_below(d.links.up, i, i);
        assert(x != i);
        assert(spared(d, e, i, x));
    }
}

/// The nodes on the way from a node up are each above the one before.
proof fn lemma_way(up: Seq<Option<int>>, i: int, m: int)
    requires
        ancestry::acyclic(up),
        0 <= i < up.len(),
        0 <= m < ancestry::lineage(up, i).len(),
    ensures
        0 <= ancestry::lineage(up, i)[m] < up.len(),
        m + 1 < ancestry::lineage(up, i).len() ==> up[ancestry::lineage(up, i)[m]] == Some(
            ancestry::lineage(up, i)[m + 1],
        ),
        m + 1 == ancestry::lineage(up, i).len() ==> up[ancestry::lineage(up, i)[m]] is None,
    decreases ancestry::rank_of(up)[i],
{
    ancestry::lemma_lineage(up, i);
    let s = ancestry::lineage(up, i);
    if let Some(p) = up[i] {
        ancestry::lemma_lineage(up, p);
        let t = ancestry::lineage(up, p);
        assert(s[0] == i);
        assert(s[1] == t[0]);
        assert(t[0] == p);
        if m > 0 {
            lemma_way(up, p, m - 1);
            assert(s[m] == t[m - 1]);
            if m + 1 < s.len() {
                assert(s[m + 1] == t[m]);
            }
        }
    }
}

/// How deep a node lies.
pub open spec fn depth_of(d: Dom, i: int) -> nat {
    (ancestry::lineage(d.links.up, i).len() - 1) as nat
}

/// Nodes that can be written are written one behind the other, the one at `m`
/// between those before it and those behind it.
pub proof fn lemma_split(d: Dom, s: Seq<int>, depth: nat, m: int)
    requires
        0 <= m < s.len(),
        serialize::written_all(d, s, depth) is Some,
    ensures
        serialize::written_all(d, s.take(m), depth) is Some,
        serialize::written(d, s[m], depth) is Some,
        serialize::written_all(d, s.skip(m + 1), depth) is Some,
        serialize::written_all(d, s, depth)->0 == serialize::written_all(d, s.take(m), depth)->0
            + serialize::written(d, s[m], depth)->0 + serialize::written_all(
            d,
            s.skip(m + 1),
            depth,
        )->0,
    decreases s.len(),
{
    let t = s.drop_last();
    if m == s.len() - 1 {
        assert(s.take(m) =~= t);
        assert(s.skip(m + 1) =~= Seq::empty());
        let a = serialize::written_all(d, t, depth)->0;
        let b = serialize::written(d, s[m], depth)->0;
        assert(a + b + Seq::<u8>::empty() =~= a + b);
    } else {
        lemma_split(d, t, depth, m);
        assert(t.take(m) =~= s.take(m));
        assert(s.skip(m + 1).drop_last() =~= t.skip(m + 1));
        assert(s.skip(m + 1).last() == s.last());
        let a = serialize::written_all(d, t.take(m), depth)->0;
        let b = serialize::written(d, s[m], depth)->0;
        let c = serialize::written_all(d, t.skip(m + 1), depth)->0;
        let x = serialize::written(d, s.last(), depth)->0;
        assert(a + b + c + x =~= a + b + (c + x));
    }
}

/// What is written for the children beside one on the way is the same.
proof fn lemma_beside(d: Dom, e: Dom, i: int, a: int, m: int, depth: nat)
    requires
        model::wf(d),
        touched(d, e, i),
        d.has_node(a),
        0 <= m < d.kids(a).len(),
        ancestry::below(d.links.up, i, d.kids(a)[m]),
    ensures
        serialize::written_all(e, d.kids(a).take(m), depth) == serialize::written_all(
            d,
            d.kids(a).take(m),
            depth,
        ),
        serialize::written_all(e, d.kids(a).skip(m + 1), depth) == serialize::written_all(
            d,
            d.kids(a).skip(m + 1),
            depth,
        ),
{
    let s = d.kids(a);
    let up = d.links.up;
    assert(arena::distinct(d.links, a));
    assert forall|k: int| 0 <= k < s.len() && k != m implies d.has_node(#[trigger] s[k])
        && same_below(d, e, s[k]) by {
        assert(arena::kid_at(d.links, a, k));
        assert(arena::kid_at(d.links, a, m));
        let j = s[k];
        if ancestry::below(up, i, j) {
            lemma_one_child(up, i, j, s[m]);
        }
        lemma_below_same(d, e, i, j);
    }
    let t = s.take(m);
    assert forall|k: int| 0 <= k < t.len() implies d.has_node(#[trigger] t[k]) && same_below(
        d,
        e,
        t[k],
    ) by {
        assert(t[k] == s[k]);
    }
    lemma_written_all_same(d, e, t, depth);
    let u = s.skip(m + 1);
    assert forall|k: int| 0 <= k < u.len() implies d.has_node(#[trigger] u[k]) && same_below(
        d,
        e,
        u[k],
    ) by {
        assert(u[k] == s[m + 1 + k]);
    }
    lemma_written_all_same(d, e, u, depth);
}

/// Two nodes with one parent are not both above a node.
proof fn lemma_one_child(up: Seq<Option<int>>, i: int, a: int, b: int)
    requires
        ancestry::acyclic(up),
        0 <= i < up.len(),
        ancestry::below(up, i, a),
        ancestry::below(up, i, b),
        0 <= a < up.len(),
        0 <= b < up.len(),
        up[a] is Some,
        up[a] == up[b],
    ensures
        a == b,
    decreases ancestry::rank_of(up)[i],
{
    ancestry::lemma_below(up, i, a);
    ancestry::lemma_below(up, i, b);
    ancestry::lemma_lineage(up, i);
    if i == a && i != b {
        lemma_above_less(up, up[i]->0, b);
        ancestry::lemma_lineage(up, b);
    } else if i == b && i != a {
        lemma_above_less(up, up[i]->0, a);
        ancestry::lemma_lineage(up, a);
    } else if i != a {
        lemma_one_child(up, up[i]->0, a, b);
    }
}

/// A node above another one has no greater rank.
pub proof fn lemma_above_less(up: Seq<Option<int>>, i: int, a: int)
    requires
        ancestry::acyclic(up),
        0 <= i < up.len(),
        ancestry::below(up, i, a),
    ensures
        ancestry::rank_of(up)[a] <= ancestry::rank_of(up)[i],
    decreases ancestry::rank_of(up)[i],
{
    ancestry::lemma_below(up, i, a);
    ancestry::lemma_lineage(up, i);
    if i != a {
        lemma_above_less(up, up[i]->0, a);
    }
}

/// What is written for a changed node before its children.
pub open spec fn open_text(d: Dom, a: int) -> Seq<u8> {
    if d.nodes[a].kind is Document {
        if d.bom {
            lexer::BOM@
        } else {
            Seq::empty()
        }
    } else {
        serialize::head_text(d, a) + seq![62u8]
    }
}

/// What is written for a changed node behind its children.
pub open spec fn close_text(d: Dom, a: int) -> Seq<u8> {
    if d.nodes[a].kind is Document {
        Seq::empty()
    } else {
        serialize::tail_text(d, a)
    }
}

/// A changed node with children is written from its pieces.
pub proof fn lemma_written_open(d: Dom, a: int, k: nat)
    requires
        d.nodes[a].kind.holds_children(),
        d.nodes[a].flags.changed(),
        d.nodes[a].kind is Element ==> !model::is_empty_tag(d.nodes[a]),
    ensures
        serialize::written(d, a, k) is Some ==> serialize::written_all(d, d.kids(a), k + 1) is Some
            && k <= serialize::deepest(d),
        serialize::written(d, a, k) is Some ==> serialize::written(d, a, k)->0 == open_text(d, a)
            + serialize::written_all(d, d.kids(a), k + 1)->0 + close_text(d, a),
        k <= serialize::deepest(d) && serialize::written_all(d, d.kids(a), k + 1) is Some
            ==> serialize::written(d, a, k) is Some,
{
    if let Some(t) = serialize::written_all(d, d.kids(a), k + 1) {
        if d.nodes[a].kind is Document {
            assert(open_text(d, a) + t + Seq::<u8>::empty() =~= open_text(d, a) + t);
        }
    }
}

/// Before and after an edit of `i`, what is written for a node above it is what
/// is written for `i` between `p` and `s`. Where the node above was not changed
/// before, `p` and `s` are what stands in the source.
pub open spec fn framed(d: Dom, e: Dom, i: int, a: int, k: nat, p: Seq<u8>, s: Seq<u8>) -> bool {
    let dep = depth_of(d, i);
    let x = d.nodes[a].span;
    let y = d.nodes[i].span;
    &&& serialize::written(d, i, dep) is Some
    &&& serialize::written(e, i, dep) is Some
    &&& serialize::written(d, a, k) == Some(p + serialize::written(d, i, dep)->0 + s)
    &&& serialize::written(e, a, k) == Some(p + serialize::written(e, i, dep)->0 + s)
    &&& !d.nodes[a].flags.changed() ==> {
        &&& !d.nodes[i].flags.changed()
        &&& x.start <= y.start <= y.end <= x.end <= d.src.len()
        &&& p == d.src.subrange(x.start as int, y.start as int)
        &&& s == d.src.subrange(y.end as int, x.end as int)
    }
}

/// An unchanged node with children is its opening, the children up to one, that
/// one, the others and its closing, as they stand in the source.
pub proof fn lemma_source_around(d: Dom, a: int, n: int, depth: nat)
    requires
        model::wf(d),
        sited::sited(d),
        d.has_node(a),
        !d.nodes[a].flags.changed(),
        0 <= n < d.kids(a).len(),
        depth <= serialize::deepest(d),
    ensures
        ({
            let x = d.nodes[a].span;
            let y = d.nodes[d.kids(a)[n]].span;
            let before = serialize::written_all(d, d.kids(a).take(n), depth);
            let after = serialize::written_all(d, d.kids(a).skip(n + 1), depth);
            &&& x.start <= y.start <= y.end <= x.end <= d.src.len()
            &&& before is Some
            &&& after is Some
            &&& open_text(d, a) + before->0 == d.src.subrange(x.start as int, y.start as int)
            &&& after->0 + close_text(d, a) == d.src.subrange(y.end as int, x.end as int)
        }),
{
    let c = d.nodes[a];
    let x = c.span;
    let s = d.kids(a);
    let w = d.kids(a)[n];
    let y = d.nodes[w].span;
    assert(sited::sited_at(d, a));
    assert(model::node_ok(d, a));
    sited::lemma_kid_unchanged(d, a, n);
    assert(model::node_ok(d, w));
    assert(sited::sited_at(d, w));
    if c.kind is Element {
        sited::lemma_tags_sit(d, a);
    } else {
        if d.bom {
            assert(d.src.subrange(0, 3) =~= d.src.take(3));
        }
    }
    let lo = coverage::inner_start(d, a);
    let hi = coverage::inner_end(d, a);
    sited::lemma_kids_written(d, a, 0, n, depth);
    sited::lemma_kids_written(d, a, n + 1, s.len() as int, depth);
    sited::lemma_kids_written(d, a, n, n + 1, depth);
    assert(coverage::begins_well(d, a, n));
    assert(s.subrange(0, n) =~= s.take(n));
    assert(s.subrange(n + 1, s.len() as int) =~= s.skip(n + 1));
    assert(coverage::seam(d, a, n) == y.start);
    assert(coverage::seam(d, a, n + 1) == y.end);
    if c.kind is Document {
        assert(open_text(d, a) =~= d.src.subrange(0, lo));
        assert(close_text(d, a) =~= d.src.subrange(hi, x.end as int));
    }
    assert(d.src.subrange(x.start as int, lo) + d.src.subrange(lo, y.start as int)
        =~= d.src.subrange(x.start as int, y.start as int));
    assert(d.src.subrange(y.end as int, hi) + d.src.subrange(hi, x.end as int) =~= d.src.subrange(
        y.end as int,
        x.end as int,
    ));
}

proof fn lemma_regroup(
    o: Seq<u8>,
    b: Seq<u8>,
    p: Seq<u8>,
    u: Seq<u8>,
    s: Seq<u8>,
    f: Seq<u8>,
    c: Seq<u8>,
)
    ensures
        o + (b + (p + u + s) + f) + c == (o + b + p) + u + (s + f + c),
{
    assert(o + (b + (p + u + s) + f) + c =~= (o + b + p) + u + (s + f + c));
}

/// What stands in the source around a place within a span.
proof fn lemma_rejoin(src: Seq<u8>, a: int, b: int, c: int, x: int, y: int, z: int)
    requires
        0 <= a <= b <= c <= x <= y <= z <= src.len(),
    ensures
        src.subrange(a, b) + src.subrange(b, c) == src.subrange(a, c),
        src.subrange(x, y) + src.subrange(y, z) == src.subrange(x, z),
        src.subrange(a, c) + src.subrange(c, x) + src.subrange(x, z) == src.subrange(a, z),
{
    assert(src.subrange(a, b) + src.subrange(b, c) =~= src.subrange(a, c));
    assert(src.subrange(x, y) + src.subrange(y, z) =~= src.subrange(x, z));
    assert(src.subrange(a, c) + src.subrange(c, x) + src.subrange(x, z) =~= src.subrange(a, z));
}

/// From a node on the way up to the next one.
#[verifier::spinoff_prover]
#[verifier::rlimit(80)]
proof fn lemma_step_up(
    d: Dom,
    e: Dom,
    i: int,
    a: int,
    n: int,
    k: nat,
    p: Seq<u8>,
    s: Seq<u8>,
) -> (r: (Seq<u8>, Seq<u8>))
    requires
        model::wf(d),
        sited::sited(d),
        touched(d, e, i),
        d.has_node(a),
        0 <= n < d.kids(a).len(),
        ancestry::below(d.links.up, i, d.kids(a)[n]),
        only_marked(d, e, a),
        framed(d, e, i, d.kids(a)[n], k + 1, p, s),
        serialize::written(d, a, k) is Some,
        serialize::written(e, a, k) is Some,
    ensures
        framed(d, e, i, a, k, r.0, r.1),
{
    let c = d.kids(a)[n];
    lemma_tags_same(d, e, a);
    assert(model::node_ok(d, a));
    assert(sited::sited_at(d, a));
    lemma_written_open(e, a, k);
    lemma_split(e, e.kids(a), k + 1, n);
    lemma_beside(d, e, i, a, n, k + 1);
    let before = serialize::written_all(d, d.kids(a).take(n), k + 1)->0;
    let after = serialize::written_all(d, d.kids(a).skip(n + 1), k + 1)->0;
    let o = open_text(d, a);
    let f = close_text(d, a);
    assert(open_text(e, a) == o);
    assert(close_text(e, a) == f);
    let q = o + before + p;
    let z = s + after + f;
    let dep = depth_of(d, i);
    let t = serialize::written(d, i, dep)->0;
    let u = serialize::written(e, i, dep)->0;
    lemma_regroup(o, before, p, u, s, after, f);
    if d.nodes[a].flags.changed() {
        lemma_written_open(d, a, k);
        lemma_split(d, d.kids(a), k + 1, n);
        lemma_regroup(o, before, p, t, s, after, f);
    } else {
        sited::lemma_kid_unchanged(d, a, n);
        lemma_source_around(d, a, n, k + 1);
        let x = d.nodes[a].span;
        let y = d.nodes[c].span;
        let w = d.nodes[i].span;
        assert(s + after + f =~= s + (after + f));
        lemma_rejoin(
            d.src,
            x.start as int,
            y.start as int,
            w.start as int,
            w.end as int,
            y.end as int,
            x.end as int,
        );
        assert(sited::sited_at(d, i));
        assert(sited::sited_at(d, a));
        assert(t == d.src.subrange(w.start as int, w.end as int));
    }
    (q, z)
}

/// What is written for a node above an edited one changes only where the edited
/// one is written.
proof fn lemma_path(d: Dom, e: Dom, i: int, m: int) -> (r: (Seq<u8>, Seq<u8>))
    requires
        model::wf(d),
        sited::sited(d),
        touched(d, e, i),
        0 <= m <= depth_of(d, i),
        serialize::written(
            d,
            ancestry::lineage(d.links.up, i)[m],
            (depth_of(d, i) - m) as nat,
        ) is Some,
        serialize::written(
            e,
            ancestry::lineage(d.links.up, i)[m],
            (depth_of(d, i) - m) as nat,
        ) is Some,
    ensures
        framed(
            d,
            e,
            i,
            ancestry::lineage(d.links.up, i)[m],
            (depth_of(d, i) - m) as nat,
            r.0,
            r.1,
        ),
    decreases m,
{
    let up = d.links.up;
    let way = ancestry::lineage(up, i);
    let a = way[m];
    let k = (depth_of(d, i) - m) as nat;
    ancestry::lemma_lineage(up, i);
    assert(way[0] == i);
    if m == 0 {
        lemma_path_start(d, e, i);
        return (Seq::empty(), Seq::empty());
    }
    let c = way[m - 1];
    lemma_way(up, i, m - 1);
    ancestry::lemma_lineage_distinct(up, i);
    assert(a != i);
    assert(ancestry::below(up, i, a));
    assert(ancestry::below(up, i, c));
    assert(spared(d, e, i, a));
    assert(arena::child_of(d.links, c));
    let n = d.kids(a).index_of(c);
    assert(d.kids(a)[n] == c);
    lemma_step_down(d, e, a, n, k);
    let (p, s) = lemma_path(d, e, i, m - 1);
    lemma_step_up(d, e, i, a, n, k, p, s)
}

proof fn lemma_path_start(d: Dom, e: Dom, i: int)
    requires
        model::wf(d),
        sited::sited(d),
        d.has_node(i),
        serialize::written(d, i, depth_of(d, i)) is Some,
        serialize::written(e, i, depth_of(d, i)) is Some,
    ensures
        framed(d, e, i, i, depth_of(d, i), Seq::empty(), Seq::empty()),
{
    let none = Seq::<u8>::empty();
    let x = d.nodes[i].span;
    let t = serialize::written(d, i, depth_of(d, i))->0;
    let u = serialize::written(e, i, depth_of(d, i))->0;
    assert(none + t + none =~= t);
    assert(none + u + none =~= u);
    assert(model::node_ok(d, i));
    assert(sited::sited_at(d, i));
    if !d.nodes[i].flags.changed() {
        assert(d.src.subrange(x.start as int, x.start as int) =~= none);
        assert(d.src.subrange(x.end as int, x.end as int) =~= none);
    }
}

/// Where a node above can be written, so can the next one on the way down.
proof fn lemma_step_down(d: Dom, e: Dom, a: int, n: int, k: nat)
    requires
        model::wf(d),
        sited::sited(d),
        same_ground(d, e),
        d.has_node(a),
        0 <= n < d.kids(a).len(),
        only_marked(d, e, a),
        serialize::written(d, a, k) is Some,
        serialize::written(e, a, k) is Some,
    ensures
        serialize::written(d, d.kids(a)[n], k + 1) is Some,
        serialize::written(e, d.kids(a)[n], k + 1) is Some,
{
    assert(model::node_ok(d, a));
    assert(sited::sited_at(d, a));
    lemma_written_open(e, a, k);
    lemma_split(e, e.kids(a), k + 1, n);
    if d.nodes[a].flags.changed() {
        lemma_written_open(d, a, k);
        lemma_split(d, d.kids(a), k + 1, n);
    } else {
        sited::lemma_kid_unchanged(d, a, n);
    }
}

/// An edit of a node of the tree shows only where that node is written: what is
/// written before it and what is written behind it stays, byte for byte. In a
/// document that was not changed before, that is the source up to the node and
/// behind it.
pub proof fn lemma_edit_is_local(d: Dom, e: Dom, i: int)
    requires
        model::wf(d),
        sited::sited(d),
        touched(d, e, i),
        ancestry::below(d.links.up, i, d.root),
        serialize::written(d, d.root, 0) is Some,
        serialize::written(e, e.root, 0) is Some,
    ensures
        exists|p: Seq<u8>, s: Seq<u8>| framed(d, e, i, d.root, 0, p, s),
{
    let up = d.links.up;
    let way = ancestry::lineage(up, i);
    let m = way.index_of(d.root);
    lemma_way(up, i, m);
    let (p, s) = lemma_path(d, e, i, depth_of(d, i) as int);
    assert(framed(d, e, i, d.root, 0, p, s));
}

} // verus!
