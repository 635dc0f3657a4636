//! Which nodes an edit touches.
//!
//! Every edit touches one node; those above it are marked, and all others are
//! left as they are. Nodes that are not changed go on being what stands in the
//! source.
use vstd::prelude::*;

use crate::dom::ancestry;
use crate::dom::arena;
use crate::dom::arena::{Core, Links, Node, NodeFlags, NodeKind};
use crate::dom::change;
use crate::dom::copy;
use crate::dom::coverage;
use crate::dom::edit;
use crate::dom::laws;
use crate::dom::locality;
use crate::dom::model;
use crate::dom::model::Dom;
use crate::dom::node::{Attr, ElementData};
use crate::dom::query;
use crate::dom::sited;

verus! {

/// A change of one node, before those above it are told.
pub open spec fn changed_one(d: Dom, f: Dom, i: int) -> bool {
    &&& locality::same_ground(d, f)
    &&& d.has_node(i)
    &&& forall|x: int| d.has_node(x) && x != i ==> #[trigger] locality::same_at(d, f, x)
}

/// The nodes to be told are those above a node, or that node and those above.
pub open spec fn tells(d: Dom, f: Dom, i: int, from: Option<int>) -> bool {
    forall|x: int|
        d.has_node(x) && x != i ==> #[trigger] ancestry::lineage_of(f.links.up, from).contains(x)
            == ancestry::below(d.links.up, i, x)
}

/// When those above are told, one node is touched.
proof fn lemma_told(d: Dom, f: Dom, i: int, from: Option<int>)
    requires
        changed_one(d, f, i),
        tells(d, f, i, from),
    ensures
        locality::touched(d, change::chained(f, from), i),
{
    let e = change::chained(f, from);
    let way = ancestry::lineage_of(f.links.up, from);
    assert forall|x: int| d.has_node(x) && x != i implies #[trigger] locality::spared(
        d,
        e,
        i,
        x,
    ) by {
        assert(locality::same_at(d, f, x));
        assert(way.contains(x) == ancestry::below(d.links.up, i, x));
        let m = f.nodes[x].flags.marks;
        arena::lemma_mark_bits();
        arena::lemma_marks(m, NodeFlags::HAS_DIRTY_DESC, NodeFlags::HAS_DIRTY_DESC);
        arena::lemma_marks(m, NodeFlags::HAS_DIRTY_DESC, NodeFlags::IN_ARENA);
        arena::lemma_marks(m, NodeFlags::HAS_DIRTY_DESC, NodeFlags::EMPTY_TAG);
        assert(e.kids(x) == f.kids(x));
        if d.nodes[x].kind is Element {
            assert(e.elem(x) == f.elem(x));
            assert(e.attrs_of(x) == f.attrs_of(x));
        }
    }
}

/// Nodes that are not changed by an edit go on being what stands in the source.
pub proof fn lemma_sited_after(d: Dom, e: Dom, i: int)
    requires
        model::wf(d),
        sited::sited(d),
        locality::touched(d, e, i),
        e.nodes[i].flags.changed(),
        sited::hollow(e, i),
        forall|x: int|
            d.nodes.len() <= x < e.nodes.len() ==> (#[trigger] e.nodes[x]).flags.changed()
                && sited::hollow(e, x),
    ensures
        sited::sited(e),
{
    assert forall|x: int| e.has_node(x) implies #[trigger] sited::sited_at(e, x) by {
        if x != i && x < d.nodes.len() {
            assert(locality::spared(d, e, i, x));
            assert(sited::sited_at(d, x));
            if ancestry::below(d.links.up, i, x) {
                assert(e.nodes[x].flags.changed());
            } else if !e.nodes[x].flags.changed() {
                lemma_sits_still(d, e, i, x);
            }
        } else {
            assert(e.nodes[x].flags.changed());
        }
    }
}

proof fn lemma_sits_still(d: Dom, e: Dom, i: int, x: int)
    requires
        model::wf(d),
        locality::touched(d, e, i),
        d.has_node(x),
        x != i,
        !ancestry::below(d.links.up, i, x),
        !d.nodes[x].flags.changed(),
        sited::sits(d, x),
    ensures
        sited::sits(e, x),
{
    assert(locality::spared(d, e, i, x));
    assert forall|k: int| 0 <= k < d.kids(x).len() implies e.nodes[#[trigger] d.kids(x)[k]].span
        == d.nodes[d.kids(x)[k]].span by {
        let y = d.kids(x)[k];
        assert(arena::kid_at(d.links, x, k));
        ancestry::lemma_below(d.links.up, i, x);
        ancestry::lemma_below(d.links.up, x, x);
        assert(y != i);
        assert(locality::spared(d, e, i, y));
    }
    assert(coverage::inner_start(e, x) == coverage::inner_start(d, x));
    assert(coverage::inner_end(e, x) == coverage::inner_end(d, x));
    let n = d.kids(x).len() as int;
    if n > 0 {
        assert(e.nodes[d.kids(x)[n - 1]].span == d.nodes[d.kids(x)[n - 1]].span);
    }
    if sited::kids_sit(d, x) {
        assert forall|k: int| 0 <= k < e.kids(x).len() implies #[trigger] coverage::begins_well(
            e,
            x,
            k,
        ) by {
            assert(coverage::begins_well(d, x, k));
            assert(e.nodes[d.kids(x)[k]].span == d.nodes[d.kids(x)[k]].span);
            if k > 0 {
                assert(e.nodes[d.kids(x)[k - 1]].span == d.nodes[d.kids(x)[k - 1]].span);
            }
        }
    }
}

/// Marking a node touches it.
proof fn lemma_marked(d: Dom, f: Dom, i: int)
    requires
        model::wf(d),
        changed_one(d, f, i),
        f.links == d.links,
        f.nodes.len() == d.nodes.len(),
        f.kids(i).len() == d.kids(i).len(),
        f.nodes[i].kind == d.nodes[i].kind,
        model::is_empty_tag(f.nodes[i]) == model::is_empty_tag(d.nodes[i]),
    ensures
        locality::touched(d, change::marked(f, i), i),
        sited::sited(d) ==> sited::sited(change::marked(f, i)),
{
    let c = f.nodes[i];
    let g = Dom { nodes: f.nodes.update(i, change::with_mark(c, NodeFlags::SELF_DIRTY)), ..f };
    let from = d.up(i);
    let up = d.links.up;
    assert forall|x: int| d.has_node(x) && x != i implies #[trigger] locality::same_at(d, g, x) by {
        assert(locality::same_at(d, f, x));
        if d.nodes[x].kind is Element {
            assert(g.elem(x) == f.elem(x));
            assert(g.attrs_of(x) == f.attrs_of(x));
        }
    }
    ancestry::lemma_lineage(up, i);
    assert forall|x: int| d.has_node(x) && x != i implies #[trigger] ancestry::lineage_of(
        up,
        from,
    ).contains(x) == ancestry::below(up, i, x) by {
        ancestry::lemma_below(up, i, x);
    }
    lemma_told(d, g, i, from);
    let e = change::marked(f, i);
    assert(e == change::chained(g, from));
    let m = c.flags.marks;
    arena::lemma_mark_bits();
    arena::lemma_marks(m, 1, 1);
    arena::lemma_marks(m, 1, 4);
    arena::lemma_marks(m | 1, 2, 1);
    arena::lemma_marks(m | 1, 2, 4);
    if sited::sited(d) {
        assert(sited::sited_at(d, i));
        assert(e.nodes[i].flags.changed());
        assert(sited::hollow(e, i));
        lemma_sited_after(d, e, i);
    }
}

/// New bytes keep the old ones.
proof fn lemma_grown_holds(d: Dom, f: Dom, b: Seq<u8>)
    requires
        f.src == d.src,
        f.arena == d.arena + b,
    ensures
        laws::holds_bytes(d, f),
{
    assert(f.arena.take(d.arena.len() as int) =~= d.arena);
}

/// Other attributes of one element are attributes of that one alone.
proof fn lemma_attrs_moved_one(d: Dom, f: Dom, i: int, list: Seq<Attr>)
    requires
        model::wf(d),
        d.is_element(i),
        laws::holds_bytes(d, f),
        f == (Dom { arena: f.arena, ..change::attrs_moved(d, i, list) }),
    ensures
        changed_one(d, f, i),
{
    assert(model::node_ok(d, i));
    assert forall|x: int| d.has_node(x) && x != i implies #[trigger] locality::same_at(d, f, x) by {
        if d.nodes[x].kind is Element {
            assert(model::node_ok(d, x));
            assert(model::apart(d, i, x));
            assert(f.elem(x) == d.elem(x));
            assert(f.attrs_of(x) =~= d.attrs_of(x));
        }
    }
}

/// Setting an attribute touches its element.
pub proof fn lemma_attr_set_touches(d: Dom, i: int, q: Seq<char>, v: Seq<char>)
    requires
        model::wf(d),
    ensures
        match edit::attr_set(d, i, q, v) {
            Ok(e) => locality::touched(d, e, i) && (sited::sited(d) ==> sited::sited(e)),
            Err(_) => true,
        },
{
    if let Ok(e) = edit::attr_set(d, i, q, v) {
        let n = vstd::utf8::encode_utf8(q);
        assert(model::node_ok(d, i));
        laws::lemma_raw_place(d, d.attrs_of(i), n, 0);
        match query::raw_place(d, d.attrs_of(i), n, 0) {
            Some(k) => {
                let j = d.elem(i).attrs_from + k;
                let a = d.attrs[j];
                let b = edit::value_bytes(v, Some(edit::quote_char(a.quote)));
                let f = Dom { attrs: e.attrs, arena: e.arena, ..d };
                lemma_grown_holds(d, f, b);
                assert forall|x: int| d.has_node(x) && x != i implies #[trigger] locality::same_at(
                    d,
                    f,
                    x,
                ) by {
                    if d.nodes[x].kind is Element {
                        assert(model::node_ok(d, x));
                        assert(model::apart(d, i, x));
                        assert(f.attrs_of(x) =~= d.attrs_of(x));
                    }
                }
                lemma_marked(d, f, i);
                assert(e == change::marked(f, i));
            },
            None => {
                let b = edit::value_bytes(v, Some('"'));
                let list = d.attrs_of(i).push(edit::new_attr(d, n, b));
                let f = change::attrs_moved(
                    change::arena_grown(change::arena_grown(d, n), b),
                    i,
                    list,
                );
                assert(f.arena =~= d.arena + (n + b));
                lemma_grown_holds(d, f, n + b);
                lemma_attrs_moved_one(d, f, i, list);
                lemma_marked(d, f, i);
            },
        }
    }
}

/// Removing an attribute touches its element, when there is one.
pub proof fn lemma_attr_removed_touches(
    d: Dom,
    i: int,
    ns: Option<Seq<char>>,
    local: Seq<char>,
)
    requires
        model::wf(d),
    ensures
        match edit::attr_removed(d, i, ns, local) {
            Ok((e, true)) => locality::touched(d, e, i) && (sited::sited(d) ==> sited::sited(e)),
            Ok((e, false)) => e == d,
            Err(_) => true,
        },
{
    if let Ok((e, there)) = edit::attr_removed(d, i, ns, local) {
        if there {
            let k = query::attr_place(d, i, ns, local, 0)->0;
            let list = d.attrs_of(i).remove(k);
            let f = change::attrs_moved(d, i, list);
            lemma_grown_holds(d, f, Seq::empty());
            assert(d.arena + Seq::<u8>::empty() =~= d.arena);
            lemma_attrs_moved_one(d, f, i, list);
            lemma_marked(d, f, i);
        }
    }
}

/// The way up from a node is the same where the parents on it are.
proof fn lemma_same_way(up: Seq<Option<int>>, more: Seq<Option<int>>, i: int)
    requires
        ancestry::acyclic(up),
        ancestry::acyclic(more),
        up.len() <= more.len(),
        0 <= i < up.len(),
        forall|x: int|
            0 <= x < up.len() && ancestry::below(up, i, x) ==> more[x] == #[trigger] up[x],
    ensures
        ancestry::lineage(more, i) == ancestry::lineage(up, i),
    decreases ancestry::rank_of(up)[i],
{
    ancestry::lemma_lineage(up, i);
    ancestry::lemma_lineage(more, i);
    ancestry::lemma_below(up, i, i);
    assert(more[i] == up[i]);
    if let Some(p) = up[i] {
        assert forall|x: int| 0 <= x < up.len() && ancestry::below(up, p, x) implies more[x]
            == #[trigger] up[x] by {
            ancestry::lemma_below(up, i, x);
        }
        lemma_same_way(up, more, p);
    }
}

/// When a node and those above it are told, it is touched.
proof fn lemma_told_from(d: Dom, f: Dom, i: int)
    requires
        model::wf(d),
        changed_one(d, f, i),
        f.has_node(i),
        ancestry::lineage(f.links.up, i) == ancestry::lineage(d.links.up, i),
        sited::hollow(f, i),
        forall|x: int|
            d.nodes.len() <= x < f.nodes.len() ==> (#[trigger] f.nodes[x]).flags.changed()
                && sited::hollow(f, x),
    ensures
        locality::touched(d, change::chained(f, Some(i)), i),
        sited::sited(d) ==> sited::sited(change::chained(f, Some(i))),
{
    let e = change::chained(f, Some(i));
    lemma_told(d, f, i, Some(i));
    arena::lemma_mark_bits();
    if sited::sited(d) {
        ancestry::lemma_lineage(d.links.up, i);
        assert(ancestry::lineage(d.links.up, i)[0] == i);
        let m = f.nodes[i].flags.marks;
        arena::lemma_marks(m, 2, 2);
        arena::lemma_marks(m, 2, 4);
        assert(sited::hollow(e, i));
        assert forall|x: int| d.nodes.len() <= x < e.nodes.len() implies (
        #[trigger] e.nodes[x]).flags.changed() && sited::hollow(e, x) by {
            let w = f.nodes[x].flags.marks;
            assert(f.nodes[x].flags.changed());
            arena::lemma_marks(w, 2, 1);
            arena::lemma_marks(w, 2, 2);
            arena::lemma_marks(w, 2, 4);
        }
        lemma_sited_after(d, e, i);
    }
}

/// Giving an element two tags touches that element.
proof fn lemma_opened_one(d: Dom, p: int)
    requires
        model::wf(d),
        d.has_node(p),
    ensures
        changed_one(d, change::opened_up(d, p), p),
        change::opened_up(d, p).links == d.links,
        change::opened_up(d, p).nodes.len() == d.nodes.len(),
        change::opened_up(d, p).nodes[p].kind == d.nodes[p].kind,
        d.nodes[p].kind is Element ==> !model::is_empty_tag(change::opened_up(d, p).nodes[p]),
{
    let f = change::opened_up(d, p);
    assert(f.arena.take(d.arena.len() as int) =~= d.arena);
    assert(model::node_ok(d, p));
    let m = d.nodes[p].flags.marks;
    arena::lemma_mark_bits();
    arena::lemma_marks(m, 4, 4);
    arena::lemma_marks(m & !4, 1, 4);
    assert forall|x: int| d.has_node(x) && x != p implies #[trigger] locality::same_at(d, f, x) by {
        assert(model::node_ok(d, x));
        assert(model::apart(d, p, x));
        if d.nodes[x].kind is Element {
            assert(f.elem(x) == d.elem(x));
            assert(f.attrs_of(x) =~= d.attrs_of(x));
        }
    }
}

/// Hanging a node on another one touches the other one.
pub proof fn lemma_child_appended_touches(d: Dom, p: int, c: int)
    requires
        model::wf(d),
    ensures
        match edit::child_appended(d, p, c) {
            Ok(e) => locality::touched(d, e, p) && (sited::sited(d) ==> sited::sited(e)),
            Err(_) => true,
        },
{
    if let Ok(e) = edit::child_appended(d, p, c) {
        let g = change::opened_up(d, p);
        lemma_opened_one(d, p);
        let f = change::hooked(g, p, d.kids(p).len() as int, c);
        lemma_hooked(d, g, f, p, d.kids(p).len() as int, c);
        lemma_told_from(d, f, p);
    }
}

/// One more child leaves alone all nodes but its parent.
proof fn lemma_hooked(d: Dom, g: Dom, f: Dom, p: int, k: int, c: int)
    requires
        model::wf(d),
        changed_one(d, g, p),
        g.links == d.links,
        g.nodes.len() == d.nodes.len(),
        g.nodes[p].kind is Element ==> !model::is_empty_tag(g.nodes[p]),
        edit::attach_fault(d, p, c) is None,
        0 <= k <= d.kids(p).len(),
        f == change::hooked(g, p, k, c),
    ensures
        changed_one(d, f, p),
        ancestry::lineage(f.links.up, p) == ancestry::lineage(d.links.up, p),
        sited::hollow(f, p),
{
    ancestry::lemma_link_acyclic(d.links.up, p, c);
    lemma_same_way(d.links.up, f.links.up, p);
    assert forall|x: int| d.has_node(x) && x != p implies #[trigger] locality::same_at(d, f, x) by {
        assert(locality::same_at(d, g, x));
        if d.nodes[x].kind is Element {
            assert(f.elem(x) == g.elem(x));
            assert(f.attrs_of(x) == g.attrs_of(x));
        }
    }
}

/// Putting a node before another one touches their parent, when the parent is
/// not written with one tag.
pub proof fn lemma_child_inserted_touches(d: Dom, anchor: int, c: int)
    requires
        model::wf(d),
        sited::sited(d),
    ensures
        match edit::child_inserted(d, anchor, c) {
            Ok(e) => locality::touched(d, e, d.up(anchor)->0) && sited::sited(e),
            Err(_) => true,
        },
{
    if let Ok(e) = edit::child_inserted(d, anchor, c) {
        let p = d.up(anchor)->0;
        arena::lemma_place(d.links, anchor);
        assert(sited::sited_at(d, p));
        let k = arena::place_of(d.links, anchor);
        let f = change::hooked(d, p, k, c);
        assert(d.arena.take(d.arena.len() as int) =~= d.arena);
        assert(changed_one(d, d, p));
        lemma_hooked(d, d, f, p, k, c);
        lemma_told_from(d, f, p);
    }
}

/// Cutting a node off touches its parent.
pub proof fn lemma_node_removed_touches(d: Dom, c: int)
    requires
        model::wf(d),
    ensures
        match edit::node_removed(d, c) {
            Ok(e) => locality::touched(d, e, d.up(c)->0) && (sited::sited(d) ==> sited::sited(e)),
            Err(_) => true,
        },
{
    if let Ok(e) = edit::node_removed(d, c) {
        let p = d.up(c)->0;
        let f = change::unhooked(d, c);
        let up = d.links.up;
        arena::lemma_place(d.links, c);
        ancestry::lemma_unlink_acyclic(up, c);
        ancestry::lemma_lineage(up, c);
        assert forall|x: int| 0 <= x < up.len() && ancestry::below(up, p, x) implies f.links.up[x]
            == #[trigger] up[x] by {
            locality::lemma_above_less(up, p, x);
        }
        assert(f.links.up =~= up.update(c, None));
        lemma_same_way(up, f.links.up, p);
        assert(d.arena.take(d.arena.len() as int) =~= d.arena);
        assert forall|x: int| d.has_node(x) && x != p implies #[trigger] locality::same_at(
            d,
            f,
            x,
        ) by {}
        lemma_told_or_empty(d, f, p);
    }
}

/// The same, where the node has fewer children than before.
proof fn lemma_told_or_empty(d: Dom, f: Dom, i: int)
    requires
        model::wf(d),
        changed_one(d, f, i),
        f.nodes == d.nodes,
        f.kids(i).len() <= d.kids(i).len(),
        ancestry::lineage(f.links.up, i) == ancestry::lineage(d.links.up, i),
    ensures
        locality::touched(d, change::chained(f, Some(i)), i),
        sited::sited(d) ==> sited::sited(change::chained(f, Some(i))),
{
    lemma_told(d, f, i, Some(i));
    if sited::sited(d) {
        assert(sited::sited_at(d, i));
        lemma_told_from(d, f, i);
    }
}

/// Links without the children of a node.
pub proof fn lemma_emptied_acyclic(l: Links, i: int)
    requires
        ancestry::acyclic(l.up),
    ensures
        ancestry::acyclic(edit::emptied(l, i).up),
{
    let r = ancestry::rank_of(l.up);
    let v = edit::emptied(l, i).up;
    assert(ancestry::ranked(l.up, r));
    assert forall|x: int|
        #![trigger v[x]]
        0 <= x < v.len() && v[x] is Some implies 0 <= v[x]->0 < v.len() && r[v[x]->0] < r[x] by {
        assert(l.up[x] is Some);
    }
    assert(ancestry::ranked(v, r));
}

/// Setting a text touches the node.
pub proof fn lemma_text_set_touches(d: Dom, i: int, v: Seq<char>)
    requires
        model::wf(d),
    ensures
        match edit::text_set(d, i, v) {
            Ok(e) => locality::touched(d, e, i) && (sited::sited(d) ==> sited::sited(e)),
            Err(_) => true,
        },
{
    if let Ok(e) = edit::text_set(d, i, v) {
        let b = edit::value_bytes(v, None);
        if d.nodes[i].kind is Text {
            let f = edit::leaf_only(d, i, b);
            lemma_grown_holds(d, f, b);
            assert forall|x: int| d.has_node(x) && x != i implies #[trigger] locality::same_at(
                d,
                f,
                x,
            ) by {}
            arena::lemma_mark_bits();
            arena::lemma_marks(d.nodes[i].flags.marks, 8, 4);
            lemma_marked(d, f, i);
        } else {
            lemma_element_text_touches(d, i, v);
        }
    }
}

/// A document where an element has one text and nothing else.
pub proof fn lemma_element_text_made(d: Dom, i: int, v: Seq<char>)
    requires
        model::wf(d),
        d.is_element(i),
    ensures
        ({
            let e = edit::element_text_set(d, i, v);
            let b = edit::value_bytes(v, None);
            let n = d.nodes.len() as int;
            let x = d.elem(i);
            let cut = edit::emptied(d.links, i);
            &&& e.nodes.len() == n + 1
            &&& e.arena == d.arena + b
            &&& e.kids(i) == seq![n]
            &&& e.nodes[n].kind is Text
            &&& e.nodes[n].span == change::new_span(d, b)
            &&& model::in_arena(e.nodes[n])
            &&& e.nodes[i].kind is Element
            &&& e.nodes[i].aux == d.nodes[i].aux
            &&& e.nodes[i].flags.changed()
            &&& !model::is_empty_tag(e.nodes[i])
            &&& e.attrs == d.attrs
            &&& e.elem(i) == if model::is_empty_tag(d.nodes[i]) {
                ElementData { close_qname: x.qname, ..x }
            } else {
                x
            }
            &&& arena::forest(e.links)
            &&& ancestry::acyclic(e.links.up)
            &&& e.links.up == cut.up.push(Some(i))
        }),
{
    let b = edit::value_bytes(v, None);
    let n = d.nodes.len() as int;
    let e = edit::element_text_set(d, i, v);
    let cut = edit::emptied(d.links, i);
    let l = arena::extended(cut);
    let m = arena::inserted(l, i, 0, n);
    assert(model::node_ok(d, i));
    lemma_emptied_forest(d.links, i);
    lemma_emptied_acyclic(d.links, i);
    arena::lemma_extended(cut);
    arena::lemma_inserted(l, i, 0, n);
    ancestry::lemma_extend_acyclic(cut.up);
    copy::lemma_new_above_none(cut.up, i);
    ancestry::lemma_link_acyclic(l.up, i, n);
    assert(l.up =~= cut.up.push(None));
    assert(m.up =~= cut.up.push(Some(i)));
    assert(e.kids(i) =~= seq![n]);
    let w = d.nodes[i].flags.marks;
    arena::lemma_mark_bits();
    arena::lemma_marks(w, 4, 4);
    arena::lemma_marks(w & !4, 1, 4);
    arena::lemma_marks((w & !4) | 1, 2, 2);
    arena::lemma_marks((w & !4) | 1, 2, 4);
    arena::lemma_marks(w, 2, 2);
    arena::lemma_marks(w, 2, 4);
    assert(9u8 & 8u8 != 0) by (bit_vector);
    arena::lemma_marks(9, 2, 8);
    ancestry::lemma_lineage(m.up, i);
    assert(ancestry::lineage(m.up, i)[0] == i);
}

/// Links without the children of a node are links.
proof fn lemma_emptied_forest(l: Links, i: int)
    requires
        arena::forest(l),
        0 <= i < l.up.len(),
    ensures
        arena::forest(edit::emptied(l, i)),
{
    let m = edit::emptied(l, i);
    assert forall|p: int, k: int|
        0 <= p < m.kids.len() && 0 <= k < m.kids[p].len() implies #[trigger] arena::kid_at(
        m,
        p,
        k,
    ) by {
        assert(arena::kid_at(l, p, k));
    }
    assert forall|c: int| 0 <= c < m.up.len() implies #[trigger] arena::child_of(m, c) by {
        assert(arena::child_of(l, c));
    }
    assert forall|p: int| 0 <= p < m.kids.len() implies #[trigger] arena::distinct(m, p) by {
        assert(arena::distinct(l, p));
    }
}

/// A new text below an element leaves the ways up of all nodes alone that were
/// not cut off.
pub proof fn lemma_still_above(d: Dom, i: int, v: Seq<char>, k: int)
    requires
        model::wf(d),
        d.is_element(i),
        d.has_node(k),
    ensures
        ancestry::lineage(edit::element_text_set(d, i, v).links.up, k) == ancestry::lineage(
            edit::emptied(d.links, i).up,
            k,
        ),
{
    let cut = edit::emptied(d.links, i).up;
    lemma_element_text_made(d, i, v);
    lemma_emptied_acyclic(d.links, i);
    lemma_same_way(cut, cut.push(Some(i)), k);
}

proof fn lemma_element_text_touches(d: Dom, i: int, v: Seq<char>)
    requires
        model::wf(d),
        d.is_element(i),
    ensures
        locality::touched(d, edit::element_text_set(d, i, v), i),
        sited::sited(d) ==> sited::sited(edit::element_text_set(d, i, v)),
{
    let b = edit::value_bytes(v, None);
    let n = d.nodes.len() as int;
    let up = d.links.up;
    let e = edit::element_text_set(d, i, v);
    let c = Core {
        span: change::new_span(d, b),
        aux: Node::NO_AUX,
        kind: NodeKind::Text,
        flags: NodeFlags { marks: 9 },
    };
    let made = change::node_made(
        Dom { links: edit::emptied(d.links, i), dirty: true, ..change::arena_grown(d, b) },
        c,
    );
    let f = change::hooked(change::opened_up(made, i), i, 0, n);
    assert(e == change::chained(f, Some(i)));
    assert(model::node_ok(d, i));
    lemma_grown_holds(d, f, b);
    let m = d.nodes[i].flags.marks;
    arena::lemma_mark_bits();
    arena::lemma_marks(m, 4, 4);
    arena::lemma_marks(m & !4, 1, 4);
    assert(sited::hollow(f, i));
    assert(9u8 & 1u8 != 0) by (bit_vector);
    assert(f.nodes[n] == c);
    assert forall|x: int| d.has_node(x) && x != i implies #[trigger] locality::same_at(d, f, x) by {
        assert(model::node_ok(d, x));
        assert(model::apart(d, i, x));
        if d.nodes[x].kind is Element {
            assert(f.elem(x) == d.elem(x));
            assert(f.attrs_of(x) =~= d.attrs_of(x));
        }
    }
    let cut = edit::emptied(d.links, i).up;
    lemma_emptied_acyclic(d.links, i);
    lemma_element_text_made(d, i, v);
    lemma_still_above(d, i, v, i);
    ancestry::lemma_lineage(up, i);
    assert forall|x: int| 0 <= x < up.len() && ancestry::below(up, i, x) implies cut[x]
        == #[trigger] up[x] by {
        if up[x] == Some(i) {
            locality::lemma_above_less(up, i, x);
            ancestry::lemma_lineage(up, x);
        }
    }
    lemma_same_way(up, cut, i);
    lemma_told_from(d, f, i);
}

} // verus!
