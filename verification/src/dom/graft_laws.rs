//! Where nodes hang before and after an edit.
use vstd::prelude::*;

use crate::dom::ancestry;
use crate::dom::arena;
use crate::dom::edit;
use crate::dom::model;
use crate::dom::model::Dom;
use crate::dom::parse;
use crate::dom::query;
use crate::xml::name;

verus! {

/// Every node of the way is the parent of the one before it.
pub open spec fn leads_up(d: Dom, way: Seq<int>) -> bool {
    forall|k: int|
        0 <= k < way.len() - 1 ==> d.has_node(#[trigger] way[k]) && d.up(way[k]) == Some(way[k + 1])
}

/// A node is above another one, or is that one: a way leads up to it.
pub open spec fn is_above(d: Dom, c: int, p: int) -> bool {
    exists|way: Seq<int>|
        #![trigger leads_up(d, way)]
        way.len() > 0 && way[0] == p && way.last() == c && leads_up(d, way)
}

proof fn lemma_way_is_below(d: Dom, way: Seq<int>)
    requires
        model::wf(d),
        way.len() > 0,
        d.has_node(way[0]),
        leads_up(d, way),
    ensures
        ancestry::below(d.links.up, way[0], way.last()),
    decreases way.len(),
{
    let up = d.links.up;
    ancestry::lemma_below(up, way[0], way.last());
    if way.len() > 1 {
        let t = way.skip(1);
        assert(d.up(way[0]) == Some(way[1]));
        ancestry::lemma_lineage(up, way[0]);
        assert forall|k: int| 0 <= k < t.len() - 1 implies d.has_node(#[trigger] t[k]) && d.up(t[k])
            == Some(t[k + 1]) by {
            assert(way[k + 1] == t[k]);
            assert(way[k + 1 + 1] == t[k + 1]);
        }
        lemma_way_is_below(d, t);
        assert(t.last() == way.last());
    }
}

proof fn lemma_lineage_leads_up(d: Dom, i: int)
    requires
        model::wf(d),
        d.has_node(i),
    ensures
        leads_up(d, ancestry::lineage(d.links.up, i)),
        ancestry::lineage(d.links.up, i).len() > 0,
        ancestry::lineage(d.links.up, i)[0] == i,
    decreases ancestry::rank_of(d.links.up)[i],
{
    let up = d.links.up;
    let s = ancestry::lineage(up, i);
    ancestry::lemma_lineage(up, i);
    if let Some(p) = up[i] {
        lemma_lineage_leads_up(d, p);
        let t = ancestry::lineage(up, p);
        assert forall|k: int| 0 <= k < s.len() - 1 implies d.has_node(#[trigger] s[k]) && d.up(s[k])
            == Some(s[k + 1]) by {
            assert(s[k + 1] == t[k]);
            if k > 0 {
                assert(s[k] == t[k - 1]);
                assert(d.up(t[k - 1]) == Some(t[k - 1 + 1]));
            }
        }
    }
}

proof fn lemma_below_is_above(d: Dom, p: int, c: int)
    requires
        model::wf(d),
        d.has_node(p),
    ensures
        ancestry::below(d.links.up, p, c) == is_above(d, c, p),
{
    let s = ancestry::lineage(d.links.up, p);
    lemma_lineage_leads_up(d, p);
    if s.contains(c) {
        let k = s.index_of(c);
        let way = s.take(k + 1);
        assert forall|j: int| 0 <= j < way.len() - 1 implies d.has_node(#[trigger] way[j]) && d.up(
            way[j],
        ) == Some(way[j + 1]) by {
            assert(s[j] == way[j]);
            assert(s[j + 1] == way[j + 1]);
        }
        assert(leads_up(d, way));
    }
    if is_above(d, c, p) {
        let way = choose|way: Seq<int>|
            #![trigger leads_up(d, way)]
            way.len() > 0 && way[0] == p && way.last() == c && leads_up(d, way);
        lemma_way_is_below(d, way);
    }
}

/// A node can be hung on another one exactly when that one is an element or the
/// document, and the node is not the document, hangs on nothing, and is not
/// above the other one.
pub proof fn lemma_what_can_be_hung(d: Dom, p: int, c: int)
    requires
        model::wf(d),
    ensures
        edit::attach_fault(d, p, c) is None == (d.has_node(p) && d.has_node(c) && (
        d.nodes[p].kind is Element || d.nodes[p].kind is Document) && c != d.root && d.up(c) is None
            && !is_above(d, c, p)),
{
    if d.has_node(p) {
        lemma_below_is_above(d, p, c);
    }
}

/// The children of a node, and the parents, are those of another document.
pub open spec fn hangs_same(d: Dom, e: Dom, i: int) -> bool {
    e.kids(i) == d.kids(i)
}

/// A node that was appended is the last child; its parent keeps the others
/// before it, and no other node gets or loses a child.
pub proof fn lemma_appended_is_last(d: Dom, p: int, c: int)
    requires
        model::wf(d),
    ensures
        match edit::child_appended(d, p, c) {
            Ok(e) => {
                &&& e.nodes.len() == d.nodes.len()
                &&& e.kids(p) == d.kids(p) + seq![c]
                &&& e.up(c) == Some(p)
                &&& forall|i: int| d.has_node(i) && i != p ==> #[trigger] hangs_same(d, e, i)
                &&& forall|i: int| d.has_node(i) && i != c ==> #[trigger] e.up(i) == d.up(i)
            },
            Err(_) => true,
        },
{
    if let Ok(e) = edit::child_appended(d, p, c) {
        assert(e.kids(p) =~= d.kids(p) + seq![c]);
    }
}

/// A node that was put before another one is the child right before it.
pub proof fn lemma_inserted_is_before(d: Dom, anchor: int, c: int)
    requires
        model::wf(d),
    ensures
        match edit::child_inserted(d, anchor, c) {
            Ok(e) => {
                let p = d.up(anchor)->0;
                &&& e.nodes.len() == d.nodes.len()
                &&& exists|k: int|
                    0 <= k < d.kids(p).len() && #[trigger] d.kids(p)[k] == anchor && e.kids(p)
                        == d.kids(p).take(k) + seq![c] + d.kids(p).skip(k)
                &&& e.up(c) == Some(p)
                &&& forall|i: int| d.has_node(i) && i != p ==> #[trigger] hangs_same(d, e, i)
                &&& forall|i: int| d.has_node(i) && i != c ==> #[trigger] e.up(i) == d.up(i)
            },
            Err(_) => true,
        },
{
    if let Ok(e) = edit::child_inserted(d, anchor, c) {
        let p = d.up(anchor)->0;
        arena::lemma_place(d.links, anchor);
        let k = arena::place_of(d.links, anchor);
        assert(d.kids(p)[k] == anchor);
        assert(e.kids(p) =~= d.kids(p).take(k) + seq![c] + d.kids(p).skip(k));
    }
}

/// A node that was removed hangs on nothing, its parent keeps the other
/// children in their order, and the node keeps its own.
pub proof fn lemma_removed_hangs_on_nothing(d: Dom, c: int)
    requires
        model::wf(d),
    ensures
        match edit::node_removed(d, c) {
            Ok(e) => {
                let p = d.up(c)->0;
                &&& d.has_node(c) && c != d.root && d.up(c) is Some
                &&& e.nodes.len() == d.nodes.len()
                &&& exists|k: int|
                    0 <= k < d.kids(p).len() && #[trigger] d.kids(p)[k] == c && e.kids(p)
                        == d.kids(p).take(k) + d.kids(p).skip(k + 1)
                &&& e.up(c) is None
                &&& forall|i: int| d.has_node(i) && i != p ==> #[trigger] hangs_same(d, e, i)
                &&& forall|i: int| d.has_node(i) && i != c ==> #[trigger] e.up(i) == d.up(i)
            },
            Err(_) => c == d.root || !d.has_node(c) || d.up(c) is None,
        },
{
    if let Ok(e) = edit::node_removed(d, c) {
        let p = d.up(c)->0;
        arena::lemma_place(d.links, c);
        let k = arena::place_of(d.links, c);
        assert(d.kids(p)[k] == c);
        assert(e.kids(p) =~= d.kids(p).take(k) + d.kids(p).skip(k + 1));
    }
}

/// A new element has the name that was asked for, in no namespace, no
/// attributes and no children, and hangs on nothing. All else stays.
pub proof fn lemma_new_element_is_bare(d: Dom, q: Seq<char>)
    requires
        model::wf(d),
    ensures
        match edit::element_added(d, q) {
            Ok(e) => {
                let n = d.nodes.len() as int;
                let qb = vstd::utf8::encode_utf8(q);
                &&& e.nodes.len() == n + 1
                &&& e.nodes.take(n) == d.nodes
                &&& e.nodes[n].kind is Element
                &&& query::qname_of(e, n) == qb
                &&& query::local_name_of(e, n) == name::local(qb)
                &&& query::uri_of(e, n) is None
                &&& e.attrs_of(n).len() == 0
                &&& e.kids(n).len() == 0
                &&& e.up(n) is None
                &&& forall|i: int|
                    d.has_node(i) ==> #[trigger] hangs_same(d, e, i) && e.up(i) == d.up(i)
            },
            Err(_) => true,
        },
{
    if let Ok(e) = edit::element_added(d, q) {
        let n = d.nodes.len() as int;
        let qb = vstd::utf8::encode_utf8(q);
        assert(1u8 & 1u8 != 0) by (bit_vector);
        assert(e.nodes.take(n) =~= d.nodes);
        assert(query::qname_of(e, n) =~= qb);
        parse::lemma_local_len(qb);
        name::lemma_find(qb, 0, 58);
        assert(query::local_name_of(e, n) =~= name::local(qb));
    }
}

} // verus!
