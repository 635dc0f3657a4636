//! What the path to a node says.
use vstd::prelude::*;
use vstd::string::*;

use crate::dom::ancestry;
use crate::dom::arena;
use crate::dom::arena::NodeKind;
use crate::dom::model;
use crate::dom::model::Dom;
use crate::dom::query;
use crate::text;

verus! {

/// Two nodes that a path cannot tell apart but by a number: elements whose names
/// are written alike, prefixes and all, or nodes of one other kind.
pub open spec fn called_same(d: Dom, a: int, b: int) -> bool {
    match (d.nodes[a].kind, d.nodes[b].kind) {
        (NodeKind::Element, NodeKind::Element) => query::qname_of(d, a) == query::qname_of(d, b),
        (x, y) => x == y,
    }
}

/// How many of the nodes are called like `c`.
pub open spec fn namesakes(d: Dom, s: Seq<int>, c: int) -> nat {
    s.filter(|x: int| called_same(d, x, c)).len()
}

proof fn lemma_count(d: Dom, s: Seq<int>, c: int)
    ensures
        query::count_alike(d, s, c) == namesakes(d, s, c),
    decreases s.len(),
{
    reveal(Seq::filter);
    if s.len() > 0 {
        lemma_count(d, s.drop_last(), c);
    }
}

proof fn lemma_one(d: Dom, s: Seq<int>, c: int, j: int)
    requires
        0 <= j < s.len(),
        called_same(d, s[j], c),
    ensures
        query::count_alike(d, s, c) >= 1,
    decreases s.len(),
{
    if j < s.len() - 1 {
        lemma_one(d, s.drop_last(), c, j);
    }
}

proof fn lemma_two(d: Dom, s: Seq<int>, c: int, i: int, j: int)
    requires
        0 <= i < j < s.len(),
        called_same(d, s[i], c),
        called_same(d, s[j], c),
    ensures
        query::count_alike(d, s, c) >= 2,
    decreases s.len(),
{
    if j < s.len() - 1 {
        lemma_two(d, s.drop_last(), c, i, j);
    } else {
        lemma_one(d, s.drop_last(), c, i);
    }
}

proof fn lemma_none(d: Dom, s: Seq<int>, c: int)
    requires
        forall|j: int| 0 <= j < s.len() ==> !called_same(d, #[trigger] s[j], c),
    ensures
        query::count_alike(d, s, c) == 0,
    decreases s.len(),
{
    if s.len() > 0 {
        let t = s.drop_last();
        assert forall|j: int| 0 <= j < t.len() implies !called_same(d, #[trigger] t[j], c) by {
            assert(t[j] == s[j]);
        }
        lemma_none(d, t, c);
        assert(!called_same(d, s[s.len() - 1], c));
    }
}

proof fn lemma_at_most_one(d: Dom, s: Seq<int>, c: int, k: int)
    requires
        0 <= k < s.len(),
        forall|j: int| 0 <= j < s.len() && j != k ==> !called_same(d, #[trigger] s[j], c),
    ensures
        query::count_alike(d, s, c) <= 1,
    decreases s.len(),
{
    let t = s.drop_last();
    assert forall|j: int| 0 <= j < t.len() && j != k implies !called_same(
        d,
        #[trigger] t[j],
        c,
    ) by {
        assert(t[j] == s[j]);
    }
    if k < s.len() - 1 {
        lemma_at_most_one(d, t, c, k);
        assert(!called_same(d, s[s.len() - 1], c));
    } else {
        lemma_none(d, t, c);
    }
}

/// What a node is called.
pub open spec fn called(d: Dom, i: int) -> Seq<char> {
    match d.nodes[i].kind {
        NodeKind::Element => text::lossy(query::qname_of(d, i)),
        NodeKind::Text => "#text"@,
        NodeKind::CData => "#cdata"@,
        NodeKind::Comment => "#comment"@,
        NodeKind::Pi => "#pi"@,
        NodeKind::Decl => "#decl"@,
        NodeKind::Document => "#?"@,
    }
}

/// A step of a path is what the node is called. Where a sibling is called the
/// same, a number follows: one more than there are such siblings before it.
pub proof fn lemma_step_is_numbered(d: Dom, p: int, k: int)
    requires
        model::wf(d),
        d.has_node(p),
        0 <= k < d.kids(p).len(),
    ensures
        ({
            let s = d.kids(p);
            let c = s[k];
            query::step_text(d, p, c) == if exists|j: int|
                0 <= j < s.len() && j != k && called_same(d, #[trigger] s[j], c) {
                called(d, c) + seq!['['] + text::decimal(1 + namesakes(d, s.take(k), c)) + seq![']']
            } else {
                called(d, c)
            }
        }),
{
    let s = d.kids(p);
    let c = s[k];
    assert(arena::distinct(d.links, p));
    assert(s.index_of(c) == k) by {
        let i = s.index_of(c);
        assert(s[i] == c);
    }
    lemma_count(d, s.take(k), c);
    assert(s.take(k + 1).drop_last() =~= s.take(k));
    if exists|j: int| 0 <= j < s.len() && j != k && called_same(d, #[trigger] s[j], c) {
        let j = choose|j: int| 0 <= j < s.len() && j != k && called_same(d, #[trigger] s[j], c);
        if j < k {
            lemma_two(d, s, c, j, k);
        } else {
            lemma_two(d, s, c, k, j);
        }
    } else {
        lemma_at_most_one(d, s, c, k);
    }
}

/// Two children that are called the same have different numbers, and the later
/// one the greater number.
pub proof fn lemma_numbers_grow(d: Dom, p: int, i: int, j: int)
    requires
        d.has_node(p),
        0 <= i < j < d.kids(p).len(),
        called_same(d, d.kids(p)[i], d.kids(p)[j]),
    ensures
        namesakes(d, d.kids(p).take(i), d.kids(p)[i]) < namesakes(
            d,
            d.kids(p).take(j),
            d.kids(p)[j],
        ),
{
    let s = d.kids(p);
    let c = s[j];
    lemma_count(d, s.take(i), s[i]);
    lemma_count(d, s.take(j), c);
    lemma_same_count(d, s.take(i), s[i], c);
    lemma_more(d, s, c, i, j);
}

proof fn lemma_same_count(d: Dom, s: Seq<int>, a: int, b: int)
    requires
        called_same(d, a, b),
    ensures
        query::count_alike(d, s, a) == query::count_alike(d, s, b),
    decreases s.len(),
{
    if s.len() > 0 {
        lemma_same_count(d, s.drop_last(), a, b);
    }
}

proof fn lemma_more(d: Dom, s: Seq<int>, c: int, i: int, j: int)
    requires
        0 <= i < j <= s.len(),
        called_same(d, s[i], c),
    ensures
        query::count_alike(d, s.take(i), c) < query::count_alike(d, s.take(j), c),
    decreases j,
{
    assert(s.take(j).drop_last() =~= s.take(j - 1));
    if i < j - 1 {
        lemma_more(d, s, c, i, j - 1);
    }
}

/// The path to the root of a tree is `/`.
pub proof fn lemma_path_begins(d: Dom, i: int)
    requires
        model::wf(d),
        d.has_node(i),
        d.up(i) is None,
    ensures
        query::path_text(d, i) == seq!['/'],
{
    ancestry::lemma_lineage(d.links.up, i);
}

/// The path to a child is that to its parent and one more step.
pub proof fn lemma_path_goes_on(d: Dom, c: int)
    requires
        model::wf(d),
        d.has_node(c),
        d.up(c) is Some,
    ensures
        ({
            let p = d.up(c)->0;
            let last = seq!['/'] + query::step_text(d, p, c);
            query::path_text(d, c) == if d.up(p) is None {
                last
            } else {
                query::path_text(d, p) + last
            }
        }),
{
    let up = d.links.up;
    let p = d.up(c)->0;
    let way = ancestry::lineage(up, c);
    ancestry::lemma_lineage(up, c);
    ancestry::lemma_lineage(up, p);
    assert(way.skip(1) =~= ancestry::lineage(up, p));
    let last = seq!['/'] + query::step_text(d, p, c);
    let t = query::steps_text(d, ancestry::lineage(up, p));
    assert(query::steps_text(d, way) =~= t + last);
    if d.up(p) is Some {
        let q = d.up(p)->0;
        ancestry::lemma_lineage(up, q);
        let wp = ancestry::lineage(up, p);
        assert(t =~= query::steps_text(d, wp.skip(1)) + seq!['/'] + query::step_text(
            d,
            wp[1],
            wp[0],
        ));
    } else {
        assert(t =~= Seq::<char>::empty());
        assert(t + last =~= last);
    }
}

} // verus!
