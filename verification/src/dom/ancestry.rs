//! The way from a node to the root of its tree.
use vstd::prelude::*;

verus! {

/// Numbers that fall from a node to its parent.
pub open spec fn ranked(up: Seq<Option<int>>, r: Seq<nat>) -> bool {
    &&& r.len() == up.len()
    &&& forall|i: int|
        #![trigger up[i]]
        0 <= i < up.len() && up[i] is Some ==> 0 <= up[i]->0 < up.len() && r[up[i]->0] < r[i]
}

/// No node is above itself.
pub open spec fn acyclic(up: Seq<Option<int>>) -> bool {
    exists|r: Seq<nat>| ranked(up, r)
}

pub open spec fn rank_of(up: Seq<Option<int>>) -> Seq<nat> {
    choose|r: Seq<nat>| ranked(up, r)
}

/// The greatest of numbers.
pub open spec fn greatest(r: Seq<nat>) -> nat
    decreases r.len(),
{
    if r.len() == 0 {
        0
    } else if greatest(r.drop_last()) < r.last() {
        r.last()
    } else {
        greatest(r.drop_last())
    }
}

pub proof fn lemma_greatest(r: Seq<nat>, i: int)
    requires
        0 <= i < r.len(),
    ensures
        r[i] <= greatest(r),
    decreases r.len(),
{
    if i < r.len() - 1 {
        lemma_greatest(r.drop_last(), i);
        assert(r.drop_last()[i] == r[i]);
    }
}

/// A node, its parent, and so on to the root of its tree.
pub open spec fn lineage(up: Seq<Option<int>>, i: int) -> Seq<int>
    decreases rank_of(up)[i],
{
    match up[i] {
        Some(p) => if rank_of(up)[p] < rank_of(up)[i] {
            seq![i] + lineage(up, p)
        } else {
            seq![i]
        },
        None => seq![i],
    }
}

/// The way of a node that may be missing.
pub open spec fn lineage_of(up: Seq<Option<int>>, i: Option<int>) -> Seq<int> {
    match i {
        Some(k) => lineage(up, k),
        None => Seq::empty(),
    }
}

/// A node is below `c`, or it is `c`.
pub open spec fn below(up: Seq<Option<int>>, i: int, c: int) -> bool {
    lineage(up, i).contains(c)
}

/// The way from a node is the node and the way from its parent.
pub proof fn lemma_lineage(up: Seq<Option<int>>, i: int)
    requires
        acyclic(up),
        0 <= i < up.len(),
    ensures
        lineage(up, i) == seq![i] + lineage_of(up, up[i]),
        up[i] matches Some(p) ==> 0 <= p < up.len() && rank_of(up)[p] < rank_of(up)[i],
        forall|k: int|
            0 <= k < lineage(up, i).len() ==> 0 <= #[trigger] lineage(up, i)[k] < up.len(),
    decreases rank_of(up)[i],
{
    assert(ranked(up, rank_of(up)));
    if let Some(p) = up[i] {
        lemma_lineage(up, p);
    } else {
        assert(seq![i] + Seq::<int>::empty() =~= seq![i]);
    }
}

/// A node is below `c` when it is `c`, or its parent is below it.
pub proof fn lemma_below(up: Seq<Option<int>>, i: int, c: int)
    requires
        acyclic(up),
        0 <= i < up.len(),
    ensures
        below(up, i, c) == (i == c || match up[i] {
            Some(p) => below(up, p, c),
            None => false,
        }),
{
    lemma_lineage(up, i);
    let s = lineage(up, i);
    let t = lineage_of(up, up[i]);
    if s.contains(c) && i != c {
        let k = s.index_of(c);
        assert(t[k - 1] == c);
    }
    if i == c {
        assert(s[0] == c);
    }
    if t.contains(c) {
        let k = t.index_of(c);
        assert(s[k + 1] == c);
    }
}

/// The numbers when the tree of `c` hangs below `p`.
spec fn lifted(up: Seq<Option<int>>, r: Seq<nat>, p: int, c: int) -> Seq<nat> {
    Seq::new(
        r.len(),
        |i: int|
            if below(up, i, c) {
                r[i] + r[p] + 1
            } else {
                r[i]
            },
    )
}

/// A tree can hang below a node that is not in it.
pub proof fn lemma_link_acyclic(up: Seq<Option<int>>, p: int, c: int)
    requires
        acyclic(up),
        0 <= p < up.len(),
        0 <= c < up.len(),
        up[c] is None,
        !below(up, p, c),
    ensures
        acyclic(up.update(c, Some(p))),
{
    let r = rank_of(up);
    assert(ranked(up, r));
    let v = up.update(c, Some(p));
    let q = lifted(up, r, p, c);
    assert forall|i: int|
        #![trigger v[i]]
        0 <= i < v.len() && v[i] is Some implies 0 <= v[i]->0 < v.len() && q[v[i]->0] < q[i] by {
        lemma_below(up, i, c);
        if i != c {
            assert(up[i] is Some);
        }
    }
    assert(ranked(v, q));
}

pub proof fn lemma_unlink_acyclic(up: Seq<Option<int>>, c: int)
    requires
        acyclic(up),
        0 <= c < up.len(),
    ensures
        acyclic(up.update(c, None)),
{
    let r = rank_of(up);
    assert(ranked(up, r));
    let v = up.update(c, None);
    assert forall|i: int|
        #![trigger v[i]]
        0 <= i < v.len() && v[i] is Some implies 0 <= v[i]->0 < v.len() && r[v[i]->0] < r[i] by {
        assert(up[i] is Some);
    }
    assert(ranked(v, r));
}

pub proof fn lemma_extend_acyclic(up: Seq<Option<int>>)
    requires
        acyclic(up),
    ensures
        acyclic(up.push(None)),
{
    let r = rank_of(up);
    assert(ranked(up, r));
    let v = up.push(None);
    let q = r.push(0);
    assert forall|i: int|
        #![trigger v[i]]
        0 <= i < v.len() && v[i] is Some implies 0 <= v[i]->0 < v.len() && q[v[i]->0] < q[i] by {
        assert(up[i] is Some);
    }
    assert(ranked(v, q));
}

/// No node stands twice on the way to the root.
pub proof fn lemma_lineage_distinct(up: Seq<Option<int>>, i: int)
    requires
        acyclic(up),
        0 <= i < up.len(),
    ensures
        lineage(up, i).no_duplicates(),
        forall|k: int|
            0 < k < lineage(up, i).len() ==> rank_of(up)[#[trigger] lineage(up, i)[k]]
                < rank_of(up)[i],
    decreases rank_of(up)[i],
{
    lemma_lineage(up, i);
    let s = lineage(up, i);
    if let Some(p) = up[i] {
        lemma_lineage_distinct(up, p);
        lemma_lineage(up, p);
        let t = lineage(up, p);
        assert forall|k: int| 0 < k < s.len() implies rank_of(up)[#[trigger] s[k]] < rank_of(
            up,
        )[i] by {
            assert(s[k] == t[k - 1]);
        }
        assert forall|a: int, b: int|
            0 <= a < s.len() && 0 <= b < s.len() && a != b implies s[a] != s[b] by {
            if a > 0 && b > 0 {
                assert(s[a] == t[a - 1] && s[b] == t[b - 1]);
            }
        }
    }
}

/// A node above another one has only what is above that one above it.
pub proof fn lemma_lineage_closed(up: Seq<Option<int>>, i: int, k: int)
    requires
        acyclic(up),
        0 <= i < up.len(),
        0 <= k < lineage(up, i).len(),
    ensures
        match up[lineage(up, i)[k]] {
            Some(p) => lineage(up, i).contains(p),
            None => true,
        },
    decreases rank_of(up)[i],
{
    lemma_lineage(up, i);
    let s = lineage(up, i);
    if let Some(p) = up[i] {
        lemma_lineage(up, p);
        let t = lineage(up, p);
        if k == 0 {
            assert(t[0] == p);
            assert(s[1] == p);
        } else {
            assert(s[k] == t[k - 1]);
            lemma_lineage_closed(up, p, k - 1);
            if let Some(q) = up[t[k - 1]] {
                let j = t.index_of(q);
                assert(s[j + 1] == q);
            }
        }
    }
}

} // verus!
