//! What a break in a document is.
use vstd::prelude::*;

use crate::dom::coverage;
use crate::dom::coverage::Gap;
use crate::dom::model::Dom;

verus! {

/// Where the bytes of the children of a node end, before the child `k`.
pub open spec fn left_of(d: Dom, i: int, k: int) -> int {
    if k == 0 {
        coverage::inner_start(d, i)
    } else {
        d.nodes[d.kids(i)[k - 1]].span.end as int
    }
}

/// Where what comes next begins: the child `k`, or the closing tag.
pub open spec fn right_of(d: Dom, i: int, k: int) -> int {
    if k < d.kids(i).len() {
        d.nodes[d.kids(i)[k]].span.start as int
    } else {
        coverage::inner_end(d, i)
    }
}

/// There is no break before the child `k`, or behind the last one.
pub open spec fn closes(d: Dom, i: int, k: int) -> bool {
    left_of(d, i, k) == right_of(d, i, k)
}

/// The children of a node lie side by side, from its opening tag to its closing
/// tag. A node without children need not hold anything.
pub open spec fn unbroken(d: Dom, i: int) -> bool {
    d.kids(i).len() > 0 ==> forall|k: int| 0 <= k <= d.kids(i).len() ==> #[trigger] closes(d, i, k)
}

/// The break is the one before the child `k` of a node.
pub open spec fn is_break(d: Dom, g: Gap, k: int) -> bool {
    let i = g.parent;
    &&& 0 <= k <= d.kids(i).len()
    &&& !closes(d, i, k)
    &&& if k < d.kids(i).len() {
        g.child == Some(d.kids(i)[k]) && g.expected == left_of(d, i, k) && g.found == right_of(
            d,
            i,
            k,
        )
    } else {
        g.child is None && g.expected == right_of(d, i, k) && g.found == left_of(d, i, k)
    }
}

proof fn lemma_gap_from(d: Dom, i: int, k: int)
    requires
        0 <= k <= d.kids(i).len(),
    ensures
        match coverage::gap_from(d, i, k, left_of(d, i, k)) {
            None => forall|j: int| k <= j <= d.kids(i).len() ==> #[trigger] closes(d, i, j),
            Some(g) => g.parent == i && exists|m: int|
                k <= m && #[trigger] is_break(d, g, m) && forall|j: int|
                    k <= j < m ==> #[trigger] closes(d, i, j),
        },
    decreases d.kids(i).len() - k,
{
    let at = left_of(d, i, k);
    if k < d.kids(i).len() && closes(d, i, k) {
        lemma_gap_from(d, i, k + 1);
        assert(left_of(d, i, k + 1) == d.nodes[d.kids(i)[k]].span.end as int);
        match coverage::gap_from(d, i, k + 1, left_of(d, i, k + 1)) {
            None => {},
            Some(g) => {
                let m = choose|m: int|
                    k + 1 <= m && #[trigger] is_break(d, g, m) && forall|j: int|
                        k + 1 <= j < m ==> #[trigger] closes(d, i, j);
                assert(is_break(d, g, m));
            },
        }
    } else if !closes(d, i, k) {
        let g = coverage::gap_from(d, i, k, at)->0;
        assert(is_break(d, g, k));
    }
}

proof fn lemma_first_gap_from(d: Dom, i: int)
    requires
        0 <= i <= d.nodes.len(),
    ensures
        match coverage::first_gap(d, i) {
            None => forall|j: int| i <= j < d.nodes.len() ==> #[trigger] unbroken(d, j),
            Some(g) => i <= g.parent < d.nodes.len() && d.kids(g.parent).len() > 0 && (forall|j: int|
                i <= j < g.parent ==> #[trigger] unbroken(d, j)) && exists|m: int| #[trigger]
                is_break(d, g, m) && forall|j: int|
                    0 <= j < m ==> #[trigger] closes(d, g.parent, j),
        },
    decreases d.nodes.len() - i,
{
    if i < d.nodes.len() {
        if d.kids(i).len() > 0 {
            lemma_gap_from(d, i, 0);
        }
        if coverage::gap_in(d, i) is None {
            assert(unbroken(d, i));
            lemma_first_gap_from(d, i + 1);
        } else {
            let g = coverage::gap_in(d, i)->0;
            let m = choose|m: int|
                0 <= m && #[trigger] is_break(d, g, m) && forall|j: int|
                    0 <= j < m ==> #[trigger] closes(d, i, j);
            assert(is_break(d, g, m));
        }
    }
}

/// A document has no break exactly when the children of every node lie side by
/// side between its tags. The break that is told is the first one: all nodes
/// before its parent are unbroken, and so are the children before it; it says
/// where bytes should have gone on and where they do.
pub proof fn lemma_first_break_is_told(d: Dom)
    ensures
        match coverage::first_gap(d, 0) {
            None => forall|j: int| 0 <= j < d.nodes.len() ==> #[trigger] unbroken(d, j),
            Some(g) => 0 <= g.parent < d.nodes.len() && d.kids(g.parent).len() > 0 && (forall|j: int|
                0 <= j < g.parent ==> #[trigger] unbroken(d, j)) && exists|m: int| #[trigger]
                is_break(d, g, m) && forall|j: int|
                    0 <= j < m ==> #[trigger] closes(d, g.parent, j),
        },
{
    lemma_first_gap_from(d, 0);
}

} // verus!
