//! Changing the links between nodes.
use vstd::prelude::*;

use crate::dom::arena;
use crate::dom::arena::{Links, Node, NodeId};

verus! {


/// Makes `child` the last child of `parent`.
pub(crate) fn link_last(nodes: &mut Vec<Node>, parent: NodeId, child: NodeId, l: Ghost<Links>)
    requires
        arena::forest(l@),
        arena::linked(old(nodes)@, l@),
        0 <= parent.num() < old(nodes)@.len(),
        0 <= child.num() < old(nodes)@.len(),
        l@.up[child.num()] is None,
    ensures
        arena::linked(
            final(nodes)@,
            arena::inserted(
                l@,
                parent.num(),
                l@.kids[parent.num()].len() as int,
                child.num(),
            ),
        ),
        arena::cores(final(nodes)@) == arena::cores(old(nodes)@),
{
    let ghost before = nodes@;
    let p: usize = parent.index();
    let c: usize = child.index();
    let prev: Option<NodeId> = nodes[p].last_child;
    nodes[c].parent = Some(parent);
    nodes[c].prev = prev;
    nodes[c].next = None;
    match prev {
        Some(q) => {
            proof {
                let s = l@.kids[p as int];
                assert(arena::ends_ok(before, l@, p as int));
                assert(arena::kid_at(l@, p as int, s.len() - 1));
            }
            nodes[q.index()].next = Some(child);
        },
        None => {
            nodes[p].first_child = Some(child);
        },
    }
    nodes[p].last_child = Some(child);
    proof {
        lemma_linked_last(before, nodes@, l@, parent, child, prev);
        assert(arena::cores(nodes@) =~= arena::cores(before));
    }
}

proof fn lemma_linked_last(
    before: Seq<Node>,
    after: Seq<Node>,
    l: Links,
    parent: NodeId,
    child: NodeId,
    prev: Option<NodeId>,
)
    requires
        arena::forest(l),
        arena::linked(before, l),
        0 <= parent.num() < before.len(),
        0 <= child.num() < before.len(),
        l.up[child.num()] is None,
        prev == before[parent.num()].last_child,
        after.len() == before.len(),
        forall|i: int|
            #![trigger after[i]]
            0 <= i < before.len() ==> after[i].parent == (if i == child.num() {
                Some(parent)
            } else {
                before[i].parent
            }) && after[i].prev == (if i == child.num() {
                prev
            } else {
                before[i].prev
            }) && after[i].next == (if Some(i) == arena::num_of(prev) {
                Some(child)
            } else if i == child.num() {
                None
            } else {
                before[i].next
            }) && after[i].first_child == (if i == parent.num() && prev is None {
                Some(child)
            } else {
                before[i].first_child
            }) && after[i].last_child == (if i == parent.num() {
                Some(child)
            } else {
                before[i].last_child
            }),
    ensures
        arena::linked(
            after,
            arena::inserted(l, parent.num(), l.kids[parent.num()].len() as int, child.num()),
        ),
{
    let p = parent.num();
    let c = child.num();
    let s = l.kids[p];
    let n = s.len() as int;
    let m = arena::inserted(l, p, n, c);
    let t = m.kids[p];
    assert(t =~= s.push(c));
    assert(arena::ends_ok(before, l, p));
    assert forall|i: int| 0 <= i < after.len() implies #[trigger] arena::ends_ok(after, m, i) by {
        assert(arena::ends_ok(before, l, i));
        assert(after[i].parent == after[i].parent);
        if Some(i) == arena::num_of(prev) {
            assert(arena::kid_at(l, p, n - 1));
        }
    }
    assert forall|q: int, k: int|
        0 <= q < m.kids.len() && 0 <= k < m.kids[q].len() implies #[trigger] arena::sides_ok(
        after,
        m,
        q,
        k,
    ) by {
        let x0 = m.kids[q][k];
        assert(after[x0].parent == after[x0].parent);
        if q == p {
            if k < n {
                assert(t[k] == l.kids[p][k]);
                assert(arena::kid_at(l, p, k));
                assert(arena::sides_ok(before, l, p, k));
                if k == n - 1 {
                    assert(arena::num_of(prev) == Some(s[k]));
                } else {
                    assert(arena::distinct(l, p));
                    if n > 0 {
                        assert(s[k] != s[n - 1]);
                    }
                }
            } else {
                assert(t[k] == c);
                if n > 0 {
                    assert(arena::kid_at(l, p, n - 1));
                }
            }
        } else {
            assert(arena::kid_at(l, q, k));
            assert(arena::sides_ok(before, l, q, k));
            if n > 0 {
                assert(arena::kid_at(l, p, n - 1));
            }
        }
    }
}

/// Puts `child` right before `anchor`.
pub(crate) fn link_before(
    nodes: &mut Vec<Node>,
    parent: NodeId,
    anchor: NodeId,
    child: NodeId,
    l: Ghost<Links>,
)
    requires
        arena::forest(l@),
        arena::linked(old(nodes)@, l@),
        0 <= anchor.num() < old(nodes)@.len(),
        0 <= child.num() < old(nodes)@.len(),
        l@.up[anchor.num()] == Some(parent.num()),
        l@.up[child.num()] is None,
    ensures
        arena::linked(
            final(nodes)@,
            arena::inserted(
                l@,
                parent.num(),
                arena::place_of(l@, anchor.num()),
                child.num(),
            ),
        ),
        arena::cores(final(nodes)@) == arena::cores(old(nodes)@),
{
    let ghost before = nodes@;
    proof {
        arena::lemma_place(l@, anchor.num());
    }
    let p: usize = parent.index();
    let a: usize = anchor.index();
    let c: usize = child.index();
    let prev: Option<NodeId> = nodes[a].prev;
    nodes[c].parent = Some(parent);
    nodes[c].prev = prev;
    nodes[c].next = Some(anchor);
    nodes[a].prev = Some(child);
    match prev {
        Some(q) => {
            proof {
                let k = arena::place_of(l@, anchor.num());
                assert(arena::sides_ok(before, l@, p as int, k));
                assert(arena::kid_at(l@, p as int, k - 1));
            }
            nodes[q.index()].next = Some(child);
        },
        None => {
            nodes[p].first_child = Some(child);
        },
    }
    proof {
        lemma_linked_before(before, nodes@, l@, parent, anchor, child, prev);
        assert(arena::cores(nodes@) =~= arena::cores(before));
    }
}

proof fn lemma_linked_before(
    before: Seq<Node>,
    after: Seq<Node>,
    l: Links,
    parent: NodeId,
    anchor: NodeId,
    child: NodeId,
    prev: Option<NodeId>,
)
    requires
        arena::forest(l),
        arena::linked(before, l),
        0 <= anchor.num() < before.len(),
        0 <= child.num() < before.len(),
        l.up[anchor.num()] == Some(parent.num()),
        l.up[child.num()] is None,
        prev == before[anchor.num()].prev,
        after.len() == before.len(),
        forall|i: int|
            #![trigger after[i]]
            0 <= i < before.len() ==> after[i].parent == (if i == child.num() {
                Some(parent)
            } else {
                before[i].parent
            }) && after[i].prev == (if i == anchor.num() {
                Some(child)
            } else if i == child.num() {
                prev
            } else {
                before[i].prev
            }) && after[i].next == (if Some(i) == arena::num_of(prev) {
                Some(child)
            } else if i == child.num() {
                Some(anchor)
            } else {
                before[i].next
            }) && after[i].first_child == (if i == parent.num() && prev is None {
                Some(child)
            } else {
                before[i].first_child
            }) && after[i].last_child == before[i].last_child,
    ensures
        arena::linked(
            after,
            arena::inserted(l, parent.num(), arena::place_of(l, anchor.num()), child.num()),
        ),
{
    arena::lemma_place(l, anchor.num());
    let p = parent.num();
    let a = anchor.num();
    let c = child.num();
    let s = l.kids[p];
    let n = s.len() as int;
    let j = arena::place_of(l, a);
    let m = arena::inserted(l, p, j, c);
    let t = m.kids[p];
    assert(arena::distinct(l, p));
    assert(arena::sides_ok(before, l, p, j));
    assert(arena::num_of(prev) == arena::item(s, j - 1));
    assert forall|i: int| 0 <= i < after.len() implies #[trigger] arena::ends_ok(after, m, i) by {
        assert(arena::ends_ok(before, l, i));
        assert(after[i].parent == after[i].parent);
        if Some(i) == arena::num_of(prev) {
            assert(arena::kid_at(l, p, j - 1));
        }
        if i == p {
            assert(t[n] == s[n - 1]);
            if j > 0 {
                assert(t[0] == s[0]);
            }
        }
    }
    assert forall|q: int, k: int|
        0 <= q < m.kids.len() && 0 <= k < m.kids[q].len() implies #[trigger] arena::sides_ok(
        after,
        m,
        q,
        k,
    ) by {
        let x0 = m.kids[q][k];
        assert(after[x0].parent == after[x0].parent);
        if j > 0 {
            assert(arena::kid_at(l, p, j - 1));
        }
        if q == p {
            if k == j {
                assert(t[k] == c);
                if j > 0 {
                    assert(t[j - 1] == s[j - 1]);
                }
                assert(t[j + 1] == s[j]);
            } else {
                let x = if k < j {
                    k
                } else {
                    k - 1
                };
                assert(t[k] == l.kids[p][x]);
                assert(arena::kid_at(l, p, x));
                assert(arena::sides_ok(before, l, p, x));
                if x != j {
                    assert(s[x] != s[j]);
                }
                if x != j - 1 && j > 0 {
                    assert(s[x] != s[j - 1]);
                }
                if k > 0 {
                    assert(t[k - 1] == (if k - 1 < j {
                        s[k - 1]
                    } else if k - 1 == j {
                        c
                    } else {
                        s[k - 2]
                    }));
                }
                if k + 1 < t.len() {
                    assert(t[k + 1] == (if k + 1 < j {
                        s[k + 1]
                    } else if k + 1 == j {
                        c
                    } else {
                        s[k]
                    }));
                }
            }
        } else {
            assert(arena::kid_at(l, q, k));
            assert(arena::sides_ok(before, l, q, k));
        }
    }
}

/// Takes `child` out of the children of its parent.
pub(crate) fn unlink(nodes: &mut Vec<Node>, child: NodeId, l: Ghost<Links>)
    requires
        arena::forest(l@),
        arena::linked(old(nodes)@, l@),
        0 <= child.num() < old(nodes)@.len(),
        l@.up[child.num()] is Some,
    ensures
        arena::linked(final(nodes)@, arena::detached(l@, child.num())),
        arena::cores(final(nodes)@) == arena::cores(old(nodes)@),
{
    let ghost before = nodes@;
    proof {
        arena::lemma_place(l@, child.num());
        let k = arena::place_of(l@, child.num());
        let p = l@.up[child.num()]->0;
        assert(arena::ends_ok(before, l@, child.num()));
        assert(arena::sides_ok(before, l@, p, k));
        if k > 0 {
            assert(arena::kid_at(l@, p, k - 1));
        }
        if k + 1 < l@.kids[p].len() {
            assert(arena::kid_at(l@, p, k + 1));
        }
    }
    let c: usize = child.index();
    let parent: Option<NodeId> = nodes[c].parent;
    let prev: Option<NodeId> = nodes[c].prev;
    let next: Option<NodeId> = nodes[c].next;
    match prev {
        Some(q) => {
            nodes[q.index()].next = next;
        },
        None => {
            if let Some(p) = parent {
                nodes[p.index()].first_child = next;
            }
        },
    }
    match next {
        Some(q) => {
            nodes[q.index()].prev = prev;
        },
        None => {
            if let Some(p) = parent {
                nodes[p.index()].last_child = prev;
            }
        },
    }
    nodes[c].parent = None;
    nodes[c].prev = None;
    nodes[c].next = None;
    proof {
        lemma_unlinked(before, nodes@, l@, child);
        assert(arena::cores(nodes@) =~= arena::cores(before));
    }
}

proof fn lemma_unlinked(before: Seq<Node>, after: Seq<Node>, l: Links, child: NodeId)
    requires
        arena::forest(l),
        arena::linked(before, l),
        0 <= child.num() < before.len(),
        l.up[child.num()] is Some,
        after.len() == before.len(),
        ({
            let c = child.num();
            let p = l.up[c]->0;
            let prev = before[c].prev;
            let next = before[c].next;
            forall|i: int|
                #![trigger after[i]]
                0 <= i < before.len() ==> after[i].parent == (if i == c {
                    None
                } else {
                    before[i].parent
                }) && after[i].prev == (if i == c {
                    None
                } else if Some(i) == arena::num_of(next) {
                    prev
                } else {
                    before[i].prev
                }) && after[i].next == (if i == c {
                    None
                } else if Some(i) == arena::num_of(prev) {
                    next
                } else {
                    before[i].next
                }) && after[i].first_child == (if i == p && prev is None {
                    next
                } else {
                    before[i].first_child
                }) && after[i].last_child == (if i == p && next is None {
                    prev
                } else {
                    before[i].last_child
                })
        }),
    ensures
        arena::linked(after, arena::detached(l, child.num())),
{
    arena::lemma_place(l, child.num());
    let c = child.num();
    let p = l.up[c]->0;
    let s = l.kids[p];
    let n = s.len() as int;
    let j = arena::place_of(l, c);
    let m = arena::detached(l, c);
    let t = m.kids[p];
    let prev = before[c].prev;
    let next = before[c].next;
    assert(arena::distinct(l, p));
    assert(arena::sides_ok(before, l, p, j));
    assert(arena::num_of(prev) == arena::item(s, j - 1));
    assert(arena::num_of(next) == arena::item(s, j + 1));
    if j > 0 {
        assert(arena::kid_at(l, p, j - 1));
        assert(s[j - 1] != s[j]);
    }
    if j + 1 < n {
        assert(arena::kid_at(l, p, j + 1));
        assert(s[j + 1] != s[j]);
    }
    assert forall|i: int| 0 <= i < after.len() implies #[trigger] arena::ends_ok(after, m, i) by {
        assert(arena::ends_ok(before, l, i));
        assert(after[i].parent == after[i].parent);
        if i == p && n > 1 {
            assert(t[0] == (if j == 0 {
                s[1]
            } else {
                s[0]
            }));
            assert(t[n - 2] == (if j == n - 1 {
                s[n - 2]
            } else {
                s[n - 1]
            }));
        }
    }
    assert forall|q: int, k: int|
        0 <= q < m.kids.len() && 0 <= k < m.kids[q].len() implies #[trigger] arena::sides_ok(
        after,
        m,
        q,
        k,
    ) by {
        let x0 = m.kids[q][k];
        assert(after[x0].parent == after[x0].parent);
        if q == p {
            let x = if k < j {
                k
            } else {
                k + 1
            };
            assert(t[k] == l.kids[p][x]);
            assert(arena::kid_at(l, p, x));
            assert(arena::sides_ok(before, l, p, x));
            assert(s[x] != s[j]);
            if x != j - 1 && j > 0 {
                assert(s[x] != s[j - 1]);
            }
            if x != j + 1 && j + 1 < n {
                assert(s[x] != s[j + 1]);
            }
            if k > 0 {
                assert(t[k - 1] == (if k - 1 < j {
                    s[k - 1]
                } else {
                    s[k]
                }));
            }
            if k + 1 < t.len() {
                assert(t[k + 1] == (if k + 1 < j {
                    s[k + 1]
                } else {
                    s[k + 2]
                }));
            }
        } else {
            assert(arena::kid_at(l, q, k));
            assert(arena::sides_ok(before, l, q, k));
        }
    }
}

} // verus!
