//! What holds of new nodes and of copies.
use vstd::prelude::*;

use crate::dom::arena;
use crate::dom::copy;
use crate::dom::coverage;
use crate::dom::edit;
use crate::dom::laws;
use crate::dom::locality;
use crate::dom::model;
use crate::dom::model::Dom;
use crate::dom::serialize;
use crate::dom::sited;

verus! {

/// Every node that was there is the same.
pub open spec fn all_same(d: Dom, e: Dom) -> bool {
    &&& locality::same_ground(d, e)
    &&& forall|x: int| d.has_node(x) ==> #[trigger] locality::same_at(d, e, x)
}

/// What is written for a node does not change where every node is the same.
pub proof fn lemma_all_same_written(d: Dom, e: Dom, j: int, depth: nat)
    requires
        model::wf(d),
        all_same(d, e),
        d.has_node(j),
    ensures
        serialize::written(e, j, depth) == serialize::written(d, j, depth),
{
    locality::lemma_written_same(d, e, j, depth);
}

/// A new element that hangs on nothing changes nothing of what is written.
pub proof fn lemma_element_added_same(d: Dom, q: Seq<char>)
    requires
        model::wf(d),
    ensures
        match edit::element_added(d, q) {
            Ok(e) => {
                &&& all_same(d, e)
                &&& sited::sited(d) ==> sited::sited(e)
                &&& serialize::written(e, e.root, 0) == serialize::written(d, d.root, 0)
            },
            Err(_) => true,
        },
{
    if let Ok(e) = edit::element_added(d, q) {
        let n = d.nodes.len() as int;
        assert(e.arena.take(d.arena.len() as int) =~= d.arena);
        assert forall|x: int| d.has_node(x) implies #[trigger] locality::same_at(d, e, x) by {
            assert(model::node_ok(d, x));
            if d.nodes[x].kind is Element {
                assert(e.elem(x) == d.elem(x));
                assert(e.attrs_of(x) =~= d.attrs_of(x));
            }
        }
        lemma_all_same_written(d, e, d.root, 0);
        if sited::sited(d) {
            assert forall|x: int| e.has_node(x) implies #[trigger] sited::sited_at(e, x) by {
                if x < n {
                    assert(sited::sited_at(d, x));
                    if !e.nodes[x].flags.changed() {
                        lemma_sits_same(d, e, x);
                    }
                } else {
                    assert(5u8 & 1u8 != 0) by (bit_vector);
                }
            }
        }
    }
}

proof fn lemma_sits_same(d: Dom, e: Dom, x: int)
    requires
        model::wf(d),
        all_same(d, e),
        d.has_node(x),
        sited::sits(d, x),
    ensures
        sited::sits(e, x),
{
    assert(locality::same_at(d, e, x));
    assert forall|k: int| 0 <= k < d.kids(x).len() implies e.nodes[#[trigger] d.kids(x)[k]].span
        == d.nodes[d.kids(x)[k]].span by {
        assert(arena::kid_at(d.links, x, k));
        assert(locality::same_at(d, e, d.kids(x)[k]));
    }
    lemma_kids_sit_alike(d, e, x, x);
}

/// Children with the same spans lie side by side in both.
proof fn lemma_kids_sit_alike(d: Dom, e: Dom, x: int, y: int)
    requires
        e.kids(y).len() == d.kids(x).len(),
        forall|k: int|
            0 <= k < d.kids(x).len() ==> e.nodes[#[trigger] e.kids(y)[k]].span
                == d.nodes[d.kids(x)[k]].span,
        coverage::inner_start(e, y) == coverage::inner_start(d, x),
        coverage::inner_end(e, y) == coverage::inner_end(d, x),
    ensures
        sited::kids_sit(d, x) ==> sited::kids_sit(e, y),
{
    let n = d.kids(x).len() as int;
    if sited::kids_sit(d, x) {
        assert forall|k: int| 0 <= k < n implies #[trigger] coverage::begins_well(e, y, k) by {
            assert(coverage::begins_well(d, x, k));
            assert(e.nodes[e.kids(y)[k]].span == d.nodes[d.kids(x)[k]].span);
            if k > 0 {
                assert(e.nodes[e.kids(y)[k - 1]].span == d.nodes[d.kids(x)[k - 1]].span);
            }
        }
        if n > 0 {
            assert(e.nodes[e.kids(y)[n - 1]].span == d.nodes[d.kids(x)[n - 1]].span);
        }
    }
}

/// What was copied is the same.
pub proof fn lemma_kept_same(a: Dom, b: Dom)
    requires
        model::wf(a),
        copy::kept(a, b),
    ensures
        all_same(a, b),
{
    assert(b.arena.take(a.arena.len() as int) =~= a.arena);
    assert forall|x: int| a.has_node(x) implies #[trigger] locality::same_at(a, b, x) by {
        assert(copy::same_node(a, b, x));
        assert(model::node_ok(a, x));
        if a.nodes[x].kind is Element {
            let j = a.nodes[x].aux as int;
            assert(b.elements.take(a.elements.len() as int)[j] == b.elements[j]);
            let e = a.elem(x);
            assert(b.attrs_of(x) =~= b.attrs.take(a.attrs.len() as int).subrange(
                e.attrs_from as int,
                e.attrs_from + e.attrs_len,
            ));
        }
    }
}

/// A copy is written as what was copied.
pub proof fn lemma_copy_written(a: Dom, b: Dom, s: Seq<int>, from: int, k: int, depth: nat)
    requires
        copy::copied(a, b, s, from),
        0 <= k < s.len(),
    ensures
        serialize::written(b, a.nodes.len() + k, depth) == serialize::written(a, s[k], depth),
    decreases serialize::deepest(a) + 1 - depth, 0nat,
{
    let n = a.nodes.len() as int;
    let i = s[k];
    let c = n + k;
    assert(copy::source(a, b, s, from, k));
    assert(copy::twin(a, b, i, c));
    assert(model::node_ok(a, i));
    if a.nodes[i].kind is Element {
        locality::lemma_attrs_ok(a, i);
        assert(laws::holds_bytes(a, b)) by {
            assert(b.arena.take(a.arena.len() as int) =~= a.arena);
        }
        locality::lemma_attrs_text_same(a, b, a.attrs_of(i));
        assert(serialize::head_text(b, c) == serialize::head_text(a, i));
        assert(serialize::tail_text(b, c) == serialize::tail_text(a, i));
    }
    if depth <= serialize::deepest(a) && a.nodes[i].flags.changed()
        && a.nodes[i].kind.holds_children() {
        assert(copy::kids_copied(a, b, s, k, a.kids(i).len() as int));
        assert(a.kids(i).take(a.kids(i).len() as int) =~= a.kids(i));
        assert(b.kids(c).take(b.kids(c).len() as int) =~= b.kids(c));
        lemma_copies_written(a, b, s, from, k, a.kids(i).len() as int, depth + 1);
    }
}

proof fn lemma_copies_written(
    a: Dom,
    b: Dom,
    s: Seq<int>,
    from: int,
    k: int,
    m: int,
    depth: nat,
)
    requires
        copy::copied(a, b, s, from),
        0 <= k < s.len(),
        0 <= m <= a.kids(s[k]).len(),
        b.kids(a.nodes.len() + k).len() == a.kids(s[k]).len(),
    ensures
        serialize::written_all(b, b.kids(a.nodes.len() + k).take(m), depth)
            == serialize::written_all(a, a.kids(s[k]).take(m), depth),
    decreases serialize::deepest(a) + 1 - depth, m + 1,
{
    let n = a.nodes.len() as int;
    let u = b.kids(n + k);
    let t = a.kids(s[k]);
    if m > 0 {
        lemma_copies_written(a, b, s, from, k, m - 1, depth);
        assert(u.take(m).drop_last() =~= u.take(m - 1));
        assert(t.take(m).drop_last() =~= t.take(m - 1));
        assert(copy::kids_copied(a, b, s, k, t.len() as int));
        assert(copy::kid_copied(a, b, s, k, m - 1));
        lemma_copy_written(a, b, s, from, u[m - 1] - n, depth);
        assert(u.take(m).last() == u[m - 1]);
        assert(t.take(m).last() == t[m - 1]);
    } else {
        assert(u.take(0) =~= Seq::empty());
        assert(t.take(0) =~= Seq::empty());
    }
}

/// A copy changes nothing of what is written, until it hangs in the tree.
/// Unchanged copies are what stands in the source.
pub proof fn lemma_copied_same(a: Dom, b: Dom, s: Seq<int>, from: int)
    requires
        copy::copied(a, b, s, from),
    ensures
        all_same(a, b),
        serialize::written(b, b.root, 0) == serialize::written(a, a.root, 0),
        sited::sited(a) ==> sited::sited(b),
{
    let n = a.nodes.len() as int;
    lemma_kept_same(a, b);
    lemma_all_same_written(a, b, a.root, 0);
    if sited::sited(a) {
        assert forall|x: int| b.has_node(x) implies #[trigger] sited::sited_at(b, x) by {
            if x < n {
                assert(locality::same_at(a, b, x));
                assert(sited::sited_at(a, x));
                if !b.nodes[x].flags.changed() {
                    lemma_sits_same(a, b, x);
                }
            } else {
                lemma_copy_sits(a, b, s, from, x - n);
            }
        }
    }
}

proof fn lemma_copy_sits(a: Dom, b: Dom, s: Seq<int>, from: int, k: int)
    requires
        copy::copied(a, b, s, from),
        sited::sited(a),
        0 <= k < s.len(),
    ensures
        sited::sited_at(b, a.nodes.len() + k),
{
    let n = a.nodes.len() as int;
    let i = s[k];
    let c = n + k;
    assert(copy::source(a, b, s, from, k));
    assert(copy::twin(a, b, i, c));
    assert(copy::kids_copied(a, b, s, k, a.kids(i).len() as int));
    assert(sited::sited_at(a, i));
    assert forall|j: int| 0 <= j < a.kids(i).len() implies b.nodes[#[trigger] b.kids(c)[j]].span
        == a.nodes[a.kids(i)[j]].span by {
        assert(copy::kid_copied(a, b, s, k, j));
        let m = b.kids(c)[j] - n;
        assert(copy::source(a, b, s, from, m));
        assert(copy::twin(a, b, s[m], n + m));
    }
    lemma_kids_sit_alike(a, b, i, c);
}

} // verus!
