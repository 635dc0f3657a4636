//! The merging of leaves into a tree, and why no code is cheaper.
//!
//! The leaves come sorted by weight. The two lightest trees are merged until one
//! is left; the merged ones come into being in the order of their weight, so
//! that both queues stay sorted.
use vstd::prelude::*;

use crate::deflate::bits;

verus! {

/// The parent of a node that has none.
pub const NO_PARENT: u32 = 0xFFFF_FFFF;

/// The sum of numbers.
pub open spec fn total(s: Seq<nat>) -> nat
    decreases s.len(),
{
    if s.len() == 0 {
        0
    } else {
        total(s.drop_last()) + s.last()
    }
}

pub proof fn lemma_total_insert(s: Seq<nat>, k: int, x: nat)
    requires
        0 <= k <= s.len(),
    ensures
        total(s.insert(k, x)) == total(s) + x,
    decreases s.len(),
{
    let t = s.insert(k, x);
    if k == s.len() {
        assert(t.drop_last() =~= s);
    } else {
        assert(t.drop_last() =~= s.drop_last().insert(k, x));
        lemma_total_insert(s.drop_last(), k, x);
    }
}

pub proof fn lemma_total_remove(s: Seq<nat>, k: int)
    requires
        0 <= k < s.len(),
    ensures
        total(s.remove(k)) + s[k] == total(s),
{
    assert(s.remove(k).insert(k, s[k]) =~= s);
    lemma_total_insert(s.remove(k), k, s[k]);
}

pub proof fn lemma_total_update(s: Seq<nat>, k: int, x: nat)
    requires
        0 <= k < s.len(),
    ensures
        total(s.update(k, x)) + s[k] == total(s) + x,
{
    assert(s.remove(k).insert(k, x) =~= s.update(k, x));
    lemma_total_insert(s.remove(k), k, x);
    lemma_total_remove(s, k);
}

pub proof fn lemma_total_push(s: Seq<nat>, x: nat)
    ensures
        total(s.push(x)) == total(s) + x,
{
    assert(s.push(x).drop_last() =~= s);
}

/// A sum is at most its length times a bound of its parts.
pub proof fn lemma_total_bound(s: Seq<nat>, m: nat)
    requires
        forall|i: int| 0 <= i < s.len() ==> #[trigger] s[i] <= m,
    ensures
        total(s) <= s.len() * m,
    decreases s.len(),
{
    if s.len() > 0 {
        assert forall|i: int| 0 <= i < s.len() - 1 implies #[trigger] s.drop_last()[i] <= m by {
            assert(s[i] <= m);
        }
        lemma_total_bound(s.drop_last(), m);
        let k = (s.len() - 1) as nat;
        assert((k + 1) * m == k * m + m) by (nonlinear_arith);
    }
}

/// Trees that are being merged. Leaves are the nodes from zero on, and merged
/// nodes follow them.
pub struct Forest {
    /// How many leaves have been merged.
    pub leaf: nat,
    /// How many merged nodes have been merged again.
    pub inode: nat,
    /// The weights of the merged nodes.
    pub inner: Seq<nat>,
    /// The parent of each node.
    pub parent: Seq<u32>,
}

/// The next tree is a leaf: it weighs no more than the next merged node.
pub open spec fn takes_leaf(w: Seq<nat>, f: Forest) -> bool {
    f.leaf < w.len() && (f.inode >= f.inner.len() || w[f.leaf as int] <= f.inner[f.inode as int])
}

/// The lightest tree, its weight, and the forest without it.
pub open spec fn picked(w: Seq<nat>, f: Forest) -> (int, nat, Forest) {
    if takes_leaf(w, f) {
        (f.leaf as int, w[f.leaf as int], Forest { leaf: f.leaf + 1, ..f })
    } else {
        ((w.len() + f.inode) as int, f.inner[f.inode as int], Forest { inode: f.inode + 1, ..f })
    }
}

/// The two lightest trees become one.
pub open spec fn merge_once(w: Seq<nat>, f: Forest) -> Forest {
    let (a, wa, f1) = picked(w, f);
    let (b, wb, f2) = picked(w, f1);
    let node = (w.len() + f.inner.len()) as u32;
    Forest {
        inner: f2.inner.push(wa + wb),
        parent: f2.parent.update(a, node).update(b, node),
        ..f2
    }
}

/// The forest after `k` merges.
pub open spec fn forest(w: Seq<nat>, k: nat) -> Forest
    decreases k,
{
    if k == 0 {
        Forest {
            leaf: 0,
            inode: 0,
            inner: Seq::empty(),
            parent: Seq::new((2 * w.len() - 1) as nat, |i: int| NO_PARENT),
        }
    } else {
        merge_once(w, forest(w, (k - 1) as nat))
    }
}

/// How deep a node lies under the root.
pub open spec fn depth_of(parent: Seq<u32>, i: int) -> nat
    decreases parent.len() - i,
{
    if 0 <= i < parent.len() && i < parent[i] < parent.len() {
        1 + depth_of(parent, parent[i] as int)
    } else {
        0
    }
}

/// The parents in the finished tree.
pub open spec fn parents(w: Seq<nat>) -> Seq<u32> {
    forest(w, (w.len() - 1) as nat).parent
}

/// How deep each leaf lies in the finished tree.
pub open spec fn depths(w: Seq<nat>) -> Seq<nat> {
    Seq::new(w.len(), |i: int| depth_of(parents(w), i))
}

pub open spec fn ascending(s: Seq<nat>) -> bool {
    forall|i: int, j: int| 0 <= i <= j < s.len() ==> #[trigger] s[i] <= #[trigger] s[j]
}

/// The weights of the trees of a forest.
pub open spec fn rest(w: Seq<nat>, f: Forest) -> Seq<nat> {
    w.skip(f.leaf as int) + f.inner.skip(f.inode as int)
}

/// Where the lightest tree stands among them.
pub open spec fn lightest(w: Seq<nat>, f: Forest) -> int {
    if takes_leaf(w, f) {
        0
    } else {
        w.len() - f.leaf
    }
}

/// No more trees have been merged than there are.
pub open spec fn counts_ok(w: Seq<nat>, f: Forest) -> bool {
    f.leaf <= w.len() && f.inode <= f.inner.len()
}

pub proof fn lemma_pick(w: Seq<nat>, f: Forest)
    requires
        counts_ok(w, f),
        ascending(w),
        ascending(f.inner),
        rest(w, f).len() >= 1,
    ensures
        ({
            let (a, wa, f1) = picked(w, f);
            let p = lightest(w, f);
            &&& counts_ok(w, f1)
            &&& 0 <= p < rest(w, f).len()
            &&& rest(w, f1) == rest(w, f).remove(p)
            &&& wa == rest(w, f)[p]
            &&& forall|i: int| 0 <= i < rest(w, f).len() ==> wa <= #[trigger] rest(w, f)[i]
        }),
{
    let (a, wa, f1) = picked(w, f);
    let p = lightest(w, f);
    let r = rest(w, f);
    let m = w.len() - f.leaf;
    assert(rest(w, f1) =~= r.remove(p));
    assert forall|i: int| 0 <= i < r.len() implies wa <= #[trigger] r[i] by {
        if i < m {
            assert(r[i] == w[f.leaf + i]);
            assert(w[f.leaf as int] <= w[f.leaf + i]);
        } else {
            assert(r[i] == f.inner[f.inode + (i - m)]);
            assert(f.inner[f.inode as int] <= f.inner[f.inode + (i - m)]);
        }
    }
}

/// The queues of a forest after `k` merges.
pub open spec fn queues_ok(w: Seq<nat>, f: Forest, k: nat) -> bool {
    &&& counts_ok(w, f)
    &&& f.inner.len() == k
    &&& f.leaf + f.inode == 2 * k
    &&& ascending(f.inner)
    &&& total(rest(w, f)) == total(w)
}

/// No tree weighs less than half of the last merge.
pub open spec fn heavy(w: Seq<nat>, f: Forest) -> bool {
    f.inner.len() > 0 ==> f.inode < f.inner.len() && forall|i: int|
        0 <= i < rest(w, f).len() ==> 2 * #[trigger] rest(w, f)[i] >= f.inner.last()
}

/// The parents of a forest after `k` merges: those of the merged nodes, and in
/// both queues in order.
pub open spec fn parents_ok(w: Seq<nat>, f: Forest, k: nat) -> bool {
    &&& f.parent.len() == 2 * w.len() - 1
    &&& forall|i: int|
        0 <= i < f.parent.len() && !(i < f.leaf || w.len() <= i < w.len() + f.inode)
            ==> #[trigger] f.parent[i] == NO_PARENT
    &&& forall|i: int|
        0 <= i < f.parent.len() && (i < f.leaf || w.len() <= i < w.len() + f.inode) ==> i
            < #[trigger] f.parent[i] && w.len() <= f.parent[i] < w.len() + k
    &&& forall|i: int, j: int|
        0 <= i <= j < f.leaf ==> #[trigger] f.parent[i] <= #[trigger] f.parent[j]
    &&& forall|i: int, j: int|
        w.len() <= i <= j < w.len() + f.inode ==> #[trigger] f.parent[i] <= #[trigger] f.parent[j]
}

/// The two picks of a merge.
pub open spec fn picks_ok(w: Seq<nat>, f: Forest, k: nat) -> bool {
    let (a, wa, f1) = picked(w, f);
    let (b, wb, f2) = picked(w, f1);
    let p = lightest(w, f);
    let q = lightest(w, f1);
    let r = rest(w, f);
    &&& r.len() == w.len() - k
    &&& 0 <= p < r.len()
    &&& 0 <= q < r.len() - 1
    &&& wa == r[p]
    &&& wb == r.remove(p)[q]
    &&& forall|i: int| 0 <= i < r.len() ==> wa <= #[trigger] r[i]
    &&& forall|i: int| 0 <= i < r.len() - 1 ==> wb <= #[trigger] r.remove(p)[i]
    &&& rest(w, f2) == r.remove(p).remove(q)
    &&& rest(w, merge_once(w, f)) == r.remove(p).remove(q).push(wa + wb)
    &&& wa <= wb
    &&& wa + wb <= total(w)
    &&& counts_ok(w, f2)
    &&& f2.leaf + f2.inode == 2 * k + 2
}

#[verifier::spinoff_prover]
#[verifier::rlimit(50)]
pub proof fn lemma_two_picks(w: Seq<nat>, f: Forest, k: nat)
    requires
        queues_ok(w, f, k),
        ascending(w),
        k < w.len() - 1,
    ensures
        picks_ok(w, f, k),
{
    let (a, wa, f1) = picked(w, f);
    lemma_pick(w, f);
    let r = rest(w, f);
    let p = lightest(w, f);
    assert(r.len() == w.len() - k);
    lemma_pick(w, f1);
    let (b, wb, f2) = picked(w, f1);
    let q = lightest(w, f1);
    let r1 = r.remove(p);
    assert(rest(w, f1) == r1);
    assert(wa <= wb) by {
        let q2 = if q < p {
            q
        } else {
            q + 1
        };
        assert(r1[q] == r[q2]);
    }
    lemma_total_remove(r, p);
    lemma_total_remove(r1, q);
    lemma_rest_merged(w, f2, merge_once(w, f), wa + wb);
}

/// A merged node stands behind the other trees.
proof fn lemma_rest_merged(w: Seq<nat>, f: Forest, g: Forest, x: nat)
    requires
        counts_ok(w, f),
        g.leaf == f.leaf,
        g.inode == f.inode,
        g.inner == f.inner.push(x),
    ensures
        rest(w, g) == rest(w, f).push(x),
{
    assert(rest(w, g) =~= rest(w, f).push(x));
}

#[verifier::spinoff_prover]
#[verifier::rlimit(50)]
proof fn lemma_queues_step(w: Seq<nat>, f: Forest, k: nat)
    requires
        queues_ok(w, f, k),
        heavy(w, f),
        ascending(w),
        k < w.len() - 1,
    ensures
        queues_ok(w, merge_once(w, f), k + 1),
        heavy(w, merge_once(w, f)),
{
    lemma_two_picks(w, f, k);
    let g = merge_once(w, f);
    let r = rest(w, f);
    let (a, wa, f1) = picked(w, f);
    let (b, wb, f2) = picked(w, f1);
    let p = lightest(w, f);
    let q = lightest(w, f1);
    let r1 = r.remove(p);
    let left = r1.remove(q);
    lemma_total_remove(r, p);
    lemma_total_remove(r1, q);
    lemma_total_push(left, wa + wb);
    if k > 0 {
        assert(2 * r[p] >= f.inner.last());
        let q2 = if q < p {
            q
        } else {
            q + 1
        };
        assert(r1[q] == r[q2]);
        assert(2 * r[q2] >= f.inner.last());
        assert(wa + wb >= f.inner.last());
    }
    assert forall|i: int, j: int| 0 <= i <= j < g.inner.len() implies #[trigger] g.inner[i]
        <= #[trigger] g.inner[j] by {
        if i < k {
            assert(f.inner[i] <= f.inner[k - 1]);
            if j < k {
                assert(f.inner[i] <= f.inner[j]);
            }
        }
    }
    assert forall|i: int| 0 <= i < rest(w, g).len() implies 2 * #[trigger] rest(w, g)[i]
        >= g.inner.last() by {
        if i < left.len() {
            let j = if i < q {
                i
            } else {
                i + 1
            };
            assert(left[i] == r1[j]);
            assert(rest(w, g)[i] == left[i]);
        }
    }
}

#[verifier::spinoff_prover]
#[verifier::rlimit(50)]
proof fn lemma_parents_step(w: Seq<nat>, f: Forest, k: nat)
    requires
        queues_ok(w, f, k),
        parents_ok(w, f, k),
        ascending(w),
        2 <= w.len() <= 65536,
        k < w.len() - 1,
    ensures
        parents_ok(w, merge_once(w, f), k + 1),
{
    lemma_two_picks(w, f, k);
}

pub proof fn lemma_forest(w: Seq<nat>, k: nat)
    requires
        ascending(w),
        2 <= w.len() <= 65536,
        k <= w.len() - 1,
    ensures
        queues_ok(w, forest(w, k), k),
        heavy(w, forest(w, k)),
        parents_ok(w, forest(w, k), k),
    decreases k,
{
    if k == 0 {
        assert(rest(w, forest(w, 0)) =~= w);
    } else {
        let j = (k - 1) as nat;
        lemma_forest(w, j);
        lemma_queues_step(w, forest(w, j), j);
        lemma_parents_step(w, forest(w, j), j);
    }
}

/// A parent, once given, stays.
proof fn lemma_kept(w: Seq<nat>, k: nat, m: nat)
    requires
        ascending(w),
        2 <= w.len() <= 65536,
        k <= m <= w.len() - 1,
    ensures
        forest(w, k).leaf <= forest(w, m).leaf,
        forest(w, k).inode <= forest(w, m).inode,
        forall|i: int|
            0 <= i < forest(w, k).leaf || w.len() <= i < w.len() + forest(w, k).inode
                ==> #[trigger] forest(w, m).parent[i] == forest(w, k).parent[i],
    decreases m,
{
    if k < m {
        lemma_kept(w, k, (m - 1) as nat);
        lemma_forest(w, (m - 1) as nat);
        lemma_forest(w, k);
        let f = forest(w, (m - 1) as nat);
        lemma_two_picks(w, f, (m - 1) as nat);
    }
}

/// How deep the trees of a forest lie in the finished tree.
spec fn deep(w: Seq<nat>, f: Forest) -> Seq<nat> {
    Seq::new((w.len() - f.leaf) as nat, |i: int| depth_of(parents(w), f.leaf + i)) + Seq::new(
        (f.inner.len() - f.inode) as nat,
        |i: int| depth_of(parents(w), w.len() + f.inode + i),
    )
}

/// The products of weights and lengths.
pub open spec fn products(w: Seq<nat>, l: Seq<nat>) -> Seq<nat> {
    Seq::new(w.len(), |i: int| w[i] * l[i])
}

/// What codes of the given lengths cost.
pub open spec fn work(w: Seq<nat>, l: Seq<nat>) -> nat {
    total(products(w, l))
}

proof fn lemma_work_remove(w: Seq<nat>, l: Seq<nat>, k: int)
    requires
        0 <= k < w.len(),
        w.len() == l.len(),
    ensures
        work(w.remove(k), l.remove(k)) + w[k] * l[k] == work(w, l),
{
    assert(products(w.remove(k), l.remove(k)) =~= products(w, l).remove(k));
    lemma_total_remove(products(w, l), k);
}

proof fn lemma_work_push(w: Seq<nat>, l: Seq<nat>, x: nat, y: nat)
    requires
        w.len() == l.len(),
    ensures
        work(w.push(x), l.push(y)) == work(w, l) + x * y,
{
    assert(products(w.push(x), l.push(y)) =~= products(w, l).push(x * y));
    lemma_total_push(products(w, l), x * y);
}

proof fn lemma_deep_pick(w: Seq<nat>, f: Forest)
    requires
        counts_ok(w, f),
        rest(w, f).len() >= 1,
    ensures
        ({
            let (a, wa, f1) = picked(w, f);
            let p = lightest(w, f);
            let d = deep(w, f);
            &&& d.len() == rest(w, f).len()
            &&& 0 <= p < d.len()
            &&& d[p] == depth_of(parents(w), a)
            &&& deep(w, f1) == d.remove(p)
        }),
{
    let (a, wa, f1) = picked(w, f);
    assert(deep(w, f1) =~= deep(w, f).remove(lightest(w, f)));
}

/// The nodes that a merge takes lie one below it.
#[verifier::spinoff_prover]
#[verifier::rlimit(50)]
proof fn lemma_picked_below(w: Seq<nat>, k: nat)
    requires
        ascending(w),
        2 <= w.len() <= 65536,
        k < w.len() - 1,
    ensures
        ({
            let f = forest(w, k);
            let (a, wa, f1) = picked(w, f);
            let (b, wb, f2) = picked(w, f1);
            let dn = depth_of(parents(w), (w.len() + k) as int);
            depth_of(parents(w), a) == dn + 1 && depth_of(parents(w), b) == dn + 1
        }),
{
    let f = forest(w, k);
    let g = forest(w, k + 1);
    lemma_forest(w, k);
    lemma_two_picks(w, f, k);
    lemma_kept(w, k + 1, (w.len() - 1) as nat);
    let par = parents(w);
    let (a, wa, f1) = picked(w, f);
    let (b, wb, f2) = picked(w, f1);
    assert(g.parent[a] == w.len() + k);
    assert(g.parent[b] == w.len() + k);
    assert(0 <= a < g.leaf || w.len() <= a < w.len() + g.inode);
    assert(0 <= b < g.leaf || w.len() <= b < w.len() + g.inode);
    assert(par[a] == w.len() + k);
    assert(par[b] == w.len() + k);
    assert(a < w.len() + k && b < w.len() + k);
    assert(par.len() == 2 * w.len() - 1) by {
        lemma_forest(w, (w.len() - 1) as nat);
    }
}

/// The depths of the trees that a merge takes.
#[verifier::spinoff_prover]
#[verifier::rlimit(50)]
proof fn lemma_deep_step(w: Seq<nat>, k: nat)
    requires
        ascending(w),
        2 <= w.len() <= 65536,
        k < w.len() - 1,
    ensures
        ({
            let f = forest(w, k);
            let (a, wa, f1) = picked(w, f);
            let p = lightest(w, f);
            let q = lightest(w, f1);
            let d = deep(w, f);
            let dn = depth_of(parents(w), (w.len() + k) as int);
            &&& d.len() == rest(w, f).len()
            &&& d[p] == dn + 1
            &&& d.remove(p)[q] == dn + 1
            &&& deep(w, forest(w, k + 1)) == d.remove(p).remove(q).push(dn)
        }),
{
    let f = forest(w, k);
    let g = forest(w, k + 1);
    assert(queues_ok(w, f, k)) by {
        lemma_forest(w, k);
    }
    lemma_two_picks(w, f, k);
    let (a, wa, f1) = picked(w, f);
    let (b, wb, f2) = picked(w, f1);
    lemma_deep_pick(w, f);
    lemma_deep_pick(w, f1);
    lemma_picked_below(w, k);
    let dn = depth_of(parents(w), (w.len() + k) as int);
    assert(f2.inner.len() == k);
    assert(deep(w, g) =~= deep(w, f2).push(dn));
}

/// The cost of a merge: its weight once, on both sides of it the same.
proof fn lemma_cost_step(w: Seq<nat>, k: nat)
    requires
        ascending(w),
        2 <= w.len() <= 65536,
        k < w.len() - 1,
    ensures
        work(rest(w, forest(w, k)), deep(w, forest(w, k))) == work(
            rest(w, forest(w, k + 1)),
            deep(w, forest(w, k + 1)),
        ) + forest(w, k + 1).inner.last(),
{
    let f = forest(w, k);
    let g = forest(w, k + 1);
    lemma_forest(w, k);
    lemma_two_picks(w, f, k);
    lemma_deep_step(w, k);
    let (a, wa, f1) = picked(w, f);
    let (b, wb, f2) = picked(w, f1);
    let p = lightest(w, f);
    let q = lightest(w, f1);
    let r = rest(w, f);
    let d = deep(w, f);
    let dn = depth_of(parents(w), (w.len() + k) as int);
    lemma_work_remove(r, d, p);
    lemma_work_remove(r.remove(p), d.remove(p), q);
    lemma_work_push(r.remove(p).remove(q), d.remove(p).remove(q), wa + wb, dn);
    assert(wa * (dn + 1) + wb * (dn + 1) == (wa + wb) * dn + (wa + wb)) by (nonlinear_arith);
}

/// The finished tree costs the sum of the weights of its merges.
proof fn lemma_cost(w: Seq<nat>, k: nat)
    requires
        ascending(w),
        2 <= w.len() <= 65536,
        k <= w.len() - 1,
    ensures
        work(w, depths(w)) == work(rest(w, forest(w, k)), deep(w, forest(w, k))) + total(
            forest(w, k).inner,
        ),
    decreases k,
{
    if k == 0 {
        assert(rest(w, forest(w, 0)) =~= w);
        assert(deep(w, forest(w, 0)) =~= depths(w));
    } else {
        lemma_cost(w, (k - 1) as nat);
        lemma_cost_step(w, (k - 1) as nat);
        let g = forest(w, k);
        let f = forest(w, (k - 1) as nat);
        lemma_forest(w, (k - 1) as nat);
        assert(g.inner.drop_last() =~= f.inner);
    }
}

proof fn lemma_root(w: Seq<nat>)
    requires
        ascending(w),
        2 <= w.len() <= 65536,
    ensures
        work(w, depths(w)) == total(forest(w, (w.len() - 1) as nat).inner),
{
    let k = (w.len() - 1) as nat;
    let f = forest(w, k);
    lemma_forest(w, k);
    lemma_cost(w, k);
    let r = rest(w, f);
    let d = deep(w, f);
    assert(f.leaf == w.len() && f.inode == k - 1) by {
        assert(f.leaf + f.inode == 2 * k);
    }
    assert(r.len() == 1);
    assert(f.parent[2 * w.len() - 2] == NO_PARENT);
    assert(d[0] == depth_of(parents(w), 2 * w.len() - 2));
    assert(d[0] == 0);
    assert(products(r, d) =~= seq![0nat]) by {
        let x = r[0];
        assert(x * 0 == 0) by (nonlinear_arith);
    }
    assert(seq![0nat].drop_last() =~= Seq::empty());
    assert(total(seq![0nat]) == 0) by {
        reveal_with_fuel(total, 2);
    }
}

/// The codes that lengths take, in units of `2^-h`.
pub open spec fn shares(l: Seq<nat>, h: nat) -> Seq<nat> {
    Seq::new(l.len(), |i: int| bits::p2((h - l[i]) as nat))
}

/// Lengths of at most `h` bits that leave room for one another (Kraft).
pub open spec fn fits(l: Seq<nat>, h: nat) -> bool {
    &&& forall|i: int| 0 <= i < l.len() ==> #[trigger] l[i] <= h
    &&& total(shares(l, h)) <= bits::p2(h)
}

/// The longest length can go to the lightest weight: nothing gets dearer.
proof fn lemma_swap(w: Seq<nat>, l: Seq<nat>, h: nat, p: int, c: nat) -> (l2: Seq<nat>)
    requires
        w.len() == l.len(),
        0 <= p < w.len(),
        fits(l, h),
        forall|i: int| 0 <= i < w.len() ==> w[p] <= #[trigger] w[i],
        forall|i: int| 0 <= i < l.len() ==> #[trigger] l[i] <= c,
    ensures
        l2.len() == l.len(),
        fits(l2, h),
        total(shares(l2, h)) == total(shares(l, h)),
        work(w, l2) <= work(w, l),
        forall|i: int| 0 <= i < l2.len() ==> #[trigger] l2[i] <= l2[p],
        forall|i: int| 0 <= i < l2.len() ==> #[trigger] l2[i] <= c,
{
    let m = longest(l);
    lemma_longest(l);
    let l2 = l.update(p, l[m]).update(m, l[p]);
    let s = shares(l, h);
    assert(shares(l2, h) =~= s.update(p, s[m]).update(m, s[p]));
    lemma_total_update(s, p, s[m]);
    lemma_total_update(s.update(p, s[m]), m, s[p]);
    let d = products(w, l);
    let x = w[p] * l[m];
    let y = w[m] * l[p];
    assert(products(w, l2) =~= d.update(p, x).update(m, y));
    lemma_total_update(d, p, x);
    lemma_total_update(d.update(p, x), m, y);
    if m != p {
        let (wp, wm, lp, lm) = (w[p], w[m], l[p], l[m]);
        assert(wp * lm + wm * lp <= wp * lp + wm * lm) by (nonlinear_arith)
            requires
                wp <= wm,
                lp <= lm,
        ;
    }
    assert(l2[p] == l[m]);
    l2
}

/// Where the first of the longest lengths stands.
spec fn longest(l: Seq<nat>) -> int
    decreases l.len(),
{
    if l.len() <= 1 {
        0
    } else {
        let m = longest(l.drop_last());
        if l.last() > l[m] {
            l.len() - 1
        } else {
            m
        }
    }
}

proof fn lemma_longest(l: Seq<nat>)
    requires
        l.len() > 0,
    ensures
        0 <= longest(l) < l.len(),
        forall|i: int| 0 <= i < l.len() ==> #[trigger] l[i] <= l[longest(l)],
    decreases l.len(),
{
    if l.len() > 1 {
        lemma_longest(l.drop_last());
        assert forall|i: int| 0 <= i < l.len() implies #[trigger] l[i] <= l[longest(l)] by {
            if i < l.len() - 1 {
                assert(l.drop_last()[i] == l[i]);
            }
        }
    }
}

/// Shares in coarser units.
proof fn lemma_coarse(l: Seq<nat>, h: nat, u: nat)
    requires
        u <= h,
        forall|i: int| 0 <= i < l.len() ==> #[trigger] l[i] <= u,
    ensures
        total(shares(l, h)) == bits::p2((h - u) as nat) * total(shares(l, u)),
    decreases l.len(),
{
    let g = bits::p2((h - u) as nat);
    if l.len() > 0 {
        let a = l.drop_last();
        assert forall|i: int| 0 <= i < a.len() implies #[trigger] a[i] <= u by {
            assert(a[i] == l[i]);
        }
        lemma_coarse(a, h, u);
        assert(shares(l, h).drop_last() =~= shares(a, h));
        assert(shares(l, u).drop_last() =~= shares(a, u));
        assert(l[l.len() - 1] <= u);
        let z = l.last();
        bits::lemma_p2_add((h - u) as nat, (u - z) as nat);
        assert((h - u) as nat + (u - z) as nat == (h - z) as nat);
        let t = total(shares(a, u));
        let e = bits::p2((u - z) as nat);
        assert(g * (t + e) == g * t + g * e) by (nonlinear_arith);
    } else {
        assert(g * 0 == 0);
    }
}

proof fn lemma_shares_remove(l: Seq<nat>, h: nat, k: int)
    requires
        0 <= k < l.len(),
    ensures
        total(shares(l.remove(k), h)) + bits::p2((h - l[k]) as nat) == total(shares(l, h)),
{
    assert(shares(l.remove(k), h) =~= shares(l, h).remove(k));
    lemma_total_remove(shares(l, h), k);
}

/// There is room for the longest code to be as short as the one next to it.
proof fn lemma_room(o: Seq<nat>, h: nat, t: nat, u: nat)
    requires
        u <= t <= h,
        forall|i: int| 0 <= i < o.len() ==> #[trigger] o[i] <= u,
        total(shares(o, h)) + bits::p2((h - u) as nat) + bits::p2((h - t) as nat) <= bits::p2(h),
    ensures
        u >= 1,
        total(shares(o, h)) + 2 * bits::p2((h - u) as nat) <= bits::p2(h),
{
    let g = bits::p2((h - u) as nat);
    let b = total(shares(o, u));
    lemma_coarse(o, h, u);
    bits::lemma_p2_add((h - u) as nat, u);
    assert((h - u) as nat + u == h);
    bits::lemma_p2_pos((h - t) as nat);
    bits::lemma_p2_pos((h - u) as nat);
    let pu = bits::p2(u);
    assert(b + 1 < pu) by (nonlinear_arith)
        requires
            g * b + g < g * pu,
            g > 0,
    ;
    assert(bits::p2(0) == 1);
    assert(g * b + 2 * g <= g * pu) by (nonlinear_arith)
        requires
            b + 2 <= pu,
            g > 0,
    ;
}

/// Lengths for a forest give lengths for the forest after a merge that cost
/// less by the weight of the merge at least.
#[verifier::spinoff_prover]
proof fn lemma_merge_bound(w: Seq<nat>, l: Seq<nat>, h: nat, p: int, q: int) -> (l2: Seq<nat>)
    requires
        w.len() == l.len(),
        w.len() >= 2,
        fits(l, h),
        0 <= p < w.len(),
        0 <= q < w.len() - 1,
        forall|i: int| 0 <= i < w.len() ==> w[p] <= #[trigger] w[i],
        forall|i: int| 0 <= i < w.len() - 1 ==> w.remove(p)[q] <= #[trigger] w.remove(p)[i],
    ensures
        l2.len() == l.len() - 1,
        fits(l2, h),
        work(w.remove(p).remove(q).push(w[p] + w.remove(p)[q]), l2) + w[p] + w.remove(p)[q]
            <= work(w, l),
{
    let a = lemma_swap(w, l, h, p, h);
    let w1 = w.remove(p);
    let t = a[p];
    let a1 = a.remove(p);
    lemma_shares_remove(a, h, p);
    lemma_work_remove(w, a, p);
    assert forall|i: int| 0 <= i < a1.len() implies #[trigger] a1[i] <= t by {
        assert(a1[i] == a[if i < p {
            i
        } else {
            i + 1
        }]);
    }
    bits::lemma_p2_pos((h - t) as nat);
    assert forall|i: int| 0 <= i < a1.len() implies #[trigger] a1[i] <= h by {}
    let b = lemma_swap(w1, a1, h, q, t);
    let u = b[q];
    let o = b.remove(q);
    lemma_shares_remove(b, h, q);
    lemma_work_remove(w1, b, q);
    assert forall|i: int| 0 <= i < o.len() implies #[trigger] o[i] <= u by {
        assert(o[i] == b[if i < q {
            i
        } else {
            i + 1
        }]);
    }
    lemma_room(o, h, t, u);
    let l2 = o.push((u - 1) as nat);
    let w2 = w1.remove(q);
    let (x, y) = (w[p], w1[q]);
    lemma_work_push(w2, o, x + y, (u - 1) as nat);
    assert(shares(l2, h) =~= shares(o, h).push(bits::p2((h - u + 1) as nat)));
    lemma_total_push(shares(o, h), bits::p2((h - u + 1) as nat));
    assert(bits::p2((h - u + 1) as nat) == 2 * bits::p2((h - u) as nat));
    assert(x * t + y * u >= (x + y) * (u - 1) + x + y) by (nonlinear_arith)
        requires
            t >= u,
            u >= 1,
            x >= 0,
    ;
    l2
}

proof fn lemma_bound(w: Seq<nat>, l: Seq<nat>, h: nat, k: nat) -> (lk: Seq<nat>)
    requires
        ascending(w),
        2 <= w.len() <= 65536,
        w.len() == l.len(),
        fits(l, h),
        k <= w.len() - 1,
    ensures
        lk.len() == w.len() - k,
        fits(lk, h),
        work(rest(w, forest(w, k)), lk) + total(forest(w, k).inner) <= work(w, l),
    decreases k,
{
    if k == 0 {
        assert(rest(w, forest(w, 0)) =~= w);
        l
    } else {
        let j = (k - 1) as nat;
        let before = lemma_bound(w, l, h, j);
        let f = forest(w, j);
        lemma_forest(w, j);
        lemma_two_picks(w, f, j);
        let r = rest(w, f);
        let (a, wa, f1) = picked(w, f);
        let p = lightest(w, f);
        let q = lightest(w, f1);
        let lk = lemma_merge_bound(r, before, h, p, q);
        let g = forest(w, k);
        assert(g.inner.drop_last() =~= f.inner);
        lk
    }
}

/// No code is cheaper than that of the merged tree: whatever lengths leave room
/// for one another, they cost as much at least.
pub proof fn lemma_merged_is_least(w: Seq<nat>, l: Seq<nat>, h: nat)
    requires
        ascending(w),
        2 <= w.len() <= 65536,
        w.len() == l.len(),
        fits(l, h),
    ensures
        work(w, depths(w)) <= work(w, l),
{
    let lk = lemma_bound(w, l, h, (w.len() - 1) as nat);
    lemma_root(w);
}

/// A node that comes into being later lies no deeper.
proof fn lemma_inner_depth(w: Seq<nat>, i: int, j: int)
    requires
        ascending(w),
        2 <= w.len() <= 65536,
        w.len() <= i <= j <= 2 * w.len() - 2,
    ensures
        depth_of(parents(w), j) <= depth_of(parents(w), i),
        depth_of(parents(w), i) <= 2 * w.len() - 2 - i,
    decreases 2 * w.len() - i,
{
    let k = (w.len() - 1) as nat;
    lemma_forest(w, k);
    let f = forest(w, k);
    let par = parents(w);
    let n = w.len() as int;
    assert(f.leaf == n && f.inode == n - 2) by {
        assert(f.leaf + f.inode == 2 * k);
    }
    if j == 2 * n - 2 {
        assert(par[j] == NO_PARENT);
        if i < j {
            assert(i < par[i]);
            lemma_inner_depth(w, par[i] as int, j);
        }
    } else {
        assert(i < par[i]);
        assert(par[i] <= par[j]);
        lemma_inner_depth(w, par[i] as int, par[j] as int);
    }
}

/// A lighter leaf lies no higher, and none deeper than there are merges.
pub proof fn lemma_leaf_depth(w: Seq<nat>, i: int, j: int)
    requires
        ascending(w),
        2 <= w.len() <= 65536,
        0 <= i <= j < w.len(),
    ensures
        depths(w)[j] <= depths(w)[i],
        1 <= depths(w)[i] <= w.len() - 1,
        1 <= depths(w)[j],
{
    let k = (w.len() - 1) as nat;
    lemma_forest(w, k);
    let f = forest(w, k);
    let par = parents(w);
    let n = w.len() as int;
    assert(f.leaf == n && f.inode == n - 2) by {
        assert(f.leaf + f.inode == 2 * k);
    }
    assert(par[i] <= par[j]);
    assert(i < par[i] && j < par[j]);
    lemma_inner_depth(w, par[i] as int, par[j] as int);
}

} // verus!
