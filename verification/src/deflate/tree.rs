//! Huffman code lengths for given frequencies, within a length limit.
use vstd::prelude::*;

use crate::deflate::bits;
use crate::deflate::forest;
use crate::deflate::forest::NO_PARENT;
use crate::deflate::huffman;

verus! {

/// How many depths are told apart; deeper leaves count for the last.
pub const DEPTH_SLOTS: usize = 48;

/// The Kraft sum of `count[1..=l]` codes in units of `2^-l`.
pub open spec fn cweight(count: Seq<u32>, l: nat) -> nat
    decreases l,
{
    if l == 0 {
        0
    } else {
        2 * cweight(count, (l - 1) as nat) + count[l as int] as nat
    }
}

/// How many codes have 1 to `l` bits.
pub open spec fn csum(count: Seq<u32>, l: nat) -> nat
    decreases l,
{
    if l == 0 {
        0
    } else {
        csum(count, (l - 1) as nat) + count[l as int] as nat
    }
}

proof fn lemma_cweight_update(count: Seq<u32>, d: nat, x: u32, l: nat)
    requires
        d < count.len(),
        l < count.len(),
    ensures
        cweight(count.update(d as int, x), l) + (if 1 <= d <= l {
            count[d as int] * bits::p2((l - d) as nat)
        } else {
            0
        }) == cweight(count, l) + (if 1 <= d <= l {
            x * bits::p2((l - d) as nat)
        } else {
            0
        }),
    decreases l,
{
    if l > 0 {
        lemma_cweight_update(count, d, x, (l - 1) as nat);
        if 1 <= d < l {
            let p = bits::p2((l - 1 - d) as nat);
            let c = count[d as int];
            assert(bits::p2((l - d) as nat) == 2 * p);
            assert(c * (2 * p) == 2 * (c * p)) by (nonlinear_arith);
            assert(x * (2 * p) == 2 * (x * p)) by (nonlinear_arith);
        } else if d == l {
            assert(bits::p2(0) == 1);
        }
    }
}

proof fn lemma_csum_update(count: Seq<u32>, d: nat, x: u32, l: nat)
    requires
        d < count.len(),
        l < count.len(),
    ensures
        csum(count.update(d as int, x), l) + (if 1 <= d <= l {
            count[d as int] as nat
        } else {
            0
        }) == csum(count, l) + (if 1 <= d <= l {
            x as nat
        } else {
            0
        }),
    decreases l,
{
    if l > 0 {
        lemma_csum_update(count, d, x, (l - 1) as nat);
    }
}

/// Each number of codes is part of their sum.
proof fn lemma_csum_bound(count: Seq<u32>, d: nat, l: nat)
    requires
        1 <= d <= l < count.len(),
    ensures
        count[d as int] <= csum(count, l),
    decreases l,
{
    if d < l {
        lemma_csum_bound(count, d, (l - 1) as nat);
    }
}

/// Beyond the last length in use nothing is added.
proof fn lemma_csum_tail(count: Seq<u32>, a: nat, b: nat)
    requires
        a <= b < count.len(),
        forall|l: int| a < l <= b ==> count[l] == 0,
    ensures
        csum(count, b) == csum(count, a),
    decreases b,
{
    if a < b {
        lemma_csum_tail(count, a, (b - 1) as nat);
    }
}

/// Beyond the last length in use the weight only doubles.
proof fn lemma_cweight_tail(count: Seq<u32>, a: nat, b: nat)
    requires
        a <= b < count.len(),
        forall|l: int| a < l <= b ==> count[l] == 0,
    ensures
        cweight(count, b) == bits::p2((b - a) as nat) * cweight(count, a),
    decreases b,
{
    if a < b {
        lemma_cweight_tail(count, a, (b - 1) as nat);
        let p = bits::p2((b - 1 - a) as nat);
        assert((2 * p) * cweight(count, a) == 2 * (p * cweight(count, a))) by (nonlinear_arith);
    } else {
        assert(1 * cweight(count, a) == cweight(count, a));
    }
}

/// The weights of the nodes below `j` whose parent is `m` or above.
spec fn front(parent: Seq<u32>, depth: Seq<u32>, h: nat, m: int, j: nat) -> nat
    decreases j,
{
    if j == 0 {
        0
    } else {
        front(parent, depth, h, m, (j - 1) as nat) + if parent[j - 1] >= m {
            bits::p2((h - depth[j - 1]) as nat)
        } else {
            0
        }
    }
}

/// The weights of the nodes below `j` whose parent is `p`.
spec fn kids_weight(parent: Seq<u32>, depth: Seq<u32>, h: nat, p: int, j: nat) -> nat
    decreases j,
{
    if j == 0 {
        0
    } else {
        kids_weight(parent, depth, h, p, (j - 1) as nat) + if parent[j - 1] == p {
            bits::p2((h - depth[j - 1]) as nat)
        } else {
            0
        }
    }
}

/// The weights of the first `j` leaves.
spec fn leaves_weight(depth: Seq<u32>, h: nat, j: nat) -> nat
    decreases j,
{
    if j == 0 {
        0
    } else {
        leaves_weight(depth, h, (j - 1) as nat) + bits::p2((h - depth[j - 1]) as nat)
    }
}

proof fn lemma_front_split(parent: Seq<u32>, depth: Seq<u32>, h: nat, m: int, j: nat)
    ensures
        front(parent, depth, h, m, j) == front(parent, depth, h, m + 1, j) + kids_weight(
            parent,
            depth,
            h,
            m,
            j,
        ),
    decreases j,
{
    if j > 0 {
        lemma_front_split(parent, depth, h, m, (j - 1) as nat);
    }
}

proof fn lemma_two_kids(
    parent: Seq<u32>,
    depth: Seq<u32>,
    h: nat,
    p: int,
    j: nat,
    a: int,
    b: int,
)
    requires
        a != b,
        0 <= a,
        0 <= b,
        a < j ==> parent[a] == p,
        b < j ==> parent[b] == p,
        forall|i: int| 0 <= i < j && #[trigger] parent[i] == p ==> i == a || i == b,
    ensures
        kids_weight(parent, depth, h, p, j) == (if a < j {
            bits::p2((h - depth[a]) as nat)
        } else {
            0
        }) + (if b < j {
            bits::p2((h - depth[b]) as nat)
        } else {
            0
        }),
    decreases j,
{
    if j > 0 {
        lemma_two_kids(parent, depth, h, p, (j - 1) as nat, a, b);
    }
}

/// A merge of `n` leaves, after `k` steps: each of the nodes `n..n + k` has
/// exactly two children, and every child lies below its parent.
spec fn merged(parent: Seq<u32>, kids: Seq<(int, int)>, n: int, k: int, leaf: int, inode: int) -> bool {
    &&& parent.len() == 2 * n - 1
    &&& kids.len() == k
    &&& 0 <= leaf <= n
    &&& 0 <= inode
    &&& inode < k || (k == 0 && inode == 0)
    &&& leaf + inode == 2 * k
    &&& forall|i: int|
        0 <= i < parent.len() ==> (#[trigger] parent[i] == NO_PARENT <==> !(i < leaf || n <= i < n
            + inode))
    &&& forall|i: int|
        0 <= i < parent.len() && #[trigger] parent[i] != NO_PARENT ==> {
            &&& i < parent[i]
            &&& n <= parent[i] < n + k
            &&& i == kids[parent[i] - n].0 || i == kids[parent[i] - n].1
        }
    &&& forall|j: int|
        0 <= j < k ==> {
            let (a, b) = #[trigger] kids[j];
            &&& 0 <= a < n + j
            &&& 0 <= b < n + j
            &&& a != b
            &&& parent[a] == n + j
            &&& parent[b] == n + j
        }
}

/// The depths of a merge: one more than that of the parent.
spec fn depths_ok(parent: Seq<u32>, depth: Seq<u32>, from: int) -> bool {
    &&& depth.len() == parent.len()
    &&& forall|i: int| from <= i < parent.len() ==> #[trigger] depth_ok(parent, depth, i)
}

spec fn depth_ok(parent: Seq<u32>, depth: Seq<u32>, i: int) -> bool {
    &&& depth[i] == if i == parent.len() - 1 {
        0
    } else {
        depth[parent[i] as int] + 1
    }
    &&& depth[i] <= parent.len() - 1 - i
}

/// The weights on the frontier of a full binary tree add up to one.
proof fn lemma_frontier(
    parent: Seq<u32>,
    depth: Seq<u32>,
    kids: Seq<(int, int)>,
    n: int,
    h: nat,
    m: int,
)
    requires
        2 <= n <= 65536,
        merged(parent, kids, n, n - 1, n, n - 2),
        depths_ok(parent, depth, 0),
        h >= 2 * n,
        n <= m <= 2 * n - 1,
    ensures
        front(parent, depth, h, m, m as nat) == bits::p2(h),
    decreases 2 * n - m,
{
    let top = 2 * n - 2;
    if m == 2 * n - 1 {
        // only the root has no parent below
        lemma_front_none(parent, depth, h, m, (m - 1) as nat);
        assert(parent[top] == NO_PARENT);
        assert(depth_ok(parent, depth, top));
    } else {
        lemma_frontier(parent, depth, kids, n, h, m + 1);
        let j = m - n;
        let (a, b) = kids[j];
        assert(parent[a] == m && parent[b] == m);
        assert(depth_ok(parent, depth, a));
        assert(depth_ok(parent, depth, b));
        assert(depth_ok(parent, depth, m));
        lemma_front_split(parent, depth, h, m, m as nat);
        lemma_two_kids(parent, depth, h, m, m as nat, a, b);
        assert(parent[m] >= m + 1);
        assert(front(parent, depth, h, m + 1, (m + 1) as nat) == front(
            parent,
            depth,
            h,
            m + 1,
            m as nat,
        ) + bits::p2((h - depth[m]) as nat));
        assert(depth[m] <= 2 * n - 2 - m);
        assert((h - depth[m] - 1) as nat == (h - depth[a]) as nat);
        assert(bits::p2((h - depth[m]) as nat) == 2 * bits::p2((h - depth[a]) as nat));
    }
}

proof fn lemma_front_none(parent: Seq<u32>, depth: Seq<u32>, h: nat, m: int, j: nat)
    requires
        j <= parent.len(),
        forall|i: int| 0 <= i < j ==> #[trigger] parent[i] < m,
    ensures
        front(parent, depth, h, m, j) == 0,
    decreases j,
{
    if j > 0 {
        lemma_front_none(parent, depth, h, m, (j - 1) as nat);
    }
}

proof fn lemma_front_all(parent: Seq<u32>, depth: Seq<u32>, h: nat, m: int, j: nat)
    requires
        j <= parent.len(),
        forall|i: int| 0 <= i < j ==> #[trigger] parent[i] >= m,
    ensures
        front(parent, depth, h, m, j) == leaves_weight(depth, h, j),
    decreases j,
{
    if j > 0 {
        lemma_front_all(parent, depth, h, m, (j - 1) as nat);
    }
}

/// Takes the lighter of the next leaf and the next inner node; the leaf where
/// they weigh the same, which makes for a shallower tree.
fn pick_min(
    sorted: &Vec<(u32, u16)>,
    internal: &Vec<u64>,
    leaf: &mut usize,
    inode: &mut usize,
) -> (r: (usize, u64))
    requires
        *old(leaf) < sorted@.len() || *old(inode) < internal@.len(),
        *old(leaf) <= sorted@.len() <= 65536,
        *old(inode) <= internal@.len() <= 65536,
    ensures
        ({
            let take_leaf = *old(leaf) < sorted@.len() && (*old(inode) >= internal@.len()
                || sorted@[*old(leaf) as int].0 <= internal@[*old(inode) as int]);
            if take_leaf {
                &&& r.0 == *old(leaf)
                &&& r.1 == sorted@[*old(leaf) as int].0
                &&& *final(leaf) == *old(leaf) + 1
                &&& *final(inode) == *old(inode)
            } else {
                &&& r.0 == sorted@.len() + *old(inode)
                &&& r.1 == internal@[*old(inode) as int]
                &&& *final(leaf) == *old(leaf)
                &&& *final(inode) == *old(inode) + 1
                &&& *old(inode) < internal@.len()
            }
        }),
{
    let have_leaf: bool = *leaf < sorted.len();
    let have_node: bool = *inode < internal.len();
    if have_leaf && (!have_node || sorted[*leaf].0 as u64 <= internal[*inode]) {
        let id: usize = *leaf;
        let w: u64 = sorted[id].0 as u64;
        *leaf = id + 1;
        (id, w)
    } else {
        let k: usize = *inode;
        let w: u64 = internal[k];
        *inode = k + 1;
        (sorted.len() + k, w)
    }
}

/// The weights of leaves.
pub open spec fn weights(sorted: Seq<(u32, u16)>) -> Seq<nat> {
    Seq::new(sorted.len(), |i: int| sorted[i].0 as nat)
}

/// The place in which a depth is counted.
pub open spec fn slot(d: nat) -> nat {
    if d < 47 {
        d
    } else {
        47
    }
}

/// How many depths are counted in a place.
pub open spec fn times(d: Seq<nat>, l: nat) -> nat
    decreases d.len(),
{
    if d.len() == 0 {
        0
    } else {
        times(d.drop_last(), l) + if slot(d.last()) == l {
            1nat
        } else {
            0
        }
    }
}

/// How many leaves lie at each depth.
pub open spec fn counted(d: Seq<nat>) -> Seq<u32> {
    Seq::new(48, |l: int| times(d, l as nat) as u32)
}

proof fn lemma_times_bound(d: Seq<nat>, l: nat)
    ensures
        times(d, l) <= d.len(),
    decreases d.len(),
{
    if d.len() > 0 {
        lemma_times_bound(d.drop_last(), l);
    }
}

/// A node that has a parent.
spec fn taken(n: int, leaf: int, inode: int, i: int) -> bool {
    i < leaf || n <= i < n + inode
}

/// One more merge: the nodes `a` and `b` get a parent.
proof fn lemma_merged_step(
    parent: Seq<u32>,
    kids: Seq<(int, int)>,
    n: int,
    k: int,
    leaf: int,
    inode: int,
    a: int,
    b: int,
    leaf2: int,
    inode2: int,
)
    requires
        2 <= n <= 65536,
        0 <= k < n - 1,
        merged(parent, kids, n, k, leaf, inode),
        a != b,
        0 <= a < n + k,
        0 <= b < n + k,
        0 <= leaf2 <= n,
        0 <= inode2 <= k,
        leaf2 + inode2 == leaf + inode + 2,
        !(a < leaf || n <= a < n + inode),
        !(b < leaf || n <= b < n + inode),
        forall|i: int|
            0 <= i < 2 * n - 1 ==> (#[trigger] taken(n, leaf2, inode2, i) <==> (taken(
                n,
                leaf,
                inode,
                i,
            ) || i == a || i == b)),
    ensures
        merged(
            parent.update(a, (n + k) as u32).update(b, (n + k) as u32),
            kids.push((a, b)),
            n,
            k + 1,
            leaf2,
            inode2,
        ),
{
    let p2 = parent.update(a, (n + k) as u32).update(b, (n + k) as u32);
    let kids2 = kids.push((a, b));
    assert(parent[a] == NO_PARENT);
    assert(parent[b] == NO_PARENT);
    assert forall|i: int| 0 <= i < p2.len() implies (#[trigger] p2[i] == NO_PARENT <==> !(i < leaf2
        || n <= i < n + inode2)) by {
        assert(taken(n, leaf2, inode2, i) == (i < leaf2 || n <= i < n + inode2));
    }
    assert forall|i: int| 0 <= i < p2.len() && #[trigger] p2[i] != NO_PARENT implies {
        &&& i < p2[i]
        &&& n <= p2[i] < n + k + 1
        &&& i == kids2[p2[i] - n].0 || i == kids2[p2[i] - n].1
    } by {
        if i != a && i != b {
            assert(p2[i] == parent[i]);
            assert(kids2[p2[i] - n] == kids[parent[i] - n]);
        }
    }
    assert forall|j: int| 0 <= j < k + 1 implies {
        let (x, y) = #[trigger] kids2[j];
        &&& 0 <= x < n + j
        &&& 0 <= y < n + j
        &&& x != y
        &&& p2[x] == n + j
        &&& p2[y] == n + j
    } by {
        if j < k {
            assert(kids2[j] == kids[j]);
        }
    }
}

/// What the code for a merge needs to know of its picks.
proof fn lemma_sums_fit(w: Seq<nat>, k: nat)
    requires
        forest::ascending(w),
        2 <= w.len() <= 65536,
        k < w.len() - 1,
        forall|i: int| 0 <= i < w.len() ==> #[trigger] w[i] <= 0xFFFF_FFFF,
    ensures
        ({
            let f = forest::forest(w, k);
            let (a, wa, f1) = forest::picked(w, f);
            let (b, wb, f2) = forest::picked(w, f1);
            wa + wb <= 65536 * 0xFFFF_FFFF
        }),
{
    forest::lemma_total_bound(w, 0xFFFF_FFFF);
    forest::lemma_forest(w, k);
    forest::lemma_two_picks(w, forest::forest(w, k), k);
    assert(w.len() * 0xFFFF_FFFF <= 65536 * 0xFFFF_FFFF);
}

/// Merges the leaves into one tree: the parent of each node.
fn merge_leaves(sorted: &Vec<(u32, u16)>) -> (r: (Vec<u32>, Ghost<Seq<(int, int)>>))
    requires
        2 <= sorted@.len() <= 65536,
        forest::ascending(weights(sorted@)),
    ensures
        r.0@ == forest::parents(weights(sorted@)),
        merged(
            r.0@,
            r.1@,
            sorted@.len() as int,
            sorted@.len() - 1,
            sorted@.len() as int,
            sorted@.len() - 2,
        ),
{
    let n: usize = sorted.len();
    let nodes: usize = 2 * n - 1;
    let mut parent: Vec<u32> = vec![NO_PARENT; nodes];
    let mut internal: Vec<u64> = Vec::with_capacity(n);
    let mut leaf: usize = 0;
    let mut inode: usize = 0;
    let ghost mut kids: Seq<(int, int)> = Seq::empty();
    let ghost w = weights(sorted@);
    let mut k: usize = 0;
    assert(parent@ =~= forest::forest(w, 0).parent);
    while k < n - 1
        invariant
            k <= n - 1,
            n == sorted@.len(),
            2 <= n <= 65536,
            nodes == 2 * n - 1,
            internal@.len() == k,
            w == weights(sorted@),
            forest::ascending(w),
            forest::forest(w, k as nat).leaf == leaf,
            forest::forest(w, k as nat).inode == inode,
            forest::forest(w, k as nat).parent == parent@,
            forest::forest(w, k as nat).inner.len() == k,
            forall|i: int|
                0 <= i < k ==> #[trigger] internal@[i] == forest::forest(w, k as nat).inner[i],
            merged(parent@, kids, n as int, k as int, leaf as int, inode as int),
        decreases n - 1 - k,
    {
        let ghost parent0 = parent@;
        let ghost leaf0 = leaf;
        let ghost inode0 = inode;
        let ghost f = forest::forest(w, k as nat);
        proof {
            lemma_sums_fit(w, k as nat);
        }
        let (a, wa) = pick_min(sorted, &internal, &mut leaf, &mut inode);
        let ghost leaf1 = leaf;
        let ghost inode1 = inode;
        assert(forest::picked(w, f).0 == a && forest::picked(w, f).1 == wa);
        assert(forest::picked(w, f).2.leaf == leaf1 && forest::picked(w, f).2.inode == inode1);
        let (b, wb) = pick_min(sorted, &internal, &mut leaf, &mut inode);
        let node: usize = n + k;
        proof {
            let f1 = forest::picked(w, f).2;
            assert(forest::picked(w, f1).0 == b && forest::picked(w, f1).1 == wb);
            lemma_merged_step(
                parent0,
                kids,
                n as int,
                k as int,
                leaf0 as int,
                inode0 as int,
                a as int,
                b as int,
                leaf as int,
                inode as int,
            );
        }
        parent[a] = node as u32;
        parent[b] = node as u32;
        internal.push(wa.saturating_add(wb));
        proof {
            kids = kids.push((a as int, b as int));
            let g = forest::forest(w, (k + 1) as nat);
            assert(g == forest::merge_once(w, f));
            assert(g.inner =~= f.inner.push((wa + wb) as nat));
        }
        k = k + 1;
    }
    (parent, Ghost(kids))
}

/// How many codes of each length an optimal tree for the given leaves has: no
/// lengths that leave room for one another cost less than its depths.
///
/// Two queues are merged in place of a heap: the leaves are sorted, and inner
/// nodes come into being in the order of their weight.
fn optimal_depths(sorted: &Vec<(u32, u16)>) -> (count: Vec<u32>)
    requires
        2 <= sorted@.len() <= 65536,
        forest::ascending(weights(sorted@)),
    ensures
        count@ == counted(forest::depths(weights(sorted@))),
        forall|l: Seq<nat>, h: nat|
            l.len() == sorted@.len() && #[trigger] forest::fits(l, h) ==> forest::work(
                weights(sorted@),
                forest::depths(weights(sorted@)),
            ) <= forest::work(weights(sorted@), l),
        count@.len() == 48,
        count@[0] == 0,
        csum(count@, 47) == sorted@.len(),
        forall|max: nat|
            1 <= max < 47 && (forall|l: int| max < l < 48 ==> count@[l] == 0)
                ==> #[trigger] cweight(count@, max) == bits::p2(max),
{
    let n: usize = sorted.len();
    let nodes: usize = 2 * n - 1;
    let ghost w = weights(sorted@);
    let (parent, Ghost(kids)) = merge_leaves(sorted);
    // depths, from the root down
    let mut depth: Vec<u32> = vec![0u32; nodes];
    let mut i: usize = nodes - 1;
    assert(parent@[nodes - 1] == NO_PARENT);
    while i > 0
        invariant
            i <= nodes - 1,
            n == sorted@.len(),
            2 <= n <= 65536,
            nodes == 2 * n - 1,
            merged(parent@, kids, n as int, n - 1, n as int, n - 2),
            depths_ok(parent@, depth@, i as int),
            forall|j: int|
                i <= j < nodes ==> #[trigger] depth@[j] == forest::depth_of(parent@, j),
        decreases i,
    {
        i = i - 1;
        assert(parent@[i as int] != NO_PARENT);
        let p: usize = parent[i] as usize;
        assert(depth_ok(parent@, depth@, p as int));
        let ghost before = depth@;
        let d: u32 = depth[p] + 1;
        depth[i] = d;
        assert forall|j: int| i <= j < parent@.len() implies #[trigger] depth_ok(
            parent@,
            depth@,
            j,
        ) by {
            if j > i {
                assert(depth_ok(parent@, before, j));
                assert(j < parent@.len() - 1 ==> parent@[j] != NO_PARENT);
            }
        }
    }
    let ghost h: nat = (2 * n + 47) as nat;
    proof {
        lemma_frontier(parent@, depth@, kids, n as int, h, n as int);
        assert forall|i: int| 0 <= i < n implies #[trigger] parent@[i] >= n by {
            assert(parent@[i] != NO_PARENT);
        }
        lemma_front_all(parent@, depth@, h, n as int, n as nat);
    }
    let mut count: Vec<u32> = vec![0u32; DEPTH_SLOTS];
    let ghost deep = forest::depths(w);
    proof {
        assert forall|j: int| 0 <= j < n implies #[trigger] deep[j] == depth@[j] by {}
        assert(deep.take(0) =~= Seq::empty());
        lemma_csum_zero(count@, 47);
        assert forall|max: nat| 1 <= max < 47 implies #[trigger] cweight(count@, max) == 0 by {
            lemma_cweight_zero(count@, max);
        }
    }
    let mut i: usize = 0;
    while i < n
        invariant
            i <= n,
            n == sorted@.len(),
            2 <= n <= 65536,
            nodes == 2 * n - 1,
            h == 2 * n + 47,
            merged(parent@, kids, n as int, n - 1, n as int, n - 2),
            depths_ok(parent@, depth@, 0),
            count@.len() == 48,
            count@[0] == 0,
            csum(count@, 47) == i,
            deep.len() == n,
            forall|j: int| 0 <= j < n ==> #[trigger] deep[j] == depth@[j],
            forall|l: int|
                0 <= l < 48 ==> #[trigger] count@[l] == times(deep.take(i as int), l as nat),
            forall|j: int| 0 <= j < i ==> count@[capped(#[trigger] depth@[j])] >= 1,
            forall|max: nat|
                1 <= max < 47 && (forall|j: int| 0 <= j < i ==> #[trigger] depth@[j] <= max)
                    ==> #[trigger] cweight(count@, max) * bits::p2((h - max) as nat)
                    == leaves_weight(depth@, h, i as nat),
        decreases n - i,
    {
        assert(parent@[i as int] != NO_PARENT);
        assert(depth_ok(parent@, depth@, i as int));
        let d: usize = if depth[i] < 47 {
            depth[i] as usize
        } else {
            47
        };
        let ghost before = count@;
        proof {
            lemma_csum_update(count@, d as nat, (count@[d as int] + 1) as u32, 47);
            lemma_csum_bound(count@, d as nat, 47);
        }
        count[d] = count[d] + 1;
        proof {
            assert(deep.take(i + 1).drop_last() =~= deep.take(i as int));
            assert(deep.take(i + 1).last() == depth@[i as int]);
            assert forall|l: int| 0 <= l < 48 implies #[trigger] count@[l] == times(
                deep.take(i + 1),
                l as nat,
            ) by {
                assert(before[l] == times(deep.take(i as int), l as nat));
            }
            assert forall|max: nat|
                1 <= max < 47 && (forall|j: int| 0 <= j < i + 1 ==> #[trigger] depth@[j]
                    <= max) implies #[trigger] cweight(count@, max) * bits::p2((h - max) as nat)
                == leaves_weight(depth@, h, (i + 1) as nat) by {
                assert(depth@[i as int] <= max);
                let c = before[d as int];
                lemma_cweight_update(before, d as nat, (c + 1) as u32, max);
                let q = bits::p2((max - d) as nat);
                assert((c + 1) * q == c * q + q) by (nonlinear_arith);
                assert(cweight(count@, max) == cweight(before, max) + q);
                let r = bits::p2((h - max) as nat);
                assert((cweight(before, max) + q) * r == cweight(before, max) * r + q * r)
                    by (nonlinear_arith);
                bits::lemma_p2_add((max - d) as nat, (h - max) as nat);
                assert((max - d) as nat + (h - max) as nat == (h - d) as nat);
            }
            assert forall|j: int| 0 <= j < i + 1 implies count@[capped(#[trigger] depth@[j])] >= 1 by {
                if j < i {
                    assert(before[capped(depth@[j])] >= 1);
                }
            }
        }
        i = i + 1;
    }
    proof {
        assert(deep.take(n as int) =~= deep);
        assert(count@ =~= counted(deep));
        assert forall|l: Seq<nat>, h: nat|
            l.len() == sorted@.len() && #[trigger] forest::fits(l, h) implies forest::work(w, deep)
            <= forest::work(w, l) by {
            forest::lemma_merged_is_least(w, l, h);
        }
        assert forall|max: nat|
            1 <= max < 47 && (forall|l: int| max < l < 48 ==> count@[l] == 0) implies #[trigger] cweight(
            count@,
            max,
        ) == bits::p2(max) by {
            assert forall|j: int| 0 <= j < n implies #[trigger] depth@[j] <= max by {
                assert(count@[capped(depth@[j])] >= 1);
            }
            let r = bits::p2((h - max) as nat);
            bits::lemma_p2_pos((h - max) as nat);
            bits::lemma_p2_add(max, (h - max) as nat);
            assert(max + (h - max) as nat == h);
            assert(cweight(count@, max) == bits::p2(max)) by (nonlinear_arith)
                requires
                    cweight(count@, max) * r == bits::p2(max) * r,
                    r > 0,
            ;
        }
    }
    count
}

spec fn capped(d: u32) -> int {
    if d < 47 {
        d as int
    } else {
        47
    }
}

proof fn lemma_csum_zero(count: Seq<u32>, l: nat)
    requires
        l < count.len(),
        forall|i: int| 0 <= i < count.len() ==> count[i] == 0,
    ensures
        csum(count, l) == 0,
    decreases l,
{
    if l > 0 {
        lemma_csum_zero(count, (l - 1) as nat);
    }
}

proof fn lemma_cweight_zero(count: Seq<u32>, l: nat)
    requires
        l < count.len(),
        forall|i: int| 0 <= i <= l ==> count[i] == 0,
    ensures
        cweight(count, l) == 0,
    decreases l,
{
    if l > 0 {
        lemma_cweight_zero(count, (l - 1) as nat);
    }
}

/// The Kraft sum in units of `2^-max_bits`.
pub fn kraft_sum(count: &Vec<u32>, max_bits: usize) -> (r: u64)
    requires
        count@.len() == 48,
        max_bits <= 15,
    ensures
        r == cweight(count@, max_bits as nat),
{
    let mut sum: u64 = 0;
    let mut l: usize = 1;
    while l <= max_bits
        invariant
            1 <= l <= max_bits + 1,
            max_bits <= 15,
            count@.len() == 48,
            sum == cweight(count@, (l - 1) as nat),
            sum <= 4294967295 * (bits::p2((l - 1) as nat) - 1),
        decreases max_bits + 1 - l,
    {
        proof {
            bits::lemma_p2_mono((l - 1) as nat, 15);
            bits::lemma_p2_values();
        }
        sum = 2 * sum + count[l] as u64;
        l = l + 1;
    }
    sum
}

/// A set of code lengths for `n` symbols that uses up all codes of at most
/// `max` bits.
pub open spec fn full_tree(count: Seq<u32>, max: nat, n: nat) -> bool {
    &&& count.len() == 48
    &&& count[0] == 0
    &&& csum(count, max) == n
    &&& cweight(count, max) == bits::p2(max)
}

/// The least number of bits, from `k` on, that tell `n` codes apart.
pub open spec fn bits_for(n: nat, k: nat) -> nat
    decreases n - k,
{
    if k >= n || bits::p2(k) >= n {
        k
    } else {
        bits_for(n, k + 1)
    }
}

/// A flat full tree of `n` leaves.
pub open spec fn flat(n: nat) -> Seq<u32> {
    let k = bits_for(n, 1);
    Seq::new(
        48,
        |l: int|
            if l == k {
                (2 * n - bits::p2(k)) as u32
            } else if l == k - 1 && l > 0 {
                (bits::p2(k) - n) as u32
            } else {
                0
            },
    )
}

/// A flat full tree of `n` leaves: with `k` the least such that `2^k >= n`,
/// `2^k - n` leaves at depth `k - 1` and `2n - 2^k` at depth `k`.
pub fn flat_depths(count: &mut Vec<u32>, max_bits: usize, n: usize)
    requires
        old(count)@.len() == 48,
        1 <= max_bits <= 15,
        2 <= n <= bits::p2(max_bits as nat),
    ensures
        full_tree(final(count)@, max_bits as nat, n as nat),
        final(count)@ == flat(n as nat),
        forall|l: int| max_bits < l < 48 ==> #[trigger] final(count)@[l] == 0,
{
    proof {
        bits::lemma_p2_mono(max_bits as nat, 15);
        bits::lemma_p2_values();
    }
    let mut k: usize = 1;
    let mut pow: u64 = 2;
    while pow < n as u64
        invariant
            1 <= k <= max_bits <= 15,
            pow == bits::p2(k as nat),
            bits::p2((k - 1) as nat) < n <= bits::p2(max_bits as nat),
            n <= 32768,
            bits_for(n as nat, 1) == bits_for(n as nat, k as nat),
        decreases max_bits - k,
    {
        proof {
            if k == max_bits {
                assert(false);
            }
        }
        proof {
            lemma_p2_above(k as nat);
        }
        k = k + 1;
        pow = pow * 2;
    }
    let short: u64 = pow - n as u64;
    let long: u64 = 2 * n as u64 - pow;
    let mut zero: Vec<u32> = vec![0u32; DEPTH_SLOTS];
    let ghost z = zero@;
    if k > 1 {
        zero[k - 1] = short as u32;
    }
    let ghost one = zero@;
    zero[k] = long as u32;
    *count = zero;
    proof {
        let c = count@;
        let kn = k as nat;
        lemma_csum_zero(z, max_bits as nat);
        lemma_cweight_zero(z, max_bits as nat);
        if k > 1 {
            lemma_csum_update(z, (k - 1) as nat, short as u32, max_bits as nat);
            lemma_cweight_zero(z, kn);
            lemma_cweight_update(z, (k - 1) as nat, short as u32, kn);
            assert((kn - (k - 1)) as nat == 1);
            bits::lemma_p2_values();
            assert(cweight(one, kn) == 2 * short);
        } else {
            lemma_cweight_zero(z, kn);
        }
        lemma_csum_update(one, kn, long as u32, max_bits as nat);
        lemma_cweight_update(one, kn, long as u32, kn);
        assert((kn - k) as nat == 0);
        assert(one[k as int] == 0);
        assert(bits::p2(0) == 1);
        assert(cweight(c, kn) == bits::p2(kn));
        lemma_cweight_tail(c, kn, max_bits as nat);
        bits::lemma_p2_add((max_bits - k) as nat, kn);
        assert(c =~= flat(n as nat));
    }
}

proof fn lemma_p2_above(k: nat)
    ensures
        k < bits::p2(k),
    decreases k,
{
    if k > 0 {
        lemma_p2_above((k - 1) as nat);
    }
}

/// Codes that are too long drawn up to the limit.
pub open spec fn drawn_up(count: Seq<u32>, max: nat) -> Seq<u32> {
    Seq::new(
        48,
        |l: int|
            if l < max {
                count[l]
            } else if l == max {
                (count[l] + csum(count, 47) - csum(count, max)) as u32
            } else {
                0
            },
    )
}

/// The last level with a code, from `b` up; zero when there is none.
pub open spec fn last_used(count: Seq<u32>, b: nat) -> nat
    decreases b,
{
    if b == 0 || count[b as int] != 0 {
        b
    } else {
        last_used(count, (b - 1) as nat)
    }
}

/// A leaf of the level `b` moves down, and one code of the last level with it.
pub open spec fn moved_down(count: Seq<u32>, b: nat, max: nat) -> Seq<u32> {
    let one = count.update(b as int, (count[b as int] - 1) as u32);
    let c = b as int + 1;
    let two = one.update(c, (one[c] + 2) as u32);
    two.update(max as int, (two[max as int] - 1) as u32)
}

/// At most so many leaves moved down, each from the last level that can give
/// one.
pub open spec fn lowered(count: Seq<u32>, max: nat, steps: nat) -> Seq<u32>
    decreases steps,
{
    let b = last_used(count, (max - 1) as nat);
    if steps == 0 || b == 0 || count[max as int] == 0 {
        count
    } else {
        lowered(moved_down(count, b, max), max, (steps - 1) as nat)
    }
}

/// A tree within a limit: itself where it is, else its codes drawn up to the
/// limit, and as many leaves moved down as the Kraft sum is over one; a flat tree
/// where that does not end at equality.
pub open spec fn limited(count: Seq<u32>, max: nat, n: nat) -> Seq<u32> {
    if csum(count, 47) == csum(count, max) {
        count
    } else {
        let d = drawn_up(count, max);
        let over = cweight(d, max) - bits::p2(max);
        let r = lowered(
            d,
            max,
            if over > 0 {
                over as nat
            } else {
                0
            },
        );
        if cweight(r, max) == bits::p2(max) {
            r
        } else {
            flat(n)
        }
    }
}

/// Brings a tree within `max_bits`, keeping the Kraft sum at one.
///
/// Codes that are too long are first drawn up to the limit; then each step
/// moves a leaf from a level `b` down to `b + 1`, together with one code of
/// the last level, which lowers the sum by exactly one unit. Should that not
/// end at equality, a flat tree is taken.
pub fn limit_depth(count: &mut Vec<u32>, max_bits: usize, n_used: usize)
    requires
        old(count)@.len() == 48,
        old(count)@[0] == 0,
        1 <= max_bits <= 15,
        2 <= n_used <= bits::p2(max_bits as nat),
        csum(old(count)@, 47) == n_used,
        (forall|l: int| max_bits < l < 48 ==> old(count)@[l] == 0) ==> cweight(
            old(count)@,
            max_bits as nat,
        ) == bits::p2(max_bits as nat),
    ensures
        final(count)@ == limited(old(count)@, max_bits as nat, n_used as nat),
        full_tree(final(count)@, max_bits as nat, n_used as nat),
        forall|l: int| max_bits < l < 48 ==> #[trigger] final(count)@[l] == 0,
        (forall|l: int| max_bits < l < 48 ==> old(count)@[l] == 0) ==> final(count)@ == old(
            count,
        )@,
{
    proof {
        bits::lemma_p2_mono(max_bits as nat, 15);
        bits::lemma_p2_values();
    }
    let ghost m = max_bits as nat;
    let ghost n = n_used as nat;
    let mut overflow: u32 = 0;
    let mut l: usize = max_bits + 1;
    while l < DEPTH_SLOTS
        invariant
            max_bits + 1 <= l <= 48,
            1 <= max_bits <= 15,
            count@.len() == 48,
            n <= 32768,
            n == n_used,
            csum(count@, 47) + overflow == n,
            forall|i: int| max_bits < i < l ==> #[trigger] count@[i] == 0,
            forall|i: int| 0 <= i <= max_bits || l <= i < 48 ==> #[trigger] count@[i] == old(
                count,
            )@[i],
            overflow == 0 ==> forall|i: int| max_bits < i < l ==> #[trigger] old(count)@[i] == 0,
        decreases 48 - l,
    {
        let c: u32 = count[l];
        proof {
            lemma_csum_bound(count@, l as nat, 47);
            lemma_csum_update(count@, l as nat, 0, 47);
        }
        overflow = overflow + c;
        count[l] = 0;
        l = l + 1;
    }
    proof {
        lemma_csum_tail(count@, m, 47);
        lemma_csum_same(count@, old(count)@, m);
        if forall|l: int| max_bits < l < 48 ==> old(count)@[l] == 0 {
            lemma_csum_tail(old(count)@, m, 47);
        }
    }
    if overflow == 0 {
        assert(count@ =~= old(count)@);
        return;
    }
    proof {
        lemma_csum_update(count@, m, (count@[max_bits as int] + overflow) as u32, m);
        lemma_csum_bound(count@, m, m);
    }
    count[max_bits] = count[max_bits] + overflow;
    assert(count@ =~= drawn_up(old(count)@, m));
    let ghost over = cweight(count@, m) - bits::p2(m);
    let ghost goal = lowered(
        count@,
        m,
        if over > 0 {
            over as nat
        } else {
            0
        },
    );
    let total: u64 = bits::pow2_u64(max_bits as u32);
    let mut kraft: u64 = kraft_sum(count, max_bits);
    let mut stuck: bool = false;
    while kraft > total && !stuck
        invariant
            1 <= max_bits <= 15,
            m == max_bits,
            n == n_used,
            2 <= n <= bits::p2(m),
            n <= 32768,
            count@.len() == 48,
            count@[0] == 0,
            csum(count@, m) == n,
            kraft == cweight(count@, m),
            total == bits::p2(m),
            forall|l: int| m < l < 48 ==> #[trigger] count@[l] == 0,
            goal == if stuck {
                count@
            } else {
                lowered(
                    count@,
                    m,
                    if kraft > total {
                        (kraft - total) as nat
                    } else {
                        0
                    },
                )
            },
        decreases kraft + if stuck {
            0int
        } else {
            1
        },
    {
        let mut b: usize = max_bits - 1;
        while b > 0 && count[b] == 0
            invariant
                b < max_bits <= 15,
                count@.len() == 48,
                m == max_bits,
                last_used(count@, (m - 1) as nat) == last_used(count@, b as nat),
            decreases b,
        {
            b = b - 1;
        }
        if b == 0 || count[max_bits] == 0 {
            stuck = true;
        } else {
            let ghost c0 = count@;
            let x: u32 = count[b] - 1;
            proof {
                lemma_csum_bound(c0, b as nat, m);
                lemma_csum_update(c0, b as nat, x, m);
                lemma_cweight_update(c0, b as nat, x, m);
            }
            count[b] = x;
            let ghost c1 = count@;
            proof {
                lemma_csum_bound(c1, (b + 1) as nat, m);
                lemma_csum_update(c1, (b + 1) as nat, (c1[b + 1] + 2) as u32, m);
                lemma_cweight_update(c1, (b + 1) as nat, (c1[b + 1] + 2) as u32, m);
            }
            count[b + 1] = count[b + 1] + 2;
            let ghost c2 = count@;
            proof {
                lemma_csum_bound(c2, m, m);
                lemma_csum_update(c2, m, (c2[max_bits as int] - 1) as u32, m);
                lemma_cweight_update(c2, m, (c2[max_bits as int] - 1) as u32, m);
            }
            count[max_bits] = count[max_bits] - 1;
            proof {
                let p = bits::p2((m - b - 1) as nat);
                let y = c0[b as int];
                assert(bits::p2((m - b) as nat) == 2 * p);
                assert(x * (2 * p) == y * (2 * p) - 2 * p) by (nonlinear_arith)
                    requires
                        x == y - 1,
                ;
                let z = c1[b + 1];
                assert((z + 2) * p == z * p + 2 * p) by (nonlinear_arith);
                assert(bits::p2(0) == 1);
                let w = c2[max_bits as int];
                assert((m - m) as nat == 0);
                assert((w - 1) * bits::p2(0) == w * bits::p2(0) - 1) by (nonlinear_arith)
                    requires
                        bits::p2(0) == 1,
                ;
            }
            assert(count@ =~= moved_down(c0, b as nat, m));
            kraft = kraft - 1;
        }
    }
    if kraft != total {
        flat_depths(count, max_bits, n_used);
    }
}

/// How many of the frequencies are not zero.
pub open spec fn positive(freq: Seq<u32>) -> nat
    decreases freq.len(),
{
    if freq.len() == 0 {
        0
    } else {
        positive(freq.drop_last()) + if freq.last() > 0 {
            1nat
        } else {
            0
        }
    }
}

proof fn lemma_positive_take(freq: Seq<u32>, i: int)
    requires
        0 <= i < freq.len(),
    ensures
        positive(freq.take(i + 1)) == positive(freq.take(i)) + if freq[i] > 0 {
            1nat
        } else {
            0
        },
{
    assert(freq.take(i + 1).drop_last() =~= freq.take(i));
}

pub proof fn lemma_positive_bound(freq: Seq<u32>)
    ensures
        positive(freq) <= freq.len(),
    decreases freq.len(),
{
    if freq.len() > 0 {
        lemma_positive_bound(freq.drop_last());
    }
}

/// The used symbols below `k`, each once, by ascending frequency.
spec fn listed(used: Seq<(u32, u16)>, freq: Seq<u32>, k: int) -> bool {
    &&& forall|i: int|
        0 <= i < used.len() ==> {
            let (f, s) = #[trigger] used[i];
            (s as int) < k && f == freq[s as int] && f > 0
        }
    &&& forall|i: int, j: int|
        0 <= i < j < used.len() ==> (#[trigger] used[i]).0 <= (#[trigger] used[j]).0 && used[i].1
            != used[j].1
    &&& forall|s: int| 0 <= s < k && freq[s] > 0 ==> #[trigger] has_sym(used, s)
}

spec fn has_sym(used: Seq<(u32, u16)>, s: int) -> bool {
    exists|i: int| 0 <= i < used.len() && (#[trigger] used[i]).1 == s
}

/// One more symbol, put behind those that occur as often or less.
proof fn lemma_listed_insert(before: Seq<(u32, u16)>, freq: Seq<u32>, s: int, at: int, f: u32)
    requires
        listed(before, freq, s),
        0 <= s < freq.len() <= 65536,
        f == freq[s],
        f > 0,
        0 <= at <= before.len(),
        forall|i: int| at <= i < before.len() ==> (#[trigger] before[i]).0 > f,
        at > 0 ==> before[at - 1].0 <= f,
    ensures
        listed(before.insert(at, (f, s as u16)), freq, s + 1),
{
    let used = before.insert(at, (f, s as u16));
    assert(s as u16 == s);
    assert forall|t: int| 0 <= t < s + 1 && freq[t] > 0 implies #[trigger] has_sym(used, t) by {
        if t < s {
            assert(has_sym(before, t));
            let i = choose|i: int| 0 <= i < before.len() && (#[trigger] before[i]).1 == t;
            if i < at {
                assert(used[i] == before[i]);
            } else {
                assert(used[i + 1] == before[i]);
            }
        } else {
            assert(used[at].1 == t);
        }
    }
    assert forall|i: int| 0 <= i < used.len() implies ({
        let (g, t) = #[trigger] used[i];
        (t as int) < s + 1 && g == freq[t as int] && g > 0
    }) by {
        if i < at {
            assert(used[i] == before[i]);
        } else if i > at {
            assert(used[i] == before[i - 1]);
        }
    }
    assert forall|i: int, j: int| 0 <= i < j < used.len() implies (#[trigger] used[i]).0 <= (
    #[trigger] used[j]).0 && used[i].1 != used[j].1 by {
        let bi = if i < at {
            i
        } else {
            i - 1
        };
        let bj = if j < at {
            j
        } else {
            j - 1
        };
        if i != at {
            assert(used[i] == before[bi]);
        }
        if j != at {
            assert(used[j] == before[bj]);
        }
        if i == at {
            assert(before[bj].0 > f);
        }
        if j == at && at > 0 {
            if bi < at - 1 {
                assert(before[bi].0 <= before[at - 1].0);
            }
        }
    }
}

/// The place behind those that occur as often or less.
pub open spec fn place(r: Seq<(u32, u16)>, f: u32) -> nat
    decreases r.len(),
{
    if r.len() == 0 || r.last().0 <= f {
        r.len()
    } else {
        place(r.drop_last(), f)
    }
}

/// The used symbols by ascending frequency, those of one frequency by number.
pub open spec fn ranked(freq: Seq<u32>) -> Seq<(u32, u16)>
    decreases freq.len(),
{
    if freq.len() == 0 {
        Seq::empty()
    } else {
        let r = ranked(freq.drop_last());
        if freq.last() > 0 {
            r.insert(place(r, freq.last()) as int, (freq.last(), (freq.len() - 1) as u16))
        } else {
            r
        }
    }
}

proof fn lemma_place(r: Seq<(u32, u16)>, f: u32, at: nat)
    requires
        at <= r.len(),
        forall|i: int| at <= i < r.len() ==> (#[trigger] r[i]).0 > f,
        at > 0 ==> r[at - 1].0 <= f,
    ensures
        place(r, f) == at,
    decreases r.len(),
{
    if at < r.len() {
        assert(r[r.len() - 1].0 > f);
        lemma_place(r.drop_last(), f, at);
    }
}

/// The used symbols by ascending frequency, those of one frequency by number.
fn sorted_symbols(freq: &Vec<u32>) -> (used: Vec<(u32, u16)>)
    requires
        freq@.len() <= 65536,
    ensures
        used@ == ranked(freq@),
        listed(used@, freq@, freq@.len() as int),
        used@.len() == positive(freq@),
{
    let mut used: Vec<(u32, u16)> = Vec::new();
    let mut s: usize = 0;
    assert(freq@.take(0) =~= Seq::<u32>::empty());
    while s < freq.len()
        invariant
            s <= freq@.len() <= 65536,
            listed(used@, freq@, s as int),
            used@ == ranked(freq@.take(s as int)),
            used@.len() == positive(freq@.take(s as int)),
            used@.len() <= s,
        decreases freq@.len() - s,
    {
        proof {
            lemma_positive_take(freq@, s as int);
            assert(freq@.take(s + 1).drop_last() =~= freq@.take(s as int));
        }
        let f: u32 = freq[s];
        if f > 0 {
            let mut at: usize = used.len();
            while at > 0 && used[at - 1].0 > f
                invariant
                    at <= used@.len(),
                    forall|i: int| at <= i < used@.len() ==> (#[trigger] used@[i]).0 > f,
                decreases at,
            {
                at = at - 1;
            }
            proof {
                lemma_listed_insert(used@, freq@, s as int, at as int, f);
                lemma_place(used@, f, at as nat);
            }
            used.insert(at, (f, s as u16));
        }
        s = s + 1;
    }
    assert(freq@.take(s as int) =~= freq@);
    used
}

proof fn lemma_count_update(lens: Seq<u8>, s: int, x: u8, l: nat)
    requires
        0 <= s < lens.len(),
    ensures
        huffman::count_len(lens.update(s, x), l) + (if lens[s] == l {
            1nat
        } else {
            0
        }) == huffman::count_len(lens, l) + (if x == l {
            1nat
        } else {
            0
        }),
    decreases lens.len(),
{
    if s == lens.len() - 1 {
        assert(lens.update(s, x).drop_last() =~= lens.drop_last());
    } else {
        assert(lens.update(s, x).drop_last() =~= lens.drop_last().update(s, x));
        lemma_count_update(lens.drop_last(), s, x, l);
    }
}

proof fn lemma_count_zeros(lens: Seq<u8>, l: nat)
    requires
        l > 0,
        forall|i: int| 0 <= i < lens.len() ==> lens[i] == 0,
    ensures
        huffman::count_len(lens, l) == 0,
    decreases lens.len(),
{
    if lens.len() > 0 {
        lemma_count_zeros(lens.drop_last(), l);
    }
}

proof fn lemma_weight_is_cweight(lens: Seq<u8>, count: Seq<u32>, l: nat)
    requires
        l < count.len(),
        forall|k: int| 1 <= k <= l ==> huffman::count_len(lens, k as nat) == #[trigger] count[k],
    ensures
        huffman::weight(lens, l) == cweight(count, l),
    decreases l,
{
    if l > 0 {
        assert(huffman::count_len(lens, (l as int) as nat) == count[l as int]);
        lemma_weight_is_cweight(lens, count, (l - 1) as nat);
    }
}

/// No code of more than `a` bits: the weight only doubles from there.
pub proof fn lemma_weight_tail(lens: Seq<u8>, a: nat, b: nat)
    requires
        a <= b,
        forall|i: int| 0 <= i < lens.len() ==> lens[i] <= a,
    ensures
        huffman::weight(lens, b) == bits::p2((b - a) as nat) * huffman::weight(lens, a),
    decreases b,
{
    if a < b {
        lemma_weight_tail(lens, a, (b - 1) as nat);
        lemma_count_none(lens, b);
        let p = bits::p2((b - 1 - a) as nat);
        assert((2 * p) * huffman::weight(lens, a) == 2 * (p * huffman::weight(lens, a)))
            by (nonlinear_arith);
    } else {
        assert(1 * huffman::weight(lens, a) == huffman::weight(lens, a));
    }
}

proof fn lemma_count_none(lens: Seq<u8>, l: nat)
    requires
        forall|i: int| 0 <= i < lens.len() ==> lens[i] < l,
    ensures
        huffman::count_len(lens, l) == 0,
    decreases lens.len(),
{
    if lens.len() > 0 {
        lemma_count_none(lens.drop_last(), l);
    }
}

/// Code lengths that fit the frequencies: a code for exactly the symbols that
/// occur, none longer than `max`, and no longer one for a more frequent symbol.
pub open spec fn lengths_fit(lens: Seq<u8>, freq: Seq<u32>, max: nat) -> bool {
    &&& lens.len() == freq.len()
    &&& forall|s: int| 0 <= s < freq.len() ==> #[trigger] lens[s] <= max
    &&& forall|s: int| 0 <= s < freq.len() ==> (#[trigger] lens[s] > 0 <==> freq[s] > 0)
    &&& forall|s: int, t: int|
        0 <= s < freq.len() && 0 <= t < freq.len() && 0 < freq[t] < freq[s] ==> #[trigger] lens[s]
            <= #[trigger] lens[t]
}

/// The length of the code of rank `r` from the most frequent symbol on: the
/// least, from `l` on, at which so many codes are used up.
pub open spec fn len_for(count: Seq<u32>, r: nat, l: nat) -> nat
    decreases 47 - l,
{
    if l >= 47 || csum(count, l) >= r {
        l
    } else {
        len_for(count, r, l + 1)
    }
}

proof fn lemma_len_for(count: Seq<u32>, r: nat, l: nat, len: nat)
    requires
        1 <= l <= len <= 46,
        count.len() == 48,
        csum(count, len) >= r,
        csum(count, (len - 1) as nat) < r,
    ensures
        len_for(count, r, l) == len,
    decreases len - l,
{
    if l < len {
        lemma_csum_mono(count, l, (len - 1) as nat);
        lemma_len_for(count, r, l + 1, len);
    }
}

/// Where a symbol stands in a ranking.
pub open spec fn rank_of(r: Seq<(u32, u16)>, s: int) -> int {
    choose|i: int| 0 <= i < r.len() && (#[trigger] r[i]).1 == s
}

/// The depths of the leaves for given frequencies.
pub open spec fn tree_depths(freq: Seq<u32>) -> Seq<nat> {
    forest::depths(weights(ranked(freq)))
}

/// How many codes of each length there are for given frequencies.
pub open spec fn code_counts(freq: Seq<u32>, max: nat) -> Seq<u32> {
    limited(counted(tree_depths(freq)), max, ranked(freq).len())
}

/// The code lengths for given frequencies: the most frequent symbol gets the
/// shortest code, and a single symbol one of one bit.
pub open spec fn lengths_of(freq: Seq<u32>, max: nat) -> Seq<u8> {
    let r = ranked(freq);
    Seq::new(
        freq.len(),
        |s: int|
            if freq[s] == 0 {
                0u8
            } else if r.len() == 1 {
                1u8
            } else {
                len_for(code_counts(freq, max), (r.len() - rank_of(r, s)) as nat, 1) as u8
            },
    )
}

/// The tree for given frequencies is within the limit.
pub open spec fn unlimited(freq: Seq<u32>, max: nat) -> bool {
    forall|i: int|
        0 <= i < tree_depths(freq).len() ==> #[trigger] tree_depths(freq)[i] <= max
}

/// What given lengths cost.
pub open spec fn price(freq: Seq<u32>, l: Seq<nat>) -> nat {
    forest::total(Seq::new(freq.len(), |s: int| freq[s] as nat * l[s]))
}

/// Lengths of at most `h` bits for the used symbols that leave room for one
/// another (Kraft).
pub open spec fn usable(freq: Seq<u32>, l: Seq<nat>, h: nat) -> bool {
    &&& l.len() == freq.len()
    &&& forall|s: int| 0 <= s < freq.len() && freq[s] > 0 ==> #[trigger] l[s] <= h
    &&& forest::total(
        Seq::new(
            freq.len(),
            |s: int|
                if freq[s] > 0 {
                    bits::p2((h - l[s]) as nat)
                } else {
                    0
                },
        ),
    ) <= bits::p2(h)
}

/// No usable lengths cost less.
pub open spec fn cheapest(freq: Seq<u32>, lens: Seq<u8>) -> bool {
    forall|l: Seq<nat>, h: nat| #[trigger]
        usable(freq, l, h) ==> price(freq, Seq::new(lens.len(), |s: int| lens[s] as nat)) <= price(
            freq,
            l,
        )
}

/// A sum over the used symbols is the same in the order of their ranking.
proof fn lemma_ranked_total(freq: Seq<u32>, g: spec_fn(int) -> nat)
    requires
        freq.len() <= 65536,
    ensures
        forest::total(
            Seq::new(
                freq.len(),
                |s: int|
                    if freq[s] > 0 {
                        g(s)
                    } else {
                        0
                    },
            ),
        ) == forest::total(Seq::new(ranked(freq).len(), |i: int| g(ranked(freq)[i].1 as int))),
    decreases freq.len(),
{
    let a = Seq::new(
        freq.len(),
        |s: int|
            if freq[s] > 0 {
                g(s)
            } else {
                0
            },
    );
    let b = Seq::new(ranked(freq).len(), |i: int| g(ranked(freq)[i].1 as int));
    if freq.len() > 0 {
        let f0 = freq.drop_last();
        let s = freq.len() - 1;
        lemma_ranked_total(f0, g);
        let r = ranked(f0);
        let a0 = Seq::new(
            f0.len(),
            |s: int|
                if f0[s] > 0 {
                    g(s)
                } else {
                    0
                },
        );
        let b0 = Seq::new(r.len(), |i: int| g(r[i].1 as int));
        assert(a.drop_last() =~= a0);
        if freq.last() > 0 {
            let at = place(r, freq.last()) as int;
            lemma_place_within(r, freq.last());
            assert(b =~= b0.insert(at, g(s)));
            forest::lemma_total_insert(b0, at, g(s));
        } else {
            assert(b =~= b0);
        }
    } else {
        assert(a =~= b);
    }
}

proof fn lemma_place_within(r: Seq<(u32, u16)>, f: u32)
    ensures
        place(r, f) <= r.len(),
    decreases r.len(),
{
    if r.len() > 0 {
        lemma_place_within(r.drop_last(), f);
    }
}

/// How many depths are at most `l`.
spec fn at_most(d: Seq<nat>, l: nat) -> nat
    decreases d.len(),
{
    if d.len() == 0 {
        0
    } else {
        at_most(d.drop_last(), l) + if d.last() <= l {
            1nat
        } else {
            0
        }
    }
}

proof fn lemma_at_most_step(d: Seq<nat>, l: nat)
    requires
        1 <= l <= 46,
    ensures
        at_most(d, l) == at_most(d, (l - 1) as nat) + times(d, l),
    decreases d.len(),
{
    if d.len() > 0 {
        lemma_at_most_step(d.drop_last(), l);
    }
}

proof fn lemma_at_most_none(d: Seq<nat>)
    requires
        forall|i: int| 0 <= i < d.len() ==> #[trigger] d[i] >= 1,
    ensures
        at_most(d, 0) == 0,
    decreases d.len(),
{
    if d.len() > 0 {
        assert forall|i: int| 0 <= i < d.len() - 1 implies #[trigger] d.drop_last()[i] >= 1 by {
            assert(d[i] >= 1);
        }
        assert(d[d.len() - 1] >= 1);
        lemma_at_most_none(d.drop_last());
    }
}

proof fn lemma_csum_counted(d: Seq<nat>, l: nat)
    requires
        l <= 46,
        d.len() <= 65536,
        forall|i: int| 0 <= i < d.len() ==> #[trigger] d[i] >= 1,
    ensures
        csum(counted(d), l) == at_most(d, l),
    decreases l,
{
    if l == 0 {
        lemma_at_most_none(d);
    } else {
        lemma_csum_counted(d, (l - 1) as nat);
        lemma_at_most_step(d, l);
        lemma_times_bound(d, l);
    }
}

/// With the first `i + 1` depths above `l`, no more than the others are at most
/// `l`.
proof fn lemma_at_most_upper(d: Seq<nat>, l: nat, i: int)
    requires
        0 <= i < d.len(),
        forall|j: int| 0 <= j <= i ==> #[trigger] d[j] > l,
    ensures
        at_most(d, l) <= d.len() - i - 1,
    decreases d.len(),
{
    let e = d.drop_last();
    if i < d.len() - 1 {
        assert forall|j: int| 0 <= j <= i implies #[trigger] e[j] > l by {
            assert(d[j] > l);
        }
        lemma_at_most_upper(e, l, i);
    } else {
        assert(d[d.len() - 1] > l);
        if e.len() > 0 {
            assert forall|j: int| 0 <= j <= e.len() - 1 implies #[trigger] e[j] > l by {
                assert(d[j] > l);
            }
            lemma_at_most_upper(e, l, e.len() - 1);
        }
    }
}

/// With the depths from `i` on at most `l`, they are counted.
proof fn lemma_at_most_lower(d: Seq<nat>, l: nat, i: int)
    requires
        0 <= i <= d.len(),
        forall|j: int| i <= j < d.len() ==> #[trigger] d[j] <= l,
    ensures
        at_most(d, l) >= d.len() - i,
    decreases d.len(),
{
    if i < d.len() {
        let e = d.drop_last();
        assert(d[d.len() - 1] <= l);
        assert forall|j: int| i <= j < e.len() implies #[trigger] e[j] <= l by {
            assert(d[j] <= l);
        }
        lemma_at_most_lower(e, l, i);
    }
}

/// Within the limit, the code of a rank is as long as its leaf is deep.
proof fn lemma_len_is_depth(freq: Seq<u32>, max: nat, i: int)
    requires
        2 <= ranked(freq).len() <= 65536,
        forest::ascending(weights(ranked(freq))),
        max <= 15,
        unlimited(freq, max),
        0 <= i < ranked(freq).len(),
    ensures
        len_for(code_counts(freq, max), (ranked(freq).len() - i) as nat, 1) == tree_depths(freq)[i],
{
    let w = weights(ranked(freq));
    let d = tree_depths(freq);
    let n = d.len() as int;
    let c = counted(d);
    assert forall|j: int| 0 <= j < n implies #[trigger] d[j] >= 1 by {
        forest::lemma_leaf_depth(w, j, j);
    }
    lemma_csum_counted(d, max);
    lemma_csum_counted(d, 46);
    lemma_at_most_lower(d, max, 0);
    lemma_at_most_lower(d, 46, 0);
    lemma_csum_mono(c, max, 47);
    assert forall|l: int| max < l <= 47 implies c[l] == 0 by {
        lemma_times_none(d, l as nat, max);
    }
    lemma_csum_tail(c, max, 47);
    assert(code_counts(freq, max) == c);
    assert(d[i] <= max);
    assert(d[i] >= 1);
    let l = d[i];
    assert forall|j: int| i <= j < n implies #[trigger] d[j] <= l by {
        forest::lemma_leaf_depth(w, i, j);
    }
    assert forall|j: int| 0 <= j <= i implies #[trigger] d[j] > (l - 1) as nat by {
        forest::lemma_leaf_depth(w, j, i);
    }
    lemma_at_most_lower(d, l, i);
    lemma_at_most_upper(d, (l - 1) as nat, i);
    lemma_csum_counted(d, l);
    lemma_csum_counted(d, (l - 1) as nat);
    lemma_len_for(c, (n - i) as nat, 1, l);
}

proof fn lemma_times_none(d: Seq<nat>, l: nat, max: nat)
    requires
        max < l <= 47,
        forall|i: int| 0 <= i < d.len() ==> #[trigger] d[i] <= max,
    ensures
        times(d, l) == 0,
    decreases d.len(),
{
    if d.len() > 0 {
        let e = d.drop_last();
        assert forall|i: int| 0 <= i < e.len() implies #[trigger] e[i] <= max by {
            assert(d[i] <= max);
        }
        assert(d[d.len() - 1] <= max);
        lemma_times_none(e, l, max);
    }
}

/// Lengths that are the depths of the leaves are the cheapest.
proof fn lemma_depths_are_cheapest(freq: Seq<u32>, lens: Seq<u8>)
    requires
        freq.len() <= 65536,
        lens.len() == freq.len(),
        2 <= ranked(freq).len() <= 65536,
        listed(ranked(freq), freq, freq.len() as int),
        forest::ascending(weights(ranked(freq))),
        forall|i: int|
            0 <= i < ranked(freq).len() ==> lens[(#[trigger] ranked(freq)[i]).1 as int]
                == tree_depths(freq)[i],
    ensures
        cheapest(freq, lens),
{
    let r = ranked(freq);
    let w = weights(r);
    let d = tree_depths(freq);
    let out = Seq::new(lens.len(), |s: int| lens[s] as nat);
    assert forall|l: Seq<nat>, h: nat| #[trigger] usable(freq, l, h) implies price(freq, out)
        <= price(freq, l) by {
        let g = |s: int| freq[s] as nat * out[s];
        let k = |s: int| freq[s] as nat * l[s];
        let p = |s: int| bits::p2((h - l[s]) as nat);
        lemma_price(freq, out);
        lemma_price(freq, l);
        lemma_ranked_total(freq, p);
        let m = Seq::new(r.len(), |i: int| l[r[i].1 as int]);
        assert(Seq::new(r.len(), |i: int| p(r[i].1 as int)) =~= forest::shares(m, h));
        assert(Seq::new(
            freq.len(),
            |s: int|
                if freq[s] > 0 {
                    p(s)
                } else {
                    0
                },
        ) =~= Seq::new(
            freq.len(),
            |s: int|
                if freq[s] > 0 {
                    bits::p2((h - l[s]) as nat)
                } else {
                    0
                },
        ));
        assert(forest::fits(m, h)) by {
            assert forall|i: int| 0 <= i < m.len() implies #[trigger] m[i] <= h by {
                assert(r[i].1 < freq.len());
                assert(l[r[i].1 as int] <= h);
            }
        }
        forest::lemma_merged_is_least(w, m, h);
        assert(Seq::new(r.len(), |i: int| out[r[i].1 as int]) =~= d) by {
            assert forall|i: int| 0 <= i < r.len() implies out[#[trigger] r[i].1 as int] == d[i] by {
                assert(lens[r[i].1 as int] == d[i]);
            }
        }
    }
}

/// What lengths cost, in the order of the ranking.
proof fn lemma_price(freq: Seq<u32>, l: Seq<nat>)
    requires
        freq.len() <= 65536,
        listed(ranked(freq), freq, freq.len() as int),
    ensures
        price(freq, l) == forest::work(
            weights(ranked(freq)),
            Seq::new(ranked(freq).len(), |i: int| l[ranked(freq)[i].1 as int]),
        ),
{
    let r = ranked(freq);
    let g = |s: int| freq[s] as nat * l[s];
    lemma_ranked_total(freq, g);
    assert(Seq::new(
        freq.len(),
        |s: int|
            if freq[s] > 0 {
                g(s)
            } else {
                0
            },
    ) =~= Seq::new(freq.len(), |s: int| freq[s] as nat * l[s])) by {
        assert forall|s: int| 0 <= s < freq.len() && freq[s] == 0 implies #[trigger] freq[s] as nat
            * l[s] == 0 by {
            let x = l[s];
            assert(0 * x == 0) by (nonlinear_arith);
        }
    }
    let m = Seq::new(r.len(), |i: int| l[r[i].1 as int]);
    assert(Seq::new(r.len(), |i: int| g(r[i].1 as int)) =~= forest::products(weights(r), m)) by {
        assert forall|i: int| 0 <= i < r.len() implies g(r[i].1 as int) == #[trigger] weights(r)[i]
            * m[i] by {
            assert(r[i].0 == freq[r[i].1 as int]);
        }
    }
}

proof fn lemma_place_parts(r: Seq<(u32, u16)>, f: u32)
    ensures
        place(r, f) <= r.len(),
        forall|i: int| place(r, f) <= i < r.len() ==> (#[trigger] r[i]).0 > f,
        place(r, f) > 0 ==> r[place(r, f) - 1].0 <= f,
    decreases r.len(),
{
    if r.len() > 0 && r.last().0 > f {
        let q = r.drop_last();
        lemma_place_parts(q, f);
        assert forall|i: int| place(r, f) <= i < r.len() implies (#[trigger] r[i]).0 > f by {
            if i < q.len() {
                assert(q[i].0 > f);
            }
        }
    }
}

/// A ranking holds the used symbols, each once, by ascending frequency.
proof fn lemma_ranked(freq: Seq<u32>)
    requires
        freq.len() <= 65536,
    ensures
        listed(ranked(freq), freq, freq.len() as int),
        ranked(freq).len() == positive(freq),
    decreases freq.len(),
{
    if freq.len() > 0 {
        let f0 = freq.drop_last();
        let r = ranked(f0);
        let s = freq.len() - 1;
        lemma_ranked(f0);
        assert(listed(r, freq, s)) by {
            assert forall|i: int| 0 <= i < r.len() implies ({
                let (f, q) = #[trigger] r[i];
                (q as int) < s && f == freq[q as int] && f > 0
            }) by {
                assert(f0[r[i].1 as int] == freq[r[i].1 as int]);
            }
            assert forall|q: int| 0 <= q < s && freq[q] > 0 implies #[trigger] has_sym(r, q) by {
                assert(f0[q] == freq[q]);
            }
        }
        if freq.last() > 0 {
            lemma_place_parts(r, freq.last());
            lemma_listed_insert(r, freq, s, place(r, freq.last()) as int, freq.last());
        }
    }
}

/// With no more symbols than the limit has bits and one, the limit does not
/// bind.
pub proof fn lemma_few_are_unlimited(freq: Seq<u32>, max: nat)
    requires
        freq.len() <= 65536,
        2 <= positive(freq) <= max + 1,
        max <= 15,
    ensures
        unlimited(freq, max),
{
    lemma_ranked(freq);
    let r = ranked(freq);
    assert(forest::ascending(weights(r))) by {
        assert forall|i: int, j: int| 0 <= i <= j < r.len() implies #[trigger] weights(r)[i]
            <= #[trigger] weights(r)[j] by {
            if i < j {
                assert(r[i].0 <= r[j].0);
            }
        }
    }
    assert forall|i: int| 0 <= i < tree_depths(freq).len() implies #[trigger] tree_depths(freq)[i]
        <= max by {
        forest::lemma_leaf_depth(weights(ranked(freq)), i, i);
    }
}

/// Huffman code lengths for the given frequencies, `max_bits` at most: where the
/// limit does not bind, no others cost less.
///
/// With two symbols or more the code is complete; a single symbol gets a code
/// of one bit.
pub fn code_lengths(freq: &Vec<u32>, max_bits: usize) -> (out: Vec<u8>)
    requires
        freq@.len() <= 65536,
        1 <= max_bits <= 15,
        positive(freq@) <= bits::p2(max_bits as nat),
    ensures
        out@ == lengths_of(freq@, max_bits as nat),
        positive(freq@) >= 2 && (positive(freq@) <= max_bits + 1 || unlimited(
            freq@,
            max_bits as nat,
        )) ==> cheapest(freq@, out@),
        lengths_fit(out@, freq@, max_bits as nat),
        positive(freq@) >= 2 ==> huffman::complete(out@),
        positive(freq@) == 1 ==> forall|s: int|
            0 <= s < freq@.len() && freq@[s] > 0 ==> #[trigger] out@[s] == 1,
{
    let ghost fr = freq@;
    let used = sorted_symbols(freq);
    let mut out: Vec<u8> = vec![0u8; freq.len()];
    let n: usize = used.len();
    if n == 0 {
        assert forall|s: int| 0 <= s < fr.len() implies #[trigger] out@[s] == 0 && fr[s] == 0 by {
            assert(fr[s] > 0 ==> has_sym(used@, s));
        }
        assert(out@ =~= lengths_of(fr, max_bits as nat));
        return out;
    }
    if n == 1 {
        let (f, sym) = used[0];
        out[sym as usize] = 1;
        assert forall|s: int| 0 <= s < fr.len() && s != sym implies fr[s] == 0 && #[trigger] out@[s]
            == 0 by {
            assert(fr[s] > 0 ==> has_sym(used@, s));
        }
        assert(out@ =~= lengths_of(fr, max_bits as nat));
        return out;
    }
    proof {
        lemma_positive_bound(fr);
    }
    let mut count = optimal_depths(&used);
    limit_depth(&mut count, max_bits, n);
    let ghost m = max_bits as nat;
    proof {
        assert forall|l: nat| 1 <= l <= m implies #[trigger] huffman::count_len(out@, l) == 0 by {
            lemma_count_zeros(out@, l);
        }
    }
    // The most frequent symbol gets the shortest code.
    let mut next: usize = n;
    let mut len: usize = 1;
    while len <= max_bits
        invariant
            1 <= len <= max_bits + 1,
            1 <= max_bits <= 15,
            m == max_bits,
            fr == freq@,
            fr.len() <= 65536,
            n == used@.len(),
            next <= n,
            listed(used@, fr, fr.len() as int),
            full_tree(count@, m, n as nat),
            out@.len() == fr.len(),
            forall|i: int|
                next <= i < n ==> out@[(#[trigger] used@[i]).1 as int] == len_for(
                    count@,
                    (n - i) as nat,
                    1,
                ),
            n - next == csum(count@, (len - 1) as nat),
            forall|i: int|
                next <= i < n ==> 1 <= out@[(#[trigger] used@[i]).1 as int] <= len - 1,
            forall|s: int|
                0 <= s < fr.len() && (forall|i: int| next <= i < n ==> (#[trigger] used@[i]).1 != s)
                    ==> #[trigger] out@[s] == 0,
            forall|i: int, j: int|
                next <= i < j < n ==> out@[(#[trigger] used@[j]).1 as int] <= out@[(
                #[trigger] used@[i]).1 as int],
            forall|l: nat|
                1 <= l <= m ==> #[trigger] huffman::count_len(out@, l) == if l < len {
                    count@[l as int] as nat
                } else {
                    0
                },
        decreases max_bits + 1 - len,
    {
        let c: u32 = count[len];
        let mut k: u32 = 0;
        proof {
            lemma_csum_mono(count@, len as nat, m);
        }
        while k < c
            invariant
                k <= c,
                1 <= len <= max_bits <= 15,
                m == max_bits,
                c == count@[len as int],
                fr == freq@,
                fr.len() <= 65536,
                n == used@.len(),
                next <= n,
                listed(used@, fr, fr.len() as int),
                full_tree(count@, m, n as nat),
                csum(count@, len as nat) <= n,
                out@.len() == fr.len(),
                forall|i: int|
                    next <= i < n ==> out@[(#[trigger] used@[i]).1 as int] == len_for(
                        count@,
                        (n - i) as nat,
                        1,
                    ),
                n - next == csum(count@, (len - 1) as nat) + k,
                forall|i: int|
                    next <= i < n ==> 1 <= out@[(#[trigger] used@[i]).1 as int] <= len,
                forall|s: int|
                    0 <= s < fr.len() && (forall|i: int|
                        next <= i < n ==> (#[trigger] used@[i]).1 != s) ==> #[trigger] out@[s] == 0,
                forall|i: int, j: int|
                    next <= i < j < n ==> out@[(#[trigger] used@[j]).1 as int] <= out@[(
                    #[trigger] used@[i]).1 as int],
                forall|l: nat|
                    1 <= l <= m ==> #[trigger] huffman::count_len(out@, l) == if l < len {
                        count@[l as int] as nat
                    } else if l == len {
                        k as nat
                    } else {
                        0
                    },
            decreases c - k,
        {
            next = next - 1;
            let (f, sym) = used[next];
            let ghost before = out@;
            assert(before[sym as int] == 0) by {
                assert forall|i: int| next + 1 <= i < n implies (#[trigger] used@[i]).1 != sym by {
                    assert(used@[next as int].1 != used@[i].1);
                }
            }
            out[sym as usize] = len as u8;
            proof {
                lemma_len_for(count@, (n - next) as nat, 1, len as nat);
                assert forall|l: nat| 1 <= l <= m implies #[trigger] huffman::count_len(out@, l)
                    == if l < len {
                    count@[l as int] as nat
                } else if l == len {
                    (k + 1) as nat
                } else {
                    0
                } by {
                    lemma_count_update(before, sym as int, len as u8, l);
                }
                assert forall|i: int| next < i < n implies out@[(#[trigger] used@[i]).1 as int]
                    == before[used@[i].1 as int] by {
                    assert(used@[next as int].1 != used@[i].1);
                }
                assert forall|s: int|
                    0 <= s < fr.len() && (forall|i: int|
                        next <= i < n ==> (#[trigger] used@[i]).1 != s) implies #[trigger] out@[s]
                    == 0 by {
                    assert(used@[next as int].1 != s);
                    assert(before[s] == 0);
                }
            }
            k = k + 1;
        }
        len = len + 1;
    }
    proof {
        assert(next == 0);
        assert forall|s: int| 0 <= s < fr.len() implies (#[trigger] out@[s] > 0 <==> fr[s] > 0)
            && out@[s] <= m by {
            if fr[s] > 0 {
                assert(has_sym(used@, s));
                let i = choose|i: int| 0 <= i < used@.len() && (#[trigger] used@[i]).1 == s;
                assert(1 <= out@[used@[i].1 as int] <= m);
            } else {
                assert forall|i: int| 0 <= i < n implies (#[trigger] used@[i]).1 != s by {}
            }
        }
        assert forall|s: int, t: int|
            0 <= s < fr.len() && 0 <= t < fr.len() && 0 < fr[t] < fr[s] implies #[trigger] out@[s]
            <= #[trigger] out@[t] by {
            assert(has_sym(used@, s) && has_sym(used@, t));
            let i = choose|i: int| 0 <= i < used@.len() && (#[trigger] used@[i]).1 == s;
            let j = choose|j: int| 0 <= j < used@.len() && (#[trigger] used@[j]).1 == t;
            if i < j {
                assert(used@[i].0 <= used@[j].0);
            }
        }
        assert forall|k: int| 1 <= k <= m implies huffman::count_len(out@, k as nat)
            == #[trigger] count@[k] by {}
        lemma_weight_is_cweight(out@, count@, m);
        lemma_weight_tail(out@, m, 15);
        bits::lemma_p2_add((15 - m) as nat, m);
        assert(count@ == code_counts(fr, m));
        lemma_exact(used@, fr, count@, out@, m);
        if n <= m + 1 {
            lemma_few_are_unlimited(fr, m);
        }
        if unlimited(fr, m) {
            assert forall|i: int| 0 <= i < n implies out@[(#[trigger] ranked(fr)[i]).1 as int]
                == tree_depths(fr)[i] by {
                assert(used@[i] == ranked(fr)[i]);
                lemma_len_is_depth(fr, m, i);
            }
            lemma_depths_are_cheapest(fr, out@);
        }
    }
    out
}

/// The lengths of the ranks are those of the symbols.
proof fn lemma_exact(used: Seq<(u32, u16)>, freq: Seq<u32>, count: Seq<u32>, out: Seq<u8>, m: nat)
    requires
        used == ranked(freq),
        used.len() >= 2,
        listed(used, freq, freq.len() as int),
        count == code_counts(freq, m),
        out.len() == freq.len(),
        forall|s: int| 0 <= s < freq.len() ==> (#[trigger] out[s] > 0 <==> freq[s] > 0),
        forall|i: int|
            0 <= i < used.len() ==> out[(#[trigger] used[i]).1 as int] == len_for(
                count,
                (used.len() - i) as nat,
                1,
            ),
    ensures
        out == lengths_of(freq, m),
{
    assert forall|s: int| 0 <= s < freq.len() implies #[trigger] out[s] == lengths_of(freq, m)[s] by {
        if freq[s] > 0 {
            assert(has_sym(used, s));
            let i = rank_of(used, s);
            assert(0 <= i < used.len() && used[i].1 == s);
            assert(out[used[i].1 as int] == len_for(count, (used.len() - i) as nat, 1));
        }
    }
    assert(out =~= lengths_of(freq, m));
}

proof fn lemma_csum_same(a: Seq<u32>, b: Seq<u32>, l: nat)
    requires
        forall|i: int| 0 <= i <= l ==> #[trigger] a[i] == b[i],
    ensures
        csum(a, l) == csum(b, l),
    decreases l,
{
    if l > 0 {
        lemma_csum_same(a, b, (l - 1) as nat);
        assert(a[l as int] == b[l as int]);
    }
}

proof fn lemma_csum_mono(count: Seq<u32>, a: nat, b: nat)
    requires
        a <= b < count.len(),
    ensures
        csum(count, a) <= csum(count, b),
    decreases b,
{
    if a < b {
        lemma_csum_mono(count, a, (b - 1) as nat);
    }
}

/// Frequencies in which symbols that are not used, from the lowest up, count as
/// used once until two are.
pub open spec fn filled_up(freq: Seq<u32>, i: nat, used: nat) -> Seq<u32>
    decreases freq.len() - i,
{
    if i >= freq.len() || used >= 2 {
        freq
    } else if freq[i as int] == 0 {
        filled_up(freq.update(i as int, 1), i + 1, used + 1)
    } else {
        filled_up(freq, i + 1, used)
    }
}

/// Frequencies of at least two used symbols.
pub open spec fn forced(freq: Seq<u32>) -> Seq<u32> {
    filled_up(freq, 0, positive(freq))
}

/// Sees to it that at least two symbols are used.
///
/// A tree of a single code is allowed, but not every unpacker takes it. Unused
/// symbols are taken from the lowest up: a high one would lengthen the header.
pub fn force_two_symbols(freq: &mut Vec<u32>)
    requires
        2 <= old(freq)@.len() <= 65536,
    ensures
        final(freq)@ == forced(old(freq)@),
        final(freq)@.len() == old(freq)@.len(),
        positive(final(freq)@) == if positive(old(freq)@) >= 2 {
            positive(old(freq)@)
        } else {
            2
        },
        forall|s: int|
            0 <= s < old(freq)@.len() ==> #[trigger] final(freq)@[s] == old(freq)@[s] || (old(
                freq,
            )@[s] == 0 && final(freq)@[s] == 1 && forall|t: int|
                0 <= t < s ==> final(freq)@[t] > 0),
{
    let ghost fr = freq@;
    let mut used: usize = 0;
    let mut i: usize = 0;
    assert(fr.take(0) =~= Seq::<u32>::empty());
    while i < freq.len()
        invariant
            i <= freq@.len() <= 65536,
            freq@ == fr,
            used == positive(fr.take(i as int)),
            used <= i,
        decreases freq@.len() - i,
    {
        proof {
            lemma_positive_take(fr, i as int);
        }
        if freq[i] > 0 {
            used = used + 1;
        }
        i = i + 1;
    }
    assert(fr.take(i as int) =~= fr);
    let ghost first = used;
    let mut i: usize = 0;
    while i < freq.len() && used < 2
        invariant
            i <= freq@.len() <= 65536,
            freq@.len() == fr.len(),
            used == positive(freq@),
            used == first || used <= 2,
            used >= first,
            first == positive(fr),
            forced(fr) == filled_up(freq@, i as nat, used as nat),
            forall|s: int| 0 <= s < i ==> #[trigger] freq@[s] > 0,
            forall|s: int| i <= s < fr.len() ==> #[trigger] freq@[s] == fr[s],
            forall|s: int|
                0 <= s < i ==> #[trigger] freq@[s] == fr[s] || (fr[s] == 0 && freq@[s] == 1),
        decreases freq@.len() - i,
    {
        if freq[i] == 0 {
            proof {
                lemma_positive_update(freq@, i as int, 1);
            }
            freq[i] = 1;
            used = used + 1;
        }
        i = i + 1;
    }
    proof {
        if used < 2 {
            lemma_positive_all(freq@);
        }
    }
}

proof fn lemma_positive_update(freq: Seq<u32>, i: int, x: u32)
    requires
        0 <= i < freq.len(),
        freq[i] == 0,
        x > 0,
    ensures
        positive(freq.update(i, x)) == positive(freq) + 1,
    decreases freq.len(),
{
    if i == freq.len() - 1 {
        assert(freq.update(i, x).drop_last() =~= freq.drop_last());
    } else {
        assert(freq.update(i, x).drop_last() =~= freq.drop_last().update(i, x));
        lemma_positive_update(freq.drop_last(), i, x);
    }
}

proof fn lemma_positive_all(freq: Seq<u32>)
    requires
        forall|i: int| 0 <= i < freq.len() ==> #[trigger] freq[i] > 0,
    ensures
        positive(freq) == freq.len(),
    decreases freq.len(),
{
    if freq.len() > 0 {
        assert forall|i: int| 0 <= i < freq.len() - 1 implies #[trigger] freq.drop_last()[i] > 0 by {
            assert(freq[i] > 0);
        }
        lemma_positive_all(freq.drop_last());
    }
}

} // verus!
