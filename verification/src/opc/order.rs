//! The order of names, and an index that is kept in it.
use vstd::prelude::*;

verus! {

/// Whether a text comes before another one.
pub open spec fn before(a: Seq<char>, b: Seq<char>) -> bool
    decreases b.len(),
{
    if b.len() == 0 {
        false
    } else if a.len() == 0 {
        true
    } else if a[0] != b[0] {
        a[0] < b[0]
    } else {
        before(a.skip(1), b.skip(1))
    }
}

proof fn lemma_not_before_itself(a: Seq<char>)
    ensures
        !before(a, a),
    decreases a.len(),
{
    if a.len() > 0 {
        lemma_not_before_itself(a.skip(1));
    }
}

/// No text comes before itself, and of two texts one comes before the other.
pub proof fn lemma_total(a: Seq<char>, b: Seq<char>)
    ensures
        !before(a, a),
        !(before(a, b) && before(b, a)),
        a == b || before(a, b) || before(b, a),
    decreases a.len() + b.len(),
{
    lemma_not_before_itself(a);
    if a.len() > 0 && b.len() > 0 {
        lemma_total(a.skip(1), b.skip(1));
        if a[0] == b[0] && a.skip(1) == b.skip(1) {
            assert(a.len() == a.skip(1).len() + 1 && b.len() == b.skip(1).len() + 1);
            assert forall|i: int| 0 <= i < a.len() implies a[i] == b[i] by {
                if i > 0 {
                    assert(a[i] == a.skip(1)[i - 1]);
                    assert(b[i] == b.skip(1)[i - 1]);
                }
            }
            assert(a =~= b);
        }
    } else if a.len() == 0 && b.len() == 0 {
        assert(a =~= b);
    }
}

pub proof fn lemma_transitive(a: Seq<char>, b: Seq<char>, c: Seq<char>)
    requires
        before(a, b),
        before(b, c),
    ensures
        before(a, c),
    decreases b.len(),
{
    if a.len() > 0 && a[0] == b[0] && b[0] == c[0] {
        lemma_transitive(a.skip(1), b.skip(1), c.skip(1));
    }
}

/// How two texts stand to each other.
#[derive(Clone, Copy, PartialEq, Eq, Structural)]
pub enum Rank {
    Before,
    Same,
    After,
}

/// How two texts stand to each other.
pub fn rank(a: &[char], b: &[char]) -> (r: Rank)
    ensures
        match r {
            Rank::Before => before(a@, b@),
            Rank::Same => a@ == b@,
            Rank::After => before(b@, a@),
        },
{
    let mut i: usize = 0;
    assert(a@.skip(0) =~= a@);
    assert(b@.skip(0) =~= b@);
    loop
        invariant
            i <= a@.len(),
            i <= b@.len(),
            a@.take(i as int) == b@.take(i as int),
            before(a@, b@) == before(a@.skip(i as int), b@.skip(i as int)),
            before(b@, a@) == before(b@.skip(i as int), a@.skip(i as int)),
        decreases a@.len() - i,
    {
        if i == a.len() {
            if i == b.len() {
                assert(a@.take(i as int) =~= a@);
                assert(b@.take(i as int) =~= b@);
                return Rank::Same;
            }
            return Rank::Before;
        }
        if i == b.len() {
            return Rank::After;
        }
        let x: char = a[i];
        let y: char = b[i];
        assert(a@.skip(i as int)[0] == x);
        assert(b@.skip(i as int)[0] == y);
        if x < y {
            return Rank::Before;
        }
        if y < x {
            return Rank::After;
        }
        assert(a@.skip(i as int).skip(1) =~= a@.skip(i + 1));
        assert(b@.skip(i as int).skip(1) =~= b@.skip(i + 1));
        assert(a@.take(i + 1) =~= a@.take(i as int).push(x));
        assert(b@.take(i + 1) =~= b@.take(i as int).push(y));
        i = i + 1;
    }
}

/// A key, and where what it stands for is.
#[derive(Debug)]
pub struct Mark {
    pub key: Vec<char>,
    pub at: usize,
}

/// The keys come one before the other.
pub open spec fn sorted(s: Seq<Mark>) -> bool {
    forall|i: int, j: int|
        0 <= i < j < s.len() ==> before(#[trigger] s[i].key@, #[trigger] s[j].key@)
}

/// The place of a key in an index, or the place where it would stand.
pub fn search(s: &Vec<Mark>, key: &[char]) -> (r: Result<usize, usize>)
    requires
        sorted(s@),
    ensures
        match r {
            Ok(p) => p < s@.len() && s@[p as int].key@ == key@,
            Err(p) => {
                &&& p <= s@.len()
                &&& forall|i: int| 0 <= i < p ==> before(#[trigger] s@[i].key@, key@)
                &&& forall|i: int| p <= i < s@.len() ==> before(key@, #[trigger] s@[i].key@)
            },
        },
{
    let mut lo: usize = 0;
    let mut hi: usize = s.len();
    while lo < hi
        invariant
            sorted(s@),
            lo <= hi <= s@.len(),
            forall|i: int| 0 <= i < lo ==> before(#[trigger] s@[i].key@, key@),
            forall|i: int| hi <= i < s@.len() ==> before(key@, #[trigger] s@[i].key@),
        decreases hi - lo,
    {
        let mid: usize = lo + (hi - lo) / 2;
        match rank(s[mid].key.as_slice(), key) {
            Rank::Same => return Ok(mid),
            Rank::Before => {
                proof {
                    assert forall|i: int| 0 <= i < mid + 1 implies before(
                        #[trigger] s@[i].key@,
                        key@,
                    ) by {
                        if i < mid {
                            lemma_transitive(s@[i].key@, s@[mid as int].key@, key@);
                        }
                    }
                }
                lo = mid + 1;
            },
            Rank::After => {
                proof {
                    assert forall|i: int| mid <= i < s@.len() implies before(
                        key@,
                        #[trigger] s@[i].key@,
                    ) by {
                        if i > mid {
                            lemma_transitive(key@, s@[mid as int].key@, s@[i].key@);
                        }
                    }
                }
                hi = mid;
            },
        }
    }
    Err(lo)
}

/// Puts a key into an index, where it would stand.
pub fn insert(s: &mut Vec<Mark>, p: usize, key: Vec<char>, at: usize)
    requires
        sorted(old(s)@),
        p <= old(s)@.len(),
        forall|i: int| 0 <= i < p ==> before(#[trigger] old(s)@[i].key@, key@),
        forall|i: int| p <= i < old(s)@.len() ==> before(key@, #[trigger] old(s)@[i].key@),
    ensures
        sorted(final(s)@),
        final(s)@ == old(s)@.insert(p as int, Mark { key, at }),
{
    s.insert(p, Mark { key, at });
}

} // verus!
