//! Names, and the bytes between them.
use vstd::prelude::*;
use vstd::slice::slice_subrange;

verus! {

/// White space of XML.
pub open spec fn space(b: u8) -> bool {
    b == 0x20 || b == 9 || b == 10 || b == 13
}

/// A byte that a name may begin with. Every byte beyond ASCII is one.
pub open spec fn name_start(b: u8) -> bool {
    65 <= b <= 90 || 97 <= b <= 122 || b == 95 || b >= 128
}

/// A byte that may stand in a name, the colon aside.
pub open spec fn name_byte(b: u8) -> bool {
    name_start(b) || 48 <= b <= 57 || b == 45 || b == 46
}

pub open spec fn name_or_colon(b: u8) -> bool {
    name_byte(b) || b == 58
}

/// A name, which may have one prefix before a colon.
pub open spec fn qname_ok(s: Seq<u8>) -> bool {
    &&& s.len() > 0
    &&& name_start(s[0])
    &&& forall|i: int| 0 <= i < s.len() ==> name_or_colon(#[trigger] s[i])
    &&& s.last() != 58
    &&& forall|i: int, j: int| 0 <= i < j < s.len() && s[i] == 58 ==> s[j] != 58
}

/// The byte at a place.
pub open spec fn at(s: Seq<u8>, i: int) -> Option<u8> {
    if 0 <= i < s.len() {
        Some(s[i])
    } else {
        None
    }
}

/// The place of the first `b` from `i` on.
pub open spec fn find(s: Seq<u8>, i: int, b: u8) -> Option<int>
    decreases s.len() - i,
{
    if !(0 <= i < s.len()) {
        None
    } else if s[i] == b {
        Some(i)
    } else {
        find(s, i + 1, b)
    }
}

/// Whether `t` stands at `i`.
pub open spec fn stands(s: Seq<u8>, i: int, t: Seq<u8>) -> bool {
    0 <= i && i + t.len() <= s.len() && s.subrange(i, i + t.len()) == t
}

/// The place of the first `t` from `i` on.
pub open spec fn find_text(s: Seq<u8>, i: int, t: Seq<u8>) -> Option<int>
    decreases s.len() - i,
{
    if !(0 <= i < s.len()) {
        None
    } else if stands(s, i, t) {
        Some(i)
    } else {
        find_text(s, i + 1, t)
    }
}

/// The end of the white space that begins at `i`.
pub open spec fn space_end(s: Seq<u8>, i: int) -> int
    decreases s.len() - i,
{
    if 0 <= i < s.len() && space(s[i]) {
        space_end(s, i + 1)
    } else {
        i
    }
}

/// The end of the name bytes and colons that begin at `i`.
pub open spec fn name_end(s: Seq<u8>, i: int) -> int
    decreases s.len() - i,
{
    if 0 <= i < s.len() && name_or_colon(s[i]) {
        name_end(s, i + 1)
    } else {
        i
    }
}

/// What stands before the first colon of a name; nothing where there is none.
pub open spec fn prefix(name: Seq<u8>) -> Seq<u8> {
    match find(name, 0, 58) {
        Some(k) => name.take(k),
        None => Seq::empty(),
    }
}

/// What stands behind the first colon of a name; all of it where there is none.
pub open spec fn local(name: Seq<u8>) -> Seq<u8> {
    match find(name, 0, 58) {
        Some(k) => name.skip(k + 1),
        None => name,
    }
}

pub proof fn lemma_find(s: Seq<u8>, i: int, b: u8)
    requires
        0 <= i <= s.len(),
    ensures
        match find(s, i, b) {
            Some(k) => i <= k < s.len() && s[k] == b && forall|j: int|
                i <= j < k ==> #[trigger] s[j] != b,
            None => forall|j: int| i <= j < s.len() ==> #[trigger] s[j] != b,
        },
    decreases s.len() - i,
{
    if i < s.len() && s[i] != b {
        lemma_find(s, i + 1, b);
    }
}

pub proof fn lemma_find_text(s: Seq<u8>, i: int, t: Seq<u8>)
    requires
        0 <= i,
    ensures
        match find_text(s, i, t) {
            Some(k) => i <= k && stands(s, k, t),
            None => true,
        },
    decreases s.len() - i,
{
    if i < s.len() && !stands(s, i, t) {
        lemma_find_text(s, i + 1, t);
    }
}

pub proof fn lemma_space_end(s: Seq<u8>, i: int)
    requires
        0 <= i <= s.len(),
    ensures
        i <= space_end(s, i) <= s.len(),
        forall|k: int| i <= k < space_end(s, i) ==> space(#[trigger] s[k]),
    decreases s.len() - i,
{
    if i < s.len() && space(s[i]) {
        lemma_space_end(s, i + 1);
    }
}

pub proof fn lemma_name_end(s: Seq<u8>, i: int)
    requires
        0 <= i <= s.len(),
    ensures
        i <= name_end(s, i) <= s.len(),
    decreases s.len() - i,
{
    if i < s.len() && name_or_colon(s[i]) {
        lemma_name_end(s, i + 1);
    }
}

pub fn is_space(b: u8) -> (r: bool)
    ensures
        r == space(b),
{
    b == 0x20 || b == 9 || b == 10 || b == 13
}

fn is_name_start(b: u8) -> (r: bool)
    ensures
        r == name_start(b),
{
    (65 <= b && b <= 90) || (97 <= b && b <= 122) || b == 95 || b >= 128
}

fn is_name_or_colon(b: u8) -> (r: bool)
    ensures
        r == name_or_colon(b),
{
    is_name_start(b) || (48 <= b && b <= 57) || b == 45 || b == 46 || b == 58
}

/// Whether the bytes are a name, which may have one prefix before a colon.
pub fn is_qname(s: &[u8]) -> (r: bool)
    ensures
        r == qname_ok(s@),
{
    let n: usize = s.len();
    if n == 0 || !is_name_start(s[0]) || s[n - 1] == 58 {
        return false;
    }
    let mut colon: bool = false;
    let mut i: usize = 0;
    while i < n
        invariant
            n == s@.len(),
            i <= n,
            forall|k: int| 0 <= k < i ==> name_or_colon(#[trigger] s@[k]),
            colon <==> exists|k: int| 0 <= k < i && #[trigger] s@[k] == 58,
            forall|k: int, j: int| 0 <= k < j < i && s@[k] == 58 ==> s@[j] != 58,
        decreases n - i,
    {
        let b: u8 = s[i];
        if !is_name_or_colon(b) {
            assert(!name_or_colon(s@[i as int]));
            return false;
        }
        if b == 58 {
            if colon {
                proof {
                    let k = choose|k: int| 0 <= k < i && #[trigger] s@[k] == 58;
                    assert(s@[k] == 58 && s@[i as int] == 58 && k < i);
                }
                return false;
            }
            colon = true;
        }
        i = i + 1;
    }
    true
}

/// The place of the first `b` from `i` on.
pub fn position(s: &[u8], i: usize, b: u8) -> (r: Option<usize>)
    requires
        i <= s@.len(),
    ensures
        match r {
            Some(k) => find(s@, i as int, b) == Some(k as int) && i <= k < s@.len(),
            None => find(s@, i as int, b) is None,
        },
{
    let mut p: usize = i;
    while p < s.len()
        invariant
            i <= p <= s@.len(),
            find(s@, p as int, b) == find(s@, i as int, b),
        decreases s@.len() - p,
    {
        if s[p] == b {
            return Some(p);
        }
        p = p + 1;
    }
    None
}

/// Whether two slices hold the same bytes.
pub fn same(a: &[u8], b: &[u8]) -> (r: bool)
    ensures
        r == (a@ == b@),
{
    if a.len() != b.len() {
        return false;
    }
    let mut i: usize = 0;
    while i < a.len()
        invariant
            i <= a@.len(),
            a@.len() == b@.len(),
            forall|k: int| 0 <= k < i ==> a@[k] == b@[k],
        decreases a@.len() - i,
    {
        if a[i] != b[i] {
            return false;
        }
        i = i + 1;
    }
    assert(a@ =~= b@);
    true
}

/// Whether `t` stands at `i`.
pub fn text_at(s: &[u8], i: usize, t: &[u8]) -> (r: bool)
    ensures
        r == stands(s@, i as int, t@),
        s@.len() <= usize::MAX,
{
    let n: usize = s.len();
    if i > n || n - i < t.len() {
        return false;
    }
    same(slice_subrange(s, i, i + t.len()), t)
}

/// The place of the first `t` from `i` on.
pub fn text_position(s: &[u8], i: usize, t: &[u8]) -> (r: Option<usize>)
    requires
        i <= s@.len(),
    ensures
        match r {
            Some(k) => find_text(s@, i as int, t@) == Some(k as int) && i <= k && k + t@.len()
                <= s@.len() <= usize::MAX,
            None => find_text(s@, i as int, t@) is None,
        },
{
    let mut p: usize = i;
    while p < s.len()
        invariant
            i <= p <= s@.len(),
            find_text(s@, p as int, t@) == find_text(s@, i as int, t@),
        decreases s@.len() - p,
    {
        if text_at(s, p, t) {
            return Some(p);
        }
        p = p + 1;
    }
    None
}

/// The end of the white space that begins at `i`.
pub fn skip_space(s: &[u8], i: usize) -> (r: usize)
    requires
        i <= s@.len(),
    ensures
        r == space_end(s@, i as int),
        i <= r <= s@.len(),
{
    let mut p: usize = i;
    while p < s.len() && is_space(s[p])
        invariant
            i <= p <= s@.len(),
            space_end(s@, p as int) == space_end(s@, i as int),
        decreases s@.len() - p,
    {
        p = p + 1;
    }
    p
}

/// The end of the name bytes and colons that begin at `i`.
pub fn skip_name(s: &[u8], i: usize) -> (r: usize)
    requires
        i <= s@.len(),
    ensures
        r == name_end(s@, i as int),
        i <= r <= s@.len(),
{
    let mut p: usize = i;
    while p < s.len() && is_name_or_colon(s[p])
        invariant
            i <= p <= s@.len(),
            name_end(s@, p as int) == name_end(s@, i as int),
        decreases s@.len() - p,
    {
        p = p + 1;
    }
    p
}

/// What stands behind the first colon of a name; all of it where there is none.
pub fn local_of(name: &[u8]) -> (r: &[u8])
    ensures
        r@ == local(name@),
{
    let n: usize = name.len();
    match position(name, 0, 58) {
        Some(k) => {
            let r = slice_subrange(name, k + 1, n);
            assert(r@ =~= name@.skip(k + 1));
            r
        },
        None => name,
    }
}

/// What stands before the first colon of a name; nothing where there is none.
pub fn prefix_of(name: &[u8]) -> (r: &[u8])
    ensures
        r@ == prefix(name@),
{
    match position(name, 0, 58) {
        Some(k) => {
            let r = slice_subrange(name, 0, k);
            assert(r@ =~= name@.take(k as int));
            r
        },
        None => {
            let r = slice_subrange(name, 0, 0);
            assert(r@ =~= Seq::<u8>::empty());
            r
        },
    }
}

} // verus!
