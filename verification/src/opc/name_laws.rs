//! What holds of names and of the ways that targets describe.
use vstd::prelude::*;
use vstd::string::*;

use crate::opc::fault::Fault;
use crate::opc::lookup_laws;
use crate::opc::partname;
use crate::text;

verus! {

/// A step of a way that goes down.
pub open spec fn ordinary(s: Seq<char>) -> bool {
    s.len() > 0 && s != seq!['.'] && s != seq!['.', '.']
}

pub open spec fn all_ordinary(w: Seq<Seq<char>>) -> bool {
    forall|i: int| 0 <= i < w.len() ==> ordinary(#[trigger] w[i])
}

/// Going into a directory and up again changes nothing.
pub proof fn lemma_up_undoes_down(w: Seq<Seq<char>>, s: Seq<char>)
    requires
        ordinary(s),
    ensures
        partname::walked(w.push(s).push(seq!['.', '.'])) == partname::walked(w),
{
    let a = w.push(s);
    let b = a.push(seq!['.', '.']);
    assert(a.drop_last() =~= w);
    assert(b.drop_last() =~= a);
    assert(s != Seq::<char>::empty());
    assert(seq!['.', '.'].len() == 2);
    assert(seq!['.', '.'] != seq!['.']) by {
        assert(seq!['.'].len() == 1);
    }
    assert(seq!['.', '.'] != Seq::<char>::empty());
    match partname::walked(w) {
        Some(x) => {
            assert(partname::walked(a) == Some(x.push(s)));
            assert(x.push(s).drop_last() =~= x);
        },
        None => {
            assert(partname::walked(a) is None);
        },
    }
}

/// A dot, and a step without a name, stay where the way is.
pub proof fn lemma_a_dot_stays(w: Seq<Seq<char>>)
    ensures
        partname::walked(w.push(seq!['.'])) == partname::walked(w),
        partname::walked(w.push(Seq::empty())) == partname::walked(w),
{
    assert(w.push(seq!['.']).drop_last() =~= w);
    assert(w.push(Seq::<char>::empty()).drop_last() =~= w);
}

/// A way that only goes down ends where it says.
pub proof fn lemma_straight_way(w: Seq<Seq<char>>)
    requires
        all_ordinary(w),
    ensures
        partname::walked(w) == Some(w),
    decreases w.len(),
{
    if w.len() > 0 {
        assert forall|i: int| 0 <= i < w.drop_last().len() implies ordinary(
            #[trigger] w.drop_last()[i],
        ) by {
            assert(w.drop_last()[i] == w[i]);
        }
        lemma_straight_way(w.drop_last());
        assert(ordinary(w[w.len() - 1]));
        assert(w.last() != Seq::<char>::empty());
        assert(w.drop_last().push(w.last()) =~= w);
    } else {
        assert(w =~= Seq::<Seq<char>>::empty());
    }
}

/// Where a way ends, it ends with names alone.
pub proof fn lemma_ends_ordinary(w: Seq<Seq<char>>)
    ensures
        partname::walked(w) matches Some(x) ==> all_ordinary(x),
    decreases w.len(),
{
    if w.len() > 0 {
        lemma_ends_ordinary(w.drop_last());
        if let Some(x) = partname::walked(w.drop_last()) {
            let s = w.last();
            if s.len() == 0 {
                assert(s =~= Seq::<char>::empty());
            }
            if x.len() > 0 {
                assert forall|i: int| 0 <= i < x.drop_last().len() implies ordinary(
                    #[trigger] x.drop_last()[i],
                ) by {
                    assert(x.drop_last()[i] == x[i]);
                }
            }
        }
    }
}

/// A way goes on from where its first part ends. One that left the root does not
/// come back.
pub proof fn lemma_way_goes_on(a: Seq<Seq<char>>, b: Seq<Seq<char>>)
    ensures
        partname::walked(a + b) == match partname::walked(a) {
            Some(x) => partname::walked(x + b),
            None => None,
        },
    decreases b.len(),
{
    if b.len() == 0 {
        assert(a + b =~= a);
        lemma_ends_ordinary(a);
        if let Some(x) = partname::walked(a) {
            assert(x + b =~= x);
            lemma_straight_way(x);
        }
    } else {
        assert((a + b).drop_last() =~= a + b.drop_last());
        lemma_way_goes_on(a, b.drop_last());
        if let Some(x) = partname::walked(a) {
            assert((x + b).drop_last() =~= x + b.drop_last());
        }
    }
}

/// There is nothing above the root.
pub proof fn lemma_nothing_above_root(w: Seq<Seq<char>>)
    requires
        partname::walked(w) == Some(Seq::<Seq<char>>::empty()),
    ensures
        partname::walked(w.push(seq!['.', '.'])) is None,
{
    let b = w.push(seq!['.', '.']);
    assert(b.drop_last() =~= w);
    assert(seq!['.', '.'].len() == 2);
    assert(seq!['.', '.'] != seq!['.']) by {
        assert(seq!['.'].len() == 1);
    }
    assert(seq!['.', '.'] != Seq::<char>::empty());
}

pub open spec fn slashless(s: Seq<char>) -> bool {
    forall|k: int| 0 <= k < s.len() ==> #[trigger] s[k] != '/'
}

/// Segments hold no slash, and are the whole text with slashes between them.
pub proof fn lemma_segments_are_the_text(s: Seq<char>)
    ensures
        partname::joined(partname::segments(s, '/')) == seq!['/'] + s,
        partname::segments(s, '/').len() > 0,
        forall|i: int|
            0 <= i < partname::segments(s, '/').len() ==> slashless(
                #[trigger] partname::segments(s, '/')[i],
            ),
    decreases s.len(),
{
    partname::lemma_last_place(s, '/');
    let all = partname::segments(s, '/');
    match partname::last_place(s, '/') {
        Some(i) => {
            let a = s.take(i);
            let b = s.skip(i + 1);
            lemma_segments_are_the_text(a);
            assert(all.drop_last() =~= partname::segments(a, '/'));
            assert(seq!['/'] + a + seq!['/'] + b =~= seq!['/'] + s);
            assert(slashless(b)) by {
                assert forall|k: int| 0 <= k < b.len() implies #[trigger] b[k] != '/' by {
                    assert(b[k] == s[i + 1 + k]);
                }
            }
        },
        None => {
            assert(all.drop_last() =~= Seq::<Seq<char>>::empty());
            assert(partname::joined(all.drop_last()) =~= Seq::<char>::empty());
            assert(partname::joined(all) =~= seq!['/'] + s);
        },
    }
}

/// A text with a slash inside is cut there.
pub proof fn lemma_segments_cut(a: Seq<char>, b: Seq<char>)
    ensures
        partname::segments(a + seq!['/'] + b, '/') == partname::segments(a, '/')
            + partname::segments(b, '/'),
    decreases b.len(),
{
    let s = a + seq!['/'] + b;
    partname::lemma_last_place(s, '/');
    partname::lemma_last_place(b, '/');
    let i = partname::last_place(s, '/')->0;
    assert(s[a.len() as int] == '/');
    match partname::last_place(b, '/') {
        Some(j) => {
            let k = a.len() + 1 + j;
            assert(s[k] == b[j]);
            if i > k {
                assert(s[i] == b[i - a.len() - 1]);
            }
            assert(i == k);
            lemma_segments_cut(a, b.take(j));
            assert(s.take(i) =~= a + seq!['/'] + b.take(j));
            assert(s.skip(i + 1) =~= b.skip(j + 1));
            assert(partname::segments(s, '/') =~= partname::segments(a, '/') + partname::segments(
                b,
                '/',
            ));
        },
        None => {
            if i > a.len() {
                assert(s[i] == b[i - a.len() - 1]);
            }
            assert(i == a.len());
            assert(s.take(i) =~= a);
            assert(s.skip(i + 1) =~= b);
            assert(partname::segments(s, '/') =~= partname::segments(a, '/') + partname::segments(
                b,
                '/',
            ));
        },
    }
}

/// What a name looks like: one slash at the beginning, none at the end, no two
/// slashes and no dot with a slash behind it, no dot at the end.
pub open spec fn well_spelled(t: Seq<char>) -> bool {
    &&& t.len() > 1
    &&& t[0] == '/'
    &&& t.last() != '/'
    &&& t.last() != '.'
    &&& forall|k: int|
        #![trigger t[k]]
        0 <= k < t.len() - 1 && t[k + 1] == '/' ==> t[k] != '/' && t[k] != '.'
    &&& forall|k: int|
        #![trigger t[k]]
        0 <= k < t.len() ==> t[k] != '\\' && ' ' <= t[k] && t[k] != '\u{7f}'
}

/// Segments without a bad one.
proof fn lemma_segments_spelled(s: Seq<char>)
    ensures
        partname::segments_ok(partname::segments(s, '/')) == (s.len() > 0 && s[0] != '/' && s.last()
            != '/' && s.last() != '.' && forall|k: int|
            #![trigger s[k]]
            0 <= k < s.len() - 1 && s[k + 1] == '/' ==> s[k] != '/' && s[k] != '.'),
    decreases s.len(),
{
    partname::lemma_last_place(s, '/');
    let all = partname::segments(s, '/');
    match partname::last_place(s, '/') {
        Some(i) => {
            let a = s.take(i);
            let b = s.skip(i + 1);
            let g = partname::segments(a, '/');
            lemma_segments_spelled(a);
            assert(all == g.push(b));
            assert(partname::segments_ok(all) == (partname::segments_ok(g) && partname::segment_ok(
                b,
            ))) by {
                if partname::segments_ok(all) {
                    assert forall|k: int| 0 <= k < g.len() implies partname::segment_ok(
                        #[trigger] g[k],
                    ) by {
                        assert(all[k] == g[k]);
                    }
                    assert(partname::segment_ok(all[g.len() as int]));
                }
            }
            let whole = forall|k: int|
                #![trigger s[k]]
                0 <= k < s.len() - 1 && s[k + 1] == '/' ==> s[k] != '/' && s[k] != '.';
            let front = forall|k: int|
                #![trigger a[k]]
                0 <= k < a.len() - 1 && a[k + 1] == '/' ==> a[k] != '/' && a[k] != '.';
            if whole {
                assert forall|k: int| #![trigger a[k]] 0 <= k < a.len() - 1 && a[k + 1] == '/' implies a[k]
                    != '/' && a[k] != '.' by {
                    assert(s[k] == a[k]);
                    assert(s[k + 1] == a[k + 1]);
                }
                if i > 0 {
                    assert(s[i - 1] != '/' && s[i - 1] != '.');
                    assert(a.last() == s[i - 1]);
                    assert(a[0] == s[0]);
                }
            }
            if front && a.len() > 0 && a.last() != '/' && a.last() != '.' {
                assert forall|k: int| #![trigger s[k]] 0 <= k < s.len() - 1 && s[k + 1] == '/' implies s[k]
                    != '/' && s[k] != '.' by {
                    if k + 1 < i {
                        assert(a[k] == s[k]);
                        assert(a[k + 1] == s[k + 1]);
                    } else if k + 1 == i {
                        assert(a.last() == s[k]);
                    }
                }
                assert(a[0] == s[0]);
            }
            if b.len() > 0 {
                assert(b.last() == s.last());
            }
        },
        None => {
            assert(all =~= seq![s]);
            if s.len() > 0 {
                assert(s[0] != '/');
                assert(s.last() == s[s.len() - 1]);
            }
            assert(partname::segments_ok(all) == partname::segment_ok(s)) by {
                assert(all[0] == s);
            }
        },
    }
}

/// A text is the name of a part exactly when it is spelled like one.
pub proof fn lemma_names_are_well_spelled(t: Seq<char>)
    ensures
        partname::valid(t) == (t == seq!['/'] || well_spelled(t)),
{
    let s = t.skip(1);
    lemma_segments_spelled(s);
    if t.len() > 1 && t[0] == '/' {
        assert(s[0] == t[1]);
        assert(s.last() == t.last());
        if well_spelled(t) {
            assert(t[0] == '/');
            assert(s[0] != '/');
            assert forall|k: int| #![trigger s[k]] 0 <= k < s.len() - 1 && s[k + 1] == '/' implies s[k]
                != '/' && s[k] != '.' by {
                assert(s[k] == t[k + 1]);
                assert(s[k + 1] == t[k + 2]);
            }
            assert forall|i: int| 0 <= i < t.len() implies partname::name_char(#[trigger] t[i]) by {}
        }
        if partname::valid(t) {
            assert(t.len() != 1);
            assert forall|k: int| #![trigger t[k]] 0 <= k < t.len() - 1 && t[k + 1] == '/' implies t[k]
                != '/' && t[k] != '.' by {
                assert(s[k] == t[k + 1]);
                if k > 0 {
                    assert(s[k - 1] == t[k]);
                    assert(s[k] == '/');
                }
            }
            assert forall|k: int| #![trigger t[k]] 0 <= k < t.len() implies t[k] != '\\' && ' '
                <= t[k] && t[k] != '\u{7f}' by {
                assert(partname::name_char(t[k]));
            }
        }
    }
}

/// A name is what stands up to its last slash and what stands behind it.
pub proof fn lemma_dir_and_segment(t: Seq<char>)
    requires
        partname::valid(t),
    ensures
        partname::dir(t) + partname::last_segment(t) == t,
        partname::dir(t).len() > 0,
        partname::dir(t).last() == '/',
        slashless(partname::last_segment(t)),
{
    partname::lemma_last_place(t, '/');
    assert(t[0] == '/');
    let i = partname::last_place(t, '/')->0;
    assert(t.take(i + 1) + t.skip(i + 1) =~= t);
    assert forall|k: int| 0 <= k < t.skip(i + 1).len() implies #[trigger] t.skip(i + 1)[k]
        != '/' by {
        assert(t.skip(i + 1)[k] == t[i + 1 + k]);
    }
}

/// An extension stands behind the last dot of the name and is not empty; a name
/// without one has no dot behind its last slash, or ends there.
pub proof fn lemma_extension_ends_the_name(t: Seq<char>)
    requires
        partname::valid(t),
    ensures
        match partname::extension(t) {
            Some(x) => {
                &&& x.len() > 0
                &&& t.len() > x.len()
                &&& t.skip(t.len() - x.len()) == x
                &&& t[t.len() - x.len() - 1] == '.'
                &&& slashless(x)
                &&& forall|k: int| 0 <= k < x.len() ==> #[trigger] x[k] != '.'
            },
            None => forall|k: int|
                0 <= k < t.len() && #[trigger] t[k] == '.' ==> exists|j: int|
                    k < j < t.len() && #[trigger] t[j] == '/',
        },
{
    lemma_dir_and_segment(t);
    lemma_names_are_well_spelled(t);
    let d = partname::dir(t);
    let s = partname::last_segment(t);
    partname::lemma_last_place(s, '.');
    match partname::last_place(s, '.') {
        Some(i) => {
            assert(t.last() == s.last());
            assert(i + 1 < s.len());
            lemma_extension_there(d, s, i);
            assert(t == d + s);
        },
        None => {
            assert forall|k: int| 0 <= k < t.len() && #[trigger] t[k] == '.' implies exists|j: int|
                k < j < t.len() && #[trigger] t[j] == '/' by {
                if k < d.len() {
                    assert(t[d.len() - 1] == d[d.len() - 1]);
                    assert(k < d.len() - 1);
                } else {
                    assert(s[k - d.len()] == '.');
                }
            }
        },
    }
}

proof fn lemma_extension_there(d: Seq<char>, s: Seq<char>, i: int)
    requires
        slashless(s),
        0 <= i < s.len() - 1,
        s[i] == '.',
        forall|k: int| i < k < s.len() ==> #[trigger] s[k] != '.',
    ensures
        ({
            let t = d + s;
            let x = s.skip(i + 1);
            &&& t.skip(t.len() - x.len()) == x
            &&& t[t.len() - x.len() - 1] == '.'
            &&& slashless(x)
            &&& forall|k: int| 0 <= k < x.len() ==> #[trigger] x[k] != '.'
        }),
{
    let t = d + s;
    let x = s.skip(i + 1);
    assert(t.skip(t.len() - x.len()) =~= x);
    assert forall|k: int| 0 <= k < x.len() implies #[trigger] x[k] != '.' && x[k] != '/' by {
        assert(x[k] == s[i + 1 + k]);
    }
}

/// A target that stands for itself: no `#`, no `?`, no byte of `%`.
pub open spec fn literal(s: Seq<char>) -> bool {
    &&& forall|k: int| 0 <= k < s.len() ==> #[trigger] s[k] != '#' && s[k] != '?'
    &&& forall|k: int|
        0 <= k < vstd::utf8::encode_utf8(s).len() ==> #[trigger] vstd::utf8::encode_utf8(s)[k] != 37
}

/// What stands behind the first `#` or `?` of a target is left out.
pub proof fn lemma_fragment_left_out(s: Seq<char>, i: int)
    requires
        0 <= i <= s.len(),
        i < s.len() ==> s[i] == '#' || s[i] == '?',
        forall|k: int| 0 <= k < i ==> #[trigger] s[k] != '#' && s[k] != '?',
    ensures
        partname::head(s, 0) == s.take(i),
{
    lemma_head_from(s, 0, i);
}

proof fn lemma_head_from(s: Seq<char>, j: int, i: int)
    requires
        0 <= j <= i <= s.len(),
        i < s.len() ==> s[i] == '#' || s[i] == '?',
        forall|k: int| 0 <= k < i ==> #[trigger] s[k] != '#' && s[k] != '?',
    ensures
        partname::head(s, j) == s.take(i),
    decreases i - j,
{
    if j < i {
        assert(s[j] != '#' && s[j] != '?');
        lemma_head_from(s, j + 1, i);
    }
}

/// Two texts with a `%` and its digits nowhere before `i` are read alike up to
/// there.
proof fn lemma_unescaped_plain(s: Seq<u8>, i: int)
    requires
        0 <= i <= s.len(),
        forall|k: int| i <= k < s.len() ==> #[trigger] s[k] != 37,
    ensures
        partname::unescaped(s, i) == s.skip(i),
    decreases s.len() - i,
{
    if i < s.len() {
        lemma_unescaped_plain(s, i + 1);
        assert(seq![s[i]] + s.skip(i + 1) =~= s.skip(i));
    } else {
        assert(s.skip(i) =~= Seq::<u8>::empty());
    }
}

/// The digits of a hexadecimal number, in small letters or in capitals.
pub open spec fn hex_digit(v: int, small: bool) -> u8 {
    if small {
        seq![48u8, 49, 50, 51, 52, 53, 54, 55, 56, 57, 97, 98, 99, 100, 101, 102][v]
    } else {
        seq![48u8, 49, 50, 51, 52, 53, 54, 55, 56, 57, 65, 66, 67, 68, 69, 70][v]
    }
}

/// Every byte of a text written as `%` and two digits.
pub open spec fn percented(s: Seq<u8>, small: bool) -> Seq<u8>
    decreases s.len(),
{
    if s.len() == 0 {
        Seq::empty()
    } else {
        seq![37u8, hex_digit(s[0] as int / 16, small), hex_digit(s[0] as int % 16, small)]
            + percented(s.skip(1), small)
    }
}

/// Bytes that stand behind others are read alike.
proof fn lemma_unescaped_behind(a: Seq<u8>, s: Seq<u8>, i: int)
    requires
        0 <= i <= s.len(),
    ensures
        partname::unescaped(a + s, a.len() + i) == partname::unescaped(s, i),
    decreases s.len() - i,
{
    if i < s.len() {
        let n = a.len() + i;
        assert((a + s)[n] == s[i]);
        if i + 2 < s.len() {
            assert((a + s)[n + 1] == s[i + 1]);
            assert((a + s)[n + 2] == s[i + 2]);
            lemma_unescaped_behind(a, s, i + 3);
        }
        lemma_unescaped_behind(a, s, i + 1);
    }
}

/// A text whose every byte is written as `%` and two digits reads as the text.
pub proof fn lemma_percent_reads_back(s: Seq<u8>, small: bool)
    ensures
        partname::unescaped(percented(s, small), 0) == s,
    decreases s.len(),
{
    if s.len() > 0 {
        let rest = s.skip(1);
        let a = seq![37u8, hex_digit(s[0] as int / 16, small), hex_digit(s[0] as int % 16, small)];
        lemma_percent_reads_back(rest, small);
        lemma_unescaped_behind(a, percented(rest, small), 0);
        let t = percented(s, small);
        assert(t == a + percented(rest, small));
        assert(t[0] == 37 && t[1] == a[1] && t[2] == a[2]);
        let h = s[0] as int / 16;
        let l = s[0] as int % 16;
        assert(0 <= h < 16 && 0 <= l < 16);
        assert(partname::hex(a[1]) == Some(h as u8));
        assert(partname::hex(a[2]) == Some(l as u8));
        assert((h * 16 + l) as u8 == s[0]);
        assert(partname::unescaped(t, 0) =~= seq![s[0]] + rest);
        assert(seq![s[0]] + rest =~= s);
    } else {
        assert(s =~= Seq::<u8>::empty());
    }
}

/// A `%` without two digits behind it, and every other byte, stands for itself.
pub proof fn lemma_no_digits_no_escape(s: Seq<u8>)
    requires
        forall|k: int|
            0 <= k < s.len() - 2 && #[trigger] s[k] == 37 ==> !is_hex(s[k + 1]) || !is_hex(
                s[k + 2],
            ),
    ensures
        partname::unescaped(s, 0) == s,
{
    lemma_no_escape_from(s, 0);
    assert(s.skip(0) =~= s);
}

/// A digit of a hexadecimal number.
pub open spec fn is_hex(b: u8) -> bool {
    exists|v: int, small: bool| 0 <= v < 16 && b == #[trigger] hex_digit(v, small)
}

proof fn lemma_no_escape_from(s: Seq<u8>, i: int)
    requires
        0 <= i <= s.len(),
        forall|k: int|
            0 <= k < s.len() - 2 && #[trigger] s[k] == 37 ==> !is_hex(s[k + 1]) || !is_hex(
                s[k + 2],
            ),
    ensures
        partname::unescaped(s, i) == s.skip(i),
    decreases s.len() - i,
{
    if i < s.len() {
        lemma_no_escape_from(s, i + 1);
        assert(seq![s[i]] + s.skip(i + 1) =~= s.skip(i));
        if s[i] == 37 && i + 2 < s.len() {
            lemma_hex(s[i + 1]);
            lemma_hex(s[i + 2]);
        }
    } else {
        assert(s.skip(i) =~= Seq::<u8>::empty());
    }
}

proof fn lemma_hex(b: u8)
    ensures
        partname::hex(b) is Some ==> is_hex(b),
{
    if let Some(v) = partname::hex(b) {
        assert(0 <= v < 16);
        assert(b == hex_digit(v as int, 97 <= b));
    }
}

/// A target that stands for itself is read as it is.
proof fn lemma_literal(u: Seq<char>)
    requires
        literal(u),
    ensures
        partname::head(u, 0) == u,
        partname::unescaped_text(u) == Ok::<Seq<char>, Fault>(u),
{
    lemma_fragment_left_out(u, u.len() as int);
    assert(u.take(u.len() as int) =~= u);
    let b = vstd::utf8::encode_utf8(u);
    lemma_unescaped_plain(b, 0);
    assert(b.skip(0) =~= b);
    vstd::utf8::encode_utf8_valid_utf8(u);
    vstd::utf8::encode_utf8_decode_utf8(u);
}

/// The way of a name ends at the name.
proof fn lemma_name_walked(t: Seq<char>)
    requires
        partname::valid(t),
        t != seq!['/'],
    ensures
        ({
            let w = partname::walked(partname::segments(t, '/'));
            &&& w is Some
            &&& w->0.len() > 0
            &&& partname::joined(w->0) == t
            &&& w->0 == partname::segments(t.skip(1), '/')
        }),
{
    let s = t.skip(1);
    let none = Seq::<char>::empty();
    assert(t =~= none + seq!['/'] + s);
    lemma_segments_cut(none, s);
    partname::lemma_last_place(none, '/');
    assert(partname::segments(none, '/') =~= seq![none]);
    let w = partname::segments(s, '/');
    lemma_segments_are_the_text(s);
    assert(seq!['/'] + s =~= t);
    assert forall|i: int| 0 <= i < w.len() implies ordinary(#[trigger] w[i]) by {
        assert(partname::segment_ok(w[i]));
        if w[i] == seq!['.'] {
            assert(w[i].last() == '.');
        }
        if w[i] == seq!['.', '.'] {
            assert(w[i].last() == '.');
        }
    }
    lemma_straight_way(w);
    let first = seq![none];
    lemma_a_dot_stays(Seq::<Seq<char>>::empty());
    assert(Seq::<Seq<char>>::empty().push(none) =~= first);
    lemma_straight_way(Seq::<Seq<char>>::empty());
    lemma_way_goes_on(first, w);
    assert(Seq::<Seq<char>>::empty() + w =~= w);
}

/// A target that begins with a slash is a name, whatever part it stands in.
pub proof fn lemma_target_from_the_root(t: Seq<char>, u: Seq<char>)
    requires
        literal(u),
        partname::valid(u),
        u != seq!['/'],
    ensures
        partname::resolved(t, u) == Ok::<Seq<char>, Fault>(u),
{
    lemma_literal(u);
    lemma_name_walked(u);
}

/// Another target is read from the directory of the part.
pub proof fn lemma_target_from_the_part(t: Seq<char>, u: Seq<char>)
    requires
        literal(u),
        u.len() > 0,
        u[0] != '/',
        partname::valid(partname::dir(t) + u),
        partname::dir(t).len() > 0,
    ensures
        partname::resolved(t, u) == Ok::<Seq<char>, Fault>(partname::dir(t) + u),
{
    lemma_literal(u);
    let p = partname::dir(t) + u;
    if p == seq!['/'] {
        assert(p.len() == 1);
    }
    lemma_name_walked(p);
}

/// The part of a target, or that there is none.
pub open spec fn found(r: Result<Seq<char>, Fault>) -> Option<Seq<char>> {
    match r {
        Ok(t) => Some(t),
        Err(_) => None,
    }
}

/// A step up in a target leads to where the rest of it leads from the directory
/// above: for a part in the directory `d`, `../u` is what `u` is for a part that
/// lies where `d` lies.
pub proof fn lemma_a_step_up(d: Seq<char>, s: Seq<char>, u: Seq<char>)
    requires
        partname::valid(d),
        d != seq!['/'],
        slashless(s),
        literal(u),
        literal(seq!['.', '.', '/'] + u),
        u.len() > 0,
        u[0] != '/',
    ensures
        found(partname::resolved(d + seq!['/'] + s, seq!['.', '.', '/'] + u)) == found(
            partname::resolved(d, u),
        ),
{
    let t = d + seq!['/'] + s;
    let up = seq!['.', '.'];
    let v = seq!['.', '.', '/'] + u;
    lemma_literal(u);
    lemma_literal(v);
    assert(v[0] == '.');
    partname::lemma_last_place(t, '/');
    let i = partname::last_place(t, '/')->0;
    assert(t[d.len() as int] == '/');
    if i > d.len() {
        assert(t[i] == s[i - d.len() - 1]);
    }
    assert(partname::dir(t) =~= d + seq!['/']);
    lemma_dir_and_segment(d);
    let e = partname::dir(d);
    let m = partname::last_segment(d);
    lemma_name_walked(d);
    let f = e.drop_last();
    assert(e =~= f + seq!['/']);
    let su = partname::segments(u, '/');
    let sf = partname::segments(f, '/');
    assert(partname::dir(t) + v =~= (d + seq!['/'] + up) + seq!['/'] + u);
    lemma_segments_cut(d + seq!['/'] + up, u);
    lemma_segments_cut(d, up);
    partname::lemma_last_place(up, '/');
    assert(partname::segments(up, '/') =~= seq![up]);
    assert(d =~= f + seq!['/'] + m);
    lemma_segments_cut(f, m);
    partname::lemma_last_place(m, '/');
    assert(partname::segments(m, '/') =~= seq![m]);
    let w = sf.push(m).push(up);
    assert(partname::segments(partname::dir(t) + v, '/') =~= w + su);
    assert(e + u =~= f + seq!['/'] + u);
    lemma_segments_cut(f, u);
    assert(ordinary(m)) by {
        lemma_names_are_well_spelled(d);
        assert(d.last() != '/' && d.last() != '.');
        if m.len() == 0 {
            assert(d =~= e);
        }
        assert(m.last() == d.last());
    }
    lemma_up_undoes_down(sf, m);
    lemma_way_goes_on(w, su);
    lemma_way_goes_on(sf, su);
}

proof fn lemma_lower_slash(t: Seq<char>, k: int)
    requires
        0 <= k < t.len(),
    ensures
        (text::lowered(t)[k] == '/') == (t[k] == '/'),
{
    lookup_laws::lemma_lowered_changes_capitals_alone(t);
    assert(t[k] == t[k]);
}

proof fn lemma_last_slash(t: Seq<char>, i: int)
    requires
        0 <= i < t.len(),
        t[i] == '/',
        forall|k: int| i < k < t.len() ==> #[trigger] t[k] != '/',
    ensures
        partname::last_place(t, '/') == Some(i),
{
    partname::lemma_last_place(t, '/');
    let p = partname::last_place(t, '/');
    if p is None {
        assert(t[i] != '/');
    } else if p->0 < i {
        assert(t[i] != '/');
    } else if p->0 > i {
        assert(t[p->0] != '/');
    }
}

/// A file of relationships lies in a directory `_rels` and its name ends with
/// `.rels`, both in whatever case of their letters, and every such file is one.
pub proof fn lemma_file_of_relationships(t: Seq<char>)
    requires
        partname::valid(t),
    ensures
        partname::is_rels(t) == exists|d: Seq<char>, s: Seq<char>|
            {
                &&& #[trigger] spelled_rels(d, s) == text::lowered(t)
                &&& d.len() > 0 && d.last() == '/'
                &&& slashless(s)
            },
{
    lemma_dir_and_segment(t);
    reveal_strlit("_rels/");
    reveal_strlit(".rels");
    reveal_strlit("/_rels/");
    let low = text::lowered(t);
    let dir = partname::dir(t);
    let seg = partname::last_segment(t);
    let ld = text::lowered(dir);
    let ls = text::lowered(seg);
    assert(low =~= ld + ls);
    if partname::is_rels(t) {
        let d = ld.take(ld.len() - 6);
        let rest = ld.skip(ld.len() - 7);
        assert(rest == "/_rels/"@);
        assert(ld.len() >= 7);
        assert(d.last() == rest[0]);
        assert(ld =~= d + "_rels/"@) by {
            assert forall|k: int| 0 <= k < 6 implies ld[ld.len() - 6 + k] == "_rels/"@[k] by {
                assert(ld[ld.len() - 6 + k] == rest[k + 1]);
            }
        }
        let end = low.skip(low.len() - 5);
        assert(end == ".rels"@);
        if ls.len() < 5 {
            let k = 4 - ls.len();
            assert(low[low.len() - 5 + k] == end[k]);
            assert(low[ld.len() - 1] == ld[ld.len() - 1]);
            lemma_lower_slash(t, ld.len() - 1);
            assert(t[ld.len() - 1] == dir[dir.len() - 1]);
        }
        let s = ls.take(ls.len() - 5);
        assert(ls =~= s + ".rels"@) by {
            assert forall|k: int| 0 <= k < 5 implies ls[ls.len() - 5 + k] == ".rels"@[k] by {
                assert(low[low.len() - 5 + k] == end[k]);
            }
        }
        assert forall|k: int| 0 <= k < s.len() implies #[trigger] s[k] != '/' by {
            lemma_lower_slash(seg, k);
            assert(seg[k] != '/');
        }
        assert(spelled_rels(d, s) =~= low);
    }
    if exists|d: Seq<char>, s: Seq<char>|
        {
            &&& #[trigger] spelled_rels(d, s) == low
            &&& d.len() > 0 && d.last() == '/'
            &&& slashless(s)
        } {
        let (d, s) = choose|d: Seq<char>, s: Seq<char>|
            {
                &&& #[trigger] spelled_rels(d, s) == low
                &&& d.len() > 0 && d.last() == '/'
                &&& slashless(s)
            };
        let i = d.len() as int + 5;
        assert(low[i] == "_rels/"@[5]);
        lemma_lower_slash(t, i);
        assert forall|k: int| i < k < t.len() implies #[trigger] t[k] != '/' by {
            lemma_lower_slash(t, k);
            if k < i + 1 + s.len() {
                assert(low[k] == s[k - i - 1]);
            } else {
                assert(low[k] == ".rels"@[k - i - 1 - s.len()]);
            }
        }
        lemma_last_slash(t, i);
        assert(ld =~= low.take(i + 1));
        assert(ld.skip(ld.len() - 7) =~= "/_rels/"@) by {
            assert forall|k: int| 0 <= k < 7 implies ld[ld.len() - 7 + k] == "/_rels/"@[k] by {
                if k == 0 {
                    assert(low[d.len() - 1] == d[d.len() - 1]);
                } else {
                    assert(low[d.len() + (k - 1)] == "_rels/"@[k - 1]);
                }
            }
        }
        assert(low.skip(low.len() - 5) =~= ".rels"@);
    }
}

/// The name of a file of relationships, made of a directory and of what stands
/// before `.rels`.
pub open spec fn spelled_rels(d: Seq<char>, s: Seq<char>) -> Seq<char> {
    d + "_rels/"@ + s + ".rels"@
}

/// The part to which a file of relationships belongs has its relationships in
/// that file, the case of letters aside.
pub proof fn lemma_owner_has_the_file(t: Seq<char>)
    requires
        partname::valid(t),
    ensures
        partname::owner_of(t) matches Some(o) ==> {
            &&& partname::valid(o)
            &&& partname::is_rels(t)
            &&& text::lowered(partname::dir(o)) + "_rels/"@ + text::lowered(
                partname::last_segment(o),
            ) + ".rels"@ == text::lowered(t)
        },
{
    if let Some(o) = partname::owner_of(t) {
        lemma_dir_and_segment(t);
        reveal_strlit("_rels/");
        reveal_strlit(".rels");
        reveal_strlit("/_rels/");
        let dir = partname::dir(t);
        let s = partname::last_segment(t);
        let own = s.take(s.len() - 5);
        let up = dir.take(dir.len() - 6);
        let ld = text::lowered(dir);
        let rest = ld.skip(ld.len() - 7);
        assert(rest == "/_rels/"@);
        assert(rest[0] == ld[ld.len() - 7]);
        lemma_lower_slash(dir, dir.len() - 7);
        assert(up.last() == '/');
        assert(o =~= up + own);
        assert forall|k: int| up.len() - 1 < k < o.len() implies #[trigger] o[k] != '/' by {
            assert(o[k] == s[k - up.len()]);
        }
        lemma_last_slash(o, up.len() - 1);
        assert(partname::dir(o) =~= up);
        assert(partname::last_segment(o) =~= own);
        let end = s.skip(s.len() - 5);
        assert(end == ".rels"@);
        let whole = text::lowered(up) + "_rels/"@ + text::lowered(own) + ".rels"@;
        let low = text::lowered(t);
        assert(low =~= ld + text::lowered(s));
        assert(ld =~= text::lowered(up) + "_rels/"@) by {
            assert forall|k: int| 0 <= k < 6 implies ld[ld.len() - 6 + k] == "_rels/"@[k] by {
                assert(ld[ld.len() - 6 + k] == rest[k + 1]);
            }
        }
        assert(text::lowered(s) =~= text::lowered(own) + ".rels"@) by {
            assert forall|k: int| 0 <= k < 5 implies text::lowered(s)[s.len() - 5 + k]
                == ".rels"@[k] by {
                assert(s[s.len() - 5 + k] == end[k]);
            }
        }
        assert(whole =~= low);
    }
}

} // verus!
