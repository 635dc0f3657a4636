//! What a part that is read without an error is.
use vstd::prelude::*;

use crate::bytes::Span;
use crate::error::Error;
use crate::limits::Limits;
use crate::xml::laws;
use crate::xml::lexer;
use crate::xml::lexer::{Part, RawAttr};
use crate::xml::name;
use crate::xml::reader;
use crate::xml::reader::{Item, Progress};

verus! {

/// How many elements an event opens, or closes.
pub open spec fn turn(i: Item) -> int {
    match i.part {
        Part::Start(t) => if t.empty {
            0
        } else {
            1
        },
        Part::End(_) => -1,
        _ => 0,
    }
}

/// How many elements are open before the event `k`.
pub open spec fn depth(s: Seq<Item>, k: int) -> int
    decreases k,
{
    if k <= 0 {
        0
    } else {
        depth(s, k - 1) + turn(s[k - 1])
    }
}

/// The event `k` is the opening tag of a root.
pub open spec fn opens_root(s: Seq<Item>, base: int, k: int) -> bool {
    0 <= k < s.len() && s[k].part is Start && base + depth(s, k) == 0
}

/// An event stands where it may, with `open` elements around it: a closing tag
/// and a section inside of an element, a text outside of all elements only when
/// it is white space, an opening tag not too deep.
pub open spec fn stands_well(b: Seq<u8>, i: Item, open: int, limits: Limits) -> bool {
    match i.part {
        Part::Start(_) => 0 <= open < limits.max_xml_depth,
        Part::End(_) => open > 0,
        Part::CData(_) => open > 0,
        Part::Text(x) => open > 0 || forall|k: int|
            x.start <= k < x.end ==> (#[trigger] b[k] == 32 || b[k] == 9 || b[k] == 10 || b[k] == 13),
        _ => open >= 0,
    }
}

proof fn lemma_depth_front(first: Item, rest: Seq<Item>, k: int)
    requires
        0 <= k <= rest.len(),
    ensures
        depth(seq![first] + rest, k + 1) == turn(first) + depth(rest, k),
    decreases k,
{
    let s = seq![first] + rest;
    if k == 0 {
        assert(depth(s, 1) == depth(s, 0) + turn(s[0]));
    } else {
        lemma_depth_front(first, rest, k - 1);
        assert(s[k] == rest[k - 1]);
    }
}

spec fn well(b: Seq<u8>, r: (Seq<Item>, Option<Error>), base: int, rooted: bool, limits: Limits) -> bool {
    let s = r.0;
    &&& forall|k: int|
        0 <= k < s.len() ==> stands_well(b, #[trigger] s[k], base + depth(s, k), limits)
    &&& forall|k: int|
        #[trigger] opens_root(s, base, k) ==> !rooted && forall|j: int|
            #[trigger] opens_root(s, base, j) ==> j == k
    &&& r.1 is None ==> base + depth(s, s.len() as int) == 0 && (rooted || exists|k: int|
        opens_root(s, base, k))
}

proof fn lemma_read_well(b: Seq<u8>, p: int, from: int, at: Progress, limits: Limits)
    requires
        0 <= p,
        b.len() <= u32::MAX,
        at.frames.len() > 0 ==> at.rooted,
    ensures
        well(b, reader::read(b, p, from, at, limits), at.frames.len() as int, at.rooted, limits),
    decreases b.len() - p,
{
    let r = reader::read(b, p, from, at, limits);
    let s = r.0;
    let base = at.frames.len() as int;
    if p < b.len() {
        laws::lemma_piece_fits(b, p, p == from, limits);
        if let Ok((part, e)) = lexer::piece_at(b, p, p == from, limits) {
            if let Ok((ns, next)) = reader::admitted(b, part, at, limits) {
                let first = Item { part, ns };
                let q = reader::read(b, e, from, next, limits);
                let rest = q.0;
                lemma_read_well(b, e, from, next, limits);
                assert(s == seq![first] + rest);
                assert(next.frames.len() == base + turn(first));
                assert(stands_well(b, first, base, limits)) by {
                    if let Part::Text(x) = part {
                        name::lemma_space_end(b, x.start as int);
                    }
                }
                assert forall|k: int| 0 <= k < s.len() implies stands_well(
                    b,
                    #[trigger] s[k],
                    base + depth(s, k),
                    limits,
                ) by {
                    if k > 0 {
                        lemma_depth_front(first, rest, k - 1);
                        assert(s[k] == rest[k - 1]);
                    }
                }
                assert forall|k: int| #[trigger] opens_root(s, base, k) implies !at.rooted
                    && forall|j: int| #[trigger] opens_root(s, base, j) ==> j == k by {
                    lemma_root_behind(first, rest, base, k);
                    assert forall|j: int| #[trigger] opens_root(s, base, j) implies j == k by {
                        lemma_root_behind(first, rest, base, j);
                    }
                }
                lemma_depth_front(first, rest, rest.len() as int);
                if r.1 is None && !at.rooted {
                    if next.rooted {
                        assert(opens_root(s, base, 0));
                    } else {
                        let k = choose|k: int| opens_root(rest, next.frames.len() as int, k);
                        lemma_depth_front(first, rest, k);
                        assert(s[k + 1] == rest[k]);
                        assert(opens_root(s, base, k + 1));
                    }
                }
            }
        }
    }
}

proof fn lemma_root_behind(first: Item, rest: Seq<Item>, base: int, k: int)
    requires
        opens_root(seq![first] + rest, base, k),
    ensures
        k > 0 ==> opens_root(rest, base + turn(first), k - 1),
        k == 0 ==> base == 0 && first.part is Start,
{
    let s = seq![first] + rest;
    if k > 0 {
        lemma_depth_front(first, rest, k - 1);
        assert(s[k] == rest[k - 1]);
    } else {
        assert(s[0] == first);
    }
}

/// In a part that is read without an error every element that is opened is
/// closed, there is exactly one root, and nothing but white space, comments and
/// instructions stands outside of it. No element lies deeper than allowed.
pub proof fn lemma_read_part_is_well_formed(b: Seq<u8>, limits: Limits)
    requires
        b.len() <= u32::MAX,
    ensures
        ({
            let (s, f) = reader::events(b, limits);
            &&& forall|k: int|
                0 <= k < s.len() ==> stands_well(b, #[trigger] s[k], depth(s, k), limits)
            &&& forall|j: int, k: int| #[trigger]
                opens_root(s, 0, j) && #[trigger] opens_root(s, 0, k) ==> j == k
            &&& f is None ==> depth(s, s.len() as int) == 0 && exists|k: int| opens_root(s, 0, k)
        }),
{
    let at = Progress { frames: Seq::empty(), rooted: false };
    let p = reader::body_start(b);
    lemma_read_well(b, p, p, at, limits);
    let s = reader::events(b, limits).0;
    assert forall|k: int| 0 <= k < s.len() implies stands_well(
        b,
        #[trigger] s[k],
        depth(s, k),
        limits,
    ) by {
        assert(stands_well(b, s[k], 0 + depth(s, k), limits));
    }
}

/// No two of the attributes have the same name.
pub open spec fn named_apart(s: Seq<u8>, attrs: Seq<RawAttr>) -> bool {
    forall|j: int, k: int|
        0 <= j < k < attrs.len() ==> s.subrange(
            (#[trigger] attrs[j]).name.start as int,
            attrs[j].name.end as int,
        ) != s.subrange((#[trigger] attrs[k]).name.start as int, attrs[k].name.end as int)
}

proof fn lemma_tag_apart(
    s: Seq<u8>,
    p: int,
    n: Span,
    attrs: Seq<RawAttr>,
    i: int,
    limits: Limits,
)
    requires
        0 <= i <= s.len() <= u32::MAX,
        named_apart(s, attrs),
        attrs.len() <= limits.max_attrs_per_element,
    ensures
        lexer::tag_at(s, p, n, attrs, i, limits) matches Ok((t, e)) ==> t.name == n && named_apart(
            s,
            t.attrs,
        ) && t.attrs.len() <= limits.max_attrs_per_element,
    decreases s.len() - i,
{
    if let Ok((a, k)) = lexer::attr_at(s, i, limits) {
        reader::lemma_attr_inside(s, i, limits);
        let more = attrs.push(a);
        if !lexer::named(s, attrs, lexer::cut(s, a.name)) && attrs.len() + 1
            <= limits.max_attrs_per_element {
            assert forall|j: int, m: int| 0 <= j < m < more.len() implies s.subrange(
                (#[trigger] more[j]).name.start as int,
                more[j].name.end as int,
            ) != s.subrange((#[trigger] more[m]).name.start as int, more[m].name.end as int) by {
                if m == attrs.len() {
                    assert(more[j] == attrs[j]);
                    assert(lexer::cut(s, attrs[j].name) != lexer::cut(s, a.name));
                } else {
                    assert(more[j] == attrs[j] && more[m] == attrs[m]);
                }
            }
            lemma_tag_apart(s, p, n, more, k, limits);
        }
    }
}

/// The attributes of an opening tag have different names, and there are no more
/// of them than allowed.
pub proof fn lemma_attributes_differ(s: Seq<u8>, p: int, first: bool, limits: Limits)
    requires
        0 <= p < s.len() <= u32::MAX,
    ensures
        lexer::piece_at(s, p, first, limits) matches Ok((Part::Start(t), e)) ==> named_apart(
            s,
            t.attrs,
        ) && t.attrs.len() <= limits.max_attrs_per_element && t.name.end - t.name.start
            <= limits.max_name_bytes && t.name.start == p + 1,
{
    if let Ok(e) = lexer::name_at(s, p + 1, limits) {
        name::lemma_name_end(s, p + 1);
        lemma_tag_apart(s, p, lexer::sp(p + 1, e), Seq::empty(), e, limits);
    }
}

} // verus!
