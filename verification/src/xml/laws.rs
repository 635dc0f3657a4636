//! What the events of a part keep of its bytes.
use vstd::prelude::*;

use crate::bytes::span::Span;
use crate::limits::Limits;
use crate::xml::lexer;
use crate::xml::lexer::{EndTag, RawAttr};
use crate::xml::name;
use crate::xml::reader;

verus! {

/// An attribute is what stands from `lo` to `hi`.
pub open spec fn attr_fits(s: Seq<u8>, a: RawAttr, lo: int, hi: int) -> bool {
    &&& 0 <= lo == a.pre_ws.start
    &&& a.pre_ws.start <= a.pre_ws.end == a.name.start
    &&& a.name.start <= a.name.end == a.ws_before_eq.start
    &&& a.ws_before_eq.start <= a.ws_before_eq.end
    &&& a.ws_after_eq.start == a.ws_before_eq.end + 1
    &&& a.ws_after_eq.start <= a.ws_after_eq.end
    &&& a.value.start == a.ws_after_eq.end + 1
    &&& a.value.start <= a.value.end
    &&& hi == a.value.end + 1
    &&& hi <= s.len()
    &&& s[a.ws_before_eq.end as int] == 61
    &&& s[a.ws_after_eq.end as int] == a.quote
    &&& s[a.value.end as int] == a.quote
    &&& a.quote == 34 || a.quote == 39
}

/// Attributes are what stands from `lo` to `hi`.
pub open spec fn attrs_fit(s: Seq<u8>, list: Seq<RawAttr>, lo: int, hi: int) -> bool
    decreases list.len(),
{
    if list.len() == 0 {
        lo == hi
    } else {
        &&& attr_fits(s, list.last(), list.last().pre_ws.start as int, hi)
        &&& attrs_fit(s, list.drop_last(), lo, list.last().pre_ws.start as int)
    }
}

/// An opening tag is what stands from `p` to `e`.
pub open spec fn start_fits(s: Seq<u8>, t: lexer::Open, p: int, e: int) -> bool {
    let tail: int = if t.empty {
        2
    } else {
        1
    };
    &&& 0 <= p < e <= s.len()
    &&& t.span == lexer::sp(p, e)
    &&& s[p] == 60
    &&& t.name.start == p + 1
    &&& t.name.start < t.name.end
    &&& t.name.end <= t.pre_close_ws.start <= t.pre_close_ws.end
    &&& attrs_fit(s, t.attrs, t.name.end as int, t.pre_close_ws.start as int)
    &&& t.pre_close_ws.end + tail == e
    &&& s[e - 1] == 62
    &&& t.empty ==> s[e - 2] == 47
}

/// A closing tag is what stands from `p` to `e`.
pub open spec fn end_fits(s: Seq<u8>, t: EndTag, p: int, e: int) -> bool {
    &&& 0 <= p < e <= s.len()
    &&& t.span == lexer::sp(p, e)
    &&& s[p] == 60
    &&& s[p + 1] == 47
    &&& t.name.start == p + 2
    &&& t.name.start < t.name.end == t.trailing_ws.start
    &&& t.trailing_ws.start <= t.trailing_ws.end
    &&& t.trailing_ws.end + 1 == e
    &&& s[e - 1] == 62
}

pub open spec fn span_of(part: lexer::Part) -> Span {
    match part {
        lexer::Part::Decl(x) => x,
        lexer::Part::Pi(x) => x,
        lexer::Part::Comment(x) => x,
        lexer::Part::CData(x) => x,
        lexer::Part::Text(x) => x,
        lexer::Part::Start(t) => t.span,
        lexer::Part::End(t) => t.span,
    }
}

/// A piece is what stands from `p` to `e`.
pub open spec fn part_fits(s: Seq<u8>, part: lexer::Part, p: int, e: int) -> bool {
    &&& 0 <= p < e <= s.len()
    &&& span_of(part) == lexer::sp(p, e)
    &&& part matches lexer::Part::Start(t) ==> start_fits(s, t, p, e)
    &&& part matches lexer::Part::End(t) ==> end_fits(s, t, p, e)
}

proof fn lemma_attr_fits(s: Seq<u8>, i: int, limits: Limits)
    requires
        0 <= i <= s.len() <= u32::MAX,
    ensures
        match lexer::attr_at(s, i, limits) {
            Ok((a, e)) => attr_fits(s, a, i, e) && i < e,
            Err(_) => true,
        },
{
    name::lemma_space_end(s, i);
    let from = name::space_end(s, i);
    name::lemma_name_end(s, from);
    let to = name::name_end(s, from);
    name::lemma_space_end(s, to);
    let eq = name::space_end(s, to);
    if eq < s.len() {
        name::lemma_space_end(s, eq + 1);
        let q = name::space_end(s, eq + 1);
        if q < s.len() {
            name::lemma_find(s, q + 1, s[q]);
        }
    }
}

proof fn lemma_tag_fits(
    s: Seq<u8>,
    p: int,
    n: Span,
    attrs: Seq<RawAttr>,
    i: int,
    limits: Limits,
)
    requires
        0 <= p < i <= s.len() <= u32::MAX,
        s[p] == 60,
        n.start == p + 1,
        n.start < n.end <= i,
        attrs_fit(s, attrs, n.end as int, i),
    ensures
        match lexer::tag_at(s, p, n, attrs, i, limits) {
            Ok((t, e)) => start_fits(s, t, p, e),
            Err(_) => true,
        },
    decreases s.len() - i,
{
    name::lemma_space_end(s, i);
    lemma_attr_fits(s, i, limits);
    if let Ok((a, k)) = lexer::attr_at(s, i, limits) {
        let more = attrs.push(a);
        assert(more.drop_last() =~= attrs);
        lemma_tag_fits(s, p, n, more, k, limits);
    }
}

/// A piece is what stands in the part where it was read.
pub proof fn lemma_piece_fits(s: Seq<u8>, p: int, first: bool, limits: Limits)
    requires
        0 <= p < s.len() <= u32::MAX,
    ensures
        match lexer::piece_at(s, p, first, limits) {
            Ok((part, e)) => part_fits(s, part, p, e),
            Err(_) => true,
        },
{
    name::lemma_find(s, p, 60);
    name::lemma_name_end(s, p + 1);
    if p + 2 <= s.len() {
        name::lemma_name_end(s, p + 2);
        if let Ok(e) = lexer::name_at(s, p + 2, limits) {
            name::lemma_space_end(s, e);
        }
    }
    if s[p] == 60 && lexer::name_at(s, p + 1, limits) is Ok {
        let e = lexer::name_at(s, p + 1, limits)->Ok_0;
        lemma_tag_fits(s, p, lexer::sp(p + 1, e), Seq::empty(), e, limits);
    }
    name::lemma_find_text(s, p + 4, lexer::COMMENT_CLOSE@);
    name::lemma_find_text(s, p + 9, lexer::CDATA_CLOSE@);
    name::lemma_find_text(s, p + 2, lexer::PI_CLOSE@);
}

/// Every event is what stands somewhere in the part.
pub open spec fn item_fits(s: Seq<u8>, i: reader::Item) -> bool {
    part_fits(s, i.part, span_of(i.part).start as int, span_of(i.part).end as int)
}

/// Every event is what stands somewhere in the part.
pub proof fn lemma_items_fit(
    s: Seq<u8>,
    p: int,
    from: int,
    at: reader::Progress,
    limits: Limits,
)
    requires
        0 <= p <= s.len() <= u32::MAX,
    ensures
        forall|k: int|
            0 <= k < reader::read(s, p, from, at, limits).0.len() ==> item_fits(
                s,
                #[trigger] reader::read(s, p, from, at, limits).0[k],
            ),
    decreases s.len() - p,
{
    if p < s.len() {
        lemma_piece_fits(s, p, p == from, limits);
        if let Ok((part, e)) = lexer::piece_at(s, p, p == from, limits) {
            if let Ok((ns, next)) = reader::admitted(s, part, at, limits) {
                lemma_items_fit(s, e, from, next, limits);
                let rest = reader::read(s, e, from, next, limits).0;
                let all = reader::read(s, p, from, at, limits).0;
                assert forall|k: int| 0 <= k < all.len() implies item_fits(
                    s,
                    #[trigger] all[k],
                ) by {
                    if k > 0 {
                        assert(all[k] == rest[k - 1]);
                    }
                }
            }
        }
    }
}

} // verus!
