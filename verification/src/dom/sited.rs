//! Nodes that were not changed are what stands in the source.
use vstd::prelude::*;

use crate::dom::arena;
use crate::dom::coverage;
use crate::dom::model;
use crate::dom::model::Dom;
use crate::dom::node::Attr;
use crate::dom::serialize;
use crate::xml::lexer;

verus! {

/// An attribute is what stands in the source from `lo` to `hi`.
pub open spec fn attr_sits(src: Seq<u8>, a: Attr, lo: int, hi: int) -> bool {
    &&& a.flags.marks == 0
    &&& 0 <= lo == a.pre_ws.start
    &&& a.pre_ws.start <= a.pre_ws.end == a.name.start
    &&& a.name.start <= a.name.end == a.ws_before_eq.start
    &&& a.ws_before_eq.start <= a.ws_before_eq.end
    &&& a.ws_after_eq.start == a.ws_before_eq.end + 1
    &&& a.ws_after_eq.start <= a.ws_after_eq.end
    &&& a.value.start == a.ws_after_eq.end + 1
    &&& a.value.start <= a.value.end
    &&& hi == a.value.end + 1
    &&& hi <= src.len()
    &&& src[a.ws_before_eq.end as int] == 61
    &&& src[a.ws_after_eq.end as int] == a.quote
    &&& src[a.value.end as int] == a.quote
}

/// Attributes are what stands in the source from `lo` to `hi`.
pub open spec fn attrs_sit(src: Seq<u8>, s: Seq<Attr>, lo: int, hi: int) -> bool
    decreases s.len(),
{
    if s.len() == 0 {
        lo == hi
    } else {
        &&& attr_sits(src, s.last(), s.last().pre_ws.start as int, hi)
        &&& attrs_sit(src, s.drop_last(), lo, s.last().pre_ws.start as int)
    }
}

/// The opening tag of an element stands at the beginning of its span.
pub open spec fn opening_sits(d: Dom, i: int) -> bool {
    let c = d.nodes[i];
    let e = d.elem(i);
    let to = e.opened_at(model::is_empty_tag(c));
    &&& e.flags.marks == 0
    &&& e.qname.start == c.span.start + 1
    &&& e.qname.start <= e.qname.end <= e.pre_close_ws.start <= e.pre_close_ws.end
    &&& attrs_sit(d.src, d.attrs_of(i), e.qname.end as int, e.pre_close_ws.start as int)
    &&& to <= c.span.end <= d.src.len()
    &&& d.src[c.span.start as int] == 60
    &&& d.src[to - 1] == 62
    &&& model::is_empty_tag(c) ==> d.src[to - 2] == 47
}

/// The closing tag of an element stands at the end of its span.
pub open spec fn closing_sits(d: Dom, i: int) -> bool {
    let c = d.nodes[i];
    let e = d.elem(i);
    let from = e.closed_at();
    &&& e.opened_at(false) <= from
    &&& e.close_qname.start <= e.close_qname.end == e.close_trailing_ws.start
    &&& e.close_trailing_ws.start <= e.close_trailing_ws.end
    &&& e.close_trailing_ws.end + 1 == c.span.end <= d.src.len()
    &&& d.src[from] == 60
    &&& d.src[from + 1] == 47
    &&& d.src[c.span.end - 1] == 62
}

/// The children of a node lie side by side between its tags.
pub open spec fn kids_sit(d: Dom, i: int) -> bool {
    &&& forall|k: int| 0 <= k < d.kids(i).len() ==> #[trigger] coverage::begins_well(d, i, k)
    &&& coverage::seam(d, i, d.kids(i).len() as int) == coverage::inner_end(d, i)
}

/// A node is what stands in the source where its span is.
pub open spec fn sits(d: Dom, i: int) -> bool {
    let c = d.nodes[i];
    &&& !model::in_arena(c)
    &&& c.kind is Document ==> {
        &&& c.span.start == 0
        &&& c.span.end == d.src.len()
        &&& d.bom ==> d.src.len() >= 3 && d.src.take(3) == lexer::BOM@
        &&& kids_sit(d, i)
    }
    &&& c.kind is Element ==> {
        &&& opening_sits(d, i)
        &&& if model::is_empty_tag(c) {
            d.elem(i).opened_at(true) == c.span.end && d.elem(i).close_trailing_ws.start == d.elem(
                i,
            ).close_trailing_ws.end
        } else {
            closing_sits(d, i) && kids_sit(d, i)
        }
    }
}

/// An element that is written with one tag has no children.
pub open spec fn hollow(d: Dom, i: int) -> bool {
    d.nodes[i].kind is Element && model::is_empty_tag(d.nodes[i]) ==> d.kids(i).len() == 0
}

/// An unchanged node is what stands in the source.
pub open spec fn sited_at(d: Dom, i: int) -> bool {
    hollow(d, i) && (!d.nodes[i].flags.changed() ==> sits(d, i))
}

/// Unchanged nodes are what stands in the source.
pub open spec fn sited(d: Dom) -> bool {
    forall|i: int| d.has_node(i) ==> #[trigger] sited_at(d, i)
}

/// What is written for attributes stands in the source.
pub proof fn lemma_attrs_sit(d: Dom, s: Seq<Attr>, lo: int, hi: int)
    requires
        attrs_sit(d.src, s, lo, hi),
        0 <= lo <= hi <= d.src.len(),
    ensures
        serialize::attrs_text(d, s) == d.src.subrange(lo, hi),
    decreases s.len(),
{
    if s.len() > 0 {
        let a = s.last();
        let from = a.pre_ws.start as int;
        arena::lemma_mark_bits();
        lemma_attrs_in_order(d.src, s.drop_last(), lo, from);
        lemma_attrs_sit(d, s.drop_last(), lo, from);
        assert(serialize::attr_text(d, a) =~= d.src.subrange(from, hi));
        assert(d.src.subrange(lo, from) + d.src.subrange(from, hi) =~= d.src.subrange(lo, hi));
    } else {
        assert(d.src.subrange(lo, hi) =~= Seq::empty());
    }
}

pub proof fn lemma_attrs_in_order(src: Seq<u8>, s: Seq<Attr>, lo: int, hi: int)
    requires
        attrs_sit(src, s, lo, hi),
    ensures
        lo <= hi,
    decreases s.len(),
{
    if s.len() > 0 {
        lemma_attrs_in_order(src, s.drop_last(), lo, s.last().pre_ws.start as int);
    }
}

/// What is written for the tags of an unchanged element stands in the source.
pub proof fn lemma_tags_sit(d: Dom, i: int)
    requires
        model::wf(d),
        d.is_element(i),
        sits(d, i),
    ensures
        ({
            let c = d.nodes[i];
            let empty = model::is_empty_tag(c);
            let to = d.elem(i).opened_at(empty);
            &&& c.span.start <= to <= c.span.end
            &&& coverage::inner_start(d, i) == to
            &&& serialize::head_text(d, i) + (if empty {
                seq![47u8, 62u8]
            } else {
                seq![62u8]
            }) == d.src.subrange(c.span.start as int, to)
            &&& !empty ==> {
                let from = d.elem(i).closed_at();
                &&& coverage::inner_end(d, i) == from
                &&& to <= from <= c.span.end
                &&& serialize::tail_text(d, i) == d.src.subrange(from, c.span.end as int)
            }
        }),
{
    let c = d.nodes[i];
    let e = d.elem(i);
    let empty = model::is_empty_tag(c);
    let to = e.opened_at(empty);
    arena::lemma_mark_bits();
    assert(model::node_ok(d, i));
    lemma_attrs_in_order(d.src, d.attrs_of(i), e.qname.end as int, e.pre_close_ws.start as int);
    lemma_attrs_sit(d, d.attrs_of(i), e.qname.end as int, e.pre_close_ws.start as int);
    let head = serialize::head_text(d, i) + (if empty {
        seq![47u8, 62u8]
    } else {
        seq![62u8]
    });
    assert(head =~= d.src.subrange(c.span.start as int, to));
    if !empty {
        let from = e.closed_at();
        assert(serialize::tail_text(d, i) =~= d.src.subrange(from, c.span.end as int));
    }
}

/// The kids of an unchanged node are unchanged.
pub proof fn lemma_kid_unchanged(d: Dom, i: int, k: int)
    requires
        model::wf(d),
        d.has_node(i),
        !d.nodes[i].flags.changed(),
        0 <= k < d.kids(i).len(),
    ensures
        d.has_node(d.kids(i)[k]),
        !d.nodes[d.kids(i)[k]].flags.changed(),
{
    assert(arena::kid_at(d.links, i, k));
    assert(model::reported(d, d.kids(i)[k]));
}

/// Children of an unchanged node are written as what stands in the source.
pub proof fn lemma_kids_written(d: Dom, i: int, a: int, b: int, depth: nat)
    requires
        model::wf(d),
        sited(d),
        d.has_node(i),
        !d.nodes[i].flags.changed(),
        kids_sit(d, i),
        0 <= a <= b <= d.kids(i).len(),
        depth <= serialize::deepest(d),
        0 <= coverage::inner_start(d, i) <= d.src.len(),
    ensures
        coverage::inner_start(d, i) <= coverage::seam(d, i, a) <= coverage::seam(d, i, b)
            <= d.src.len(),
        serialize::written_all(d, d.kids(i).subrange(a, b), depth) == Some(
            d.src.subrange(coverage::seam(d, i, a), coverage::seam(d, i, b)),
        ),
    decreases b,
{
    let s = d.kids(i).subrange(a, b);
    if a < b {
        let c = d.kids(i)[b - 1];
        lemma_kids_written(d, i, a, b - 1, depth);
        assert(s.drop_last() =~= d.kids(i).subrange(a, b - 1));
        assert(s.last() == c);
        assert(coverage::begins_well(d, i, b - 1));
        lemma_kid_unchanged(d, i, b - 1);
        assert(sited_at(d, c));
        assert(model::node_ok(d, c));
        let x = coverage::seam(d, i, a);
        let y = coverage::seam(d, i, b - 1);
        let z = coverage::seam(d, i, b);
        assert(serialize::written(d, c, depth) == Some(d.src.subrange(y, z)));
        assert(serialize::written_all(d, s.drop_last(), depth) == Some(d.src.subrange(x, y)));
        assert(d.src.subrange(x, y) + d.src.subrange(y, z) =~= d.src.subrange(x, z));
    } else {
        assert(s =~= Seq::empty());
        if a > 0 {
            lemma_kids_written(d, i, 0, a - 1, depth);
            assert(coverage::begins_well(d, i, a - 1));
            lemma_kid_unchanged(d, i, a - 1);
            assert(model::node_ok(d, d.kids(i)[a - 1]));
            assert(sited_at(d, d.kids(i)[a - 1]));
        }
        let x = coverage::seam(d, i, a);
        assert(d.src.subrange(x, x) =~= Seq::empty());
    }
}

} // verus!
