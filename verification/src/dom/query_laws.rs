//! What is found in a document.
use vstd::prelude::*;
use vstd::string::*;

use crate::dom::ancestry;
use crate::dom::arena;
use crate::dom::arena::NodeKind;
use crate::dom::copy;
use crate::dom::model;
use crate::dom::model::Dom;
use crate::dom::node::Attr;
use crate::dom::query;
use crate::error::Error;
use crate::text;
use crate::xml::lexer;
use crate::xml::name;
use crate::xml::reader;

verus! {

/// A node is an element whose name, the prefix aside, is written with the bytes
/// of `local`, and that is in the namespace `ns`, or in none when there is no
/// `ns`.
pub open spec fn bears(d: Dom, i: int, ns: Option<Seq<char>>, local: Seq<char>) -> bool {
    let e = d.elements[d.nodes[i].aux as int];
    &&& d.nodes[i].kind is Element
    &&& d.piece(e.local, model::name_in_arena(e)) == vstd::utf8::encode_utf8(local)
    &&& match ns {
        Some(u) => e.ns_uri != u32::MAX && d.uris[e.ns_uri as int] == u,
        None => e.ns_uri == u32::MAX,
    }
}

proof fn lemma_bears(d: Dom, i: int, ns: Option<Seq<char>>, local: Seq<char>)
    ensures
        query::is_named(d, i, ns, local) == bears(d, i, ns, local),
{
}

proof fn lemma_first_named(d: Dom, s: Seq<int>, ns: Option<Seq<char>>, local: Seq<char>, from: int)
    requires
        0 <= from <= s.len(),
    ensures
        match query::first_named(d, s, ns, local, from) {
            Some(c) => exists|k: int|
                from <= k < s.len() && #[trigger] s[k] == c && bears(d, c, ns, local) && forall|j: int|
                    from <= j < k ==> !bears(d, #[trigger] s[j], ns, local),
            None => forall|k: int| from <= k < s.len() ==> !bears(d, #[trigger] s[k], ns, local),
        },
    decreases s.len() - from,
{
    if from < s.len() {
        lemma_bears(d, s[from], ns, local);
        if !bears(d, s[from], ns, local) {
            lemma_first_named(d, s, ns, local, from + 1);
            match query::first_named(d, s, ns, local, from + 1) {
                Some(c) => {
                    let k = choose|k: int|
                        from + 1 <= k < s.len() && #[trigger] s[k] == c && bears(d, c, ns, local)
                            && forall|j: int|
                            from + 1 <= j < k ==> !bears(d, #[trigger] s[j], ns, local);
                    assert(s[k] == c);
                    assert forall|j: int| from <= j < k implies !bears(
                        d,
                        #[trigger] s[j],
                        ns,
                        local,
                    ) by {}
                },
                None => {},
            }
        } else {
            assert(s[from] == s[from]);
        }
    }
}

/// The child that is found by a name is one of the children, it has the name and
/// the namespace that were asked for, and no child before it has; when none is
/// found, no child has.
pub proof fn lemma_found_child_is_first(d: Dom, n: int, ns: Option<Seq<char>>, local: Seq<char>)
    ensures
        match query::first_named(d, d.kids(n), ns, local, 0) {
            Some(c) => exists|k: int|
                0 <= k < d.kids(n).len() && #[trigger] d.kids(n)[k] == c && bears(d, c, ns, local)
                    && forall|j: int|
                    0 <= j < k ==> !bears(d, #[trigger] d.kids(n)[j], ns, local),
            None => forall|k: int|
                0 <= k < d.kids(n).len() ==> !bears(d, #[trigger] d.kids(n)[k], ns, local),
        },
{
    lemma_first_named(d, d.kids(n), ns, local, 0);
}

proof fn lemma_first_element(d: Dom, s: Seq<int>, from: int)
    requires
        0 <= from <= s.len(),
    ensures
        match query::first_element(d, s, from) {
            Some(c) => exists|k: int|
                from <= k < s.len() && #[trigger] s[k] == c && d.nodes[c].kind is Element
                    && forall|j: int|
                    from <= j < k ==> !(d.nodes[#[trigger] s[j]].kind is Element),
            None => forall|k: int|
                from <= k < s.len() ==> !(d.nodes[#[trigger] s[k]].kind is Element),
        },
    decreases s.len() - from,
{
    if from < s.len() {
        if d.nodes[s[from]].kind is Element {
            assert(s[from] == s[from]);
        } else {
            lemma_first_element(d, s, from + 1);
            if let Some(c) = query::first_element(d, s, from + 1) {
                let k = choose|k: int|
                    from + 1 <= k < s.len() && #[trigger] s[k] == c && d.nodes[c].kind is Element
                        && forall|j: int|
                        from + 1 <= j < k ==> !(d.nodes[#[trigger] s[j]].kind is Element);
                assert(s[k] == c);
            }
        }
    }
}

/// The root element is the first element among the children of the document, and
/// there is none only when no child is an element.
pub proof fn lemma_root_element_is_first(d: Dom)
    ensures
        match query::first_element(d, d.kids(d.root), 0) {
            Some(c) => exists|k: int|
                0 <= k < d.kids(d.root).len() && #[trigger] d.kids(d.root)[k] == c
                    && d.nodes[c].kind is Element && forall|j: int|
                    0 <= j < k ==> !(d.nodes[#[trigger] d.kids(d.root)[j]].kind is Element),
            None => forall|k: int|
                0 <= k < d.kids(d.root).len() ==> !(d.nodes[#[trigger] d.kids(
                    d.root,
                )[k]].kind is Element),
        },
{
    lemma_first_element(d, d.kids(d.root), 0);
}

/// A name is its prefix, a colon and its local name, or its local name alone. A
/// prefix holds no colon.
pub proof fn lemma_name_in_two(n: Seq<u8>)
    ensures
        forall|k: int| 0 <= k < name::prefix(n).len() ==> #[trigger] name::prefix(n)[k] != 58,
        n.contains(58) ==> n == name::prefix(n) + seq![58u8] + name::local(n),
        !n.contains(58) ==> name::local(n) == n && name::prefix(n).len() == 0,
{
    name::lemma_find(n, 0, 58);
    match name::find(n, 0, 58) {
        Some(k) => {
            assert(n[k] == 58);
            assert(n =~= n.take(k) + seq![58u8] + n.skip(k + 1));
            assert forall|j: int| 0 <= j < n.take(k).len() implies #[trigger] n.take(k)[j] != 58 by {
                assert(n.take(k)[j] == n[j]);
            }
        },
        None => {
            assert(!n.contains(58)) by {
                if n.contains(58) {
                    let j = choose|j: int| 0 <= j < n.len() && n[j] == 58;
                    assert(n[j] != 58);
                }
            }
        },
    }
}

/// The attribute that is found has the local name and the namespace that were
/// asked for, and none before it has; when none is found, none has.
pub proof fn lemma_found_attr_is_first(d: Dom, i: int, ns: Option<Seq<char>>, local: Seq<char>)
    ensures
        match query::attr_place(d, i, ns, local, 0) {
            Some(k) => {
                &&& 0 <= k < d.attrs_of(i).len()
                &&& goes_by(d, i, d.attrs_of(i)[k], ns, local)
                &&& forall|j: int|
                    0 <= j < k ==> !goes_by(d, i, #[trigger] d.attrs_of(i)[j], ns, local)
            },
            None => forall|j: int|
                0 <= j < d.attrs_of(i).len() ==> !goes_by(
                    d,
                    i,
                    #[trigger] d.attrs_of(i)[j],
                    ns,
                    local,
                ),
        },
{
    lemma_attr_place(d, i, ns, local, 0);
}

/// An attribute has the local name and is in the namespace of its prefix. One
/// without a prefix is in no namespace.
pub open spec fn goes_by(
    d: Dom,
    i: int,
    a: Attr,
    ns: Option<Seq<char>>,
    local: Seq<char>,
) -> bool {
    let n = d.piece(a.name, model::attr_name_in_arena(a));
    &&& name::local(n) == vstd::utf8::encode_utf8(local)
    &&& if name::prefix(n).len() == 0 {
        ns is None
    } else {
        query::attr_uri(d, i, name::prefix(n)) == ns
    }
}

proof fn lemma_attr_place(d: Dom, i: int, ns: Option<Seq<char>>, local: Seq<char>, from: int)
    requires
        0 <= from <= d.attrs_of(i).len(),
    ensures
        match query::attr_place(d, i, ns, local, from) {
            Some(k) => {
                &&& from <= k < d.attrs_of(i).len()
                &&& goes_by(d, i, d.attrs_of(i)[k], ns, local)
                &&& forall|j: int|
                    from <= j < k ==> !goes_by(d, i, #[trigger] d.attrs_of(i)[j], ns, local)
            },
            None => forall|j: int|
                from <= j < d.attrs_of(i).len() ==> !goes_by(
                    d,
                    i,
                    #[trigger] d.attrs_of(i)[j],
                    ns,
                    local,
                ),
        },
    decreases d.attrs_of(i).len() - from,
{
    if from < d.attrs_of(i).len() {
        let a = d.attrs_of(i)[from];
        assert(query::attr_is(d, i, a, ns, local) == goes_by(d, i, a, ns, local));
        lemma_attr_place(d, i, ns, local, from + 1);
    }
}

/// The value of an attribute that was asked for is what the value of the one
/// that is found stands for.
pub proof fn lemma_attr_value_is_of_the_found_one(
    d: Dom,
    i: int,
    ns: Option<Seq<char>>,
    local: Seq<char>,
    k: int,
)
    requires
        0 <= k < d.attrs_of(i).len(),
        goes_by(d, i, d.attrs_of(i)[k], ns, local),
        forall|j: int| 0 <= j < k ==> !goes_by(d, i, #[trigger] d.attrs_of(i)[j], ns, local),
    ensures
        ({
            let a = d.attrs_of(i)[k];
            let b = d.piece(a.value, model::value_in_arena(a));
            match query::attr_read(d, i, ns, local) {
                Some(t) => query::bytes_read(b, true) == Ok::<Seq<char>, Error>(t),
                None => query::bytes_read(b, true) is Err,
            }
        }),
{
    lemma_found_attr_is_first(d, i, ns, local);
    let p = query::attr_place(d, i, ns, local, 0);
    if p is None {
        assert(!goes_by(d, i, d.attrs_of(i)[k], ns, local));
    } else if p->0 < k {
        assert(!goes_by(d, i, d.attrs_of(i)[p->0], ns, local));
    }
}

/// An attribute declares a prefix: its name is `xmlns:` and the prefix.
pub open spec fn declares(d: Dom, a: Attr, prefix: Seq<u8>) -> bool {
    d.piece(a.name, model::attr_name_in_arena(a)) == seq![120u8, 109, 108, 110, 115, 58] + prefix
}

/// The declaration of a prefix on an element: its first attribute that declares
/// it has the value.
pub open spec fn declared_on(d: Dom, i: int, prefix: Seq<u8>, v: Seq<u8>) -> bool {
    exists|k: int|
        0 <= k < d.attrs_of(i).len() && declares(d, #[trigger] d.attrs_of(i)[k], prefix)
            && query::attr_value(d, d.attrs_of(i)[k]) == v && forall|j: int|
            0 <= j < k ==> !declares(d, #[trigger] d.attrs_of(i)[j], prefix)
}

/// No attribute of an element declares a prefix.
pub open spec fn undeclared_on(d: Dom, i: int, prefix: Seq<u8>) -> bool {
    forall|j: int|
        0 <= j < d.attrs_of(i).len() ==> !declares(d, #[trigger] d.attrs_of(i)[j], prefix)
}

proof fn lemma_declares(d: Dom, a: Attr, prefix: Seq<u8>)
    ensures
        declares(d, a, prefix) == (name::prefix(query::attr_name(d, a)) == reader::XMLNS@
            && name::local(query::attr_name(d, a)) == prefix),
{
    let n = query::attr_name(d, a);
    let x = seq![120u8, 109, 108, 110, 115];
    assert(reader::XMLNS@ =~= x);
    name::lemma_find(n, 0, 58);
    lemma_name_in_two(n);
    if declares(d, a, prefix) {
        assert(n =~= x + seq![58u8] + prefix);
        assert(n[5] == 58);
        let k = name::find(n, 0, 58)->0;
        if k < 5 {
            assert(n[k] == x[k]);
        }
        assert(n.take(5) =~= x);
        assert(n.skip(6) =~= prefix);
    }
    if name::prefix(n) == x && name::local(n) == prefix {
        assert(n.contains(58));
        assert(n =~= seq![120u8, 109, 108, 110, 115, 58] + prefix);
    }
}

proof fn lemma_declared_among(d: Dom, s: Seq<Attr>, prefix: Seq<u8>, from: int)
    requires
        0 <= from <= s.len(),
    ensures
        match query::declared_among(d, s, prefix, from) {
            Some(v) => exists|k: int|
                from <= k < s.len() && declares(d, #[trigger] s[k], prefix) && query::attr_value(
                    d,
                    s[k],
                ) == v && forall|j: int| from <= j < k ==> !declares(d, #[trigger] s[j], prefix),
            None => forall|j: int| from <= j < s.len() ==> !declares(d, #[trigger] s[j], prefix),
        },
    decreases s.len() - from,
{
    if from < s.len() {
        lemma_declares(d, s[from], prefix);
        lemma_declared_among(d, s, prefix, from + 1);
        if declares(d, s[from], prefix) {
            assert(declares(d, s[from], prefix));
        } else if let Some(v) = query::declared_among(d, s, prefix, from + 1) {
            let k = choose|k: int|
                from + 1 <= k < s.len() && declares(d, #[trigger] s[k], prefix)
                    && query::attr_value(d, s[k]) == v && forall|j: int|
                    from + 1 <= j < k ==> !declares(d, #[trigger] s[j], prefix);
            assert(declares(d, s[k], prefix));
        }
    }
}

/// The declaration that holds for a prefix is that of the nearest element, the
/// node itself or one above it, that declares it; there is none only when no
/// element on the way to the root declares it.
pub proof fn lemma_nearest_declaration_holds(d: Dom, way: Seq<int>, prefix: Seq<u8>)
    ensures
        match query::declared_on_way(d, way, prefix, 0) {
            Some(v) => exists|m: int|
                0 <= m < way.len() && d.nodes[#[trigger] way[m]].kind is Element && declared_on(
                    d,
                    way[m],
                    prefix,
                    v,
                ) && forall|j: int|
                    0 <= j < m && d.nodes[#[trigger] way[j]].kind is Element ==> undeclared_on(
                        d,
                        way[j],
                        prefix,
                    ),
            None => forall|j: int|
                0 <= j < way.len() && d.nodes[#[trigger] way[j]].kind is Element ==> undeclared_on(
                    d,
                    way[j],
                    prefix,
                ),
        },
{
    lemma_on_way(d, way, prefix, 0);
}

proof fn lemma_on_way(d: Dom, way: Seq<int>, prefix: Seq<u8>, from: int)
    requires
        0 <= from <= way.len(),
    ensures
        match query::declared_on_way(d, way, prefix, from) {
            Some(v) => exists|m: int|
                from <= m < way.len() && d.nodes[#[trigger] way[m]].kind is Element && declared_on(
                    d,
                    way[m],
                    prefix,
                    v,
                ) && forall|j: int|
                    from <= j < m && d.nodes[#[trigger] way[j]].kind is Element ==> undeclared_on(
                        d,
                        way[j],
                        prefix,
                    ),
            None => forall|j: int|
                from <= j < way.len() && d.nodes[#[trigger] way[j]].kind is Element
                    ==> undeclared_on(d, way[j], prefix),
        },
    decreases way.len() - from,
{
    if from < way.len() {
        let i = way[from];
        lemma_declared_among(d, d.attrs_of(i), prefix, 0);
        lemma_on_way(d, way, prefix, from + 1);
        if d.nodes[i].kind is Element && query::declared_among(d, d.attrs_of(i), prefix, 0) is Some {
            assert(declared_on(d, way[from], prefix, query::declared_among(
                d,
                d.attrs_of(i),
                prefix,
                0,
            )->0));
        } else {
            if d.nodes[i].kind is Element {
                assert(undeclared_on(d, i, prefix));
            }
            if let Some(v) = query::declared_on_way(d, way, prefix, from + 1) {
                let m = choose|m: int|
                    from + 1 <= m < way.len() && d.nodes[#[trigger] way[m]].kind is Element
                        && declared_on(d, way[m], prefix, v) && forall|j: int|
                        from + 1 <= j < m && d.nodes[#[trigger] way[j]].kind is Element
                            ==> undeclared_on(d, way[j], prefix);
                assert(d.nodes[way[m]].kind is Element);
            }
        }
    }
}

/// The namespace of an attribute with a prefix is the one that the prefix stands
/// for: that of XML for `xml`, else what the nearest declaration says, and none
/// where that says nothing.
pub proof fn lemma_namespace_of_prefix(d: Dom, i: int, prefix: Seq<u8>)
    ensures
        prefix.len() == 0 ==> query::attr_uri(d, i, prefix) is None,
        prefix == seq![120u8, 109, 108] ==> query::attr_uri(d, i, prefix) == Some(
            "http://www.w3.org/XML/1998/namespace"@,
        ),
        prefix.len() > 0 && prefix != seq![120u8, 109, 108] ==> match query::declared_on_way(
            d,
            ancestry::lineage(d.links.up, i),
            prefix,
            0,
        ) {
            Some(v) => if v.len() > 0 && vstd::utf8::valid_utf8(v) {
                query::attr_uri(d, i, prefix) == Some(vstd::utf8::decode_utf8(v))
            } else {
                query::attr_uri(d, i, prefix) is None
            },
            None => query::attr_uri(d, i, prefix) is None,
        },
{
    assert(reader::XML@ =~= seq![120u8, 109, 108]);
}

/// The text of nodes is that of the first ones and that of the others behind it.
pub proof fn lemma_text_in_order(d: Dom, a: Seq<int>, b: Seq<int>)
    ensures
        query::gathered(d, a + b) == match query::gathered(d, a) {
            Err(e) => Err(e),
            Ok(t) => match query::gathered(d, b) {
                Ok(u) => Ok(t + u),
                Err(e) => Err(e),
            },
        },
    decreases b.len(),
{
    if b.len() == 0 {
        assert(a + b =~= a);
        if let Ok(t) = query::gathered(d, a) {
            assert(t + Seq::<char>::empty() =~= t);
        }
    } else {
        assert((a + b).drop_last() =~= a + b.drop_last());
        lemma_text_in_order(d, a, b.drop_last());
        if let Ok(t) = query::gathered(d, a) {
            if let Ok(u) = query::gathered(d, b.drop_last()) {
                if let Ok(w) = query::leaf_text(d, b.last()) {
                    assert((t + u) + w =~= t + (u + w));
                }
            }
        }
    }
}

/// A text adds what it stands for to the text of its parent; elements, comments
/// and instructions add nothing.
pub proof fn lemma_text_of_one(d: Dom, i: int)
    ensures
        match d.nodes[i].kind {
            NodeKind::Text => query::gathered(d, seq![i]) == query::bytes_read(
                d.piece(d.nodes[i].span, model::in_arena(d.nodes[i])),
                false,
            ),
            NodeKind::CData => query::gathered(d, seq![i]) == query::leaf_text(d, i),
            _ => query::gathered(d, seq![i]) == Ok::<Seq<char>, Error>(Seq::empty()),
        },
{
    assert(seq![i].drop_last() =~= Seq::<int>::empty());
    assert(query::gathered(d, seq![i].drop_last()) == Ok::<Seq<char>, Error>(Seq::empty()));
    if let Ok(u) = query::leaf_text(d, i) {
        assert(Seq::<char>::empty() + u =~= u);
    }
}

/// The text of a node: that of its children for an element and for the document,
/// its own for a text, none for the others.
pub proof fn lemma_text_of_node(d: Dom, i: int)
    ensures
        match d.nodes[i].kind {
            NodeKind::Element => query::text_of(d, i) == query::gathered(d, d.kids(i)),
            NodeKind::Document => query::text_of(d, i) == query::gathered(d, d.kids(i)),
            NodeKind::Text => query::text_of(d, i) == query::gathered(d, seq![i]),
            NodeKind::CData => query::text_of(d, i) == query::gathered(d, seq![i]),
            _ => query::text_of(d, i) == Ok::<Seq<char>, Error>(Seq::empty()),
        },
{
    lemma_text_of_one(d, i);
}

/// A section of characters stands for what is between its marks, with no
/// reference read.
pub proof fn lemma_section_is_its_body(d: Dom, i: int, x: Seq<u8>)
    requires
        d.nodes[i].kind is CData,
        d.piece(d.nodes[i].span, model::in_arena(d.nodes[i])) == seq![
            60u8,
            33,
            91,
            67,
            68,
            65,
            84,
            65,
            91,
        ] + x + seq![93u8, 93, 62],
    ensures
        query::text_of(d, i) == Ok::<Seq<char>, Error>(text::lossy(x)),
{
    let b = d.piece(d.nodes[i].span, model::in_arena(d.nodes[i]));
    assert(lexer::CDATA_OPEN@ =~= seq![60u8, 33, 91, 67, 68, 65, 84, 65, 91]);
    assert(lexer::CDATA_CLOSE@ =~= seq![93u8, 93, 62]);
    assert(b.take(9) =~= lexer::CDATA_OPEN@);
    assert(b.skip(b.len() - 3) =~= lexer::CDATA_CLOSE@);
    assert(b.subrange(9, b.len() - 3) =~= x);
}

/// A node takes a byte.
pub open spec fn takes(d: Dom, i: int, offset: u32) -> bool {
    d.nodes[i].span.start <= offset < d.nodes[i].span.end
}

proof fn lemma_first_at(d: Dom, s: Seq<int>, offset: u32, from: int)
    requires
        0 <= from <= s.len(),
    ensures
        match query::first_at(d, s, offset, from) {
            Some(c) => takes(d, c, offset) && exists|k: int| from <= k < s.len() && #[trigger] s[k] == c,
            None => forall|k: int| from <= k < s.len() ==> !takes(d, #[trigger] s[k], offset),
        },
    decreases s.len() - from,
{
    if from < s.len() {
        lemma_first_at(d, s, offset, from + 1);
        if takes(d, s[from], offset) {
            assert(s[from] == s[from]);
        } else if let Some(c) = query::first_at(d, s, offset, from + 1) {
            let k = choose|k: int| from + 1 <= k < s.len() && #[trigger] s[k] == c;
            assert(s[k] == c);
        }
    }
}

/// The node at a byte is below the node where the search began; it takes the
/// byte unless it is that node, and none of its children takes the byte.
pub proof fn lemma_deepest_takes_the_byte(d: Dom, i: int, offset: u32)
    requires
        model::wf(d),
        d.has_node(i),
    ensures
        ({
            let r = query::descended(d, i, offset);
            &&& d.has_node(r)
            &&& ancestry::below(d.links.up, r, i)
            &&& r == i || takes(d, r, offset)
            &&& forall|k: int|
                0 <= k < d.kids(r).len() ==> !takes(d, #[trigger] d.kids(r)[k], offset)
        }),
    decreases
            ancestry::greatest(ancestry::rank_of(d.links.up)) - ancestry::rank_of(d.links.up)[i],
{
    let rank = ancestry::rank_of(d.links.up);
    lemma_first_at(d, d.kids(i), offset, 0);
    ancestry::lemma_lineage(d.links.up, i);
    assert(ancestry::lineage(d.links.up, i)[0] == i);
    if let Some(c) = query::first_at(d, d.kids(i), offset, 0) {
        let k = choose|k: int| 0 <= k < d.kids(i).len() && #[trigger] d.kids(i)[k] == c;
        assert(arena::kid_at(d.links, i, k));
        ancestry::lemma_lineage(d.links.up, c);
        assert(ancestry::ranked(d.links.up, rank));
        ancestry::lemma_greatest(rank, c);
        lemma_deepest_takes_the_byte(d, c, offset);
        let r = query::descended(d, c, offset);
        ancestry::lemma_below(d.links.up, c, i);
        ancestry::lemma_below(d.links.up, i, i);
        copy::lemma_below_below(d.links.up, r, c, i);
    }
}

} // verus!
