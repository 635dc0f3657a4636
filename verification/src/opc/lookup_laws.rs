//! What is found in a package: types, relationships, parts and their content.
use vstd::prelude::*;
use vstd::string::*;

use crate::dom::edit;
use crate::dom::model::Dom;
use crate::dom::parse;
use crate::error::Error;
use crate::limits::Limits;
use crate::opc::archive::Rec;
use crate::opc::assembly;
use crate::opc::content_types;
use crate::opc::content_types::{ByExt, ByName, Types};
use crate::opc::fault::Fault;
use crate::opc::laws;
use crate::opc::package;
use crate::opc::package::{Body, Ent, Pack};
use crate::opc::partname;
use crate::opc::parts;
use crate::opc::rels;
use crate::opc::rels::{Book, Link, TargetMode};
use crate::text;

verus! {

/// Small letters of ASCII for capital ones, and every other character as it is.
pub proof fn lemma_lowered_changes_capitals_alone(s: Seq<char>)
    ensures
        text::lowered(s).len() == s.len(),
        forall|k: int|
            0 <= k < s.len() ==> if 'A' <= #[trigger] s[k] <= 'Z' {
                'a' <= text::lowered(s)[k] <= 'z' && text::lowered(s)[k] as u32 - 'a' as u32
                    == s[k] as u32 - 'A' as u32
            } else {
                text::lowered(s)[k] == s[k]
            },
{
    assert forall|k: int| 0 <= k < s.len() implies if 'A' <= #[trigger] s[k] <= 'Z' {
        'a' <= text::lowered(s)[k] <= 'z' && text::lowered(s)[k] as u32 - 'a' as u32
            == s[k] as u32 - 'A' as u32
    } else {
        text::lowered(s)[k] == s[k]
    } by {
        assert(text::lowered(s)[k] == text::lower(s[k]));
    }
}

/// The first type by name for a key is at `k`.
pub open spec fn first_by_name(s: Seq<ByName>, key: Seq<char>, k: int) -> bool {
    0 <= k < s.len() && s[k].key == key && forall|j: int|
        0 <= j < k ==> (#[trigger] s[j]).key != key
}

/// The first type by extension is at `k`.
pub open spec fn first_by_ext(s: Seq<ByExt>, ext: Seq<char>, k: int) -> bool {
    0 <= k < s.len() && s[k].ext == ext && forall|j: int|
        0 <= j < k ==> (#[trigger] s[j]).ext != ext
}

proof fn lemma_override_place(s: Seq<ByName>, key: Seq<char>, from: int)
    requires
        0 <= from <= s.len(),
    ensures
        match content_types::override_place(s, key, from) {
            Some(k) => from <= k < s.len() && s[k].key == key && forall|j: int|
                from <= j < k ==> (#[trigger] s[j]).key != key,
            None => forall|j: int| from <= j < s.len() ==> (#[trigger] s[j]).key != key,
        },
    decreases s.len() - from,
{
    if from < s.len() && s[from].key != key {
        lemma_override_place(s, key, from + 1);
    }
}

proof fn lemma_default_from(s: Seq<ByExt>, ext: Seq<char>, from: int)
    requires
        0 <= from <= s.len(),
    ensures
        match content_types::default_from(s, ext, from) {
            Some(c) => exists|k: int|
                from <= k < s.len() && (#[trigger] s[k]).ext == ext && s[k].content_type == c
                    && forall|j: int| from <= j < k ==> (#[trigger] s[j]).ext != ext,
            None => forall|j: int| from <= j < s.len() ==> (#[trigger] s[j]).ext != ext,
        },
    decreases s.len() - from,
{
    if from < s.len() {
        if s[from].ext == ext {
            assert(s[from].ext == ext);
        } else {
            lemma_default_from(s, ext, from + 1);
            if let Some(c) = content_types::default_from(s, ext, from + 1) {
                let k = choose|k: int|
                    from + 1 <= k < s.len() && (#[trigger] s[k]).ext == ext && s[k].content_type
                        == c && forall|j: int| from + 1 <= j < k ==> (#[trigger] s[j]).ext != ext;
                assert(s[k].ext == ext);
            }
        }
    }
}

/// The type of a part: that of the first entry for its name, whatever the case of
/// its letters; where there is none, that of the first entry for its extension;
/// none where there is neither. An entry for the name goes before all entries
/// for extensions.
pub proof fn lemma_type_by_name_then_extension(t: Types, part: Seq<char>)
    ensures
        forall|k: int| #[trigger]
            first_by_name(t.overrides, text::lowered(part), k) ==> content_types::type_of(t, part)
                == Some(t.overrides[k].content_type),
        (forall|j: int| 0 <= j < t.overrides.len() ==> (#[trigger] t.overrides[j]).key
            != text::lowered(part)) ==> match partname::extension(part) {
            None => content_types::type_of(t, part) is None,
            Some(x) => {
                &&& forall|k: int| #[trigger]
                    first_by_ext(t.defaults, text::lowered(x), k) ==> content_types::type_of(
                        t,
                        part,
                    ) == Some(t.defaults[k].content_type)
                &&& (forall|j: int| 0 <= j < t.defaults.len() ==> (#[trigger] t.defaults[j]).ext
                    != text::lowered(x)) ==> content_types::type_of(t, part) is None
            },
        },
{
    lemma_override_place(t.overrides, text::lowered(part), 0);
    assert forall|k: int| #[trigger] first_by_name(
        t.overrides,
        text::lowered(part),
        k,
    ) implies content_types::type_of(t, part) == Some(t.overrides[k].content_type) by {
        let p = content_types::override_place(t.overrides, text::lowered(part), 0);
        if p is None {
            assert(t.overrides[k].key != text::lowered(part));
        } else if p->0 < k {
            assert(t.overrides[p->0].key != text::lowered(part));
        } else if p->0 > k {
            assert(t.overrides[k].key != text::lowered(part));
        }
    }
    if let Some(x) = partname::extension(part) {
        lemma_default_from(t.defaults, text::lowered(x), 0);
        let ext = text::lowered(x);
        if forall|j: int|
            0 <= j < t.overrides.len() ==> (#[trigger] t.overrides[j]).key != text::lowered(part) {
            assert forall|k: int| #[trigger] first_by_ext(
                t.defaults,
                ext,
                k,
            ) implies content_types::type_of(t, part) == Some(t.defaults[k].content_type) by {
                let c = content_types::default_from(t.defaults, ext, 0);
                if c is None {
                    assert(t.defaults[k].ext != ext);
                } else {
                    let m = choose|m: int|
                        0 <= m < t.defaults.len() && (#[trigger] t.defaults[m]).ext == ext
                            && t.defaults[m].content_type == c->0 && forall|j: int|
                            0 <= j < m ==> (#[trigger] t.defaults[j]).ext != ext;
                    if m < k {
                        assert(t.defaults[m].ext != ext);
                    } else if k < m {
                        assert(t.defaults[k].ext != ext);
                    }
                }
            }
        }
    }
}

/// The types by extension that elements give, in their order.
pub open spec fn defaults_among(d: Dom, s: Seq<int>) -> Seq<ByExt>
    decreases s.len(),
{
    if s.len() == 0 {
        Seq::empty()
    } else {
        let i = s.last();
        let e = content_types::field(d, i, "Extension"@);
        let c = content_types::field(d, i, "ContentType"@);
        if content_types::is_called(d, i, "Default"@) && e is Some && c is Some {
            defaults_among(d, s.drop_last()).push(
                ByExt { ext: text::lowered(e->0), content_type: c->0 },
            )
        } else {
            defaults_among(d, s.drop_last())
        }
    }
}

/// The types by name that elements give, in their order.
pub open spec fn overrides_among(d: Dom, s: Seq<int>) -> Seq<ByName>
    decreases s.len(),
{
    if s.len() == 0 {
        Seq::empty()
    } else {
        let i = s.last();
        let p = content_types::field(d, i, "PartName"@);
        let c = content_types::field(d, i, "ContentType"@);
        if content_types::is_called(d, i, "Override"@) && !content_types::is_called(
            d,
            i,
            "Default"@,
        ) && p is Some && c is Some {
            overrides_among(d, s.drop_last()).push(
                ByName { key: text::lowered(p->0), content_type: c->0, node: i },
            )
        } else {
            overrides_among(d, s.drop_last())
        }
    }
}

/// An element that is to give a type gives one.
pub open spec fn gives_type(d: Dom, i: int) -> bool {
    let c = content_types::field(d, i, "ContentType"@) is Some;
    &&& content_types::is_called(d, i, "Default"@) ==> c && content_types::field(
        d,
        i,
        "Extension"@,
    ) is Some
    &&& content_types::is_called(d, i, "Override"@) && !content_types::is_called(
        d,
        i,
        "Default"@,
    ) ==> c && content_types::field(d, i, "PartName"@) is Some
}

proof fn lemma_types_added(d: Dom, t: Types, s: Seq<int>, k: int)
    requires
        0 <= k <= s.len(),
        t.defaults == defaults_among(d, s.take(k)),
        t.overrides == overrides_among(d, s.take(k)),
    ensures
        match content_types::types_added(d, t, s, k) {
            Ok(u) => {
                &&& u.root == t.root && u.prefix == t.prefix
                &&& u.defaults == defaults_among(d, s)
                &&& u.overrides == overrides_among(d, s)
                &&& forall|j: int| k <= j < s.len() ==> gives_type(d, #[trigger] s[j])
            },
            Err(_) => exists|j: int| k <= j < s.len() && !gives_type(d, #[trigger] s[j]),
        },
    decreases s.len() - k,
{
    if k < s.len() {
        assert(s.take(k + 1).drop_last() =~= s.take(k));
        assert(s.take(k + 1).last() == s[k]);
        match content_types::type_added(d, t, s[k]) {
            Ok(u) => {
                lemma_types_added(d, u, s, k + 1);
                assert(gives_type(d, s[k]));
                if content_types::types_added(d, u, s, k + 1) is Err {
                    let j = choose|j: int| k + 1 <= j < s.len() && !gives_type(d, #[trigger] s[j]);
                    assert(!gives_type(d, s[j]));
                }
            },
            Err(_) => {
                assert(!gives_type(d, s[k]));
            },
        }
    } else {
        assert(s.take(k) =~= s);
    }
}

/// The types that a document gives are those of the elements below its root
/// element, each in its place, and it is refused only when one of these elements
/// lacks an attribute.
pub proof fn lemma_types_are_those_of_the_elements(d: Dom, root: int)
    requires
        crate::dom::query::first_element(d, d.kids(d.root), 0) == Some(root),
        content_types::is_called(d, root, "Types"@),
        crate::dom::query::uri_of(d, root) == Some(content_types::CONTENT_TYPES_NS@),
    ensures
        match content_types::types_of(d) {
            Ok(t) => {
                &&& t.defaults == defaults_among(d, d.kids(root))
                &&& t.overrides == overrides_among(d, d.kids(root))
                &&& forall|j: int|
                    0 <= j < d.kids(root).len() ==> gives_type(d, #[trigger] d.kids(root)[j])
            },
            Err(_) => exists|j: int|
                0 <= j < d.kids(root).len() && !gives_type(d, #[trigger] d.kids(root)[j]),
        },
{
    let s = d.kids(root);
    let t = Types {
        root,
        prefix: crate::opc::table::prefix_text(d, root),
        defaults: Seq::empty(),
        overrides: Seq::empty(),
    };
    assert(s.take(0) =~= Seq::<int>::empty());
    lemma_types_added(d, t, s, 0);
}

/// The mode of a relationship: inside, unless its attribute says that it points
/// outside.
pub open spec fn says_mode(v: Option<Seq<char>>, m: TargetMode) -> bool {
    match v {
        None => m is Internal,
        Some(s) => (m is Internal && s == "Internal"@) || (m is External && s == "External"@),
    }
}

/// An element gives a relationship.
pub open spec fn gives_link(d: Dom, i: int, l: Link) -> bool {
    &&& content_types::field(d, i, "Id"@) == Some(l.id)
    &&& content_types::field(d, i, "Type"@) == Some(l.rel_type)
    &&& content_types::field(d, i, "Target"@) == Some(l.target)
    &&& says_mode(content_types::field(d, i, "TargetMode"@), l.mode)
    &&& l.node == i
}

/// The elements for relationships among nodes.
pub open spec fn link_elements(d: Dom, s: Seq<int>) -> Seq<int>
    decreases s.len(),
{
    if s.len() == 0 {
        Seq::empty()
    } else if content_types::is_called(d, s.last(), "Relationship"@) {
        link_elements(d, s.drop_last()).push(s.last())
    } else {
        link_elements(d, s.drop_last())
    }
}

proof fn lemma_links_added(d: Dom, b: Book, s: Seq<int>, k: int)
    requires
        0 <= k <= s.len(),
        b.links.len() == link_elements(d, s.take(k)).len(),
        forall|j: int|
            0 <= j < b.links.len() ==> gives_link(
                d,
                link_elements(d, s.take(k))[j],
                #[trigger] b.links[j],
            ),
    ensures
        rels::links_added(d, b, s, k) matches Ok(c) ==> {
            &&& c.owner == b.owner && c.root == b.root && c.prefix == b.prefix
            &&& c.links.len() == link_elements(d, s).len()
            &&& forall|j: int|
                0 <= j < c.links.len() ==> gives_link(
                    d,
                    link_elements(d, s)[j],
                    #[trigger] c.links[j],
                )
        },
    decreases s.len() - k,
{
    reveal_strlit("External");
    reveal_strlit("Internal");
    assert("External"@[0] != "Internal"@[0]);
    if k < s.len() {
        assert(s.take(k + 1).drop_last() =~= s.take(k));
        assert(s.take(k + 1).last() == s[k]);
        if let Ok(c) = rels::link_added(d, b, s[k]) {
            let was = link_elements(d, s.take(k));
            let now = link_elements(d, s.take(k + 1));
            assert forall|j: int| 0 <= j < c.links.len() implies gives_link(
                d,
                now[j],
                #[trigger] c.links[j],
            ) by {
                if j < b.links.len() {
                    assert(c.links[j] == b.links[j]);
                    assert(now[j] == was[j]);
                }
            }
            lemma_links_added(d, c, s, k + 1);
        }
    } else {
        assert(s.take(k) =~= s);
    }
}

/// The relationships that a document gives are those of its elements, in their
/// order, each with its identifier, type, target and mode.
pub proof fn lemma_relationships_are_those_of_the_elements(owner: Seq<char>, d: Dom)
    ensures
        rels::book_of(owner, d) matches Ok(b) ==> {
            &&& b.owner == owner
            &&& b.links.len() == link_elements(d, d.kids(b.root)).len()
            &&& forall|j: int|
                0 <= j < b.links.len() ==> gives_link(
                    d,
                    link_elements(d, d.kids(b.root))[j],
                    #[trigger] b.links[j],
                )
        },
{
    if let Some(root) = crate::dom::query::first_element(d, d.kids(d.root), 0) {
        let s = d.kids(root);
        let b = Book {
            owner,
            root,
            prefix: crate::opc::table::prefix_text(d, root),
            links: Seq::empty(),
        };
        assert(s.take(0) =~= Seq::<int>::empty());
        lemma_links_added(d, b, s, 0);
    }
}

/// The relationship that is found by an identifier is the first one that has it.
pub proof fn lemma_found_link_is_first(s: Seq<Link>, id: Seq<char>)
    ensures
        match rels::link_place(s, id, 0) {
            Some(k) => 0 <= k < s.len() && s[k].id == id && forall|j: int|
                0 <= j < k ==> (#[trigger] s[j]).id != id,
            None => forall|j: int| 0 <= j < s.len() ==> (#[trigger] s[j]).id != id,
        },
{
    lemma_link_from(s, id, 0);
}

proof fn lemma_link_from(s: Seq<Link>, id: Seq<char>, from: int)
    requires
        0 <= from <= s.len(),
    ensures
        match rels::link_place(s, id, from) {
            Some(k) => from <= k < s.len() && s[k].id == id && forall|j: int|
                from <= j < k ==> (#[trigger] s[j]).id != id,
            None => forall|j: int| from <= j < s.len() ==> (#[trigger] s[j]).id != id,
        },
    decreases s.len() - from,
{
    if from < s.len() && s[from].id != id {
        lemma_link_from(s, id, from + 1);
    }
}

/// The relationships of a type are those of the list that have it, all of them,
/// in their order.
pub proof fn lemma_links_of_a_type(s: Seq<Link>, rel_type: Seq<char>)
    ensures
        rels::of_type(s, rel_type) == s.filter(|l: Link| l.rel_type == rel_type),
    decreases s.len(),
{
    reveal(Seq::filter);
    if s.len() > 0 {
        lemma_links_of_a_type(s.drop_last(), rel_type);
    } else {
        assert(s.filter(|l: Link| l.rel_type == rel_type) =~= Seq::<Link>::empty());
    }
}

/// A new identifier is `rId` and a number: the least one above the number of the
/// relationships whose identifier no relationship has.
pub proof fn lemma_fresh_identifier(s: Seq<Link>)
    ensures
        exists|n: nat| #[trigger] is_fresh(s, n) && rels::fresh_id(s) == "rId"@ + text::decimal(n),
{
    rels::lemma_free_exists(s);
    let n = choose|n: nat| rels::next_free(s, n);
    assert(rels::next_free(s, n));
    assert(rels::is_free(s, n));
    lemma_found_link_is_first(s, rels::numbered_id(n));
    assert forall|m: nat| s.len() < m < n implies #[trigger] has_number(s, m) by {
        assert(!rels::is_free(s, m));
        lemma_found_link_is_first(s, rels::numbered_id(m));
        let k = rels::link_place(s, rels::numbered_id(m), 0)->0;
        assert(s[k].id == "rId"@ + text::decimal(m));
    }
    assert(is_fresh(s, n));
}

/// A relationship has the identifier with a number.
pub open spec fn has_number(s: Seq<Link>, n: nat) -> bool {
    exists|k: int| 0 <= k < s.len() && (#[trigger] s[k]).id == "rId"@ + text::decimal(n)
}

pub open spec fn is_fresh(s: Seq<Link>, n: nat) -> bool {
    &&& n > s.len()
    &&& !has_number(s, n)
    &&& forall|m: nat| s.len() < m < n ==> #[trigger] has_number(s, m)
}

/// A relationship that points outside leads to no part; another one leads to
/// where its target leads from the part that it belongs to.
pub proof fn lemma_outside_leads_nowhere(owner: Seq<char>, l: Link)
    ensures
        l.mode is External ==> rels::link_target(owner, l) == Ok::<Option<Seq<char>>, Fault>(None),
        l.mode is Internal ==> match partname::resolved(owner, l.target) {
            Ok(t) => rels::link_target(owner, l) == Ok::<Option<Seq<char>>, Fault>(Some(t)),
            Err(f) => rels::link_target(owner, l) == Err::<Option<Seq<char>>, Fault>(f),
        },
{
}

/// The names of parts are those of the entries that have a name and were not
/// removed, in the order of the entries.
pub proof fn lemma_names_in_order(a: Seq<Ent>, b: Seq<Ent>)
    ensures
        parts::names(a + b) == parts::names(a) + parts::names(b),
        parts::names(Seq::empty()) == Seq::<Seq<char>>::empty(),
        forall|e: Ent| #[trigger]
            parts::names(seq![e]) == (match e.name {
                Some(n) => if e.body is Gone {
                    Seq::empty()
                } else {
                    seq![n]
                },
                None => Seq::empty(),
            }),
    decreases b.len(),
{
    assert forall|e: Ent| #[trigger] parts::names(seq![e]) == (match e.name {
        Some(n) => if e.body is Gone {
            Seq::empty()
        } else {
            seq![n]
        },
        None => Seq::<Seq<char>>::empty(),
    }) by {
        let s = seq![e];
        assert(s.drop_last() =~= Seq::<Ent>::empty());
        assert(parts::names(s.drop_last()) =~= Seq::<Seq<char>>::empty());
        assert(parts::names(s) =~= (match e.name {
            Some(n) => if e.body is Gone {
                Seq::empty()
            } else {
                seq![n]
            },
            None => Seq::<Seq<char>>::empty(),
        }));
    }
    if b.len() == 0 {
        assert(a + b =~= a);
        assert(parts::names(a) + parts::names(b) =~= parts::names(a));
    } else {
        assert((a + b).drop_last() =~= a + b.drop_last());
        lemma_names_in_order(a, b.drop_last());
        assert(parts::names(a + b) =~= parts::names(a) + parts::names(b));
    }
}

/// The part that is found by a name is the entry whose name is the same but for
/// the case of letters of ASCII; one that was removed is not found.
pub proof fn lemma_found_part_has_the_name(p: Pack, part: Seq<char>)
    ensures
        match parts::place(p, part) {
            Some(i) => {
                &&& 0 <= i < p.entries.len()
                &&& p.entries[i].name matches Some(n) && text::lowered(n) == text::lowered(part)
                &&& !(p.entries[i].body is Gone)
            },
            None => forall|i: int|
                0 <= i < p.entries.len() && (#[trigger] p.entries[i]).name is Some
                    && text::lowered(p.entries[i].name->0) == text::lowered(part) ==> exists|j: int|
                    0 <= j <= i && (#[trigger] p.entries[j]).name is Some && text::lowered(
                        p.entries[j].name->0,
                    ) == text::lowered(part) && p.entries[j].body is Gone,
        },
{
    let key = text::lowered(part);
    package::lemma_key_place(p.entries, key, 0);
    match parts::place_any(p, part) {
        Some(k) => {
            assert(package::has_key(p.entries, k, key));
            if p.entries[k].body is Gone {
                assert forall|i: int|
                    0 <= i < p.entries.len() && (#[trigger] p.entries[i]).name is Some
                        && text::lowered(p.entries[i].name->0) == key implies exists|j: int|
                    0 <= j <= i && (#[trigger] p.entries[j]).name is Some && text::lowered(
                        p.entries[j].name->0,
                    ) == key && p.entries[j].body is Gone by {
                    if i < k {
                        assert(!package::has_key(p.entries, i, key));
                    }
                    assert(p.entries[k].name is Some);
                }
            }
        },
        None => {
            assert forall|i: int|
                0 <= i < p.entries.len() && (#[trigger] p.entries[i]).name is Some && text::lowered(
                    p.entries[i].name->0,
                ) == key implies false by {
                assert(!package::has_key(p.entries, i, key));
            }
        },
    }
}

/// The bytes of a part that was not read yet are those that the archive holds
/// for it; those of one that was added are what was added; those of one that
/// was read as a document and not changed are the source of the document.
pub proof fn lemma_bytes_are_the_content(p: Pack, part: Seq<char>, i: int)
    requires
        parts::place(p, part) == Some(i),
    ensures
        p.entries[i].body is Untouched && p.entries[i].zip is Some ==> match p.records[p.entries[i].zip->0].content {
            Ok(b) => parts::bytes_read(p, part).1 == Ok::<Seq<u8>, Fault>(b),
            Err(_) => parts::bytes_read(p, part).1 is Err,
        },
        p.entries[i].body matches Body::Bytes(b) ==> parts::bytes_read(p, part) == (
            p,
            Ok::<Seq<u8>, Fault>(b),
        ),
        p.entries[i].body matches Body::Tree(d) ==> parts::bytes_read(p, part).0 == p && if d.dirty {
            parts::bytes_read(p, part).1 is Err
        } else {
            parts::bytes_read(p, part).1 == Ok::<Seq<u8>, Fault>(d.src)
        },
{
    package::lemma_key_place(p.entries, text::lowered(part), 0);
}

/// A part that is read as a document is read from its bytes.
pub proof fn lemma_document_is_of_the_bytes(p: Pack, part: Seq<char>)
    ensures
        parts::tree_asked(p, part).fault is None && !(p.entries[parts::place(
            p,
            part,
        )->0].body is Tree) ==> {
            let i = parts::place(p, part)->0;
            let b = parts::bytes_read(p, part).1;
            &&& parts::place(p, part) is Some
            &&& b is Ok
            &&& parts::tree_asked(p, part).pack.entries[i].body matches Body::Tree(d)
                && parse::parsed(b->Ok_0, p.limits) == Ok::<Dom, crate::error::Error>(d)
        },
{
    package::lemma_key_place(p.entries, text::lowered(part), 0);
}

pub open spec fn blank(s: Seq<char>) -> bool {
    forall|k: int| 0 <= k < s.len() ==> text::whitespace(#[trigger] s[k])
}

pub(crate) proof fn lemma_trim_front(w: Seq<char>, b: Seq<char>)
    requires
        blank(w),
        b.len() > 0 ==> !text::whitespace(b[0]),
    ensures
        parts::trim_front(w + b) == b,
    decreases w.len(),
{
    if w.len() > 0 {
        assert(text::whitespace(w[0]));
        assert((w + b)[0] == w[0]);
        assert((w + b).skip(1) =~= w.skip(1) + b);
        assert forall|k: int| 0 <= k < w.skip(1).len() implies text::whitespace(
            #[trigger] w.skip(1)[k],
        ) by {
            assert(w.skip(1)[k] == w[k + 1]);
        }
        lemma_trim_front(w.skip(1), b);
    } else {
        assert(w + b =~= b);
    }
}

pub(crate) proof fn lemma_trim_back(b: Seq<char>, w: Seq<char>)
    requires
        blank(w),
        b.len() > 0 ==> !text::whitespace(b.last()),
    ensures
        parts::trim_back(b + w) == b,
    decreases w.len(),
{
    if w.len() > 0 {
        assert(text::whitespace(w[w.len() - 1]));
        assert((b + w).last() == w.last());
        assert((b + w).drop_last() =~= b + w.drop_last());
        assert forall|k: int| 0 <= k < w.drop_last().len() implies text::whitespace(
            #[trigger] w.drop_last()[k],
        ) by {
            assert(w.drop_last()[k] == w[k]);
        }
        lemma_trim_back(b, w.drop_last());
    } else {
        assert(b + w =~= b);
    }
}

/// A type is one of XML when it is `application/xml` or `text/xml`, in whatever
/// case, or ends with `+xml`. Parameters behind a semicolon, and white space
/// around it, play no part.
pub proof fn lemma_types_of_xml(v: Seq<char>, b: Seq<char>, w: Seq<char>, more: Seq<char>)
    requires
        blank(v),
        blank(w),
        b.len() > 0,
        !text::whitespace(b[0]),
        !text::whitespace(b.last()),
        forall|k: int| 0 <= k < b.len() ==> #[trigger] b[k] != ';',
        more.len() > 0 ==> more[0] == ';',
    ensures
        parts::is_xml(v + b + w + more) == (text::lowered(b) == text::lowered("application/xml"@)
            || text::lowered(b) == text::lowered("text/xml"@) || (b.len() > 4 && b.skip(
            b.len() - 4,
        ) == "+xml"@)),
{
    let ct = v + b + w + more;
    let n = (v + b + w).len() as int;
    text::lemma_find(ct, 0, ';');
    assert forall|k: int| 0 <= k < n implies #[trigger] ct[k] != ';' by {
        if k < v.len() {
            assert(ct[k] == v[k]);
            assert(text::whitespace(v[k]));
        } else if k < v.len() + b.len() {
            assert(ct[k] == b[k - v.len()]);
        } else {
            assert(ct[k] == w[k - v.len() - b.len()]);
            assert(text::whitespace(w[k - v.len() - b.len()]));
        }
    }
    if more.len() > 0 {
        assert(ct[n] == ';');
        assert(text::find(ct, 0, ';') == Some(n)) by {
            let f = text::find(ct, 0, ';');
            if f is None {
                assert(ct[n] != ';');
            } else if f->0 > n {
                assert(ct[n] != ';');
            }
        }
        assert(ct.take(n) =~= v + b + w);
    } else {
        assert(ct =~= v + b + w);
    }
    lemma_trim_back(v + b, w);
    assert((v + b).last() == b.last());
    lemma_trim_front(v, b);
    assert(parts::base_type(ct) == b);
    reveal_strlit("+xml");
}

/// A package opens only when no two of its parts have the same name but for the
/// case of letters.
pub proof fn lemma_opened_names_differ(records: Seq<Rec>, limits: Limits)
    ensures
        package::opened(records, limits) matches Ok(p) ==> forall|i: int, j: int|
            0 <= i < j < p.entries.len() && (#[trigger] p.entries[i]).name is Some && (
            #[trigger] p.entries[j]).name is Some ==> text::lowered(p.entries[i].name->0)
                != text::lowered(p.entries[j].name->0),
{
    if let Ok(p) = package::opened(records, limits) {
        let s = package::entries_from(records, 0)->Ok_0;
        package::lemma_entries_from(records, 0);
        package::lemma_types_place(records, records.len() as int);
        assert forall|i: int, j: int|
            0 <= i < j < p.entries.len() && (#[trigger] p.entries[i]).name is Some && (
            #[trigger] p.entries[j]).name is Some implies text::lowered(p.entries[i].name->0)
            != text::lowered(p.entries[j].name->0) by {
            let key = text::lowered(p.entries[i].name->0);
            if key == text::lowered(p.entries[j].name->0) {
                assert(p.entries[i].name == s[i].name);
                assert(p.entries[j].name == s[j].name);
                assert(package::has_key(s, i, key));
                assert(package::has_key(s, j, key));
                assert(package::twice(s, key, s.len() as int));
            }
        }
    }
}

/// A record of an archive holds the types: its name is `[Content_Types].xml`, in
/// whatever case.
pub open spec fn has_types(r: Rec) -> bool {
    text::lowered(r.name) == text::lowered("[Content_Types].xml"@)
}

proof fn lemma_last_types(records: Seq<Rec>, k: int)
    requires
        0 <= k <= records.len(),
    ensures
        match package::types_place(records, k) {
            Some(i) => 0 <= i < k && has_types(records[i]) && forall|j: int|
                i < j < k ==> !has_types(#[trigger] records[j]),
            None => forall|j: int| 0 <= j < k ==> !has_types(#[trigger] records[j]),
        },
    decreases k,
{
    if k > 0 && !has_types(records[k - 1]) {
        lemma_last_types(records, k - 1);
    }
}

/// The entries of a package that was opened are those of the archive: a part for
/// each, called like the entry with a slash before, but for directories and the
/// types. The types are read from the last entry that is called so.
pub proof fn lemma_opened_entries(records: Seq<Rec>, limits: Limits)
    ensures
        package::opened(records, limits) matches Ok(p) ==> {
            &&& p.entries.len() == records.len()
            &&& forall|k: int|
                0 <= k < records.len() ==> (#[trigger] p.entries[k]).name == if records[k].dir
                    || has_types(records[k]) {
                    None
                } else {
                    Some(seq!['/'] + records[k].name)
                }
            &&& 0 <= p.ct_at < records.len()
            &&& has_types(records[p.ct_at])
            &&& forall|j: int| p.ct_at < j < records.len() ==> !has_types(#[trigger] records[j])
            &&& p.entries[p.ct_at].body matches Body::Tree(d) && records[p.ct_at].content is Ok
                && parse::parsed(records[p.ct_at].content->Ok_0, limits) == Ok::<
                Dom,
                crate::error::Error,
            >(d) && content_types::types_of(d) == Ok::<Types, Fault>(p.types)
        },
{
    if let Ok(p) = package::opened(records, limits) {
        lemma_last_types(records, records.len() as int);
        lemma_entry_names(records, 0);
        let s = package::entries_from(records, 0)->Ok_0;
        assert forall|k: int| 0 <= k < records.len() implies (#[trigger] p.entries[k]).name == if records[k].dir
            || has_types(records[k]) {
            None
        } else {
            Some(seq!['/'] + records[k].name)
        } by {
            assert(p.entries[k].name == s[k].name);
        }
    }
}

proof fn lemma_entry_names(records: Seq<Rec>, k: int)
    requires
        0 <= k <= records.len(),
    ensures
        package::entries_from(records, k) matches Ok(s) ==> s.len() == records.len() - k
            && forall|i: int|
            0 <= i < s.len() ==> (#[trigger] s[i]).name == if records[k + i].dir || has_types(
                records[k + i],
            ) {
                None
            } else {
                Some(seq!['/'] + records[k + i].name)
            },
    decreases records.len() - k,
{
    if k < records.len() {
        lemma_entry_names(records, k + 1);
        if let Ok(s) = package::entries_from(records, k) {
            let rest = package::entries_from(records, k + 1)->Ok_0;
            assert forall|i: int| 0 <= i < s.len() implies (#[trigger] s[i]).name == if records[k
                + i].dir || has_types(records[k + i]) {
                None
            } else {
                Some(seq!['/'] + records[k + i].name)
            } by {
                if i > 0 {
                    assert(s[i] == rest[i - 1]);
                }
            }
        }
    }
}

/// When a part is removed its relationships go with it.
pub proof fn lemma_relationships_go_with_the_part(p: Pack, part: Seq<char>)
    requires
        0 <= p.ct_at < p.entries.len(),
        p.entries[p.ct_at].name is None,
        assembly::part_removed(p, part).fault is None,
    ensures
        partname::rels_of(part) matches Ok(rp) ==> parts::place(
            assembly::part_removed(p, part).pack,
            rp,
        ) is None,
{
    if let Ok(rp) = partname::rels_of(part) {
        let key = text::lowered(rp);
        let i = parts::place(p, part)->0;
        package::lemma_key_place(p.entries, text::lowered(part), 0);
        let a = assembly::dropped(p, i, part).pack;
        package::lemma_key_place(a.entries, key, 0);
        let b = match parts::place(a, rp) {
            Some(j) => assembly::dropped(a, j, rp).pack,
            None => a,
        };
        laws::lemma_all_swept_keeps(b, 0, part);
        let q = assembly::part_removed(p, part).pack;
        assert(q == assembly::all_swept(b, 0, part).pack);
        assert forall|k: int| 0 <= k < a.entries.len() implies (#[trigger] q.entries[k]).name
            == a.entries[k].name by {
            assert(b.entries[k].name == a.entries[k].name);
        }
        laws::lemma_same_key_place(a.entries, q.entries, key, 0);
        if let Some(j) = parts::place_any(a, rp) {
            assert(a.entries[j].name is Some);
            assert(a.entries[p.ct_at].name is None);
            assert(b.entries[j].body is Gone);
            assert(q.entries[j].body is Gone);
        }
    }
}

/// Removing the relationship with an identifier takes out the first one that
/// has it, with its element, and keeps the others in their order. Where none has
/// it, or the element cannot be cut off, nothing changes.
pub proof fn lemma_one_link_is_removed(b: rels::Book, d: Dom, id: Seq<char>)
    ensures
        ({
            let c = rels::link_removed(b, d, id);
            match c.done {
                Ok(true) => exists|k: int|
                    {
                        &&& 0 <= k < b.links.len()
                        &&& (#[trigger] b.links[k]).id == id
                        &&& forall|j: int| 0 <= j < k ==> (#[trigger] b.links[j]).id != id
                        &&& c.book.links == b.links.take(k) + b.links.skip(k + 1)
                        &&& edit::node_removed(d, b.links[k].node) == Ok::<Dom, Error>(c.doc)
                    },
                Ok(false) => c.book == b && c.doc == d && forall|j: int|
                    0 <= j < b.links.len() ==> (#[trigger] b.links[j]).id != id,
                Err(_) => c.book == b && c.doc == d && exists|j: int|
                    0 <= j < b.links.len() && (#[trigger] b.links[j]).id == id,
            }
        }),
        rels::link_removed(b, d, id).book.owner == b.owner,
{
    lemma_found_link_is_first(b.links, id);
    if let Some(k) = rels::link_place(b.links, id, 0) {
        assert(b.links[k].id == id);
        assert(b.links.remove(k) =~= b.links.take(k) + b.links.skip(k + 1));
    }
}

/// Removing the type of a part by its name takes out the first one that is
/// declared for the name, in any case of its letters, with its element, and keeps
/// the others and all types by extension. Where none is declared, or the element
/// cannot be cut off, nothing changes.
pub proof fn lemma_one_type_is_removed(t: Types, d: Dom, part: Seq<char>)
    ensures
        ({
            let c = content_types::override_removed(t, d, part);
            let key = text::lowered(part);
            &&& c.types.defaults == t.defaults && c.types.root == t.root && c.types.prefix
                == t.prefix
            &&& match c.done {
                Ok(true) => exists|k: int|
                    {
                        &&& 0 <= k < t.overrides.len()
                        &&& (#[trigger] t.overrides[k]).key == key
                        &&& forall|j: int| 0 <= j < k ==> (#[trigger] t.overrides[j]).key != key
                        &&& c.types.overrides == t.overrides.take(k) + t.overrides.skip(k + 1)
                        &&& edit::node_removed(d, t.overrides[k].node) == Ok::<Dom, Error>(c.doc)
                    },
                Ok(false) => c.types == t && c.doc == d && forall|j: int|
                    0 <= j < t.overrides.len() ==> (#[trigger] t.overrides[j]).key != key,
                Err(_) => c.types == t && c.doc == d && exists|j: int|
                    0 <= j < t.overrides.len() && (#[trigger] t.overrides[j]).key == key,
            }
        }),
{
    let key = text::lowered(part);
    lemma_override_place(t.overrides, key, 0);
    if let Some(k) = content_types::override_place(t.overrides, key, 0) {
        assert(t.overrides[k].key == key);
        assert(t.overrides.remove(k) =~= t.overrides.take(k) + t.overrides.skip(k + 1));
    }
}

} // verus!
