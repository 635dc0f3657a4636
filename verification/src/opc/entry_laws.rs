//! What is read of an entry that was added to a table.
use vstd::prelude::*;
use vstd::string::*;
use vstd::utf8::{encode_utf8, encode_utf8_decode_utf8};

use crate::dom::change;
use crate::dom::edit;
use crate::dom::graft_laws;
use crate::dom::laws;
use crate::dom::model;
use crate::dom::model::Dom;
use crate::dom::query;
use crate::error::Error;
use crate::opc::assembly;
use crate::opc::content_types;
use crate::opc::content_types::{ByName, Types};
use crate::opc::fault::Fault;
use crate::opc::laws as opc_laws;
use crate::opc::package;
use crate::opc::package::{Body, Pack};
use crate::opc::partname;
use crate::opc::parts;
use crate::opc::rels;
use crate::opc::rels::{Book, Link, TargetMode};
use crate::opc::table;
use crate::opc::table::FieldText;
use crate::text;
use crate::xml::name;

verus! {

/// An attribute of new bytes has a name and a value.
spec fn says(d: Dom, n: int, x: int, f: FieldText) -> bool {
    let a = d.attrs_of(n)[x];
    &&& a.flags.marks == 7
    &&& d.inside(a.name, true)
    &&& d.inside(a.value, true)
    &&& d.piece(a.name, true) == encode_utf8(f.name)
    &&& query::bytes_read(d.piece(a.value, true), true) == Ok::<Seq<char>, Error>(f.value)
}

/// An element of new bytes has a name, and attributes that say the fields.
spec fn made(d: Dom, n: int, q: Seq<u8>, list: Seq<FieldText>) -> bool {
    let e = d.elem(n);
    &&& d.is_element(n)
    &&& d.nodes[n].aux < d.elements.len()
    &&& d.arena.len() <= u32::MAX
    &&& e.flags.marks == 1
    &&& d.inside(e.qname, true)
    &&& d.inside(e.local, true)
    &&& d.piece(e.qname, true) == q
    &&& d.piece(e.local, true) == name::local(q)
    &&& e.attrs_from + e.attrs_len <= d.attrs.len()
    &&& e.attrs_len == list.len()
    &&& forall|x: int| 0 <= x < list.len() ==> says(d, n, x, #[trigger] list[x])
}

/// Two documents have the same nodes before `n`, linked alike.
spec fn before_same(d: Dom, e: Dom, n: int) -> bool {
    &&& d.nodes.len() >= n && e.nodes.len() >= n
    &&& forall|x: int|
        0 <= x < n ==> (#[trigger] e.nodes[x]).kind == d.nodes[x].kind && e.nodes[x].aux
            == d.nodes[x].aux
}

proof fn lemma_field_step(d: Dom, n: int, q: Seq<u8>, list: Seq<FieldText>, f: FieldText)
    requires
        made(d, n, q, list),
        forall|x: int|
            0 <= x < list.len() ==> encode_utf8((#[trigger] list[x]).name) != encode_utf8(f.name),
    ensures
        edit::attr_set(d, n, f.name, f.value) matches Ok(e) ==> {
            &&& made(e, n, q, list.push(f))
            &&& before_same(d, e, n)
            &&& e.nodes.len() == d.nodes.len()
            &&& e.nodes[n].aux == d.nodes[n].aux
            &&& e.links == d.links
            &&& e.root == d.root
        },
{
    if let Ok(e) = edit::attr_set(d, n, f.name, f.value) {
        let nb = encode_utf8(f.name);
        let s = d.attrs_of(n);
        let all = list.push(f);
        edit::lemma_value_marks(0);
        laws::lemma_raw_place(d, s, nb, 0);
        assert forall|x: int| 0 <= x < s.len() implies query::attr_name(d, #[trigger] s[x])
            != nb by {
            assert(says(d, n, x, list[x]));
        }
        assert(query::raw_place(d, s, nb, 0) is None);
        let b = edit::value_bytes(f.value, Some('"'));
        let new = edit::new_attr(d, nb, b);
        let more = s.push(new);
        let d2 = change::arena_grown(change::arena_grown(d, nb), b);
        let g = change::attrs_moved(d2, n, more);
        laws::lemma_marked_frame(g, n);
        assert(e == change::marked(g, n));
        let t = e.attrs_of(n);
        assert(t =~= more);
        assert(e.arena == d.arena + nb + b);
        assert(laws::holds_bytes(d, e)) by {
            assert(e.arena.take(d.arena.len() as int) =~= d.arena);
        }
        laws::lemma_same_piece(d, e, d.elem(n).qname, true);
        laws::lemma_same_piece(d, e, d.elem(n).local, true);
        laws::lemma_value_reads(f.value, Some('"'));
        assert forall|x: int| 0 <= x < all.len() implies says(e, n, x, #[trigger] all[x]) by {
            if x < list.len() {
                assert(says(d, n, x, list[x]));
                assert(all[x] == list[x]);
                laws::lemma_same_piece(d, e, s[x].name, true);
                laws::lemma_same_piece(d, e, s[x].value, true);
            } else {
                assert(t[x] == new);
                assert(e.piece(new.name, true) =~= nb);
                assert(e.piece(new.value, true) =~= b);
            }
        }
    }
}

/// No two fields have one name.
pub open spec fn fields_differ(list: Seq<FieldText>) -> bool {
    forall|x: int, y: int|
        0 <= x < y < list.len() ==> encode_utf8((#[trigger] list[x]).name) != encode_utf8(
            (#[trigger] list[y]).name,
        )
}

proof fn lemma_fields_step(d: Dom, n: int, q: Seq<u8>, list: Seq<FieldText>, k: int)
    requires
        0 <= k <= list.len(),
        made(d, n, q, list.take(k)),
        fields_differ(list),
    ensures
        ({
            let o = table::fields_set(d, n, list, k);
            o.fault is None ==> {
                &&& made(o.doc, n, q, list)
                &&& before_same(d, o.doc, n)
                &&& o.doc.nodes.len() == d.nodes.len()
                &&& o.doc.nodes[n].aux == d.nodes[n].aux
                &&& o.doc.links == d.links
                &&& o.doc.root == d.root
            }
        }),
    decreases list.len() - k,
{
    if k < list.len() {
        let part = list.take(k);
        assert forall|x: int| 0 <= x < part.len() implies encode_utf8((#[trigger] part[x]).name)
            != encode_utf8(list[k].name) by {
            assert(part[x] == list[x]);
        }
        lemma_field_step(d, n, q, part, list[k]);
        if let Ok(e) = edit::attr_set(d, n, list[k].name, list[k].value) {
            assert(part.push(list[k]) =~= list.take(k + 1));
            lemma_fields_step(e, n, q, list, k + 1);
        }
    } else {
        assert(list.take(k) =~= list);
    }
}

/// A name without a prefix.
pub open spec fn plain(s: Seq<char>) -> bool {
    name::find(encode_utf8(s), 0, 58) is None
}

proof fn lemma_place_of_field(d: Dom, n: int, q: Seq<u8>, list: Seq<FieldText>, w: Seq<char>, k: int)
    requires
        made(d, n, q, list),
        0 <= k <= list.len(),
        forall|x: int| 0 <= x < list.len() ==> plain((#[trigger] list[x]).name),
    ensures
        match query::attr_place(d, n, None, w, k) {
            Some(x) => k <= x < list.len() && encode_utf8(list[x].name) == encode_utf8(w),
            None => forall|x: int|
                k <= x < list.len() ==> encode_utf8((#[trigger] list[x]).name) != encode_utf8(w),
        },
    decreases list.len() - k,
{
    if k < list.len() {
        let a = d.attrs_of(n)[k];
        edit::lemma_value_marks(0);
        assert(says(d, n, k, list[k]));
        assert(plain(list[k].name));
        assert(query::attr_name(d, a) == encode_utf8(list[k].name));
        assert(query::attr_is(d, n, a, None, w) == (encode_utf8(list[k].name) == encode_utf8(w)));
        if !query::attr_is(d, n, a, None, w) {
            lemma_place_of_field(d, n, q, list, w, k + 1);
        }
    }
}

/// An entry that was added to a table is the last child of the table, an element
/// of the name, and its attributes read as the fields that it was added with; it
/// has no other attributes without a prefix.
pub proof fn lemma_added_entry_reads_back(
    d: Dom,
    root: int,
    q: Seq<char>,
    list: Seq<FieldText>,
)
    requires
        model::wf(d),
        d.has_node(root),
        fields_differ(list),
        forall|x: int| 0 <= x < list.len() ==> plain((#[trigger] list[x]).name),
    ensures
        ({
            let o = table::entry_added(d, root, q, list);
            let n = d.nodes.len() as int;
            o.fault is None ==> {
                &&& o.doc.kids(root) == d.kids(root) + seq![n]
                &&& o.doc.is_element(n)
                &&& query::qname_of(o.doc, n) == encode_utf8(q)
                &&& query::local_name_of(o.doc, n) == name::local(encode_utf8(q))
                &&& forall|x: int|
                    0 <= x < list.len() ==> query::attr_read(
                        o.doc,
                        n,
                        None,
                        (#[trigger] list[x]).name,
                    ) == Some(list[x].value)
                &&& forall|w: Seq<char>|
                    (forall|x: int|
                        0 <= x < list.len() ==> encode_utf8((#[trigger] list[x]).name)
                            != encode_utf8(w)) ==> #[trigger] query::attr_read(o.doc, n, None, w)
                        is None
            }
        }),
{
    let n = d.nodes.len() as int;
    let qb = encode_utf8(q);
    if let Ok(e) = edit::element_added(d, q) {
        graft_laws::lemma_new_element_is_bare(d, q);
        edit::lemma_value_marks(0);
        assert(1u8 & 1u8 != 0) by (bit_vector);
        name::lemma_find(qb, 0, 58);
        assert(e.piece(e.elem(n).qname, true) == query::qname_of(e, n));
        assert(e.piece(e.elem(n).local, true) == query::local_name_of(e, n));
        assert(made(e, n, qb, list.take(0)));
        assert(before_same(d, e, n)) by {
            assert forall|x: int| 0 <= x < n implies (#[trigger] e.nodes[x]).kind == d.nodes[x].kind
                && e.nodes[x].aux == d.nodes[x].aux by {
                assert(e.nodes.take(n)[x] == e.nodes[x]);
            }
        }
        lemma_fields_step(e, n, qb, list, 0);
        let o = table::fields_set(e, n, list, 0);
        if o.fault is None {
            let m = o.doc;
            if let Ok(f) = edit::child_appended(m, root, n) {
                assert(model::node_ok(d, root));
                assert(m.nodes[root].kind == e.nodes[root].kind);
                assert(e.nodes[root].kind == d.nodes[root].kind);
                assert(f.attrs == m.attrs && f.arena == m.arena && f.src == m.src);
                assert(f.nodes[n].kind == m.nodes[n].kind && f.nodes[n].aux == m.nodes[n].aux);
                assert(f.elem(n) == m.elem(n));
                assert(f.attrs_of(n) == m.attrs_of(n));
                assert(made(f, n, qb, list)) by {
                    assert forall|x: int| 0 <= x < list.len() implies says(
                        f,
                        n,
                        x,
                        #[trigger] list[x],
                    ) by {
                        assert(says(m, n, x, list[x]));
                    }
                }
                assert(graft_laws::hangs_same(d, e, root));
                assert(f.kids(root) =~= d.kids(root) + seq![n]);
                lemma_made_reads(f, n, qb, list);
            }
        }
    }
}

proof fn lemma_made_reads(f: Dom, n: int, q: Seq<u8>, list: Seq<FieldText>)
    requires
        made(f, n, q, list),
        fields_differ(list),
        forall|x: int| 0 <= x < list.len() ==> plain((#[trigger] list[x]).name),
    ensures
        query::qname_of(f, n) == q,
        query::local_name_of(f, n) == name::local(q),
        forall|x: int|
            0 <= x < list.len() ==> query::attr_read(f, n, None, (#[trigger] list[x]).name) == Some(
                list[x].value,
            ),
        forall|w: Seq<char>|
            (forall|x: int|
                0 <= x < list.len() ==> encode_utf8((#[trigger] list[x]).name) != encode_utf8(w))
                ==> #[trigger] query::attr_read(f, n, None, w) is None,
{
    assert(1u8 & 1u8 != 0) by (bit_vector);
    edit::lemma_value_marks(0);
    assert forall|x: int| 0 <= x < list.len() implies query::attr_read(
        f,
        n,
        None,
        (#[trigger] list[x]).name,
    ) == Some(list[x].value) by {
        lemma_place_of_field(f, n, q, list, list[x].name, 0);
        let k = query::attr_place(f, n, None, list[x].name, 0)->0;
        if k < x {
            assert(encode_utf8(list[k].name) != encode_utf8(list[x].name));
        } else if k > x {
            assert(encode_utf8(list[x].name) != encode_utf8(list[k].name));
        }
        assert(says(f, n, x, list[x]));
    }
    assert forall|w: Seq<char>|
        (forall|x: int|
            0 <= x < list.len() ==> encode_utf8((#[trigger] list[x]).name) != encode_utf8(
                w,
            )) implies #[trigger] query::attr_read(f, n, None, w) is None by {
        lemma_place_of_field(f, n, q, list, w, 0);
    }
}

proof fn lemma_encoded_concat(a: Seq<char>, b: Seq<char>)
    ensures
        encode_utf8(a + b) == encode_utf8(a) + encode_utf8(b),
    decreases a.len(),
{
    if a.len() == 0 {
        assert(a + b =~= b);
        assert(encode_utf8(a) + encode_utf8(b) =~= encode_utf8(b));
    } else {
        lemma_encoded_concat(a.drop_first(), b);
        assert((a + b).drop_first() =~= a.drop_first() + b);
        assert(encode_utf8(a + b) =~= encode_utf8(a) + encode_utf8(b));
    }
}

/// Letters of ASCII alone.
spec fn lettered(s: Seq<char>) -> bool {
    forall|k: int| 0 <= k < s.len() ==> 'A' <= #[trigger] s[k] <= 'z'
}

proof fn lemma_lettered(s: Seq<char>)
    requires
        lettered(s),
    ensures
        forall|j: int| 0 <= j < encode_utf8(s).len() ==> #[trigger] encode_utf8(s)[j] != 58,
        plain(s),
    decreases s.len(),
{
    if s.len() > 0 {
        let c = s[0] as u32;
        assert('A' <= s[0] <= 'z');
        assert(65 <= c <= 122);
        assert((c & 0x7F) as u8 != 58u8) by (bit_vector)
            requires
                65 <= c <= 122,
        ;
        let rest = s.drop_first();
        assert forall|k: int| 0 <= k < rest.len() implies 'A' <= #[trigger] rest[k] <= 'z' by {
            assert(rest[k] == s[k + 1]);
        }
        lemma_lettered(rest);
        assert(encode_utf8(s) == seq![(c & 0x7F) as u8] + encode_utf8(rest));
    }
    name::lemma_find(encode_utf8(s), 0, 58);
}

/// The prefix of a name with its colon, or nothing.
pub open spec fn is_prefix(p: Seq<char>) -> bool {
    p.len() == 0 || (p.last() == ':' && plain(p.drop_last()))
}

proof fn lemma_local_behind(p: Seq<char>, w: Seq<char>)
    requires
        is_prefix(p),
        plain(w),
    ensures
        name::local(encode_utf8(p + w)) == encode_utf8(w),
{
    let e = encode_utf8(w);
    if p.len() == 0 {
        assert(p + w =~= w);
    } else {
        let a = p.drop_last();
        let x = encode_utf8(a);
        let c = seq![':'];
        assert(p =~= a + c);
        lemma_encoded_concat(a, c);
        lemma_encoded_concat(p, w);
        assert(encode_utf8(c) =~= seq![58u8]) by {
            assert(c.drop_first() =~= Seq::<char>::empty());
            reveal_with_fuel(encode_utf8, 2);
            assert((58u32 & 0x7Fu32) as u8 == 58u8) by (bit_vector);
        }
        let all = x + seq![58u8] + e;
        assert(encode_utf8(p + w) == all);
        name::lemma_find(x, 0, 58);
        name::lemma_find(all, 0, 58);
        let k = x.len() as int;
        assert(all[k] == 58);
        let f = name::find(all, 0, 58);
        assert(f == Some(k)) by {
            if f is None {
                assert(all[k] != 58);
            } else if f->0 > k {
                assert(all[k] != 58);
            } else if f->0 < k {
                assert(all[f->0] == x[f->0]);
                assert(x[f->0] != 58);
            }
        }
        assert(all.skip(k + 1) =~= e);
    }
}

proof fn lemma_apart(a: Seq<char>, b: Seq<char>)
    requires
        a != b,
    ensures
        encode_utf8(a) != encode_utf8(b),
{
    encode_utf8_decode_utf8(a);
    encode_utf8_decode_utf8(b);
}

proof fn lemma_link_names()
    ensures
        plain("Id"@),
        plain("Type"@),
        plain("Target"@),
        plain("TargetMode"@),
        plain("Relationship"@),
        encode_utf8("Id"@) != encode_utf8("Type"@),
        encode_utf8("Id"@) != encode_utf8("Target"@),
        encode_utf8("Id"@) != encode_utf8("TargetMode"@),
        encode_utf8("Type"@) != encode_utf8("Target"@),
        encode_utf8("Type"@) != encode_utf8("TargetMode"@),
        encode_utf8("Target"@) != encode_utf8("TargetMode"@),
{
    reveal_strlit("Id");
    reveal_strlit("Type");
    reveal_strlit("Target");
    reveal_strlit("TargetMode");
    reveal_strlit("Relationship");
    lemma_lettered("Id"@);
    lemma_lettered("Type"@);
    lemma_lettered("Target"@);
    lemma_lettered("TargetMode"@);
    lemma_lettered("Relationship"@);
    lemma_apart("Id"@, "Type"@);
    lemma_apart("Id"@, "Target"@);
    lemma_apart("Id"@, "TargetMode"@);
    lemma_apart("Type"@, "Target"@);
    lemma_apart("Type"@, "TargetMode"@);
    lemma_apart("Target"@, "TargetMode"@);
}

proof fn lemma_link_fields(
    id: Seq<char>,
    rel_type: Seq<char>,
    target: Seq<char>,
    mode: TargetMode,
)
    ensures
        ({
            let list = rels::link_fields(id, rel_type, target, mode);
            &&& list.len() == if mode is External {
                4int
            } else {
                3
            }
            &&& list[0].name == "Id"@ && list[1].name == "Type"@ && list[2].name == "Target"@
            &&& list[0].value == id && list[1].value == rel_type && list[2].value == target
            &&& mode is External ==> list[3].name == "TargetMode"@ && list[3].value == "External"@
            &&& fields_differ(list)
            &&& forall|x: int| 0 <= x < list.len() ==> plain((#[trigger] list[x]).name)
            &&& mode is Internal ==> forall|x: int|
                0 <= x < list.len() ==> encode_utf8((#[trigger] list[x]).name) != encode_utf8(
                    "TargetMode"@,
                )
        }),
        plain("Relationship"@),
{
    lemma_link_names();
}

/// The element that is written for a new relationship reads as that
/// relationship, and it comes behind all others: a reader of the document finds
/// what was added, and so does the one who added it.
pub proof fn lemma_new_relationship_reads_back(
    b: Book,
    d: Dom,
    rel_type: Seq<char>,
    target: Seq<char>,
    mode: TargetMode,
    c: Book,
)
    requires
        model::wf(d),
        d.has_node(b.root),
        is_prefix(b.prefix),
    ensures
        ({
            let m = rels::link_made(b, d, rel_type, target, mode);
            let n = d.nodes.len() as int;
            m.done matches Ok(id) ==> {
                let l = Link { id, rel_type, target, mode, node: n };
                &&& m.book.links == b.links + seq![l]
                &&& m.doc.kids(b.root) == d.kids(b.root) + seq![n]
                &&& rels::link_added(m.doc, c, n) == Ok::<Book, Fault>(
                    Book { links: c.links.push(l), ..c },
                )
            }
        }),
{
    let m = rels::link_made(b, d, rel_type, target, mode);
    let n = d.nodes.len() as int;
    let id = rels::fresh_id(b.links);
    let list = rels::link_fields(id, rel_type, target, mode);
    lemma_link_fields(id, rel_type, target, mode);
    lemma_local_behind(b.prefix, "Relationship"@);
    lemma_added_entry_reads_back(d, b.root, b.prefix + "Relationship"@, list);
    if let Ok(x) = m.done {
        let l = Link { id, rel_type, target, mode, node: n };
        assert(m.book.links =~= b.links + seq![l]);
        assert(content_types::field(m.doc, n, list[0].name) == Some(id));
        assert(content_types::field(m.doc, n, list[1].name) == Some(rel_type));
        assert(content_types::field(m.doc, n, list[2].name) == Some(target));
        if mode is External {
            assert(content_types::field(m.doc, n, list[3].name) == Some("External"@));
        } else {
            assert(content_types::field(m.doc, n, "TargetMode"@) is None);
        }
        assert(rels::mode_of(content_types::field(m.doc, n, "TargetMode"@)) == Some(mode));
    }
}

/// The element that is written for the type of a part that had none by its name
/// reads as that type, and it comes behind all others.
pub proof fn lemma_new_type_reads_back(
    t: Types,
    d: Dom,
    part: Seq<char>,
    ct: Seq<char>,
    u: Types,
)
    requires
        model::wf(d),
        d.has_node(t.root),
        is_prefix(t.prefix),
        content_types::override_place(t.overrides, text::lowered(part), 0) is None,
    ensures
        ({
            let m = content_types::ensured(t, d, part, ct);
            let n = d.nodes.len() as int;
            m.done == Ok::<bool, Error>(true) ==> {
                let o = ByName { key: text::lowered(part), content_type: ct, node: n };
                &&& m.types.overrides == t.overrides + seq![o]
                &&& m.doc.kids(t.root) == d.kids(t.root) + seq![n]
                &&& content_types::type_added(m.doc, u, n) == Ok::<Types, Fault>(
                    Types { overrides: u.overrides.push(o), ..u },
                )
            }
        }),
{
    let m = content_types::ensured(t, d, part, ct);
    let n = d.nodes.len() as int;
    let list = content_types::override_fields(part, ct);
    reveal_strlit("PartName");
    reveal_strlit("ContentType");
    reveal_strlit("Override");
    reveal_strlit("Default");
    lemma_lettered("PartName"@);
    lemma_lettered("ContentType"@);
    lemma_lettered("Override"@);
    lemma_apart("PartName"@, "ContentType"@);
    assert("Override"@[0] != "Default"@[0]);
    lemma_apart("Override"@, "Default"@);
    lemma_local_behind(t.prefix, "Override"@);
    assert(list[0].name == "PartName"@ && list[1].name == "ContentType"@);
    assert(list[0].value == part && list[1].value == ct);
    assert(fields_differ(list));
    lemma_added_entry_reads_back(d, t.root, t.prefix + "Override"@, list);
    if m.done == Ok::<bool, Error>(true) {
        let o = ByName { key: text::lowered(part), content_type: ct, node: n };
        assert(m.types.overrides =~= t.overrides + seq![o]);
        assert(content_types::field(m.doc, n, list[0].name) == Some(part));
        assert(content_types::field(m.doc, n, list[1].name) == Some(ct));
    }
}

/// A relationship that was added to a package is among those of its owner, which
/// is a part of the package or the package itself, under the identifier that was
/// handed out. Where the owner had relationships before, no other entry changes.
pub proof fn lemma_relationship_is_there(
    p: Pack,
    owner: Seq<char>,
    rel_type: Seq<char>,
    target: Seq<char>,
    mode: TargetMode,
)
    ensures
        ({
            let (q, r) = assembly::relationship_added(p, owner, rel_type, target, mode);
            r matches Ok(id) ==> {
                let rp = partname::rels_text(owner);
                let i = parts::place(q, rp)->0;
                let b = q.entries[i].rels->0;
                let k = rels::link_place(b.links, id, 0)->0;
                &&& owner == seq!['/'] || parts::place(p, owner) is Some
                &&& parts::place(q, rp) is Some
                &&& q.entries[i].body is Tree
                &&& q.entries[i].rels is Some
                &&& rels::link_place(b.links, id, 0) is Some
                &&& b.links[k].rel_type == rel_type && b.links[k].target == target
                    && b.links[k].mode == mode
                &&& parts::place(p, rp) is Some ==> parts::place(p, rp) == Some(i)
                    && q.entries.len() == p.entries.len() && forall|j: int|
                    0 <= j < p.entries.len() && j != i ==> #[trigger] q.entries[j] == p.entries[j]
            }
        }),
{
    let (q, r) = assembly::relationship_added(p, owner, rel_type, target, mode);
    if let Ok(id) = r {
        let rp = partname::rels_text(owner);
        let a = if parts::place(p, rp) is Some {
            parts::went(p)
        } else {
            assembly::part_added(p, rp, assembly::empty_rels(), package::RELS_CONTENT_TYPE@)
        };
        let key = text::lowered(rp);
        let i = parts::place(a.pack, rp)->0;
        package::lemma_key_place(a.pack.entries, key, 0);
        let s = parts::related(a.pack, i, owner).pack;
        let e = s.entries[i];
        assert(s.entries.len() == a.pack.entries.len());
        assert forall|j: int| 0 <= j < s.entries.len() implies (#[trigger] q.entries[j]).name
            == a.pack.entries[j].name by {}
        opc_laws::lemma_same_key_place(a.pack.entries, q.entries, key, 0);
        if let (Body::Tree(d), Some(b)) = (e.body, e.rels) {
            opc_laws::lemma_added_is_found(b, d, rel_type, target, mode);
        }
    }
}

} // verus!
