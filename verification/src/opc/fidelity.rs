//! What saving keeps of an archive.
use vstd::prelude::*;

use crate::dom::edit;
use crate::dom::laws as dom_laws;
use crate::dom::model::Dom;
use crate::dom::parse;
use crate::dom::serialize;
use crate::error::Error;
use crate::limits::Limits;
use crate::opc::archive::{Rec, Write};
use crate::opc::assembly;
use crate::opc::content_types;
use crate::opc::fault::Fault;
use crate::opc::laws;
use crate::opc::package;
use crate::opc::package::{Body, Ent, Pack};
use crate::opc::partname;
use crate::opc::parts;
use crate::opc::rels;
use crate::opc::rels::{Book, Link, TargetMode};
use crate::opc::save;
use crate::text;

verus! {

/// An entry of the archive that nobody read is copied. So is one that was
/// unpacked, and one that was read as a document and not changed.
pub proof fn lemma_unchanged_is_copied(records: Seq<Rec>, e: Ent, z: int)
    requires
        e.zip == Some(z),
        !e.added,
        match e.body {
            Body::Untouched => true,
            Body::Bytes(_) => true,
            Body::Tree(d) => !d.dirty,
            _ => false,
        },
    ensures
        save::write_of(records, e) == Ok::<Option<Write>, Fault>(
            Some(Write::Verbatim { index: z }),
        ),
{
}

/// An entry that is written as what stands in the archive is copied, be it that
/// a document was changed and changed back, or that a part was removed and added
/// again.
pub proof fn lemma_restored_is_copied(records: Seq<Rec>, e: Ent, z: int, was: Seq<u8>)
    requires
        e.zip == Some(z),
        records[z].content == Ok::<Seq<u8>, Error>(was),
        match e.body {
            Body::Bytes(b) => b == was,
            Body::Tree(d) => serialize::written(d, d.root, 0) == Some(was),
            _ => false,
        },
    ensures
        save::write_of(records, e) == Ok::<Option<Write>, Fault>(
            Some(Write::Verbatim { index: z }),
        ),
{
}

/// An entry is replaced only with other content than it had.
pub proof fn lemma_replaced_is_other(records: Seq<Rec>, e: Ent)
    ensures
        match save::write_of(records, e) {
            Ok(Some(Write::Replace { index, data, level: _ })) => records[index].content != Ok::<
                Seq<u8>,
                Error,
            >(data),
            _ => true,
        },
{
}

/// The content of an entry was added, and was not changed since.
pub open spec fn holds_added(e: Ent, data: Seq<u8>) -> bool {
    e.added && match e.body {
        Body::Bytes(b) => b == data,
        Body::Tree(d) => !d.dirty && serialize::written(d, d.root, 0) == Some(data),
        _ => false,
    }
}

/// What is written for an entry has a content.
pub open spec fn writes_content(records: Seq<Rec>, e: Ent, data: Seq<u8>) -> bool {
    match save::write_of(records, e) {
        Ok(Some(Write::New { name: _, data: b, level: _, dos: _, external_attrs: _ })) => b == data,
        Ok(Some(Write::Replace { index: _, data: b, level: _ })) => b == data,
        Ok(Some(Write::Verbatim { index })) => records[index].content == Ok::<Seq<u8>, Error>(data),
        _ => false,
    }
}

/// Reading any entry, in any way, changes nothing of a content that was added.
pub proof fn lemma_reading_keeps_added(p: Pack, i: int, data: Seq<u8>, j: int, owner: Seq<char>)
    requires
        0 <= i < p.entries.len(),
        0 <= j < p.entries.len(),
        holds_added(p.entries[i], data),
    ensures
        holds_added(parts::materialized(p, j).pack.entries[i], data),
        holds_added(parts::treed(p, j).pack.entries[i], data),
        holds_added(parts::related(p, j, owner).pack.entries[i], data),
{
    dom_laws::lemma_read_then_written(data, p.limits);
}

/// A content that was added is what is saved: as a new entry, in place of the
/// one in the archive, or by copying it where it holds the same.
pub proof fn lemma_added_is_written(records: Seq<Rec>, e: Ent, data: Seq<u8>)
    requires
        holds_added(e, data),
    ensures
        writes_content(records, e, data),
{
}

/// A part that was added is saved with the content that it was added with, also
/// where it was removed before, and also after it was read.
pub proof fn lemma_added_part_is_saved(
    p: Pack,
    part: Seq<char>,
    data: Seq<u8>,
    ct: Seq<char>,
    owner: Seq<char>,
)
    requires
        0 <= p.ct_at < p.entries.len(),
        p.entries[p.ct_at].name is None,
        assembly::part_added(p, part, data, ct).fault is None,
    ensures
        ({
            let q = assembly::part_added(p, part, data, ct).pack;
            let i = parts::place(q, part)->0;
            &&& parts::place(q, part) is Some
            &&& holds_added(q.entries[i], data)
            &&& writes_content(q.records, q.entries[i], data)
            &&& writes_content(q.records, parts::materialized(q, i).pack.entries[i], data)
            &&& writes_content(q.records, parts::treed(q, i).pack.entries[i], data)
            &&& writes_content(q.records, parts::related(q, i, owner).pack.entries[i], data)
        }),
{
    let q = assembly::part_added(p, part, data, ct).pack;
    let i = parts::place(q, part)->0;
    laws::lemma_added_part_is_there(p, part, data, ct);
    package::lemma_key_place(q.entries, text::lowered(part), 0);
    lemma_reading_keeps_added(q, i, data, i, owner);
    lemma_added_is_written(q.records, q.entries[i], data);
    lemma_added_is_written(q.records, parts::materialized(q, i).pack.entries[i], data);
    lemma_added_is_written(q.records, parts::treed(q, i).pack.entries[i], data);
    lemma_added_is_written(q.records, parts::related(q, i, owner).pack.entries[i], data);
}

/// The entries of the archive come first, in their order, and new ones behind
/// them.
pub open spec fn aligned(p: Pack) -> bool {
    &&& p.records.len() <= p.entries.len()
    &&& forall|k: int|
        0 <= k < p.entries.len() ==> (#[trigger] p.entries[k]).zip == if k < p.records.len() {
            Some(k)
        } else {
            None
        }
}

/// The place in the archive of what is written; new entries are behind all.
pub open spec fn place_of(w: Write, n: int) -> int {
    match w {
        Write::Verbatim { index } => index,
        Write::Replace { index, data: _, level: _ } => index,
        Write::New { name: _, data: _, level: _, dos: _, external_attrs: _ } => n,
    }
}

/// Entries of the archive are written in the order of the archive, none twice,
/// and new ones behind all of them.
pub open spec fn in_order(s: Seq<Write>, n: int) -> bool {
    &&& forall|i: int| 0 <= i < s.len() ==> 0 <= #[trigger] place_of(s[i], n) <= n
    &&& forall|i: int, j: int|
        0 <= i < j < s.len() ==> #[trigger] place_of(s[i], n) < #[trigger] place_of(s[j], n)
            || place_of(s[j], n) == n
}

proof fn lemma_writes_in_order(p: Pack, k: int)
    requires
        aligned(p),
        0 <= k <= p.entries.len(),
        save::writes_from(p.records, p.entries, k) is Ok,
    ensures
        ({
            let s = save::writes_from(p.records, p.entries, k)->Ok_0;
            let n = p.records.len() as int;
            &&& in_order(s, n)
            &&& forall|i: int|
                0 <= i < s.len() ==> #[trigger] place_of(s[i], n) >= k || place_of(s[i], n) == n
        }),
    decreases p.entries.len() - k,
{
    let n = p.records.len() as int;
    if k < p.entries.len() {
        lemma_writes_in_order(p, k + 1);
        let rest = save::writes_from(p.records, p.entries, k + 1)->Ok_0;
        let all = save::writes_from(p.records, p.entries, k)->Ok_0;
        let e = p.entries[k];
        if let Ok(Some(x)) = save::write_of(p.records, e) {
            assert(all == seq![x] + rest);
            assert(place_of(x, n) == if k < n {
                k
            } else {
                n
            });
            assert forall|i: int| 0 <= i < all.len() implies 0 <= #[trigger] place_of(all[i], n)
                <= n && (place_of(all[i], n) >= k || place_of(all[i], n) == n) by {
                if i > 0 {
                    assert(all[i] == rest[i - 1]);
                    assert(0 <= place_of(rest[i - 1], n) <= n);
                }
            }
            assert forall|i: int, j: int| 0 <= i < j < all.len() implies #[trigger] place_of(
                all[i],
                n,
            ) < #[trigger] place_of(all[j], n) || place_of(all[j], n) == n by {
                assert(all[j] == rest[j - 1]);
                assert(place_of(rest[j - 1], n) >= k + 1 || place_of(rest[j - 1], n) == n);
                if i > 0 {
                    assert(all[i] == rest[i - 1]);
                    assert(place_of(rest[i - 1], n) < place_of(rest[j - 1], n) || place_of(
                        rest[j - 1],
                        n,
                    ) == n);
                }
            }
        }
    }
}

/// A package is saved in the order of the archive, with new entries behind all
/// others.
pub proof fn lemma_saved_in_order(p: Pack)
    requires
        aligned(p),
    ensures
        match save::saved(p) {
            Ok(s) => in_order(s, p.records.len() as int),
            Err(_) => true,
        },
{
    if save::saved(p) is Ok {
        lemma_writes_in_order(p, 0);
    }
}

/// The entries of a package that was opened are those of the archive.
pub proof fn lemma_opened_aligned(records: Seq<Rec>, limits: Limits)
    ensures
        match package::opened(records, limits) {
            Ok(p) => aligned(p) && p.records == records,
            Err(_) => true,
        },
{
    if let Ok(p) = package::opened(records, limits) {
        package::lemma_entries_from(records, 0);
        package::lemma_untouched(records, 0);
        package::lemma_types_place(records, records.len() as int);
    }
}

/// Reading an entry in any way leaves the order alone.
pub proof fn lemma_reading_aligned(p: Pack, i: int, owner: Seq<char>)
    requires
        aligned(p),
        0 <= i < p.entries.len(),
    ensures
        aligned(parts::materialized(p, i).pack),
        aligned(parts::treed(p, i).pack),
        aligned(parts::related(p, i, owner).pack),
        parts::related(p, i, owner).pack.entries.len() == p.entries.len(),
{
    assert(p.entries[i].zip == if i < p.records.len() {
        Some(i)
    } else {
        None
    });
}

/// Another entry with the same place leaves the order alone.
proof fn lemma_entry_aligned(p: Pack, i: int, e: Ent)
    requires
        aligned(p),
        0 <= i < p.entries.len(),
        e.zip == p.entries[i].zip,
    ensures
        aligned(parts::with_entry(p, i, e)),
{
    assert(p.entries[i].zip == if i < p.records.len() {
        Some(i)
    } else {
        None
    });
}

proof fn lemma_retyped_aligned(p: Pack, e: content_types::Edited)
    requires
        aligned(p),
        0 <= p.ct_at < p.entries.len(),
    ensures
        aligned(assembly::retyped(p, e).pack),
        assembly::retyped(p, e).pack.entries.len() == p.entries.len(),
        assembly::retyped(p, e).pack.ct_at == p.ct_at,
{
    lemma_entry_aligned(p, p.ct_at, Ent { body: Body::Tree(e.doc), ..p.entries[p.ct_at] });
}

/// A new part comes behind all entries; one that comes back takes its place.
pub proof fn lemma_part_added_aligned(p: Pack, part: Seq<char>, data: Seq<u8>, ct: Seq<char>)
    requires
        aligned(p),
        0 <= p.ct_at < p.entries.len(),
    ensures
        aligned(assembly::part_added(p, part, data, ct).pack),
{
    if part != seq!['/'] && parts::place(p, part) is None {
        let e = content_types::ensured(p.types, assembly::types_doc(p), part, ct);
        let t = assembly::retyped(p, e);
        lemma_retyped_aligned(p, e);
        package::lemma_key_place(p.entries, text::lowered(part), 0);
        if t.fault is None {
            match parts::place_any(p, part) {
                Some(i) => lemma_entry_aligned(
                    t.pack,
                    i,
                    Ent {
                        body: Body::Bytes(data),
                        added: true,
                        rels: None,
                        ..t.pack.entries[i]
                    },
                ),
                None => {},
            }
        }
    }
}

/// One more relationship leaves the order alone.
pub proof fn lemma_relationship_added_aligned(
    p: Pack,
    owner: Seq<char>,
    rel_type: Seq<char>,
    target: Seq<char>,
    mode: TargetMode,
)
    requires
        aligned(p),
        0 <= p.ct_at < p.entries.len(),
    ensures
        aligned(assembly::relationship_added(p, owner, rel_type, target, mode).0),
{
    if let Ok(rp) = partname::rels_of(owner) {
        let a = if parts::place(p, rp) is Some {
            parts::went(p)
        } else {
            assembly::part_added(
                p,
                rp,
                assembly::empty_rels(),
                package::RELS_CONTENT_TYPE@,
            )
        };
        lemma_part_added_aligned(p, rp, assembly::empty_rels(), package::RELS_CONTENT_TYPE@);
        package::lemma_key_place(a.pack.entries, text::lowered(rp), 0);
        if let Some(i) = parts::place(a.pack, rp) {
            let r = parts::related(a.pack, i, owner);
            lemma_reading_aligned(a.pack, i, owner);
            let (e, x) = assembly::ent_linked(r.pack.entries[i], rp, rel_type, target, mode);
            lemma_entry_aligned(r.pack, i, e);
        }
    }
}

proof fn lemma_dropped_aligned(p: Pack, i: int, part: Seq<char>)
    requires
        aligned(p),
        0 <= p.ct_at < p.entries.len(),
        0 <= i < p.entries.len(),
    ensures
        aligned(assembly::dropped(p, i, part).pack),
        assembly::dropped(p, i, part).pack.ct_at == p.ct_at,
        assembly::dropped(p, i, part).pack.entries.len() == p.entries.len(),
{
    let q = parts::with_body(p, i, Body::Gone);
    lemma_entry_aligned(p, i, Ent { body: Body::Gone, ..p.entries[i] });
    lemma_retyped_aligned(
        q,
        content_types::override_removed(q.types, assembly::types_doc(q), part),
    );
}

proof fn lemma_swept_aligned(p: Pack, j: int, part: Seq<char>)
    requires
        aligned(p),
        0 <= j <= p.entries.len(),
    ensures
        aligned(assembly::all_swept(p, j, part).pack),
    decreases p.entries.len() - j,
{
    if j < p.entries.len() {
        let s = assembly::swept(p, j, part);
        let e = p.entries[j];
        if !(e.body is Gone) && e.name is Some && partname::owner_of(e.name->0) is Some {
            let owner = partname::owner_of(e.name->0)->0;
            let r = parts::related(p, j, owner);
            lemma_reading_aligned(p, j, owner);
            if r.fault is None {
                lemma_entry_aligned(
                    r.pack,
                    j,
                    assembly::ent_unpointed(r.pack.entries[j], part).0,
                );
            }
        }
        if s.fault is None {
            lemma_swept_aligned(s.pack, j + 1, part);
        }
    }
}

/// Removing a part leaves the order of the others alone.
pub proof fn lemma_part_removed_aligned(p: Pack, part: Seq<char>)
    requires
        aligned(p),
        0 <= p.ct_at < p.entries.len(),
    ensures
        aligned(assembly::part_removed(p, part).pack),
{
    package::lemma_key_place(p.entries, text::lowered(part), 0);
    if let Some(i) = parts::place(p, part) {
        let a = assembly::dropped(p, i, part);
        lemma_dropped_aligned(p, i, part);
        if a.fault is None {
            let b = match partname::rels_of(part) {
                Ok(rp) => match parts::place(a.pack, rp) {
                    Some(j) => assembly::dropped(a.pack, j, rp),
                    None => a,
                },
                Err(_) => a,
            };
            if let Ok(rp) = partname::rels_of(part) {
                package::lemma_key_place(a.pack.entries, text::lowered(rp), 0);
                if let Some(j) = parts::place(a.pack, rp) {
                    lemma_dropped_aligned(a.pack, j, rp);
                }
            }
            if b.fault is None {
                lemma_swept_aligned(b.pack, 0, part);
            }
        }
    }
}

/// Relationships without those that point at a part.
pub open spec fn others(owner: Seq<char>, s: Seq<Link>, part: Seq<char>) -> Seq<Link>
    decreases s.len(),
{
    if s.len() == 0 {
        Seq::empty()
    } else if rels::points_at(owner, s[0], part) {
        others(owner, s.skip(1), part)
    } else {
        seq![s[0]] + others(owner, s.skip(1), part)
    }
}

/// None of them points at it.
proof fn lemma_others(owner: Seq<char>, s: Seq<Link>, part: Seq<char>)
    ensures
        forall|k: int|
            0 <= k < others(owner, s, part).len() ==> !rels::points_at(
                owner,
                #[trigger] others(owner, s, part)[k],
                part,
            ),
    decreases s.len(),
{
    if s.len() > 0 {
        lemma_others(owner, s.skip(1), part);
        let a = others(owner, s.skip(1), part);
        let b = others(owner, s, part);
        if !rels::points_at(owner, s[0], part) {
            assert forall|k: int| 0 <= k < b.len() implies !rels::points_at(
                owner,
                #[trigger] b[k],
                part,
            ) by {
                if k > 0 {
                    assert(b[k] == a[k - 1]);
                }
            }
        }
    }
}

proof fn lemma_links_swept(b: Book, d: Dom, part: Seq<char>, k: int, n: nat)
    requires
        0 <= k <= b.links.len(),
        rels::links_swept(b, d, part, k, n).done is Ok,
    ensures
        rels::links_swept(b, d, part, k, n).book == (Book {
            links: b.links.take(k) + others(b.owner, b.links.skip(k), part),
            ..b
        }),
        rels::links_swept(b, d, part, k, n).done->Ok_0 + rels::links_swept(
            b,
            d,
            part,
            k,
            n,
        ).book.links.len() == n + b.links.len(),
    decreases b.links.len() - k,
{
    let s = b.links;
    if k < s.len() {
        let o = others(b.owner, s.skip(k + 1), part);
        assert(s.skip(k).skip(1) =~= s.skip(k + 1));
        assert(s.skip(k)[0] == s[k]);
        if rels::points_at(b.owner, s[k], part) {
            let e = edit::node_removed(d, s[k].node)->Ok_0;
            let c = Book { links: s.remove(k), ..b };
            assert(s.remove(k).skip(k) =~= s.skip(k + 1));
            assert(s.remove(k).take(k) =~= s.take(k));
            lemma_links_swept(c, e, part, k, n + 1);
        } else {
            lemma_links_swept(b, d, part, k + 1, n);
            assert(s.take(k + 1) + o =~= s.take(k) + (seq![s[k]] + o));
        }
    } else {
        assert(s.take(k) + others(b.owner, s.skip(k), part) =~= s);
    }
}

/// Removing the relationships that point at a part removes these and no others,
/// be their identifiers what they may, and keeps the order.
pub proof fn lemma_nothing_points(b: Book, d: Dom, part: Seq<char>)
    requires
        rels::unpointed(b, d, part).done is Ok,
    ensures
        rels::unpointed(b, d, part).book == (Book {
            links: others(b.owner, b.links, part),
            ..b
        }),
        rels::unpointed(b, d, part).done->Ok_0 == b.links.len() - others(
            b.owner,
            b.links,
            part,
        ).len(),
        forall|k: int|
            0 <= k < others(b.owner, b.links, part).len() ==> !rels::points_at(
                b.owner,
                #[trigger] others(b.owner, b.links, part)[k],
                part,
            ),
{
    lemma_links_swept(b, d, part, 0, 0);
    lemma_others(b.owner, b.links, part);
    assert(b.links.take(0) + others(b.owner, b.links.skip(0), part) =~= others(
        b.owner,
        b.links.skip(0),
        part,
    ));
    assert(b.links.skip(0) =~= b.links);
}

/// Relationships that were read stand beside the document that they were read
/// from, as in every package: see [`package::Entry::wf`].
pub open spec fn books_in_trees(p: Pack) -> bool {
    forall|k: int|
        0 <= k < p.entries.len() && (#[trigger] p.entries[k]).rels is Some
            ==> p.entries[k].body is Tree || p.entries[k].body is Gone
}

/// An entry with relationships.
pub open spec fn holds_links(e: Ent) -> bool {
    !(e.body is Gone) && e.name is Some && partname::owner_of(e.name->0) is Some
}

/// Two packages that differ in other entries than `k` alone.
spec fn same_at(p: Pack, q: Pack, k: int) -> bool {
    &&& p.entries.len() == q.entries.len()
    &&& p.entries[k] == q.entries[k]
    &&& p.records == q.records
    &&& p.limits == q.limits
    &&& p.types == q.types
}

/// Sweeping an entry looks at it alone, and changes no other.
proof fn lemma_swept_alone(p: Pack, q: Pack, k: int, part: Seq<char>)
    requires
        same_at(p, q, k),
        0 <= k < p.entries.len(),
    ensures
        assembly::swept(p, k, part).fault == assembly::swept(q, k, part).fault,
        assembly::swept(p, k, part).pack.entries[k] == assembly::swept(q, k, part).pack.entries[k],
        forall|j: int|
            0 <= j < p.entries.len() && j != k ==> #[trigger] assembly::swept(
                p,
                k,
                part,
            ).pack.entries[j] == p.entries[j],
        assembly::swept(p, k, part).pack.entries.len() == p.entries.len(),
        assembly::swept(p, k, part).pack.records == p.records,
        assembly::swept(p, k, part).pack.limits == p.limits,
        assembly::swept(p, k, part).pack.types == p.types,
{
}

/// Each entry of a package that was swept is as if it had been swept alone.
proof fn lemma_all_swept(p: Pack, j: int, part: Seq<char>)
    requires
        0 <= j <= p.entries.len(),
        assembly::all_swept(p, j, part).fault is None,
    ensures
        assembly::all_swept(p, j, part).pack.entries.len() == p.entries.len(),
        forall|k: int|
            0 <= k < p.entries.len() ==> #[trigger] assembly::all_swept(p, j, part).pack.entries[k]
                == if k < j {
                p.entries[k]
            } else {
                assembly::swept(p, k, part).pack.entries[k]
            },
        forall|k: int|
            j <= k < p.entries.len() ==> (#[trigger] assembly::swept(p, k, part)).fault is None,
    decreases p.entries.len() - j,
{
    if j < p.entries.len() {
        let s = assembly::swept(p, j, part).pack;
        lemma_swept_alone(p, p, j, part);
        lemma_all_swept(s, j + 1, part);
        let q = assembly::all_swept(p, j, part).pack;
        assert(q == assembly::all_swept(s, j + 1, part).pack);
        assert forall|k: int| j < k < p.entries.len() implies (#[trigger] assembly::swept(
            p,
            k,
            part,
        )).fault is None && assembly::swept(p, k, part).pack.entries[k] == assembly::swept(
            s,
            k,
            part,
        ).pack.entries[k] by {
            assert(s.entries[k] == p.entries[k]);
            lemma_swept_alone(p, s, k, part);
            assert(assembly::swept(s, k, part).fault is None);
        }
        assert forall|k: int| 0 <= k < p.entries.len() implies #[trigger] q.entries[k] == if k < j {
            p.entries[k]
        } else {
            assembly::swept(p, k, part).pack.entries[k]
        } by {
            if k < j {
                assert(s.entries[k] == p.entries[k]);
            } else if k == j {
                assert(q.entries[k] == s.entries[k]);
            }
        }
    }
}

/// The relationships of an entry, read if they were not yet.
pub open spec fn book_at(p: Pack, k: int) -> Option<Book> {
    parts::related(p, k, partname::owner_of(p.entries[k].name->0)->0).pack.entries[k].rels
}

/// An entry with relationships that was swept holds those of them that do not
/// point at the part.
proof fn lemma_swept_entry(p: Pack, k: int, part: Seq<char>)
    requires
        0 <= k < p.entries.len(),
        holds_links(p.entries[k]),
        p.entries[k].rels is Some ==> p.entries[k].body is Tree,
        assembly::swept(p, k, part).fault is None,
    ensures
        ({
            let e = assembly::swept(p, k, part).pack.entries[k];
            &&& book_at(p, k) is Some
            &&& e.rels == Some(
                (Book {
                    links: others(book_at(p, k)->0.owner, book_at(p, k)->0.links, part),
                    ..book_at(p, k)->0
                }),
            )
            &&& e.name == p.entries[k].name
            &&& e.body is Tree
        }),
{
    let owner = partname::owner_of(p.entries[k].name->0)->0;
    let r = parts::related(p, k, owner);
    let e = r.pack.entries[k];
    if let (Body::Tree(d), Some(b)) = (e.body, e.rels) {
        lemma_nothing_points(b, d, part);
    }
}

/// No relationship of a package points at a part.
pub open spec fn pointed_at_nowhere(p: Pack, part: Seq<char>) -> bool {
    forall|k: int|
        0 <= k < p.entries.len() && holds_links(#[trigger] p.entries[k]) ==> (
        p.entries[k].rels matches Some(b) && forall|i: int|
            0 <= i < b.links.len() ==> !rels::points_at(b.owner, #[trigger] b.links[i], part))
}

/// The package that is swept when a part is removed: the part, its file of
/// relationships and their types are gone.
spec fn cleared(p: Pack, part: Seq<char>) -> Pack {
    let a = assembly::dropped(p, parts::place(p, part)->0, part);
    match partname::rels_of(part) {
        Ok(rp) => match parts::place(a.pack, rp) {
            Some(j) => assembly::dropped(a.pack, j, rp).pack,
            None => a.pack,
        },
        Err(_) => a.pack,
    }
}

/// An entry that is not removed with a part.
pub open spec fn stays(p: Pack, part: Seq<char>, k: int) -> bool {
    &&& 0 <= k < p.entries.len()
    &&& k != p.ct_at
    &&& Some(k) != parts::place(p, part)
    &&& partname::rels_of(part) matches Ok(rp) ==> Some(k) != parts::place(
        assembly::dropped(p, parts::place(p, part)->0, part).pack,
        rp,
    )
}

proof fn lemma_cleared(p: Pack, part: Seq<char>)
    requires
        0 <= p.ct_at < p.entries.len(),
        p.entries[p.ct_at].name is None,
        assembly::part_removed(p, part).fault is None,
    ensures
        assembly::part_removed(p, part) == assembly::all_swept(cleared(p, part), 0, part),
        cleared(p, part).entries.len() == p.entries.len(),
        cleared(p, part).entries[p.ct_at].name is None,
        books_in_trees(p) ==> books_in_trees(cleared(p, part)),
        cleared(p, part).records == p.records,
        cleared(p, part).limits == p.limits,
        forall|k: int| #[trigger]
            stays(p, part, k) ==> cleared(p, part).entries[k] == p.entries[k],
{
    package::lemma_key_place(p.entries, text::lowered(part), 0);
    let i = parts::place(p, part)->0;
    let a = assembly::dropped(p, i, part).pack;
    if let Ok(rp) = partname::rels_of(part) {
        package::lemma_key_place(a.entries, text::lowered(rp), 0);
    }
    if books_in_trees(p) {
        assert forall|k: int|
            0 <= k < a.entries.len() && (#[trigger] a.entries[k]).rels is Some implies a.entries[k].body is Tree
            || a.entries[k].body is Gone by {
            assert(p.entries[k].rels is Some);
        }
        let c = cleared(p, part);
        assert forall|k: int|
            0 <= k < c.entries.len() && (#[trigger] c.entries[k]).rels is Some implies c.entries[k].body is Tree
            || c.entries[k].body is Gone by {
            assert(a.entries[k].rels is Some);
        }
    }
}

/// Once a part is removed, no relationship of the package points at it.
pub proof fn lemma_removed_part_is_pointed_at_nowhere(p: Pack, part: Seq<char>)
    requires
        0 <= p.ct_at < p.entries.len(),
        p.entries[p.ct_at].name is None,
        books_in_trees(p),
        assembly::part_removed(p, part).fault is None,
    ensures
        pointed_at_nowhere(assembly::part_removed(p, part).pack, part),
{
    lemma_cleared(p, part);
    let c = cleared(p, part);
    lemma_all_swept(c, 0, part);
    let q = assembly::part_removed(p, part).pack;
    assert forall|k: int| 0 <= k < q.entries.len() && holds_links(#[trigger] q.entries[k]) implies (
    q.entries[k].rels matches Some(b) && forall|i: int|
        0 <= i < b.links.len() ==> !rels::points_at(b.owner, #[trigger] b.links[i], part)) by {
        assert(q.entries[k] == assembly::swept(c, k, part).pack.entries[k]);
        assert(assembly::swept(c, k, part).fault is None);
        if holds_links(c.entries[k]) {
            lemma_swept_entry(c, k, part);
            let b = book_at(c, k)->0;
            lemma_others(b.owner, b.links, part);
        }
    }
}

/// The document of an entry, read if it was not yet.
pub open spec fn tree_in(p: Pack, k: int) -> Option<Dom> {
    let raw = match p.entries[k].body {
        Body::Untouched => match p.entries[k].zip {
            Some(z) => match p.records[z].content {
                Ok(b) => Some(b),
                Err(_) => None,
            },
            None => None,
        },
        b => parts::plain_bytes(b),
    };
    match (p.entries[k].body, raw) {
        (Body::Tree(d), _) => Some(d),
        (_, Some(b)) => match parse::parsed(b, p.limits) {
            Ok(d) => Some(d),
            Err(_) => None,
        },
        _ => None,
    }
}

/// The relationships of an entry, read if they were not yet.
pub open spec fn book_in(p: Pack, k: int) -> Option<Book> {
    match (p.entries[k].rels, tree_in(p, k)) {
        (Some(b), _) => Some(b),
        (None, Some(d)) => match rels::book_of(partname::owner_of(p.entries[k].name->0)->0, d) {
            Ok(b) => Some(b),
            Err(_) => None,
        },
        _ => None,
    }
}

/// When a part is removed, the other entries stay: those without relationships
/// as they are, and of the others the relationships that point elsewhere.
pub proof fn lemma_others_stay(p: Pack, part: Seq<char>, k: int)
    requires
        0 <= p.ct_at < p.entries.len(),
        p.entries[p.ct_at].name is None,
        books_in_trees(p),
        assembly::part_removed(p, part).fault is None,
        stays(p, part, k),
    ensures
        assembly::part_removed(p, part).pack.entries.len() == p.entries.len(),
        ({
            let e = assembly::part_removed(p, part).pack.entries[k];
            if holds_links(p.entries[k]) {
                &&& e.name == p.entries[k].name
                &&& !(e.body is Gone)
                &&& book_in(p, k) matches Some(b) && e.rels == Some(
                    (Book { links: others(b.owner, b.links, part), ..b }),
                )
            } else {
                e == p.entries[k]
            }
        }),
{
    lemma_cleared(p, part);
    let c = cleared(p, part);
    lemma_all_swept(c, 0, part);
    assert(c.entries[k] == p.entries[k]);
    assert(assembly::swept(c, k, part).fault is None);
    if holds_links(p.entries[k]) {
        lemma_swept_entry(c, k, part);
    }
}

} // verus!
