//! Documents that are tables: a root element, and an element for every entry.
use vstd::prelude::*;
use vstd::slice::slice_subrange;
use vstd::string::*;

use crate::dom::arena::NodeId;
use crate::dom::document::Document;
use crate::dom::edit;
use crate::dom::model::Dom;
use crate::dom::query;
use crate::error::Error;
use crate::text;
use crate::xml::name;

verus! {

/// The name of an attribute, and its value.
pub struct Field<'a> {
    pub name: &'a str,
    pub value: &'a str,
}

/// The name of an attribute, and its value, as texts.
pub struct FieldText {
    pub name: Seq<char>,
    pub value: Seq<char>,
}

impl<'a> Field<'a> {
    pub open spec fn view(&self) -> FieldText {
        FieldText { name: self.name@, value: self.value@ }
    }
}

pub open spec fn fields(s: Seq<Field<'_>>) -> Seq<FieldText> {
    s.map_values(|f: Field<'_>| f@)
}

/// A document after changes, and what stopped them.
pub struct Outcome {
    pub doc: Dom,
    pub fault: Option<Error>,
}

/// The prefix of an element with its colon, or nothing. An element without it
/// would be in another namespace.
pub open spec fn prefix_text(d: Dom, i: int) -> Seq<char> {
    if d.is_element(i) {
        let q = query::qname_of(d, i);
        match name::find(q, 0, 58) {
            Some(k) => text::lossy(q.take(k + 1)),
            None => Seq::empty(),
        }
    } else {
        Seq::empty()
    }
}

/// The document where attributes of a node are set, one after the other, from
/// `k` on.
pub open spec fn fields_set(d: Dom, i: int, list: Seq<FieldText>, k: int) -> Outcome
    decreases list.len() - k,
{
    if !(0 <= k < list.len()) {
        Outcome { doc: d, fault: None }
    } else {
        match edit::attr_set(d, i, list[k].name, list[k].value) {
            Ok(e) => fields_set(e, i, list, k + 1),
            Err(x) => Outcome { doc: d, fault: Some(x) },
        }
    }
}

/// The document with one more element below another one. What was done before
/// a change is refused stays done.
pub open spec fn entry_added(d: Dom, root: int, q: Seq<char>, list: Seq<FieldText>) -> Outcome {
    let n = d.nodes.len() as int;
    match edit::element_added(d, q) {
        Err(x) => Outcome { doc: d, fault: Some(x) },
        Ok(e) => {
            let o = fields_set(e, n, list, 0);
            match o.fault {
                Some(_) => o,
                None => match edit::child_appended(o.doc, root, n) {
                    Ok(f) => Outcome { doc: f, fault: None },
                    Err(x) => Outcome { doc: o.doc, fault: Some(x) },
                },
            }
        },
    }
}

/// The prefix of an element with its colon, or nothing.
pub(crate) fn prefix_of(doc: &Document, node: NodeId) -> (r: String)
    requires
        doc.wf(),
    ensures
        r@ == prefix_text(doc@, node.num()),
{
    let q = match doc.qname(node) {
        Some(q) => q,
        None => {
            let s = String::new();
            assert(s@ =~= Seq::<char>::empty());
            return s;
        },
    };
    proof {
        name::lemma_find(q@, 0, 58);
    }
    let n: usize = q.len();
    match name::position(q, 0, 58) {
        Some(k) => {
            let p = slice_subrange(q, 0, k + 1);
            assert(p@ =~= q@.take(k + 1));
            text::utf8_lossy(p)
        },
        None => {
            let s = String::new();
            assert(s@ =~= Seq::<char>::empty());
            s
        },
    }
}

/// Adds an element with attributes below another one.
pub(crate) fn add_entry(
    doc: &mut Document,
    root: NodeId,
    prefix: &str,
    local: &str,
    list: &[Field<'_>],
) -> (r: Result<NodeId, Error>)
    requires
        old(doc).wf(),
    ensures
        final(doc).wf(),
        ({
            let o = entry_added(old(doc)@, root.num(), prefix@ + local@, fields(list@));
            &&& final(doc)@ == o.doc
            &&& match r {
                Ok(n) => o.fault is None && n.num() == old(doc)@.nodes.len(),
                Err(e) => o.fault == Some(e),
            }
        }),
{
    let mut q: String = prefix.to_owned();
    q.append(local);
    let ghost before = doc@;
    let node: NodeId = match doc.new_element(q.as_str()) {
        Ok(n) => n,
        Err(e) => return Err(e),
    };
    let ghost start = doc@;
    let ghost all = fields(list@);
    let mut k: usize = 0;
    while k < list.len()
        invariant
            doc.wf(),
            k <= list@.len(),
            all == fields(list@),
            edit::element_added(old(doc)@, prefix@ + local@) == Ok::<Dom, Error>(start),
            node.num() == old(doc)@.nodes.len(),
            fields_set(start, node.num(), all, 0) == fields_set(doc@, node.num(), all, k as int),
        decreases list@.len() - k,
    {
        assert(all[k as int] == list@[k as int]@);
        let f = &list[k];
        if let Err(e) = doc.set_attr(node, f.name, f.value) {
            return Err(e);
        }
        k = k + 1;
    }
    assert(all.len() == list@.len());
    match doc.append_child(root, node) {
        Ok(_) => Ok(node),
        Err(e) => Err(e),
    }
}

} // verus!
