//! The types of parts, as `[Content_Types].xml` gives them.
//!
//! A type is given to a part by its name or by its extension. The name comes
//! first.
use vstd::prelude::*;
use vstd::string::*;

use crate::dom::arena::NodeId;
use crate::dom::document::Document;
use crate::dom::edit;
use crate::dom::model::Dom;
use crate::dom::query;
use crate::error::{Error, OpcError};
use crate::opc::fault;
use crate::opc::fault::Fault;
use crate::opc::partname;
use crate::opc::partname::PartName;
use crate::opc::table;
use crate::opc::table::Field;
use crate::text;
use crate::xml::name;

verus! {

/// The namespace of the types.
pub const CONTENT_TYPES_NS: &'static str =
    "http://schemas.openxmlformats.org/package/2006/content-types";

/// The name of the entry of an archive with the types.
pub const CONTENT_TYPES_NAME: &'static str = "[Content_Types].xml";

/// The type of parts with an extension.
#[derive(Debug)]
pub struct DefaultEntry {
    /// The extension, in small letters.
    pub ext: String,
    pub content_type: String,
}

/// The type of one part.
#[derive(Debug)]
pub struct OverrideEntry {
    /// The key of the name of the part.
    pub key: String,
    pub content_type: String,
    pub node: NodeId,
}

/// The types of parts.
#[derive(Debug)]
pub struct ContentTypes {
    pub(crate) root: NodeId,
    /// The prefix of new elements with its colon, or nothing.
    pub(crate) prefix: String,
    pub(crate) defaults: Vec<DefaultEntry>,
    pub(crate) overrides: Vec<OverrideEntry>,
}

/// The type of parts with an extension, as text.
pub struct ByExt {
    pub ext: Seq<char>,
    pub content_type: Seq<char>,
}

/// The type of one part, as text.
pub struct ByName {
    pub key: Seq<char>,
    pub content_type: Seq<char>,
    pub node: int,
}

/// The types of parts, as texts.
pub struct Types {
    pub root: int,
    pub prefix: Seq<char>,
    pub defaults: Seq<ByExt>,
    pub overrides: Seq<ByName>,
}

impl DefaultEntry {
    pub open spec fn view(&self) -> ByExt {
        ByExt { ext: self.ext@, content_type: self.content_type@ }
    }
}

impl OverrideEntry {
    pub open spec fn view(&self) -> ByName {
        ByName { key: self.key@, content_type: self.content_type@, node: self.node.num() }
    }
}

pub open spec fn defaults_view(s: Seq<DefaultEntry>) -> Seq<ByExt> {
    s.map_values(|e: DefaultEntry| e@)
}

pub open spec fn overrides_view(s: Seq<OverrideEntry>) -> Seq<ByName> {
    s.map_values(|e: OverrideEntry| e@)
}

impl ContentTypes {
    pub open(crate) spec fn view(&self) -> Types {
        Types {
            root: self.root.num(),
            prefix: self.prefix@,
            defaults: defaults_view(self.defaults@),
            overrides: overrides_view(self.overrides@),
        }
    }
}

/// Whether an element has a name without its prefix.
pub open spec fn is_called(d: Dom, i: int, local: Seq<char>) -> bool {
    d.is_element(i) && query::local_name_of(d, i) == vstd::utf8::encode_utf8(local)
}

/// The value of an attribute without a prefix.
pub open spec fn field(d: Dom, i: int, local: Seq<char>) -> Option<Seq<char>> {
    query::attr_read(d, i, None, local)
}

/// The types with those that an element gives.
pub open spec fn type_added(d: Dom, t: Types, i: int) -> Result<Types, Fault> {
    let ct = field(d, i, "ContentType"@);
    if is_called(d, i, "Default"@) {
        match (field(d, i, "Extension"@), ct) {
            (Some(e), Some(c)) => Ok(
                Types {
                    defaults: t.defaults.push(ByExt { ext: text::lowered(e), content_type: c }),
                    ..t
                },
            ),
            _ => Err(Fault::UnknownContentType("Default без Extension или ContentType"@)),
        }
    } else if is_called(d, i, "Override"@) {
        match (field(d, i, "PartName"@), ct) {
            (Some(p), Some(c)) => Ok(
                Types {
                    overrides: t.overrides.push(
                        ByName { key: text::lowered(p), content_type: c, node: i },
                    ),
                    ..t
                },
            ),
            _ => Err(Fault::UnknownContentType("Override без PartName или ContentType"@)),
        }
    } else {
        Ok(t)
    }
}

/// The types that nodes give, one after the other, from `k` on.
pub open spec fn types_added(d: Dom, t: Types, s: Seq<int>, k: int) -> Result<Types, Fault>
    decreases s.len() - k,
{
    if !(0 <= k < s.len()) {
        Ok(t)
    } else {
        match type_added(d, t, s[k]) {
            Ok(u) => types_added(d, u, s, k + 1),
            Err(e) => Err(e),
        }
    }
}

/// The types that a document gives.
pub open spec fn types_of(d: Dom) -> Result<Types, Fault> {
    match query::first_element(d, d.kids(d.root), 0) {
        None => Err(
            Fault::Plain(Error::Xml { kind: crate::error::XmlError::NoRoot, offset: 0 }),
        ),
        Some(root) => if !is_called(d, root, "Types"@) || query::uri_of(d, root) != Some(
            CONTENT_TYPES_NS@,
        ) {
            Err(Fault::NoContentTypes)
        } else {
            types_added(
                d,
                Types {
                    root,
                    prefix: table::prefix_text(d, root),
                    defaults: Seq::empty(),
                    overrides: Seq::empty(),
                },
                d.kids(root),
                0,
            )
        },
    }
}

/// The place of the first type for a key, from `k` on.
pub open spec fn override_place(s: Seq<ByName>, key: Seq<char>, k: int) -> Option<int>
    decreases s.len() - k,
{
    if !(0 <= k < s.len()) {
        None
    } else if s[k].key == key {
        Some(k)
    } else {
        override_place(s, key, k + 1)
    }
}

/// The first type for an extension, from `k` on.
pub open spec fn default_from(s: Seq<ByExt>, ext: Seq<char>, k: int) -> Option<Seq<char>>
    decreases s.len() - k,
{
    if !(0 <= k < s.len()) {
        None
    } else if s[k].ext == ext {
        Some(s[k].content_type)
    } else {
        default_from(s, ext, k + 1)
    }
}

/// The type of a part.
pub open spec fn type_of(t: Types, part: Seq<char>) -> Option<Seq<char>> {
    match override_place(t.overrides, text::lowered(part), 0) {
        Some(k) => Some(t.overrides[k].content_type),
        None => match partname::extension(part) {
            Some(e) => default_from(t.defaults, text::lowered(e), 0),
            None => None,
        },
    }
}

/// The types and their document after a change, and what stopped it or whether
/// anything had to be changed.
pub struct Edited {
    pub types: Types,
    pub doc: Dom,
    pub done: Result<bool, Error>,
}

/// The fields of an element that gives a type to a part.
pub open spec fn override_fields(part: Seq<char>, ct: Seq<char>) -> Seq<table::FieldText> {
    seq![
        table::FieldText { name: "PartName"@, value: part },
        table::FieldText { name: "ContentType"@, value: ct },
    ]
}

/// The types where a part has a type.
pub open spec fn ensured(t: Types, d: Dom, part: Seq<char>, ct: Seq<char>) -> Edited {
    let key = text::lowered(part);
    if type_of(t, part) == Some(ct) {
        Edited { types: t, doc: d, done: Ok(false) }
    } else {
        match override_place(t.overrides, key, 0) {
            Some(k) => match edit::attr_set(d, t.overrides[k].node, "ContentType"@, ct) {
                Ok(e) => Edited {
                    types: Types {
                        overrides: t.overrides.update(
                            k,
                            ByName { content_type: ct, ..t.overrides[k] },
                        ),
                        ..t
                    },
                    doc: e,
                    done: Ok(true),
                },
                Err(x) => Edited { types: t, doc: d, done: Err(x) },
            },
            None => {
                let o = table::entry_added(
                    d,
                    t.root,
                    t.prefix + "Override"@,
                    override_fields(part, ct),
                );
                match o.fault {
                    Some(x) => Edited { types: t, doc: o.doc, done: Err(x) },
                    None => Edited {
                        types: Types {
                            overrides: t.overrides.push(
                                ByName { key, content_type: ct, node: d.nodes.len() as int },
                            ),
                            ..t
                        },
                        doc: o.doc,
                        done: Ok(true),
                    },
                }
            },
        }
    }
}

/// The types where a part has no type by its name.
pub open spec fn override_removed(t: Types, d: Dom, part: Seq<char>) -> Edited {
    match override_place(t.overrides, text::lowered(part), 0) {
        None => Edited { types: t, doc: d, done: Ok(false) },
        Some(k) => match edit::node_removed(d, t.overrides[k].node) {
            Ok(e) => Edited {
                types: Types { overrides: t.overrides.remove(k), ..t },
                doc: e,
                done: Ok(true),
            },
            Err(x) => Edited { types: t, doc: d, done: Err(x) },
        },
    }
}

pub open spec fn text_view(r: Option<&str>) -> Option<Seq<char>> {
    match r {
        Some(t) => Some(t@),
        None => None,
    }
}

/// Whether a name is that of an element.
pub(crate) fn called(doc: &Document, n: NodeId, local: &str) -> (r: bool)
    requires
        doc.wf(),
    ensures
        r == is_called(doc@, n.num(), local@),
{
    match doc.local_name(n) {
        Some(b) => name::same(b, local.as_bytes()),
        None => false,
    }
}

impl ContentTypes {
    /// The types that a document gives.
    pub fn parse(doc: &Document) -> (r: Result<Self, Error>)
        requires
            doc.wf(),
        ensures
            match r {
                Ok(t) => types_of(doc@) == Ok::<Types, Fault>(t@),
                Err(e) => types_of(doc@) == Err::<Types, Fault>(fault::fault_of(e)),
            },
    {
        let ghost d = doc@;
        let root: NodeId = match doc.root_element() {
            Ok(n) => n,
            Err(e) => return Err(e),
        };
        let right: bool = called(doc, root, "Types") && match doc.element_uri(root) {
            Some(u) => text::same_text(u, CONTENT_TYPES_NS),
            None => false,
        };
        if !right {
            return Err(Error::Opc(OpcError::NoContentTypes));
        }
        let mut t = ContentTypes {
            root,
            prefix: table::prefix_of(doc, root),
            defaults: Vec::new(),
            overrides: Vec::new(),
        };
        let kids: Vec<NodeId> = doc.children(root);
        let ghost s = d.kids(root.num());
        let mut k: usize = 0;
        proof {
            assert(defaults_view(t.defaults@) =~= Seq::<ByExt>::empty());
            assert(overrides_view(t.overrides@) =~= Seq::<ByName>::empty());
        }
        while k < kids.len()
            invariant
                doc.wf(),
                d == doc@,
                k <= kids@.len(),
                query::ids(kids@) == s,
                types_of(d) == types_added(d, t@, s, k as int),
            decreases kids@.len() - k,
        {
            assert(s[k as int] == kids@[k as int].num());
            if let Err(e) = t.read_entry(doc, kids[k]) {
                return Err(e);
            }
            k = k + 1;
        }
        assert(s.len() == kids@.len());
        Ok(t)
    }

    /// Takes up the type that an element gives.
    fn read_entry(&mut self, doc: &Document, n: NodeId) -> (r: Result<(), Error>)
        requires
            doc.wf(),
        ensures
            match r {
                Ok(_) => type_added(doc@, old(self)@, n.num()) == Ok::<Types, Fault>(
                    final(self)@,
                ),
                Err(e) => type_added(doc@, old(self)@, n.num()) == Err::<Types, Fault>(
                    fault::fault_of(e),
                ),
            },
    {
        let ghost before = self@;
        if called(doc, n, "Default") {
            let e = doc.attr(n, None, "Extension");
            let c = doc.attr(n, None, "ContentType");
            match (e, c) {
                (Some(e), Some(c)) => {
                    let entry = DefaultEntry {
                        ext: partname::lower_text(e.as_str()),
                        content_type: c,
                    };
                    self.defaults.push(entry);
                    assert(self@.defaults =~= before.defaults.push(entry@));
                },
                _ => return Err(
                    Error::Opc(
                        OpcError::UnknownContentType(
                            "Default без Extension или ContentType".to_owned(),
                        ),
                    ),
                ),
            }
        } else if called(doc, n, "Override") {
            let p = doc.attr(n, None, "PartName");
            let c = doc.attr(n, None, "ContentType");
            match (p, c) {
                (Some(p), Some(c)) => {
                    let entry = OverrideEntry {
                        key: partname::lower_text(p.as_str()),
                        content_type: c,
                        node: n,
                    };
                    self.overrides.push(entry);
                    assert(self@.overrides =~= before.overrides.push(entry@));
                },
                _ => return Err(
                    Error::Opc(
                        OpcError::UnknownContentType(
                            "Override без PartName или ContentType".to_owned(),
                        ),
                    ),
                ),
            }
        }
        Ok(())
    }

    /// The place of the type that is given to a part by its name.
    fn find_override(&self, key: &str) -> (r: Option<usize>)
        ensures
            match r {
                Some(k) => override_place(self@.overrides, key@, 0) == Some(k as int) && k
                    < self.overrides@.len(),
                None => override_place(self@.overrides, key@, 0) is None,
            },
    {
        let mut k: usize = 0;
        while k < self.overrides.len()
            invariant
                k <= self.overrides@.len(),
                override_place(self@.overrides, key@, 0) == override_place(
                    self@.overrides,
                    key@,
                    k as int,
                ),
            decreases self.overrides@.len() - k,
        {
            assert(self@.overrides[k as int] == self.overrides@[k as int]@);
            if text::same_text(self.overrides[k].key.as_str(), key) {
                return Some(k);
            }
            k = k + 1;
        }
        None
    }

    /// The type of a part: that of its name, or else that of its extension.
    #[must_use]
    pub fn resolve(&self, part: &PartName) -> (r: Option<&str>)
        requires
            part.wf(),
        ensures
            text_view(r) == type_of(self@, part@),
    {
        if let Some(k) = self.find_override(part.key()) {
            assert(self@.overrides[k as int] == self.overrides@[k as int]@);
            return Some(self.overrides[k].content_type.as_str());
        }
        match part.extension() {
            Some(e) => self.default_for(e.as_str()),
            None => None,
        }
    }

    /// The type for an extension.
    #[must_use]
    pub fn default_for(&self, ext: &str) -> (r: Option<&str>)
        ensures
            text_view(r) == default_from(self@.defaults, text::lowered(ext@), 0),
    {
        let small: String = partname::lower_text(ext);
        let mut k: usize = 0;
        while k < self.defaults.len()
            invariant
                k <= self.defaults@.len(),
                small@ == text::lowered(ext@),
                default_from(self@.defaults, small@, 0) == default_from(
                    self@.defaults,
                    small@,
                    k as int,
                ),
            decreases self.defaults@.len() - k,
        {
            assert(self@.defaults[k as int] == self.defaults@[k as int]@);
            if text::same_text(self.defaults[k].ext.as_str(), small.as_str()) {
                return Some(self.defaults[k].content_type.as_str());
            }
            k = k + 1;
        }
        None
    }

    /// How many parts have a type by their name.
    #[must_use]
    pub fn override_count(&self) -> (r: usize)
        ensures
            r == self@.overrides.len(),
    {
        self.overrides.len()
    }

    /// Sees to it that a part has a type. Nothing is changed when it has it
    /// already, be it by its extension. Returns whether anything was changed.
    pub fn ensure(&mut self, doc: &mut Document, part: &PartName, content_type: &str) -> (r: Result<
        bool,
        Error,
    >)
        requires
            old(doc).wf(),
            part.wf(),
        ensures
            final(doc).wf(),
            ({
                let e = ensured(old(self)@, old(doc)@, part@, content_type@);
                final(self)@ == e.types && final(doc)@ == e.doc && r == e.done
            }),
    {
        let ghost t = self@;
        let ghost d = doc@;
        if let Some(c) = self.resolve(part) {
            if text::same_text(c, content_type) {
                return Ok(false);
            }
        }
        if let Some(k) = self.find_override(part.key()) {
            assert(t.overrides[k as int] == self.overrides@[k as int]@);
            let node: NodeId = self.overrides[k].node;
            if let Err(x) = doc.set_attr(node, "ContentType", content_type) {
                return Err(x);
            }
            let c: String = content_type.to_owned();
            self.overrides[k].content_type = c;
            assert(self@.overrides =~= t.overrides.update(
                k as int,
                ByName { content_type: content_type@, ..t.overrides[k as int] },
            ));
            return Ok(true);
        }
        let list: [Field<'_>; 2] = [
            Field { name: "PartName", value: part.as_str() },
            Field { name: "ContentType", value: content_type },
        ];
        assert(table::fields(list@) =~= override_fields(part@, content_type@));
        let node: NodeId = match table::add_entry(
            doc,
            self.root,
            self.prefix.as_str(),
            "Override",
            list.as_slice(),
        ) {
            Ok(n) => n,
            Err(x) => return Err(x),
        };
        let entry = OverrideEntry {
            key: part.key().to_owned(),
            content_type: content_type.to_owned(),
            node,
        };
        self.overrides.push(entry);
        assert(self@.overrides =~= t.overrides.push(entry@));
        Ok(true)
    }

    /// Takes away the type that a part has by its name. Returns whether it had
    /// one.
    pub fn remove_override(&mut self, doc: &mut Document, part: &PartName) -> (r: Result<
        bool,
        Error,
    >)
        requires
            old(doc).wf(),
            part.wf(),
        ensures
            final(doc).wf(),
            ({
                let e = override_removed(old(self)@, old(doc)@, part@);
                final(self)@ == e.types && final(doc)@ == e.doc && r == e.done
            }),
    {
        let ghost t = self@;
        let k: usize = match self.find_override(part.key()) {
            Some(k) => k,
            None => return Ok(false),
        };
        assert(t.overrides[k as int] == self.overrides@[k as int]@);
        let node: NodeId = self.overrides[k].node;
        if let Err(x) = doc.remove(node) {
            return Err(x);
        }
        let _gone = self.overrides.remove(k);
        assert(self@.overrides =~= t.overrides.remove(k as int));
        Ok(true)
    }
}

} // verus!
