//! A well-formed part as a list of events.
//!
//! Tags have to match, there is one root, and every prefix has to be declared.
use vstd::prelude::*;
use vstd::slice::slice_subrange;
use vstd::string::*;

use crate::bytes::span::Span;
use crate::error::{Error, LimitError, XmlError};
use crate::limits::Limits;
use crate::text;
use crate::xml::lexer;
use crate::xml::lexer::{EndTag, Piece, RawAttr, StartTag};
use crate::xml::name;

verus! {

/// `xml`
pub const XML: [u8; 3] = [120, 109, 108];

/// `xmlns`
pub const XMLNS: [u8; 5] = [120, 109, 108, 110, 115];

/// The namespace of the prefix `xml`.
pub open spec fn xml_uri() -> Seq<char> {
    "http://www.w3.org/XML/1998/namespace"@
}

/// A piece, and the namespace of an opening tag.
#[derive(Debug)]
pub struct Event {
    pub piece: Piece,
    pub ns: Option<String>,
}

/// A piece, and the namespace of an opening tag, as text.
pub struct Item {
    pub part: lexer::Part,
    pub ns: Option<Seq<char>>,
}

impl Event {
    pub open spec fn view(&self) -> Item {
        Item {
            part: self.piece@,
            ns: match self.ns {
                Some(s) => Some(s@),
                None => None,
            },
        }
    }
}

/// An element that is open.
struct Tag {
    name: Span,
    attrs: Vec<RawAttr>,
}

/// An element that is open.
pub struct Frame {
    pub name: Span,
    pub attrs: Seq<RawAttr>,
}

impl Tag {
    spec fn view(&self) -> Frame {
        Frame { name: self.name, attrs: self.attrs@ }
    }
}

/// The events of a part, up to its end or to what is wrong with it.
#[derive(Debug)]
pub struct Scan {
    /// The part begins with a byte order mark.
    pub bom: bool,
    pub events: Vec<Event>,
    pub failure: Option<Error>,
}

/// The events of a list, as text.
pub open spec fn items(s: Seq<Event>) -> Seq<Item> {
    s.map_values(|e: Event| e@)
}

/// The name of the attribute that declares a prefix.
pub open spec fn declaration(prefix: Seq<u8>) -> Seq<u8> {
    if prefix.len() == 0 {
        XMLNS@
    } else {
        XMLNS@ + seq![58u8] + prefix
    }
}

/// The value of the first attribute from `i` on with the name.
pub open spec fn value_of(s: Seq<u8>, attrs: Seq<RawAttr>, i: int, key: Seq<u8>) -> Option<Span>
    decreases attrs.len() - i,
{
    if !(0 <= i < attrs.len()) {
        None
    } else if lexer::cut(s, attrs[i].name) == key {
        Some(attrs[i].value)
    } else {
        value_of(s, attrs, i + 1, key)
    }
}

/// The value by which the innermost element declares a name.
pub open spec fn declared(s: Seq<u8>, frames: Seq<Frame>, key: Seq<u8>) -> Option<Span>
    decreases frames.len(),
{
    if frames.len() == 0 {
        None
    } else {
        match value_of(s, frames.last().attrs, 0, key) {
            Some(v) => Some(v),
            None => declared(s, frames.drop_last(), key),
        }
    }
}

/// The namespace of an element.
pub open spec fn element_ns(s: Seq<u8>, frames: Seq<Frame>, n: Span) -> Result<
    Option<Seq<char>>,
    Error,
> {
    let p = name::prefix(lexer::cut(s, n));
    if p == XML@ {
        Ok(Some(xml_uri()))
    } else if p == XMLNS@ {
        lexer::fault(XmlError::ReservedPrefix, n.start as int)
    } else {
        match declared(s, frames, declaration(p)) {
            None => if p.len() == 0 {
                Ok(None)
            } else {
                lexer::fault(XmlError::UndeclaredPrefix, n.start as int)
            },
            Some(v) => if v.start == v.end {
                if p.len() == 0 {
                    Ok(None)
                } else {
                    lexer::fault(XmlError::UndeclaredPrefix, n.start as int)
                }
            } else if vstd::utf8::valid_utf8(lexer::cut(s, v)) {
                Ok(Some(vstd::utf8::decode_utf8(lexer::cut(s, v))))
            } else {
                lexer::fault(XmlError::NotUtf8, v.start as int)
            },
        }
    }
}

/// What is wrong with the prefix of an attribute.
pub open spec fn prefix_fault(s: Seq<u8>, frames: Seq<Frame>, a: RawAttr) -> Option<XmlError> {
    let n = lexer::cut(s, a.name);
    let p = name::prefix(n);
    if p.len() == 0 || p == XML@ {
        None
    } else if p == XMLNS@ {
        if name::local(n) == XMLNS@ {
            Some(XmlError::ReservedPrefix)
        } else {
            None
        }
    } else {
        match declared(s, frames, declaration(p)) {
            None => Some(XmlError::UndeclaredPrefix),
            Some(v) => if v.start == v.end {
                Some(XmlError::UndeclaredPrefix)
            } else {
                None
            },
        }
    }
}

/// The first attribute from `i` on with a prefix that is wrong.
pub open spec fn attrs_fault(
    s: Seq<u8>,
    frames: Seq<Frame>,
    attrs: Seq<RawAttr>,
    i: int,
) -> Option<Error>
    decreases attrs.len() - i,
{
    if !(0 <= i < attrs.len()) {
        None
    } else {
        match prefix_fault(s, frames, attrs[i]) {
            Some(kind) => Some(Error::Xml { kind, offset: attrs[i].name.start }),
            None => attrs_fault(s, frames, attrs, i + 1),
        }
    }
}

/// What is open behind a piece.
pub struct Progress {
    pub frames: Seq<Frame>,
    pub rooted: bool,
}

/// Whether an opening tag may stand where it does, and its namespace.
pub open spec fn opened(s: Seq<u8>, t: lexer::Open, at: Progress, limits: Limits) -> Result<
    (Option<Seq<char>>, Progress),
    Error,
> {
    let frames = at.frames.push(Frame { name: t.name, attrs: t.attrs });
    if at.frames.len() == 0 && at.rooted {
        lexer::fault(XmlError::MultipleRoots, t.span.start as int)
    } else if at.frames.len() + 1 > limits.max_xml_depth {
        Err(
            Error::Limit(
                LimitError::XmlDepth {
                    got: (at.frames.len() + 1) as u64,
                    max: limits.max_xml_depth,
                },
            ),
        )
    } else {
        match element_ns(s, frames, t.name) {
            Err(e) => Err(e),
            Ok(ns) => match attrs_fault(s, frames, t.attrs, 0) {
                Some(e) => Err(e),
                None => Ok(
                    (
                        ns,
                        Progress {
                            frames: if t.empty {
                                at.frames
                            } else {
                                frames
                            },
                            rooted: true,
                        },
                    ),
                ),
            },
        }
    }
}

/// Whether a piece may stand where it does.
pub open spec fn admitted(s: Seq<u8>, part: lexer::Part, at: Progress, limits: Limits) -> Result<
    (Option<Seq<char>>, Progress),
    Error,
> {
    match part {
        lexer::Part::Text(x) => {
            let k = name::space_end(s, x.start as int);
            if at.frames.len() == 0 && k < x.end {
                lexer::fault(XmlError::UnexpectedByte(s[k]), k)
            } else {
                Ok((None, at))
            }
        },
        lexer::Part::CData(x) => if at.frames.len() == 0 {
            lexer::fault(XmlError::UnexpectedByte(60), x.start as int)
        } else {
            Ok((None, at))
        },
        lexer::Part::Start(t) => opened(s, t, at, limits),
        lexer::Part::End(t) => if at.frames.len() == 0 {
            lexer::fault(XmlError::UnbalancedTag, t.span.start as int)
        } else if lexer::cut(s, at.frames.last().name) != lexer::cut(s, t.name) {
            lexer::fault(XmlError::MismatchedTag, t.span.start as int)
        } else {
            Ok((None, Progress { frames: at.frames.drop_last(), ..at }))
        },
        _ => Ok((None, at)),
    }
}

pub open spec fn preceded(i: Seq<Item>, r: (Seq<Item>, Option<Error>)) -> (
    Seq<Item>,
    Option<Error>,
) {
    (i + r.0, r.1)
}

/// The events from `p` on; `from` is where the first piece begins.
pub open spec fn read(s: Seq<u8>, p: int, from: int, at: Progress, limits: Limits) -> (
    Seq<Item>,
    Option<Error>,
)
    decreases s.len() - p,
{
    let n = s.len() as int;
    if p >= n {
        if at.frames.len() > 0 {
            (Seq::empty(), Some(Error::Xml { kind: XmlError::UnbalancedTag, offset: n as u32 }))
        } else if !at.rooted {
            (Seq::empty(), Some(Error::Xml { kind: XmlError::NoRoot, offset: n as u32 }))
        } else {
            (Seq::empty(), None)
        }
    } else {
        match lexer::piece_at(s, p, p == from, limits) {
            Err(e) => (Seq::empty(), Some(e)),
            Ok((part, e)) => match admitted(s, part, at, limits) {
                Err(x) => (Seq::empty(), Some(x)),
                Ok((ns, next)) => if p < e <= n {
                    preceded(seq![Item { part, ns }], read(s, e, from, next, limits))
                } else {
                    arbitrary()
                },
            },
        }
    }
}

pub open spec fn has_bom(s: Seq<u8>) -> bool {
    name::stands(s, 0, lexer::BOM@)
}

/// Where the first piece begins.
pub open spec fn body_start(s: Seq<u8>) -> int {
    if has_bom(s) {
        3
    } else {
        0
    }
}

/// The events of a part.
pub open spec fn events(s: Seq<u8>, limits: Limits) -> (Seq<Item>, Option<Error>) {
    read(
        s,
        body_start(s),
        body_start(s),
        Progress { frames: Seq::empty(), rooted: false },
        limits,
    )
}

/// The spans of an attribute lie in the part.
pub open spec fn attr_inside(a: RawAttr, n: nat) -> bool {
    a.name.within(n) && a.value.within(n)
}

pub open spec fn attrs_inside(attrs: Seq<RawAttr>, n: nat) -> bool {
    forall|i: int| 0 <= i < attrs.len() ==> attr_inside(#[trigger] attrs[i], n)
}

spec fn frames_of(s: Seq<Tag>) -> Seq<Frame> {
    s.map_values(|t: Tag| t@)
}

spec fn tags_inside(s: Seq<Tag>, n: nat) -> bool {
    forall|i: int|
        0 <= i < s.len() ==> (#[trigger] s[i]).name.within(n) && attrs_inside(s[i].attrs@, n)
}

fn declaration_of(prefix: &[u8]) -> (r: Vec<u8>)
    ensures
        r@ == declaration(prefix@),
{
    let mut v: Vec<u8> = Vec::new();
    v.push(120);
    v.push(109);
    v.push(108);
    v.push(110);
    v.push(115);
    if prefix.len() > 0 {
        v.push(58);
        let mut i: usize = 0;
        assert(v@ =~= XMLNS@ + seq![58u8] + prefix@.take(0));
        while i < prefix.len()
            invariant
                i <= prefix@.len(),
                v@ == XMLNS@ + seq![58u8] + prefix@.take(i as int),
            decreases prefix@.len() - i,
        {
            v.push(prefix[i]);
            i = i + 1;
            assert(v@ =~= XMLNS@ + seq![58u8] + prefix@.take(i as int));
        }
        assert(prefix@.take(i as int) =~= prefix@);
    } else {
        assert(v@ =~= XMLNS@);
    }
    v
}

fn find_value(s: &[u8], attrs: &Vec<RawAttr>, key: &[u8]) -> (r: Option<Span>)
    requires
        attrs_inside(attrs@, s@.len()),
    ensures
        r == value_of(s@, attrs@, 0, key@),
        r matches Some(v) ==> v.within(s@.len()),
{
    let mut i: usize = 0;
    while i < attrs.len()
        invariant
            i <= attrs@.len(),
            attrs_inside(attrs@, s@.len()),
            value_of(s@, attrs@, i as int, key@) == value_of(s@, attrs@, 0, key@),
        decreases attrs@.len() - i,
    {
        let a: RawAttr = attrs[i];
        assert(attr_inside(attrs@[i as int], s@.len()));
        if name::same(slice_subrange(s, a.name.start as usize, a.name.end as usize), key) {
            return Some(a.value);
        }
        i = i + 1;
    }
    None
}

fn find_declared(s: &[u8], tags: &Vec<Tag>, key: &[u8]) -> (r: Option<Span>)
    requires
        tags_inside(tags@, s@.len()),
    ensures
        r == declared(s@, frames_of(tags@), key@),
        r matches Some(v) ==> v.within(s@.len()),
{
    let mut n: usize = tags.len();
    let ghost all = frames_of(tags@);
    assert(all.take(n as int) =~= all);
    while n > 0
        invariant
            n <= tags@.len(),
            all == frames_of(tags@),
            tags_inside(tags@, s@.len()),
            declared(s@, all.take(n as int), key@) == declared(s@, all, key@),
        decreases n,
    {
        assert(tags@[n - 1].name.within(s@.len()));
        assert(all.take(n as int).last() == tags@[n - 1]@);
        assert(all.take(n as int).drop_last() =~= all.take(n - 1));
        if let Some(v) = find_value(s, &tags[n - 1].attrs, key) {
            return Some(v);
        }
        n = n - 1;
    }
    None
}

fn read_ns(s: &[u8], tags: &Vec<Tag>, n: Span) -> (r: Result<Option<String>, Error>)
    requires
        s@.len() <= u32::MAX,
        n.within(s@.len()),
        tags_inside(tags@, s@.len()),
    ensures
        match r {
            Ok(x) => element_ns(s@, frames_of(tags@), n) == Ok::<Option<Seq<char>>, Error>(
                match x {
                    Some(t) => Some(t@),
                    None => None,
                },
            ),
            Err(e) => element_ns(s@, frames_of(tags@), n) == Err::<Option<Seq<char>>, Error>(e),
        },
{
    let p = name::prefix_of(slice_subrange(s, n.start as usize, n.end as usize));
    if name::same(p, XML.as_slice()) {
        return Ok(Some("http://www.w3.org/XML/1998/namespace".to_owned()));
    }
    if name::same(p, XMLNS.as_slice()) {
        return Err(lexer::fail(XmlError::ReservedPrefix, n.start as usize));
    }
    let key = declaration_of(p);
    let v: Span = match find_declared(s, tags, key.as_slice()) {
        Some(v) => v,
        None => {
            if p.len() == 0 {
                return Ok(None);
            }
            return Err(lexer::fail(XmlError::UndeclaredPrefix, n.start as usize));
        },
    };
    if v.start == v.end {
        if p.len() == 0 {
            return Ok(None);
        }
        return Err(lexer::fail(XmlError::UndeclaredPrefix, n.start as usize));
    }
    match text::utf8_text(slice_subrange(s, v.start as usize, v.end as usize)) {
        Ok(t) => Ok(Some(t)),
        Err(_) => Err(lexer::fail(XmlError::NotUtf8, v.start as usize)),
    }
}

fn check_prefix(s: &[u8], tags: &Vec<Tag>, a: RawAttr) -> (r: Option<XmlError>)
    requires
        s@.len() <= u32::MAX,
        attr_inside(a, s@.len()),
        tags_inside(tags@, s@.len()),
    ensures
        r == prefix_fault(s@, frames_of(tags@), a),
{
    let n = slice_subrange(s, a.name.start as usize, a.name.end as usize);
    let p = name::prefix_of(n);
    if p.len() == 0 || name::same(p, XML.as_slice()) {
        return None;
    }
    if name::same(p, XMLNS.as_slice()) {
        if name::same(name::local_of(n), XMLNS.as_slice()) {
            return Some(XmlError::ReservedPrefix);
        }
        return None;
    }
    let key = declaration_of(p);
    match find_declared(s, tags, key.as_slice()) {
        None => Some(XmlError::UndeclaredPrefix),
        Some(v) => {
            if v.start == v.end {
                Some(XmlError::UndeclaredPrefix)
            } else {
                None
            }
        },
    }
}

fn check_prefixes(s: &[u8], tags: &Vec<Tag>, attrs: &Vec<RawAttr>) -> (r: Option<Error>)
    requires
        s@.len() <= u32::MAX,
        attrs_inside(attrs@, s@.len()),
        tags_inside(tags@, s@.len()),
    ensures
        r == attrs_fault(s@, frames_of(tags@), attrs@, 0),
{
    let mut i: usize = 0;
    while i < attrs.len()
        invariant
            i <= attrs@.len(),
            s@.len() <= u32::MAX,
            attrs_inside(attrs@, s@.len()),
            tags_inside(tags@, s@.len()),
            attrs_fault(s@, frames_of(tags@), attrs@, i as int) == attrs_fault(
                s@,
                frames_of(tags@),
                attrs@,
                0,
            ),
        decreases attrs@.len() - i,
    {
        let a: RawAttr = attrs[i];
        assert(attr_inside(attrs@[i as int], s@.len()));
        if let Some(kind) = check_prefix(s, tags, a) {
            return Some(Error::Xml { kind, offset: a.name.start });
        }
        i = i + 1;
    }
    None
}

fn copy_attrs(attrs: &Vec<RawAttr>) -> (r: Vec<RawAttr>)
    ensures
        r@ == attrs@,
{
    let mut v: Vec<RawAttr> = Vec::new();
    let mut i: usize = 0;
    while i < attrs.len()
        invariant
            i <= attrs@.len(),
            v@ == attrs@.take(i as int),
        decreases attrs@.len() - i,
    {
        v.push(attrs[i]);
        i = i + 1;
        assert(v@ =~= attrs@.take(i as int));
    }
    assert(v@ =~= attrs@);
    v
}

struct Reader<'a> {
    src: &'a [u8],
    limits: &'a Limits,
    tags: Vec<Tag>,
    rooted: bool,
}

impl<'a> Reader<'a> {
    spec fn wf(&self) -> bool {
        self.src@.len() <= u32::MAX && tags_inside(self.tags@, self.src@.len())
    }

    spec fn progress(&self) -> Progress {
        Progress { frames: frames_of(self.tags@), rooted: self.rooted }
    }

    /// Lets in an opening tag. Returns its namespace.
    fn open(&mut self, t: &StartTag) -> (r: Result<Option<String>, Error>)
        requires
            old(self).wf(),
            old(self).tags@.len() < u32::MAX,
            t.name.within(old(self).src@.len()),
            attrs_inside(t.attrs@, old(self).src@.len()),
        ensures
            final(self).src == old(self).src,
            final(self).limits == old(self).limits,
            match r {
                Ok(x) => {
                    &&& final(self).wf()
                    &&& final(self).tags@.len() <= old(self).tags@.len() + 1
                    &&& opened(old(self).src@, t@, old(self).progress(), *old(self).limits) == Ok::<
                        (Option<Seq<char>>, Progress),
                        Error,
                    >(
                        (
                            match x {
                                Some(u) => Some(u@),
                                None => None,
                            },
                            final(self).progress(),
                        ),
                    )
                },
                Err(e) => opened(old(self).src@, t@, old(self).progress(), *old(self).limits)
                    == Err::<(Option<Seq<char>>, Progress), Error>(e),
            },
    {
        let n: usize = self.tags.len();
        if n == 0 && self.rooted {
            return Err(lexer::fail(XmlError::MultipleRoots, t.span.start as usize));
        }
        if let Err(e) = self.limits.check_depth(n as u64 + 1) {
            return Err(e);
        }
        let ghost before = self.tags@;
        self.tags.push(Tag { name: t.name, attrs: copy_attrs(&t.attrs) });
        proof {
            assert(frames_of(self.tags@) =~= frames_of(before).push(
                Frame { name: t.name, attrs: t.attrs@ },
            ));
        }
        let ns: Option<String> = match read_ns(self.src, &self.tags, t.name) {
            Ok(x) => x,
            Err(e) => return Err(e),
        };
        if let Some(e) = check_prefixes(self.src, &self.tags, &t.attrs) {
            return Err(e);
        }
        if t.empty {
            let _t = self.tags.pop();
            proof {
                assert(frames_of(self.tags@) =~= frames_of(before));
            }
        }
        self.rooted = true;
        Ok(ns)
    }

    /// Lets in a closing tag.
    fn close(&mut self, t: EndTag) -> (r: Result<(), Error>)
        requires
            old(self).wf(),
            t.name.within(old(self).src@.len()),
        ensures
            final(self).src == old(self).src,
            final(self).limits == old(self).limits,
            match r {
                Ok(_) => {
                    &&& final(self).wf()
                    &&& final(self).tags@.len() < old(self).tags@.len()
                    &&& admitted(
                        old(self).src@,
                        lexer::Part::End(t),
                        old(self).progress(),
                        *old(self).limits,
                    ) == Ok::<(Option<Seq<char>>, Progress), Error>((None, final(self).progress()))
                },
                Err(e) => admitted(
                    old(self).src@,
                    lexer::Part::End(t),
                    old(self).progress(),
                    *old(self).limits,
                ) == Err::<(Option<Seq<char>>, Progress), Error>(e),
            },
    {
        let n: usize = self.tags.len();
        if n == 0 {
            return Err(lexer::fail(XmlError::UnbalancedTag, t.span.start as usize));
        }
        let top: Span = self.tags[n - 1].name;
        assert(self.tags@[n - 1].name.within(self.src@.len()));
        let a = slice_subrange(self.src, top.start as usize, top.end as usize);
        let b = slice_subrange(self.src, t.name.start as usize, t.name.end as usize);
        if !name::same(a, b) {
            return Err(lexer::fail(XmlError::MismatchedTag, t.span.start as usize));
        }
        let ghost before = self.tags@;
        let _t = self.tags.pop();
        proof {
            assert(frames_of(self.tags@) =~= frames_of(before).drop_last());
        }
        Ok(())
    }

    /// Lets in a piece. Returns the namespace of an opening tag.
    fn allow(&mut self, piece: &Piece) -> (r: Result<Option<String>, Error>)
        requires
            old(self).wf(),
            old(self).tags@.len() < u32::MAX,
            part_inside(piece@, old(self).src@.len()),
        ensures
            final(self).src == old(self).src,
            final(self).limits == old(self).limits,
            match r {
                Ok(x) => {
                    &&& final(self).wf()
                    &&& final(self).tags@.len() <= old(self).tags@.len() + 1
                    &&& admitted(old(self).src@, piece@, old(self).progress(), *old(self).limits)
                        == Ok::<(Option<Seq<char>>, Progress), Error>(
                        (
                            match x {
                                Some(u) => Some(u@),
                                None => None,
                            },
                            final(self).progress(),
                        ),
                    )
                },
                Err(e) => admitted(old(self).src@, piece@, old(self).progress(), *old(self).limits)
                    == Err::<(Option<Seq<char>>, Progress), Error>(e),
            },
    {
        match piece {
            Piece::Text(x) => {
                if self.tags.len() == 0 {
                    let k: usize = name::skip_space(self.src, x.start as usize);
                    if k < x.end as usize {
                        return Err(lexer::fail(XmlError::UnexpectedByte(self.src[k]), k));
                    }
                }
                Ok(None)
            },
            Piece::CData(x) => {
                if self.tags.len() == 0 {
                    return Err(lexer::fail(XmlError::UnexpectedByte(60), x.start as usize));
                }
                Ok(None)
            },
            Piece::Start(t) => self.open(t),
            Piece::End(t) => match self.close(*t) {
                Ok(_) => Ok(None),
                Err(e) => Err(e),
            },
            _ => Ok(None),
        }
    }
}

/// The spans that the reader follows lie in the part.
pub open spec fn part_inside(p: lexer::Part, n: nat) -> bool {
    match p {
        lexer::Part::Text(x) => x.within(n),
        lexer::Part::Start(t) => t.name.within(n) && attrs_inside(t.attrs, n),
        lexer::Part::End(t) => t.name.within(n),
        _ => true,
    }
}

pub(crate) proof fn lemma_attr_inside(s: Seq<u8>, i: int, limits: Limits)
    requires
        0 <= i <= s.len() <= u32::MAX,
    ensures
        match lexer::attr_at(s, i, limits) {
            Ok((a, e)) => attr_inside(a, s.len()) && i < e <= s.len(),
            Err(_) => true,
        },
{
    name::lemma_space_end(s, i);
    let from = name::space_end(s, i);
    name::lemma_name_end(s, from);
    let to = name::name_end(s, from);
    name::lemma_space_end(s, to);
    let eq = name::space_end(s, to);
    if eq < s.len() {
        name::lemma_space_end(s, eq + 1);
        let q = name::space_end(s, eq + 1);
        if q < s.len() {
            name::lemma_find(s, q + 1, s[q]);
        }
    }
}

proof fn lemma_tag_inside(
    s: Seq<u8>,
    p: int,
    n: Span,
    attrs: Seq<RawAttr>,
    i: int,
    limits: Limits,
)
    requires
        0 <= p <= i <= s.len() <= u32::MAX,
        attrs_inside(attrs, s.len()),
    ensures
        match lexer::tag_at(s, p, n, attrs, i, limits) {
            Ok((t, e)) => t.name == n && attrs_inside(t.attrs, s.len()),
            Err(_) => true,
        },
    decreases s.len() - i,
{
    lemma_attr_inside(s, i, limits);
    if let Ok((a, k)) = lexer::attr_at(s, i, limits) {
        let more = attrs.push(a);
        assert forall|j: int| 0 <= j < more.len() implies attr_inside(
            #[trigger] more[j],
            s.len(),
        ) by {
            if j < attrs.len() {
                assert(attr_inside(attrs[j], s.len()));
            }
        }
        lemma_tag_inside(s, p, n, more, k, limits);
    }
}

/// The spans of a piece lie in the part.
proof fn lemma_piece_inside(s: Seq<u8>, p: int, first: bool, limits: Limits)
    requires
        0 <= p < s.len() <= u32::MAX,
    ensures
        match lexer::piece_at(s, p, first, limits) {
            Ok((t, e)) => part_inside(t, s.len()),
            Err(_) => true,
        },
{
    name::lemma_find(s, p, 60);
    name::lemma_name_end(s, p + 1);
    if p + 2 <= s.len() {
        name::lemma_name_end(s, p + 2);
    }
    if let Ok(e) = lexer::name_at(s, p + 1, limits) {
        lemma_tag_inside(s, p, lexer::sp(p + 1, e), Seq::empty(), e, limits);
    }
}

/// Reads the events of a part.
pub fn scan(src: &[u8], limits: &Limits) -> (r: Scan)
    requires
        src@.len() <= u32::MAX,
    ensures
        r.bom == has_bom(src@),
        (items(r.events@), r.failure) == events(src@, *limits),
{
    let n: usize = src.len();
    let bom: bool = name::text_at(src, 0, lexer::BOM.as_slice());
    let from: usize = if bom {
        3
    } else {
        0
    };
    let mut out: Vec<Event> = Vec::new();
    let mut rd = Reader { src, limits, tags: Vec::new(), rooted: false };
    let mut p: usize = from;
    let ghost start = rd.progress();
    proof {
        assert(start.frames =~= Seq::empty());
        assert(items(out@) + events(src@, *limits).0 =~= events(src@, *limits).0);
    }
    while p < n
        invariant
            n == src@.len(),
            n <= u32::MAX,
            from <= p <= n,
            bom == has_bom(src@),
            from == body_start(src@),
            rd.wf(),
            rd.src == src,
            rd.limits == limits,
            rd.tags@.len() <= p,
            preceded(items(out@), read(src@, p as int, from as int, rd.progress(), *limits))
                == events(src@, *limits),
        decreases n - p,
    {
        let ghost before = out@;
        let ghost rest = read(src@, p as int, from as int, rd.progress(), *limits);
        proof {
            lemma_piece_inside(src@, p as int, p == from, *limits);
        }
        let (piece, e): (Piece, usize) = match lexer::scan_piece(src, p, p == from, limits) {
            Ok(x) => x,
            Err(x) => {
                assert(items(out@) + rest.0 =~= items(out@));
                return Scan { bom, events: out, failure: Some(x) };
            },
        };
        let ns: Option<String> = match rd.allow(&piece) {
            Ok(x) => x,
            Err(x) => {
                assert(items(out@) + rest.0 =~= items(out@));
                return Scan { bom, events: out, failure: Some(x) };
            },
        };
        let ghost next = read(src@, e as int, from as int, rd.progress(), *limits);
        let ev = Event { piece, ns };
        let ghost item = ev@;
        out.push(ev);
        proof {
            assert(items(before) + (seq![item] + next.0) =~= items(out@) + next.0);
        }
        p = e;
    }
    assert(items(out@) + Seq::<Item>::empty() =~= items(out@));
    let failure: Option<Error> = if rd.tags.len() > 0 {
        Some(lexer::fail(XmlError::UnbalancedTag, n))
    } else if !rd.rooted {
        Some(lexer::fail(XmlError::NoRoot, n))
    } else {
        None
    };
    Scan { bom, events: out, failure }
}

} // verus!
