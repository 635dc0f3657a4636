//! What the pieces of a part stand for.
use vstd::prelude::*;
use vstd::string::*;

use crate::error::Error;
use crate::limits::Limits;
use crate::text;
use crate::xml::entity;
use crate::xml::escape;
use crate::xml::lexer;
use crate::xml::lexer::{Part, RawAttr};
use crate::xml::name;
use crate::xml::reader;
use crate::xml::reader::{Frame, Progress};

verus! {

/// The text that was read, when it could be.
pub open spec fn read(s: Seq<char>, attr: bool) -> Option<Seq<char>> {
    match entity::decoded(s, 0, attr) {
        Ok(t) => Some(t),
        Err(_) => None,
    }
}

/// `t` before a text that was read.
pub open spec fn joined(t: Seq<char>, r: Option<Seq<char>>) -> Option<Seq<char>> {
    match r {
        Some(u) => Some(t + u),
        None => None,
    }
}

spec fn opt(r: Result<Seq<char>, Error>) -> Option<Seq<char>> {
    match r {
        Ok(t) => Some(t),
        Err(_) => None,
    }
}

proof fn lemma_find_behind(a: Seq<char>, s: Seq<char>, i: int, c: char)
    requires
        0 <= i <= s.len(),
    ensures
        text::find(a + s, a.len() + i, c) == match text::find(s, i, c) {
            Some(k) => Some(a.len() + k),
            None => None,
        },
    decreases s.len() - i,
{
    if i < s.len() {
        assert((a + s)[a.len() + i] == s[i]);
        lemma_find_behind(a, s, i + 1, c);
    }
}

/// A text behind another one is read alike.
proof fn lemma_behind(a: Seq<char>, s: Seq<char>, i: int, attr: bool)
    requires
        0 <= i <= s.len(),
    ensures
        opt(entity::decoded(a + s, a.len() + i, attr)) == opt(entity::decoded(s, i, attr)),
    decreases s.len() - i,
{
    if i < s.len() {
        let t = a + s;
        let n = a.len() + i;
        assert(t[n] == s[i]);
        if s[i] == '&' {
            text::lemma_find(s, i + 1, ';');
            lemma_find_behind(a, s, i + 1, ';');
            if let Some(k) = text::find(s, i + 1, ';') {
                assert(t.subrange(n + 1, a.len() + k) =~= s.subrange(i + 1, k));
                lemma_behind(a, s, k + 1, attr);
            }
        } else {
            if i + 1 < s.len() {
                assert(t[n + 1] == s[i + 1]);
                if s[i] == '\r' && s[i + 1] == '\n' {
                    lemma_behind(a, s, i + 2, attr);
                }
            }
            lemma_behind(a, s, i + 1, attr);
        }
    }
}

/// A character that is no reference and no line end stands for itself; in the
/// value of an attribute a tab and a line end stand for a blank.
pub proof fn lemma_plain_character(c: char, s: Seq<char>, attr: bool)
    requires
        c != '&',
        c != '\r',
    ensures
        read(seq![c] + s, attr) == joined(
            seq![
                if attr && (c == '\t' || c == '\n') {
                    ' '
                } else {
                    c
                },
            ],
            read(s, attr),
        ),
{
    let t = seq![c] + s;
    assert(t[0] == c);
    lemma_behind(seq![c], s, 0, attr);
}

/// A carriage return with the line feed behind it, or alone, is one line end, and
/// one blank in the value of an attribute.
pub proof fn lemma_line_ends_are_one(s: Seq<char>, attr: bool)
    ensures
        ({
            let nl = seq![
                if attr {
                    ' '
                } else {
                    '\n'
                },
            ];
            &&& read(seq!['\r', '\n'] + s, attr) == joined(nl, read(s, attr))
            &&& (s.len() > 0 ==> s[0] != '\n') ==> read(seq!['\r'] + s, attr) == joined(
                nl,
                read(s, attr),
            )
        }),
{
    let t = seq!['\r', '\n'] + s;
    assert(t[0] == '\r' && t[1] == '\n');
    lemma_behind(seq!['\r', '\n'], s, 0, attr);
    let u = seq!['\r'] + s;
    assert(u[0] == '\r');
    if s.len() > 0 {
        assert(u[1] == s[0]);
    }
    lemma_behind(seq!['\r'], s, 0, attr);
}

/// A reference before a text is read as its character before that text.
proof fn lemma_reference_first(n: Seq<char>, s: Seq<char>, attr: bool, c: char)
    requires
        forall|k: int| 0 <= k < n.len() ==> #[trigger] n[k] != ';',
        n.len() > 0,
        if n[0] == '#' {
            entity::char_ref(n.skip(1)) == Some(c)
        } else {
            entity::named(n) == Some(c)
        },
    ensures
        read(seq!['&'] + n + seq![';'] + s, attr) == joined(seq![c], read(s, attr)),
{
    let a = seq!['&'] + n + seq![';'];
    let t = a + s;
    assert(t[0] == '&');
    let k = n.len() + 1;
    assert(t[k as int] == ';');
    text::lemma_find(t, 1, ';');
    assert(text::find(t, 1, ';') == Some(k as int)) by {
        let f = text::find(t, 1, ';');
        if f is None {
            assert(t[k as int] != ';');
        } else if f->0 > k {
            assert(t[k as int] != ';');
        } else if f->0 < k {
            assert(t[f->0] == n[f->0 - 1]);
        }
    }
    assert(t.subrange(1, k as int) =~= n);
    lemma_behind(a, s, 0, attr);
}

/// The five references by name.
pub proof fn lemma_references_by_name(s: Seq<char>, attr: bool)
    ensures
        read("&lt;"@ + s, attr) == joined(seq!['<'], read(s, attr)),
        read("&gt;"@ + s, attr) == joined(seq!['>'], read(s, attr)),
        read("&amp;"@ + s, attr) == joined(seq!['&'], read(s, attr)),
        read("&quot;"@ + s, attr) == joined(seq!['"'], read(s, attr)),
        read("&apos;"@ + s, attr) == joined(seq!['\''], read(s, attr)),
{
    reveal_strlit("&lt;");
    reveal_strlit("&gt;");
    reveal_strlit("&amp;");
    reveal_strlit("&quot;");
    reveal_strlit("&apos;");
    reveal_strlit("lt");
    reveal_strlit("gt");
    reveal_strlit("amp");
    reveal_strlit("quot");
    reveal_strlit("apos");
    assert("lt"@.len() == 2 && "gt"@.len() == 2 && "amp"@.len() == 3 && "quot"@.len() == 4
        && "apos"@.len() == 4);
    assert("gt"@[0] != "lt"@[0]);
    assert("apos"@[0] != "quot"@[0]);
    assert(seq!['&'] + "lt"@ + seq![';'] =~= "&lt;"@);
    assert(seq!['&'] + "gt"@ + seq![';'] =~= "&gt;"@);
    assert(seq!['&'] + "amp"@ + seq![';'] =~= "&amp;"@);
    assert(seq!['&'] + "quot"@ + seq![';'] =~= "&quot;"@);
    assert(seq!['&'] + "apos"@ + seq![';'] =~= "&apos;"@);
    lemma_reference_first("lt"@, s, attr, '<');
    lemma_reference_first("gt"@, s, attr, '>');
    lemma_reference_first("amp"@, s, attr, '&');
    lemma_reference_first("quot"@, s, attr, '"');
    lemma_reference_first("apos"@, s, attr, '\'');
}

/// A digit of a number to a base.
pub open spec fn digit(v: nat, small: bool) -> char {
    if small {
        seq!['0', '1', '2', '3', '4', '5', '6', '7', '8', '9', 'a', 'b', 'c', 'd', 'e', 'f'][v as int]
    } else {
        seq!['0', '1', '2', '3', '4', '5', '6', '7', '8', '9', 'A', 'B', 'C', 'D', 'E', 'F'][v as int]
    }
}

/// A number to a base, in small letters or in capitals.
pub open spec fn spelled(n: nat, base: nat, small: bool) -> Seq<char>
    decreases n,
{
    if base < 2 || n < base {
        seq![digit(n, small)]
    } else {
        proof {
            assert(n / base < n) by (nonlinear_arith)
                requires
                    n >= base,
                    base >= 2,
            ;
        }
        spelled(n / base, base, small).push(digit(n % base, small))
    }
}

proof fn lemma_spelled(n: nat, base: nat, small: bool)
    requires
        base == 10 || base == 16,
    ensures
        spelled(n, base, small).len() > 0,
        entity::all_digits(spelled(n, base, small), base),
        entity::number(spelled(n, base, small), base) == n,
        forall|k: int|
            0 <= k < spelled(n, base, small).len() ==> #[trigger] spelled(n, base, small)[k] != ';'
                && spelled(n, base, small)[k] != 'x',
    decreases n,
{
    let s = spelled(n, base, small);
    lemma_digit(n % base, small);
    if n < base {
        assert(n % base == n);
        assert(s.drop_last() =~= Seq::<char>::empty());
        reveal_with_fuel(entity::number, 2);
        assert forall|k: int| 0 <= k < s.len() implies entity::digit_value(#[trigger] s[k]) < base
            && s[k] != ';' && s[k] != 'x' by {}
    } else {
        assert(n / base < n) by (nonlinear_arith)
            requires
                n >= base,
                base >= 2,
        ;
        lemma_spelled(n / base, base, small);
        let r = spelled(n / base, base, small);
        assert(s.drop_last() =~= r);
        assert(s.last() == digit(n % base, small));
        assert(n / base * base + n % base == n) by (nonlinear_arith)
            requires
                base >= 2,
        ;
        assert forall|k: int| 0 <= k < s.len() implies entity::digit_value(#[trigger] s[k]) < base
            && s[k] != ';' && s[k] != 'x' by {
            if k < r.len() {
                assert(s[k] == r[k]);
            }
        }
    }
}

proof fn lemma_digit(v: nat, small: bool)
    requires
        v < 16,
    ensures
        entity::digit_value(digit(v, small)) == v,
        digit(v, small) != ';',
        digit(v, small) != 'x',
{
}

proof fn lemma_decimal_ref(c: char, small: bool)
    requires
        escape::legal(c),
    ensures
        ({
            let a = seq!['#'] + spelled(c as nat, 10, small);
            &&& entity::char_ref(a.skip(1)) == Some(c)
            &&& a[0] == '#'
            &&& forall|k: int| 0 <= k < a.len() ==> #[trigger] a[k] != ';'
        }),
{
    let d = spelled(c as nat, 10, small);
    let a = seq!['#'] + d;
    lemma_spelled(c as nat, 10, small);
    assert(a.skip(1) =~= d);
    assert(d[0] != 'x');
    assert forall|k: int| 0 <= k < a.len() implies #[trigger] a[k] != ';' by {
        if k > 0 {
            assert(a[k] == d[k - 1]);
        }
    }
}

proof fn lemma_hexadecimal_ref(c: char, small: bool)
    requires
        escape::legal(c),
    ensures
        ({
            let b = seq!['#', 'x'] + spelled(c as nat, 16, small);
            &&& entity::char_ref(b.skip(1)) == Some(c)
            &&& b[0] == '#'
            &&& forall|k: int| 0 <= k < b.len() ==> #[trigger] b[k] != ';'
        }),
{
    let h = spelled(c as nat, 16, small);
    let b = seq!['#', 'x'] + h;
    let u = seq!['x'] + h;
    lemma_spelled(c as nat, 16, small);
    assert(b.skip(1) =~= u);
    assert(u[0] == 'x');
    assert(u.skip(1) =~= h);
    assert forall|k: int| 0 <= k < b.len() implies #[trigger] b[k] != ';' by {
        if k > 1 {
            assert(b[k] == h[k - 2]);
        }
    }
}

/// A reference by number stands for the character with that number, be it
/// written in decimal, or to the base of sixteen behind an `x`.
pub proof fn lemma_references_by_number(c: char, s: Seq<char>, attr: bool, small: bool)
    requires
        escape::legal(c),
    ensures
        read(seq!['&', '#'] + spelled(c as nat, 10, small) + seq![';'] + s, attr) == joined(
            seq![c],
            read(s, attr),
        ),
        read(seq!['&', '#', 'x'] + spelled(c as nat, 16, small) + seq![';'] + s, attr) == joined(
            seq![c],
            read(s, attr),
        ),
{
    let n = c as nat;
    let d = spelled(n, 10, small);
    let h = spelled(n, 16, small);
    let a = seq!['#'] + d;
    let b = seq!['#', 'x'] + h;
    lemma_decimal_ref(c, small);
    lemma_hexadecimal_ref(c, small);
    lemma_reference_first(a, s, attr, c);
    lemma_reference_first(b, s, attr, c);
    assert(seq!['&'] + a + seq![';'] + s =~= seq!['&', '#'] + d + seq![';'] + s);
    assert(seq!['&'] + b + seq![';'] + s =~= seq!['&', '#', 'x'] + h + seq![';'] + s);
}

/// An attribute declares a prefix, or the namespace of names without one.
pub open spec fn declares(s: Seq<u8>, a: RawAttr, prefix: Seq<u8>) -> bool {
    lexer::cut(s, a.name) == if prefix.len() == 0 {
        seq![120u8, 109, 108, 110, 115]
    } else {
        seq![120u8, 109, 108, 110, 115, 58] + prefix
    }
}

/// The first attribute of a tag that declares a prefix has the value `v`.
pub open spec fn tag_declares(s: Seq<u8>, attrs: Seq<RawAttr>, prefix: Seq<u8>, v: Seq<u8>) -> bool {
    exists|k: int|
        0 <= k < attrs.len() && declares(s, #[trigger] attrs[k], prefix) && lexer::cut(
            s,
            attrs[k].value,
        ) == v && forall|j: int| 0 <= j < k ==> !declares(s, #[trigger] attrs[j], prefix)
}

pub open spec fn tag_silent(s: Seq<u8>, attrs: Seq<RawAttr>, prefix: Seq<u8>) -> bool {
    forall|j: int| 0 <= j < attrs.len() ==> !declares(s, #[trigger] attrs[j], prefix)
}

proof fn lemma_declares(s: Seq<u8>, a: RawAttr, prefix: Seq<u8>)
    ensures
        declares(s, a, prefix) == (lexer::cut(s, a.name) == reader::declaration(prefix)),
{
    assert(reader::XMLNS@ =~= seq![120u8, 109, 108, 110, 115]);
    assert(reader::XMLNS@ + seq![58u8] + prefix =~= seq![120u8, 109, 108, 110, 115, 58] + prefix);
}

proof fn lemma_value_of(s: Seq<u8>, attrs: Seq<RawAttr>, from: int, prefix: Seq<u8>)
    requires
        0 <= from <= attrs.len(),
    ensures
        match reader::value_of(s, attrs, from, reader::declaration(prefix)) {
            Some(v) => exists|k: int|
                from <= k < attrs.len() && declares(s, #[trigger] attrs[k], prefix)
                    && attrs[k].value == v && forall|j: int|
                    from <= j < k ==> !declares(s, #[trigger] attrs[j], prefix),
            None => forall|j: int|
                from <= j < attrs.len() ==> !declares(s, #[trigger] attrs[j], prefix),
        },
    decreases attrs.len() - from,
{
    if from < attrs.len() {
        lemma_declares(s, attrs[from], prefix);
        if declares(s, attrs[from], prefix) {
            assert(declares(s, attrs[from], prefix));
        } else {
            lemma_value_of(s, attrs, from + 1, prefix);
            if let Some(v) = reader::value_of(s, attrs, from + 1, reader::declaration(prefix)) {
                let k = choose|k: int|
                    from + 1 <= k < attrs.len() && declares(s, #[trigger] attrs[k], prefix)
                        && attrs[k].value == v && forall|j: int|
                        from + 1 <= j < k ==> !declares(s, #[trigger] attrs[j], prefix);
                assert(declares(s, attrs[k], prefix));
            }
        }
    }
}

/// The declaration of a prefix that holds is that of the innermost open element
/// that declares it; there is none only when no open element declares it.
pub proof fn lemma_innermost_declaration_holds(s: Seq<u8>, frames: Seq<Frame>, prefix: Seq<u8>)
    ensures
        match reader::declared(s, frames, reader::declaration(prefix)) {
            Some(v) => exists|m: int|
                0 <= m < frames.len() && tag_declares(
                    s,
                    (#[trigger] frames[m]).attrs,
                    prefix,
                    lexer::cut(s, v),
                ) && forall|j: int|
                    m < j < frames.len() ==> tag_silent(s, (#[trigger] frames[j]).attrs, prefix),
            None => forall|j: int|
                0 <= j < frames.len() ==> tag_silent(s, (#[trigger] frames[j]).attrs, prefix),
        },
    decreases frames.len(),
{
    if frames.len() > 0 {
        let less = frames.drop_last();
        let n = frames.len() - 1;
        lemma_value_of(s, frames.last().attrs, 0, prefix);
        match reader::value_of(s, frames.last().attrs, 0, reader::declaration(prefix)) {
            Some(v) => {
                assert(tag_declares(s, frames[n].attrs, prefix, lexer::cut(s, v)));
            },
            None => {
                lemma_innermost_declaration_holds(s, less, prefix);
                assert(tag_silent(s, frames[n].attrs, prefix));
                if let Some(v) = reader::declared(s, less, reader::declaration(prefix)) {
                    let m = choose|m: int|
                        0 <= m < less.len() && tag_declares(
                            s,
                            (#[trigger] less[m]).attrs,
                            prefix,
                            lexer::cut(s, v),
                        ) && forall|j: int|
                            m < j < less.len() ==> tag_silent(s, (#[trigger] less[j]).attrs, prefix);
                    assert(frames[m] == less[m]);
                    assert forall|j: int| m < j < frames.len() implies tag_silent(
                        s,
                        (#[trigger] frames[j]).attrs,
                        prefix,
                    ) by {
                        if j < n {
                            assert(frames[j] == less[j]);
                        }
                    }
                } else {
                    assert forall|j: int| 0 <= j < frames.len() implies tag_silent(
                        s,
                        (#[trigger] frames[j]).attrs,
                        prefix,
                    ) by {
                        if j < n {
                            assert(frames[j] == less[j]);
                        }
                    }
                }
            },
        }
    }
}

/// The namespace of an element is what the declaration that holds for its prefix
/// says; an empty declaration, and none, leave a name without a prefix in no
/// namespace and refuse a prefix.
pub proof fn lemma_namespace_is_declared(s: Seq<u8>, frames: Seq<Frame>, n: crate::bytes::span::Span)
    ensures
        ({
            let p = name::prefix(lexer::cut(s, n));
            let r = reader::element_ns(s, frames, n);
            let v = reader::declared(s, frames, reader::declaration(p));
            &&& p == seq![120u8, 109, 108] ==> r == Ok::<Option<Seq<char>>, Error>(
                Some("http://www.w3.org/XML/1998/namespace"@),
            )
            &&& p == seq![120u8, 109, 108, 110, 115] ==> r is Err
            &&& p != seq![120u8, 109, 108] && p != seq![120u8, 109, 108, 110, 115] ==> if v is None
                || v->0.start == v->0.end {
                if p.len() == 0 {
                    r == Ok::<Option<Seq<char>>, Error>(None)
                } else {
                    r is Err
                }
            } else if vstd::utf8::valid_utf8(lexer::cut(s, v->0)) {
                r == Ok::<Option<Seq<char>>, Error>(
                    Some(vstd::utf8::decode_utf8(lexer::cut(s, v->0))),
                )
            } else {
                r is Err
            }
        }),
{
    assert(reader::XML@ =~= seq![120u8, 109, 108]);
    assert(reader::XMLNS@ =~= seq![120u8, 109, 108, 110, 115]);
}

/// A closing tag is let in only where an element is open and has the same name,
/// and it closes the innermost one.
pub proof fn lemma_closing_tag_matches(
    s: Seq<u8>,
    t: lexer::EndTag,
    at: Progress,
    limits: Limits,
)
    ensures
        match reader::admitted(s, Part::End(t), at, limits) {
            Ok((ns, next)) => {
                &&& at.frames.len() > 0
                &&& lexer::cut(s, at.frames[at.frames.len() - 1].name) == lexer::cut(s, t.name)
                &&& next.frames == at.frames.take(at.frames.len() - 1)
                &&& next.rooted == at.rooted
            },
            Err(_) => at.frames.len() == 0 || lexer::cut(
                s,
                at.frames[at.frames.len() - 1].name,
            ) != lexer::cut(s, t.name),
        },
{
    if at.frames.len() > 0 {
        assert(at.frames.drop_last() =~= at.frames.take(at.frames.len() - 1));
    }
}

/// An opening tag opens its element, unless it is written with one tag; outside
/// of elements it is let in once.
pub proof fn lemma_opening_tag_opens(s: Seq<u8>, t: lexer::Open, at: Progress, limits: Limits)
    ensures
        reader::admitted(s, Part::Start(t), at, limits) matches Ok((ns, next)) ==> {
            &&& at.frames.len() > 0 || !at.rooted
            &&& next.rooted
            &&& next.frames == if t.empty {
                at.frames
            } else {
                at.frames.push(Frame { name: t.name, attrs: t.attrs })
            }
            &&& reader::element_ns(
                s,
                at.frames.push(Frame { name: t.name, attrs: t.attrs }),
                t.name,
            ) == Ok::<Option<Seq<char>>, Error>(ns)
        },
{
}

/// A text stands nowhere from `a` up to `b`.
pub open spec fn nowhere(s: Seq<u8>, t: Seq<u8>, a: int, b: int) -> bool {
    forall|k: int| a <= k < b ==> !#[trigger] name::stands(s, k, t)
}

proof fn lemma_first_text(s: Seq<u8>, from: int, t: Seq<u8>)
    requires
        0 <= from,
    ensures
        match name::find_text(s, from, t) {
            Some(k) => from <= k < s.len() && name::stands(s, k, t) && nowhere(s, t, from, k),
            None => nowhere(s, t, from, s.len() as int),
        },
    decreases s.len() - from,
{
    if from < s.len() && !name::stands(s, from, t) {
        lemma_first_text(s, from + 1, t);
    }
}

/// What kind of piece begins at a place, and where it ends: text up to the next
/// tag; a comment, a section of characters and an instruction up to the first
/// text that ends them; the declaration at the beginning alone; else a tag,
/// which is a closing one behind a slash.
pub proof fn lemma_kind_of_piece(s: Seq<u8>, p: int, first: bool, limits: Limits)
    requires
        0 <= p < s.len() <= u32::MAX,
    ensures
        lexer::piece_at(s, p, first, limits) matches Ok((part, e)) ==> match part {
            Part::Text(_) => {
                &&& forall|k: int| p <= k < e ==> #[trigger] s[k] != 60
                &&& e == s.len() || s[e] == 60
            },
            Part::Comment(_) => {
                &&& name::stands(s, p, seq![60u8, 33, 45, 45])
                &&& name::stands(s, e - 3, seq![45u8, 45, 62])
                &&& nowhere(s, seq![45u8, 45, 62], p + 4, e - 3)
                &&& e >= p + 7
            },
            Part::CData(_) => {
                &&& name::stands(s, p, seq![60u8, 33, 91, 67, 68, 65, 84, 65, 91])
                &&& name::stands(s, e - 3, seq![93u8, 93, 62])
                &&& nowhere(s, seq![93u8, 93, 62], p + 9, e - 3)
                &&& e >= p + 12
            },
            Part::Pi(_) => {
                &&& name::stands(s, p, seq![60u8, 63])
                &&& name::stands(s, e - 2, seq![63u8, 62])
                &&& nowhere(s, seq![63u8, 62], p + 2, e - 2)
                &&& e >= p + 4
                &&& !(name::stands(s, p, seq![60u8, 63, 120, 109, 108]) && p + 5 < s.len()
                    && name::space(s[p + 5]))
            },
            Part::Decl(_) => {
                &&& first
                &&& name::stands(s, p, seq![60u8, 63, 120, 109, 108])
                &&& name::space(s[p + 5])
                &&& name::stands(s, e - 2, seq![63u8, 62])
                &&& nowhere(s, seq![63u8, 62], p + 2, e - 2)
            },
            Part::End(_) => s[p] == 60 && s[p + 1] == 47,
            Part::Start(_) => s[p] == 60 && name::at(s, p + 1) != Some(47u8) && name::at(s, p + 1)
                != Some(33u8) && name::at(s, p + 1) != Some(63u8),
        },
{
    assert(lexer::COMMENT_OPEN@ =~= seq![60u8, 33, 45, 45]);
    assert(lexer::COMMENT_CLOSE@ =~= seq![45u8, 45, 62]);
    assert(lexer::CDATA_OPEN@ =~= seq![60u8, 33, 91, 67, 68, 65, 84, 65, 91]);
    assert(lexer::CDATA_CLOSE@ =~= seq![93u8, 93, 62]);
    assert(lexer::DECL_OPEN@ =~= seq![60u8, 63, 120, 109, 108]);
    assert(lexer::PI_CLOSE@ =~= seq![63u8, 62]);
    name::lemma_find(s, p, 60);
    lemma_first_text(s, p + 4, lexer::COMMENT_CLOSE@);
    lemma_first_text(s, p + 9, lexer::CDATA_CLOSE@);
    lemma_first_text(s, p + 2, lexer::PI_CLOSE@);
    if s[p] == 60 && name::at(s, p + 1) == Some(63u8) {
        assert(s.subrange(p, p + 2) =~= seq![60u8, 63]);
    }
}

/// The value of an attribute stands between its quotes and holds neither that
/// quote nor `<`; its name, `=` and the white space between stand before it.
pub proof fn lemma_value_stands_in_quotes(s: Seq<u8>, i: int, limits: Limits)
    requires
        0 <= i < s.len() <= u32::MAX,
    ensures
        lexer::attr_at(s, i, limits) matches Ok((a, e)) ==> {
            &&& a.quote == 34 || a.quote == 39
            &&& s[a.value.start - 1] == a.quote
            &&& s[a.value.end as int] == a.quote
            &&& e == a.value.end + 1
            &&& forall|k: int|
                a.value.start <= k < a.value.end ==> #[trigger] s[k] != a.quote && s[k] != 60
            &&& name::qname_ok(lexer::cut(s, a.name))
            &&& i < a.name.start
            &&& forall|k: int| i <= k < a.name.start ==> name::space(#[trigger] s[k])
        },
{
    lemma_spaces(s, i);
    let from = name::space_end(s, i);
    if let Ok((a, e)) = lexer::attr_at(s, i, limits) {
        name::lemma_name_end(s, from);
        let to = name::name_end(s, from);
        lemma_spaces(s, to);
        let eq = name::space_end(s, to);
        lemma_spaces(s, eq + 1);
        let q = name::space_end(s, eq + 1);
        name::lemma_find(s, q + 1, s[q]);
        let k = name::find(s, q + 1, s[q])->0;
        name::lemma_find(s.subrange(q + 1, k), 0, 60);
        assert forall|j: int| a.value.start <= j < a.value.end implies #[trigger] s[j] != a.quote
            && s[j] != 60 by {
            assert(s.subrange(q + 1, k)[j - q - 1] == s[j]);
        }
    }
}

proof fn lemma_spaces(s: Seq<u8>, i: int)
    requires
        0 <= i <= s.len(),
    ensures
        i <= name::space_end(s, i) <= s.len(),
        forall|k: int| i <= k < name::space_end(s, i) ==> name::space(#[trigger] s[k]),
        name::space_end(s, i) < s.len() ==> !name::space(s[name::space_end(s, i)]),
    decreases s.len() - i,
{
    if i < s.len() && name::space(s[i]) {
        lemma_spaces(s, i + 1);
    }
}

} // verus!
