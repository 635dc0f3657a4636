//! Reading text out of XML.
//!
//! References are replaced by what they stand for and line ends by line feeds;
//! in attributes tabs and line ends become spaces.
use vstd::prelude::*;
use vstd::string::*;

use crate::error::{Error, XmlError};
use crate::text;
use crate::xml::escape;

verus! {

/// The character of a predefined entity.
pub open spec fn named(name: Seq<char>) -> Option<char> {
    if name == "lt"@ {
        Some('<')
    } else if name == "gt"@ {
        Some('>')
    } else if name == "amp"@ {
        Some('&')
    } else if name == "quot"@ {
        Some('"')
    } else if name == "apos"@ {
        Some('\'')
    } else {
        None
    }
}

/// The value of a hexadecimal digit, 16 for any other character.
pub open spec fn digit_value(c: char) -> nat {
    if '0' <= c <= '9' {
        (c as u32 - 48) as nat
    } else if 'a' <= c <= 'f' {
        (c as u32 - 87) as nat
    } else if 'A' <= c <= 'F' {
        (c as u32 - 55) as nat
    } else {
        16
    }
}

pub open spec fn all_digits(s: Seq<char>, base: nat) -> bool {
    forall|i: int| 0 <= i < s.len() ==> digit_value(#[trigger] s[i]) < base
}

/// The number that digits spell.
pub open spec fn number(s: Seq<char>, base: nat) -> nat
    decreases s.len(),
{
    if s.len() == 0 {
        0
    } else {
        number(s.drop_last(), base) * base + digit_value(s.last())
    }
}

/// The character of a reference by number: decimal, or hexadecimal behind an
/// `x`. It has to be one that XML allows.
pub open spec fn char_ref(t: Seq<char>) -> Option<char> {
    let hex = t.len() > 0 && t[0] == 'x';
    let base: nat = if hex {
        16
    } else {
        10
    };
    let digits = if hex {
        t.skip(1)
    } else {
        t
    };
    let v = number(digits, base);
    if digits.len() > 0 && all_digits(digits, base) && (v <= 0xD7FF || 0xE000 <= v <= 0x10FFFF)
        && escape::legal(v as char) {
        Some(v as char)
    } else {
        None
    }
}

/// The reference at `i`, where an ampersand stands: what it stands for, and its
/// end.
pub open spec fn reference(s: Seq<char>, i: int) -> Result<(char, int), XmlError> {
    match text::find(s, i + 1, ';') {
        None => Err(XmlError::UnknownEntity),
        Some(k) => {
            let name = s.subrange(i + 1, k);
            if name.len() > 0 && name[0] == '#' {
                match char_ref(name.skip(1)) {
                    Some(c) => Ok((c, k + 1)),
                    None => Err(XmlError::BadCharRef),
                }
            } else {
                match named(name) {
                    Some(c) => Ok((c, k + 1)),
                    None => Err(XmlError::UnknownEntity),
                }
            }
        },
    }
}

/// `t` before a text.
pub open spec fn preceded(t: Seq<char>, r: Result<Seq<char>, Error>) -> Result<Seq<char>, Error> {
    match r {
        Ok(u) => Ok(t + u),
        Err(e) => Err(e),
    }
}

/// What the text from `i` on stands for.
pub open spec fn decoded(s: Seq<char>, i: int, attr: bool) -> Result<Seq<char>, Error>
    decreases s.len() - i,
{
    if !(0 <= i < s.len()) {
        Ok(Seq::empty())
    } else if s[i] == '&' {
        match reference(s, i) {
            Ok((c, e)) => if i < e <= s.len() {
                preceded(seq![c], decoded(s, e, attr))
            } else {
                arbitrary()
            },
            Err(kind) => Err(Error::Xml { kind, offset: text::place(s, i) }),
        }
    } else if s[i] == '\r' {
        let w: int = if i + 1 < s.len() && s[i + 1] == '\n' {
            2
        } else {
            1
        };
        preceded(
            seq![
                if attr {
                    ' '
                } else {
                    '\n'
                },
            ],
            decoded(s, i + w, attr),
        )
    } else if attr && (s[i] == '\t' || s[i] == '\n') {
        preceded(seq![' '], decoded(s, i + 1, attr))
    } else {
        preceded(seq![s[i]], decoded(s, i + 1, attr))
    }
}

fn digit(c: char) -> (r: u32)
    ensures
        r == digit_value(c),
        r <= 16,
{
    if '0' <= c && c <= '9' {
        c as u32 - 48
    } else if 'a' <= c && c <= 'f' {
        c as u32 - 87
    } else if 'A' <= c && c <= 'F' {
        c as u32 - 55
    } else {
        16
    }
}

/// A number is no smaller than the one that its first digits spell.
proof fn lemma_number_prefix(s: Seq<char>, n: int, base: nat)
    requires
        0 <= n <= s.len(),
        base > 0,
    ensures
        number(s.take(n), base) <= number(s, base),
    decreases s.len(),
{
    if n < s.len() {
        lemma_number_prefix(s.drop_last(), n, base);
        assert(s.drop_last().take(n) =~= s.take(n));
        let v = number(s.drop_last(), base);
        assert(v * base >= v) by (nonlinear_arith)
            requires
                base > 0,
                v >= 0,
        ;
    } else {
        assert(s.take(n) =~= s);
    }
}

/// The number that digits spell, when it is one of a character.
fn parse_number(s: &[char], base: u32) -> (r: Option<u32>)
    requires
        base == 10 || base == 16,
    ensures
        match r {
            Some(v) => s@.len() > 0 && all_digits(s@, base as nat) && v == number(
                s@,
                base as nat,
            ) && v <= 0x10FFFF,
            None => s@.len() == 0 || !all_digits(s@, base as nat) || number(s@, base as nat)
                > 0x10FFFF,
        },
{
    let mut v: u32 = 0;
    let mut i: usize = 0;
    assert(s@.take(0) =~= Seq::<char>::empty());
    while i < s.len()
        invariant
            base == 10 || base == 16,
            i <= s@.len(),
            v == number(s@.take(i as int), base as nat),
            v <= 0x10FFFF,
            all_digits(s@.take(i as int), base as nat),
        decreases s@.len() - i,
    {
        let d: u32 = digit(s[i]);
        if d >= base {
            assert(digit_value(s@[i as int]) >= base);
            return None;
        }
        proof {
            let t = s@.take(i + 1);
            assert(t.drop_last() =~= s@.take(i as int));
            assert(t.last() == s@[i as int]);
            lemma_number_prefix(s@, i + 1, base as nat);
            assert forall|k: int| 0 <= k < t.len() implies digit_value(#[trigger] t[k]) < base by {
                if k < i {
                    assert(s@.take(i as int)[k] == t[k]);
                }
            }
        }
        v =
        if base == 10 {
            v * 10 + d
        } else {
            v * 16 + d
        };
        if v > 0x10FFFF {
            return None;
        }
        i = i + 1;
    }
    assert(s@.take(i as int) =~= s@);
    if i == 0 {
        None
    } else {
        Some(v)
    }
}

/// `char::from_u32` of std: the character with this number, if there is one.
#[verifier::external_body]
fn char_of(v: u32) -> (r: Option<char>)
    ensures
        r == if v <= 0xD7FF || 0xE000 <= v <= 0x10FFFF {
            Some(v as char)
        } else {
            None
        },
{
    char::from_u32(v)
}

fn parse_char_ref(t: &[char]) -> (r: Option<char>)
    ensures
        r == char_ref(t@),
{
    let n: usize = t.len();
    let hex: bool = n > 0 && t[0] == 'x';
    let digits: &[char] = if hex {
        vstd::slice::slice_subrange(t, 1, n)
    } else {
        t
    };
    assert(digits@ =~= (if hex {
        t@.skip(1)
    } else {
        t@
    }));
    match parse_number(
        digits,
        if hex {
            16
        } else {
            10
        },
    ) {
        Some(v) => match char_of(v) {
            Some(c) => {
                if escape::is_legal(c) {
                    Some(c)
                } else {
                    None
                }
            },
            None => None,
        },
        None => None,
    }
}

fn is_text(cs: &[char], t: &str) -> (r: bool)
    ensures
        r == (cs@ == t@),
{
    let u = text::chars_of(t);
    text::same_chars(cs, u.as_slice())
}

fn entity(name: &[char]) -> (r: Option<char>)
    ensures
        r == named(name@),
{
    if is_text(name, "lt") {
        Some('<')
    } else if is_text(name, "gt") {
        Some('>')
    } else if is_text(name, "amp") {
        Some('&')
    } else if is_text(name, "quot") {
        Some('"')
    } else if is_text(name, "apos") {
        Some('\'')
    } else {
        None
    }
}

fn read_reference(s: &[char], i: usize) -> (r: Result<(char, usize), XmlError>)
    requires
        i < s@.len(),
    ensures
        match r {
            Ok((c, e)) => reference(s@, i as int) == Ok::<(char, int), XmlError>((c, e as int)) && i
                < e <= s@.len(),
            Err(k) => reference(s@, i as int) == Err::<(char, int), XmlError>(k),
        },
{
    let n: usize = s.len();
    match text::position(s, i + 1, ';') {
        None => Err(XmlError::UnknownEntity),
        Some(k) => {
            let name = vstd::slice::slice_subrange(s, i + 1, k);
            if name.len() > 0 && name[0] == '#' {
                let m: usize = name.len();
                let t = vstd::slice::slice_subrange(name, 1, m);
                assert(t@ =~= name@.skip(1));
                match parse_char_ref(t) {
                    Some(c) => Ok((c, k + 1)),
                    None => Err(XmlError::BadCharRef),
                }
            } else {
                match entity(name) {
                    Some(c) => Ok((c, k + 1)),
                    None => Err(XmlError::UnknownEntity),
                }
            }
        },
    }
}

/// Reads a text, or the value of an attribute.
pub fn decode(s: &[char], attr: bool) -> (r: Result<String, Error>)
    ensures
        match r {
            Ok(t) => decoded(s@, 0, attr) == Ok::<Seq<char>, Error>(t@),
            Err(e) => decoded(s@, 0, attr) == Err::<Seq<char>, Error>(e),
        },
{
    let n: usize = s.len();
    let mut out: String = String::new();
    let mut pos: u32 = 0;
    let mut i: usize = 0;
    proof {
        if let Ok(u) = decoded(s@, 0, attr) {
            assert(out@ + u =~= u);
        }
    }
    while i < n
        invariant
            n == s@.len(),
            i <= n,
            pos == text::place(s@, i as int),
            preceded(out@, decoded(s@, i as int, attr)) == decoded(s@, 0, attr),
        decreases n - i,
    {
        let ghost before = out@;
        let c: char = s[i];
        let (d, e): (char, usize) = if c == '&' {
            match read_reference(s, i) {
                Ok(x) => x,
                Err(kind) => return Err(Error::Xml { kind, offset: pos }),
            }
        } else if c == '\r' {
            let w: usize = if i + 1 < n && s[i + 1] == '\n' {
                2
            } else {
                1
            };
            (
                if attr {
                    ' '
                } else {
                    '\n'
                },
                i + w,
            )
        } else if attr && (c == '\t' || c == '\n') {
            (' ', i + 1)
        } else {
            (c, i + 1)
        };
        out.push(d);
        proof {
            if let Ok(u) = decoded(s@, e as int, attr) {
                assert(before + (seq![d] + u) =~= out@ + u);
            }
        }
        let mut k: usize = i;
        while k < e
            invariant
                i <= k <= e <= s@.len(),
                pos == text::place(s@, k as int),
            decreases e - k,
        {
            pos = text::place_after(s, k, pos);
            k = k + 1;
        }
        i = e;
    }
    assert(out@ + Seq::<char>::empty() =~= out@);
    Ok(out)
}

/// `t` stands at `i`.
spec fn stands(s: Seq<char>, i: int, t: Seq<char>) -> bool {
    0 <= i && i + t.len() <= s.len() && s.subrange(i, i + t.len()) == t
}

proof fn lemma_semicolon(s: Seq<char>, i: int, k: int)
    requires
        0 <= i <= k < s.len(),
        s[k] == ';',
        forall|j: int| i <= j < k ==> #[trigger] s[j] != ';',
    ensures
        text::find(s, i, ';') == Some(k),
    decreases k - i,
{
    if i < k {
        assert(s[i] != ';');
        lemma_semicolon(s, i + 1, k);
    }
}

/// A reference by name reads as its character.
proof fn lemma_named_read(s: Seq<char>, i: int, name: Seq<char>, c: char)
    requires
        stands(s, i, seq!['&'] + name + seq![';']),
        name.len() > 0,
        name[0] != '#',
        forall|j: int| 0 <= j < name.len() ==> #[trigger] name[j] != ';',
        named(name) == Some(c),
    ensures
        reference(s, i) == Ok::<(char, int), XmlError>((c, i + name.len() + 2)),
        s[i] == '&',
{
    let t = seq!['&'] + name + seq![';'];
    let k = i + 1 + name.len();
    assert forall|j: int| 0 <= j < t.len() implies s[i + j] == #[trigger] t[j] by {
        assert(s.subrange(i, i + t.len())[j] == t[j]);
    }
    assert(s[i] == t[0]);
    assert(s[k] == t[name.len() as int + 1]);
    assert forall|j: int| i + 1 <= j < k implies #[trigger] s[j] != ';' by {
        assert(s[i + (j - i)] == t[j - i]);
        assert(t[j - i] == name[j - i - 1]);
    }
    lemma_semicolon(s, i + 1, k);
    assert(s.subrange(i + 1, k) =~= name) by {
        assert forall|j: int| 0 <= j < name.len() implies s.subrange(i + 1, k)[j] == name[j] by {
            assert(s[i + (j + 1)] == t[j + 1]);
        }
    }
}

/// A reference by one hexadecimal digit reads as its character.
proof fn lemma_number_read(s: Seq<char>, i: int, d: char)
    requires
        stands(s, i, seq!['&', '#', 'x', d, ';']),
        digit_value(d) < 16,
        escape::legal(digit_value(d) as char),
    ensures
        reference(s, i) == Ok::<(char, int), XmlError>((digit_value(d) as char, i + 5)),
        s[i] == '&',
{
    let t = seq!['&', '#', 'x', d, ';'];
    assert forall|j: int| 0 <= j < t.len() implies s[i + j] == #[trigger] t[j] by {
        assert(s.subrange(i, i + t.len())[j] == t[j]);
    }
    assert(s[i] == t[0] && s[i + 1] == t[1] && s[i + 2] == t[2] && s[i + 3] == t[3] && s[i + 4]
        == t[4]);
    assert(d != ';');
    lemma_semicolon(s, i + 1, i + 4);
    let name = s.subrange(i + 1, i + 4);
    assert(name =~= seq!['#', 'x', d]);
    let u = name.skip(1);
    assert(u =~= seq!['x', d]);
    let digits = u.skip(1);
    assert(digits =~= seq![d]);
    assert(digits.drop_last() =~= Seq::<char>::empty());
    reveal_with_fuel(number, 2);
    assert(number(digits, 16) == digit_value(d));
}

/// What was written for a character reads as the character.
proof fn lemma_written_read(s: Seq<char>, i: int, c: char, quote: Option<char>)
    requires
        escape::legal(c),
        quote matches Some(q) ==> q == '"' || q == '\'',
        stands(s, i, escape::written(c, quote)),
    ensures
        escape::written(c, quote).len() > 0,
        decoded(s, i, quote is Some) == preceded(
            seq![c],
            decoded(s, i + escape::written(c, quote).len(), quote is Some),
        ),
{
    reveal_strlit("&amp;");
    reveal_strlit("&lt;");
    reveal_strlit("&gt;");
    reveal_strlit("&quot;");
    reveal_strlit("&apos;");
    reveal_strlit("&#xD;");
    reveal_strlit("&#xA;");
    reveal_strlit("&#x9;");
    reveal_strlit("amp");
    reveal_strlit("lt");
    reveal_strlit("gt");
    reveal_strlit("quot");
    reveal_strlit("apos");
    let w = escape::written(c, quote);
    if c == '&' {
        assert(w =~= seq!['&'] + "amp"@ + seq![';']);
        assert("amp"@[0] != "lt"@[0] && "amp"@[0] != "gt"@[0]);
        lemma_named_read(s, i, "amp"@, c);
    } else if c == '<' {
        assert(w =~= seq!['&'] + "lt"@ + seq![';']);
        lemma_named_read(s, i, "lt"@, c);
    } else if c == '\r' {
        assert(w =~= seq!['&', '#', 'x', 'D', ';']);
        lemma_number_read(s, i, 'D');
    } else if quote is None && c == '>' {
        assert(w =~= seq!['&'] + "gt"@ + seq![';']);
        assert("gt"@[0] != "lt"@[0]);
        lemma_named_read(s, i, "gt"@, c);
    } else if quote is Some && c == '\t' {
        assert(w =~= seq!['&', '#', 'x', '9', ';']);
        lemma_number_read(s, i, '9');
    } else if quote is Some && c == '\n' {
        assert(w =~= seq!['&', '#', 'x', 'A', ';']);
        lemma_number_read(s, i, 'A');
    } else if quote == Some('"') && c == '"' {
        assert(w =~= seq!['&'] + "quot"@ + seq![';']);
        assert("quot"@[0] != "lt"@[0] && "quot"@[0] != "gt"@[0] && "quot"@[0] != "amp"@[0]);
        lemma_named_read(s, i, "quot"@, c);
    } else if quote == Some('\'') && c == '\'' {
        assert(w =~= seq!['&'] + "apos"@ + seq![';']);
        assert("apos"@[0] != "lt"@[0] && "apos"@[0] != "gt"@[0] && "apos"@[1] != "amp"@[1]
            && "apos"@[0] != "quot"@[0]);
        lemma_named_read(s, i, "apos"@, c);
    } else {
        assert(s.subrange(i, i + 1)[0] == w[0]);
    }
}

/// What was written for a text, behind anything else, reads as the text.
proof fn lemma_tail_read(s: Seq<char>, i: int, v: Seq<char>, quote: Option<char>)
    requires
        escape::all_legal(v),
        quote matches Some(q) ==> q == '"' || q == '\'',
        0 <= i <= s.len(),
        s.skip(i) == escape::escaped(v, quote),
    ensures
        decoded(s, i, quote is Some) == Ok::<Seq<char>, Error>(v),
    decreases v.len(),
{
    if v.len() == 0 {
        assert(s.skip(i).len() == 0);
        assert(v =~= Seq::empty());
    } else {
        let one = seq![v[0]];
        let rest = v.skip(1);
        assert(v =~= one + rest);
        escape::lemma_escaped_concat(one, rest, quote);
        let w = escape::written(v[0], quote);
        assert(one.drop_last() =~= Seq::<char>::empty());
        assert(escape::escaped(one, quote) =~= w) by {
            reveal_with_fuel(escape::escaped, 2);
        }
        assert(s.skip(i) == w + escape::escaped(rest, quote));
        assert(s.subrange(i, i + w.len()) =~= w) by {
            assert(s.skip(i).take(w.len() as int) =~= w);
            assert(s.subrange(i, i + w.len()) =~= s.skip(i).take(w.len() as int));
        }
        assert(escape::legal(v[0]));
        lemma_written_read(s, i, v[0], quote);
        assert(s.skip(i + w.len()) =~= s.skip(i).skip(w.len() as int));
        assert(s.skip(i).skip(w.len() as int) =~= escape::escaped(rest, quote));
        assert forall|k: int| 0 <= k < rest.len() implies escape::legal(#[trigger] rest[k]) by {
            assert(rest[k] == v[k + 1]);
        }
        lemma_tail_read(s, i + w.len(), rest, quote);
    }
}

/// A value that was written reads back as it was, in text and in attributes.
pub proof fn lemma_written_reads_back(v: Seq<char>, quote: Option<char>)
    requires
        escape::all_legal(v),
        quote matches Some(q) ==> q == '"' || q == '\'',
    ensures
        decoded(escape::escaped(v, quote), 0, quote is Some) == Ok::<Seq<char>, Error>(v),
{
    let s = escape::escaped(v, quote);
    assert(s.skip(0) =~= s);
    lemma_tail_read(s, 0, v, quote);
}

} // verus!
