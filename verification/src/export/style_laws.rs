//! What the classes of a page declare.
use vstd::prelude::*;
use vstd::string::*;

use crate::export::model::{Alignment, BorderStyle, Borders, Edge, Font, HAlign, Look, VAlign};
use crate::export::style;
use crate::export::table_laws::lacks;
use crate::formula::ref_laws;
use crate::text;

verus! {

/// The end of a value that begins at `k`: the first `;` outside of quotes.
pub open spec fn value_end(s: Seq<char>, k: int) -> Option<int> {
    if 0 <= k < s.len() && s[k] == '\'' {
        match text::find(s, k + 1, '\'') {
            Some(q) => text::find(s, q + 1, ';'),
            None => None,
        }
    } else {
        text::find(s, k, ';')
    }
}

/// The value that declarations of CSS, read from `i` on, give to a property:
/// each is a name, `:`, the value and `;`.
pub open spec fn decl_of(s: Seq<char>, i: int, name: Seq<char>) -> Option<Seq<char>>
    decreases s.len() - i,
{
    if 0 <= i < s.len() {
        match text::find(s, i, ':') {
            Some(k) => match value_end(s, k + 1) {
                Some(e) => if i <= k < e < s.len() {
                    if s.subrange(i, k) == name {
                        Some(s.subrange(k + 1, e))
                    } else {
                        decl_of(s, e + 1, name)
                    }
                } else {
                    None
                },
                None => None,
            },
            None => None,
        }
    } else {
        None
    }
}

spec fn decl_text(name: Seq<char>, value: Seq<char>) -> Seq<char> {
    name + seq![':'] + value + seq![';']
}

/// A value with no `;` outside of quotes.
spec fn closed_value(v: Seq<char>) -> bool {
    ||| lacks(v, ';') && v.len() > 0 && v[0] != '\''
    ||| exists|q: int|
        #![trigger v.subrange(1, q)]
        1 <= q < v.len() && v[0] == '\'' && v[q] == '\'' && lacks(v.subrange(1, q), '\'') && lacks(
            v.skip(q),
            ';',
        )
}

proof fn lemma_found(s: Seq<char>, i: int, c: char, k: int)
    requires
        0 <= i <= k < s.len(),
        s[k] == c,
        forall|j: int| i <= j < k ==> #[trigger] s[j] != c,
    ensures
        text::find(s, i, c) == Some(k),
{
    text::lemma_find(s, i, c);
    let f = text::find(s, i, c);
    if f is None {
        assert(s[k] != c);
    } else if f->0 > k {
        assert(s[k] != c);
    } else if f->0 < k {
        assert(s[f->0] != c);
    }
}

proof fn lemma_decl_read(
    a: Seq<char>,
    name: Seq<char>,
    value: Seq<char>,
    rest: Seq<char>,
    asked: Seq<char>,
)
    requires
        lacks(name, ':'),
        closed_value(value),
    ensures
        ({
            let t = a + decl_text(name, value) + rest;
            let i = a.len() as int;
            decl_of(t, i, asked) == if asked == name {
                Some(value)
            } else {
                decl_of(t, i + decl_text(name, value).len(), asked)
            }
        }),
{
    let t = a + decl_text(name, value) + rest;
    let i = a.len() as int;
    let k = i + name.len();
    let e = k + 1 + value.len();
    assert forall|j: int| i <= j < k implies #[trigger] t[j] != ':' by {
        assert(t[j] == name[j - i]);
    }
    lemma_found(t, i, ':', k);
    assert(t[k + 1] == value[0]);
    assert(t[e] == ';');
    if lacks(value, ';') && value[0] != '\'' {
        assert forall|j: int| k + 1 <= j < e implies #[trigger] t[j] != ';' by {
            assert(t[j] == value[j - k - 1]);
        }
        lemma_found(t, k + 1, ';', e);
    } else {
        let q = choose|q: int|
            #![trigger value.subrange(1, q)]
            1 <= q < value.len() && value[0] == '\'' && value[q] == '\'' && lacks(
                value.subrange(1, q),
                '\'',
            ) && lacks(value.skip(q), ';');
        let p = k + 1 + q;
        assert(t[p] == value[q]);
        assert forall|j: int| k + 2 <= j < p implies #[trigger] t[j] != '\'' by {
            assert(t[j] == value.subrange(1, q)[j - k - 2]);
        }
        lemma_found(t, k + 2, '\'', p);
        assert forall|j: int| p + 1 <= j < e implies #[trigger] t[j] != ';' by {
            assert(t[j] == value.skip(q)[j - p]);
        }
        lemma_found(t, p + 1, ';', e);
    }
    assert(value_end(t, k + 1) == Some(e));
    assert(t.subrange(i, k) =~= name);
    assert(t.subrange(k + 1, e) =~= value);
}

/// Wherever the text stands between declarations, it gives the property the
/// value, or says nothing of it.
#[verifier::opaque]
spec fn says(x: Seq<char>, name: Seq<char>, v: Option<Seq<char>>) -> bool {
    forall|a: Seq<char>, rest: Seq<char>|
        #![trigger a + x + rest]
        decl_of(a + x + rest, a.len() as int, name) == match v {
            Some(w) => Some(w),
            None => decl_of(a + x + rest, (a.len() + x.len()) as int, name),
        }
}

spec fn or(v: Option<Seq<char>>, w: Option<Seq<char>>) -> Option<Seq<char>> {
    match v {
        Some(x) => Some(x),
        None => w,
    }
}

spec fn pick(b: bool, v: Seq<char>) -> Option<Seq<char>> {
    if b {
        Some(v)
    } else {
        None
    }
}

proof fn lemma_says_both(
    x: Seq<char>,
    y: Seq<char>,
    name: Seq<char>,
    v: Option<Seq<char>>,
    w: Option<Seq<char>>,
)
    requires
        says(x, name, v),
        says(y, name, w),
    ensures
        says(x + y, name, or(v, w)),
{
    reveal(says);
    assert forall|a: Seq<char>, rest: Seq<char>|
        #![trigger a + (x + y) + rest]
        decl_of(a + (x + y) + rest, a.len() as int, name) == match or(v, w) {
            Some(u) => Some(u),
            None => decl_of(a + (x + y) + rest, (a.len() + (x + y).len()) as int, name),
        } by {
        let t = a + (x + y) + rest;
        assert(t =~= a + x + (y + rest));
        assert(t =~= (a + x) + y + rest);
    }
}

proof fn lemma_says_one(b: bool, name: Seq<char>, value: Seq<char>, asked: Seq<char>)
    requires
        lacks(name, ':'),
        b ==> closed_value(value),
    ensures
        says(style::when(b, decl_text(name, value)), asked, pick(b && asked == name, value)),
{
    reveal(says);
    let x = style::when(b, decl_text(name, value));
    assert forall|a: Seq<char>, rest: Seq<char>|
        #![trigger a + x + rest]
        decl_of(a + x + rest, a.len() as int, asked) == match pick(b && asked == name, value) {
            Some(w) => Some(w),
            None => decl_of(a + x + rest, (a.len() + x.len()) as int, asked),
        } by {
        if b {
            lemma_decl_read(a, name, value, rest, asked);
        }
    }
}

proof fn lemma_nothing_said(asked: Seq<char>)
    ensures
        says(Seq::empty(), asked, None),
{
    reveal(says);
    let x = Seq::<char>::empty();
    assert forall|a: Seq<char>, rest: Seq<char>|
        #![trigger a + x + rest]
        decl_of(a + x + rest, a.len() as int, asked) == decl_of(
            a + x + rest,
            (a.len() + x.len()) as int,
            asked,
        ) by {}
}

/// What stands in front of `:` and behind it.
proof fn lemma_texts()
    ensures
        "font-weight:700;"@ == decl_text("font-weight"@, "700"@),
        "font-style:italic;"@ == decl_text("font-style"@, "italic"@),
        "text-decoration:"@ == "text-decoration"@ + seq![':'],
        "font-size:"@ == "font-size"@ + seq![':'],
        "px;"@ == "px"@ + seq![';'],
        "font-family:'"@ == "font-family"@ + seq![':', '\''],
        "',sans-serif;"@ == "',sans-serif"@ + seq![';'],
        "color:"@ == "color"@ + seq![':'],
        "background:"@ == "background"@ + seq![':'],
        ";"@ == seq![';'],
{
    reveal_strlit("font-weight:700;");
    reveal_strlit("font-weight");
    reveal_strlit("700");
    assert("font-weight:700;"@ =~= decl_text("font-weight"@, "700"@));
    reveal_strlit("font-style:italic;");
    reveal_strlit("font-style");
    reveal_strlit("italic");
    assert("font-style:italic;"@ =~= decl_text("font-style"@, "italic"@));
    reveal_strlit("text-decoration:");
    reveal_strlit("text-decoration");
    assert("text-decoration:"@ =~= "text-decoration"@ + seq![':']);
    reveal_strlit("font-size:");
    reveal_strlit("font-size");
    assert("font-size:"@ =~= "font-size"@ + seq![':']);
    reveal_strlit("px;");
    reveal_strlit("px");
    assert("px;"@ =~= "px"@ + seq![';']);
    reveal_strlit("font-family:'");
    reveal_strlit("font-family");
    assert("font-family:'"@ =~= "font-family"@ + seq![':', '\'']);
    reveal_strlit("',sans-serif;");
    reveal_strlit("',sans-serif");
    assert("',sans-serif;"@ =~= "',sans-serif"@ + seq![';']);
    reveal_strlit("color:");
    reveal_strlit("color");
    assert("color:"@ =~= "color"@ + seq![':']);
    reveal_strlit("background:");
    reveal_strlit("background");
    assert("background:"@ =~= "background"@ + seq![':']);
    reveal_strlit(";");
    assert(";"@ =~= seq![';']);
}

/// The names of properties hold no `:`.
proof fn lemma_names()
    ensures
        lacks("font-weight"@, ':'),
        lacks("font-style"@, ':'),
        lacks("text-decoration"@, ':'),
        lacks("font-size"@, ':'),
        lacks("font-family"@, ':'),
        lacks("color"@, ':'),
        lacks("background"@, ':'),
        lacks("border-left"@, ':'),
        lacks("border-right"@, ':'),
        lacks("border-top"@, ':'),
        lacks("border-bottom"@, ':'),
        lacks("text-align"@, ':'),
        lacks("vertical-align"@, ':'),
{
    reveal_strlit("font-weight");
    reveal_strlit("font-style");
    reveal_strlit("text-decoration");
    reveal_strlit("font-size");
    reveal_strlit("font-family");
    reveal_strlit("color");
    reveal_strlit("background");
    reveal_strlit("border-left");
    reveal_strlit("border-right");
    reveal_strlit("border-top");
    reveal_strlit("border-bottom");
    reveal_strlit("text-align");
    reveal_strlit("vertical-align");
}

/// A name without the characters that could end it: every other character is
/// kept, in its order.
pub proof fn lemma_tamed_keeps_the_rest(s: Seq<char>)
    ensures
        style::tamed(s) == s.filter(
            |c: char| !seq!['\'', '<', '\\', '\n', '\r', '\u{c}'].contains(c),
        ),
        lacks(style::tamed(s), '\''),
        lacks(style::tamed(s), '<'),
        lacks(style::tamed(s), '\\'),
    decreases s.len(),
{
    reveal(Seq::filter);
    if s.len() > 0 {
        lemma_tamed_keeps_the_rest(s.drop_last());
        let bad = seq!['\'', '<', '\\', '\n', '\r', '\u{c}'];
        let c = s.last();
        assert(bad.contains(c) == !style::harmless(c)) by {
            assert(bad[0] == '\'' && bad[1] == '<' && bad[2] == '\\' && bad[3] == '\n' && bad[4]
                == '\r' && bad[5] == '\u{c}');
        }
    }
}

/// The number that a hexadecimal digit stands for.
pub open spec fn hex_value(c: char) -> nat {
    if '0' <= c <= '9' {
        (c as nat - '0' as nat) as nat
    } else {
        (c as nat - 'a' as nat + 10) as nat
    }
}

/// A colour is `#` and six digits, which stand for its lower three bytes: red,
/// then green, then blue.
pub proof fn lemma_colour_reads_back(c: u32)
    ensures
        ({
            let t = style::css_color(c);
            &&& t.len() == 7 && t[0] == '#'
            &&& hex_value(t[1]) * 16 + hex_value(t[2]) == c as nat / 0x10000 % 256
            &&& hex_value(t[3]) * 16 + hex_value(t[4]) == c as nat / 0x100 % 256
            &&& hex_value(t[5]) * 16 + hex_value(t[6]) == c as nat % 256
            &&& forall|k: int|
                1 <= k < 7 ==> '0' <= #[trigger] t[k] <= '9' || 'a' <= t[k] <= 'f'
        }),
{
    let n = c as nat;
    lemma_byte(n / 0x10000);
    lemma_byte(n / 0x100);
    lemma_byte(n);
    assert(n / 0x10000 / 16 == n / 0x10_0000);
    assert(n / 0x100 / 16 == n / 0x1000);
    assert(style::css_color(c) =~= seq!['#'] + byte_text(n / 0x10000) + byte_text(n / 0x100)
        + byte_text(n));
}

/// The last byte of a number in two digits.
spec fn byte_text(n: nat) -> Seq<char> {
    seq![style::hex(n / 16 % 16), style::hex(n % 16)]
}

proof fn lemma_byte(n: nat)
    ensures
        hex_value(byte_text(n)[0]) * 16 + hex_value(byte_text(n)[1]) == n % 256,
        forall|k: int|
            0 <= k < 2 ==> '0' <= #[trigger] byte_text(n)[k] <= '9' || 'a' <= byte_text(n)[k]
                <= 'f',
{
    lemma_hex(n / 16 % 16);
    lemma_hex(n % 16);
}

proof fn lemma_hex(d: nat)
    requires
        d < 16,
    ensures
        hex_value(style::hex(d)) == d,
        '0' <= style::hex(d) <= '9' || 'a' <= style::hex(d) <= 'f',
{
}

proof fn lemma_colour_closed(c: u32)
    ensures
        closed_value(style::css_color(c)),
        lacks(style::css_color(c), ';'),
{
    lemma_colour_reads_back(c);
    let t = style::css_color(c);
    assert forall|k: int| 0 <= k < t.len() implies #[trigger] t[k] != ';' by {
        if k > 0 {
            assert('0' <= t[k] <= '9' || 'a' <= t[k] <= 'f');
        }
    }
}

proof fn lemma_size_says(size: Option<u32>, n: Seq<char>)
    ensures
        says(
            style::size_text(size),
            n,
            pick(size is Some && n == "font-size"@, text::decimal(size->0 as nat) + "px"@),
        ),
{
    lemma_texts();
    lemma_names();
    let v = text::decimal(size->0 as nat) + "px"@;
    ref_laws::lemma_decimal(size->0 as nat);
    reveal_strlit("px");
    assert forall|k: int| 0 <= k < v.len() implies #[trigger] v[k] != ';' by {
        if k < text::decimal(size->0 as nat).len() {
            assert(text::is_digit(text::decimal(size->0 as nat)[k]));
        }
    }
    assert(text::is_digit(text::decimal(size->0 as nat)[0]));
    lemma_says_one(size is Some, "font-size"@, v, n);
    assert(style::size_text(size) =~= style::when(size is Some, decl_text("font-size"@, v)));
}

proof fn lemma_family_says(name: Option<String>, n: Seq<char>)
    ensures
        says(
            style::family_text(name),
            n,
            pick(
                name is Some && n == "font-family"@,
                seq!['\''] + style::tamed(name->0@) + "',sans-serif"@,
            ),
        ),
{
    lemma_texts();
    lemma_names();
    let w = style::tamed(name->0@);
    let v = seq!['\''] + w + "',sans-serif"@;
    lemma_tamed_keeps_the_rest(name->0@);
    let q = 1 + w.len() as int;
    reveal_strlit("',sans-serif");
    assert(v.subrange(1, q) =~= w);
    assert(v.skip(q) =~= "',sans-serif"@);
    assert(v[0] == '\'' && v[q] == '\'');
    lemma_says_one(name is Some, "font-family"@, v, n);
    assert(style::family_text(name) =~= style::when(
        name is Some,
        decl_text("font-family"@, v),
    ));
}

proof fn lemma_color_says(name: Seq<char>, color: Option<u32>, n: Seq<char>)
    requires
        lacks(name, ':'),
    ensures
        says(
            style::color_text(name + seq![':'], color),
            n,
            pick(color is Some && n == name, style::css_color(color->0)),
        ),
{
    lemma_texts();
    let v = style::css_color(color->0);
    lemma_colour_closed(color->0);
    lemma_says_one(color is Some, name, v, n);
    assert(style::color_text(name + seq![':'], color) =~= style::when(
        color is Some,
        decl_text(name, v),
    ));
}

/// The lines under and through a text.
pub open spec fn lines_value(under: bool, through: bool) -> Seq<char> {
    if under && through {
        "underline line-through"@
    } else if under {
        "underline "@
    } else {
        "line-through"@
    }
}

proof fn lemma_lines_say(f: Font, n: Seq<char>)
    ensures
        says(
            style::lines_text(f),
            n,
            pick(
                (f.underline || f.strike) && n == "text-decoration"@,
                lines_value(f.underline, f.strike),
            ),
        ),
{
    lemma_texts();
    lemma_names();
    reveal_strlit("underline ");
    reveal_strlit("line-through");
    reveal_strlit("underline line-through");
    let v = lines_value(f.underline, f.strike);
    assert("underline "@ + "line-through"@ =~= "underline line-through"@);
    assert(closed_value(v));
    lemma_says_one(f.underline || f.strike, "text-decoration"@, v, n);
    assert(style::lines_text(f) =~= style::when(
        f.underline || f.strike,
        decl_text("text-decoration"@, v),
    ));
}

spec fn font_says(f: Font, n: Seq<char>) -> Option<Seq<char>> {
    or(
        or(
            or(
                or(
                    or(
                        pick(f.bold && n == "font-weight"@, "700"@),
                        pick(f.italic && n == "font-style"@, "italic"@),
                    ),
                    pick(
                        (f.underline || f.strike) && n == "text-decoration"@,
                        lines_value(f.underline, f.strike),
                    ),
                ),
                pick(
                    f.size is Some && n == "font-size"@,
                    text::decimal(f.size->0 as nat) + "px"@,
                ),
            ),
            pick(
                f.name is Some && n == "font-family"@,
                seq!['\''] + style::tamed(f.name->0@) + "',sans-serif"@,
            ),
        ),
        pick(f.color is Some && n == "color"@, style::css_color(f.color->0)),
    )
}

proof fn lemma_font_says(f: Font, n: Seq<char>)
    ensures
        says(style::font_text(f), n, font_says(f, n)),
{
    lemma_texts();
    lemma_names();
    reveal_strlit("700");
    reveal_strlit("italic");
    assert(closed_value("700"@));
    assert(closed_value("italic"@));
    let a = style::when(f.bold, "font-weight:700;"@);
    let b = style::when(f.italic, "font-style:italic;"@);
    let c = style::lines_text(f);
    let d = style::size_text(f.size);
    let e = style::family_text(f.name);
    let g = style::color_text("color:"@, f.color);
    let va = pick(f.bold && n == "font-weight"@, "700"@);
    let vb = pick(f.italic && n == "font-style"@, "italic"@);
    let vc = pick(
        (f.underline || f.strike) && n == "text-decoration"@,
        lines_value(f.underline, f.strike),
    );
    let vd = pick(f.size is Some && n == "font-size"@, text::decimal(f.size->0 as nat) + "px"@);
    let ve = pick(
        f.name is Some && n == "font-family"@,
        seq!['\''] + style::tamed(f.name->0@) + "',sans-serif"@,
    );
    let vg = pick(f.color is Some && n == "color"@, style::css_color(f.color->0));
    lemma_says_one(f.bold, "font-weight"@, "700"@, n);
    lemma_says_one(f.italic, "font-style"@, "italic"@, n);
    lemma_lines_say(f, n);
    lemma_size_says(f.size, n);
    lemma_family_says(f.name, n);
    lemma_color_says("color"@, f.color, n);
    lemma_says_both(a, b, n, va, vb);
    lemma_says_both(a + b, c, n, or(va, vb), vc);
    lemma_says_both(a + b + c, d, n, or(or(va, vb), vc), vd);
    lemma_says_both(a + b + c + d, e, n, or(or(or(va, vb), vc), vd), ve);
    lemma_says_both(a + b + c + d + e, g, n, or(or(or(or(va, vb), vc), vd), ve), vg);
}

/// A line of a border: how wide it is, how it is drawn, and its colour, or that
/// of the text.
pub open spec fn line_value(e: Edge) -> Option<Seq<char>> {
    let kind = match e.line {
        BorderStyle::Absent => None,
        BorderStyle::Hair => Some("1px solid "@),
        BorderStyle::Thin => Some("1px solid "@),
        BorderStyle::Medium => Some("2px solid "@),
        BorderStyle::Thick => Some("3px solid "@),
        BorderStyle::Double => Some("3px double "@),
        BorderStyle::Dashed => Some("1px dashed "@),
        BorderStyle::Dotted => Some("1px dotted "@),
    };
    match kind {
        Some(k) => Some(
            k + (match e.color {
                Some(c) => style::css_color(c),
                None => "currentColor"@,
            }),
        ),
        None => None,
    }
}

proof fn lemma_line(e: Edge)
    ensures
        style::css_line(e.line) is Some == line_value(e) is Some,
        line_value(e) is Some ==> closed_value(line_value(e)->0) && line_value(e)->0
            == style::css_line(e.line)->0 + " "@ + (match e.color {
            Some(c) => style::css_color(c),
            None => "currentColor"@,
        }),
{
    reveal_strlit("1px solid ");
    reveal_strlit("2px solid ");
    reveal_strlit("3px solid ");
    reveal_strlit("3px double ");
    reveal_strlit("1px dashed ");
    reveal_strlit("1px dotted ");
    reveal_strlit("1px solid");
    reveal_strlit("2px solid");
    reveal_strlit("3px solid");
    reveal_strlit("3px double");
    reveal_strlit("1px dashed");
    reveal_strlit("1px dotted");
    reveal_strlit(" ");
    reveal_strlit("currentColor");
    if line_value(e) is Some {
        let c = match e.color {
            Some(c) => style::css_color(c),
            None => "currentColor"@,
        };
        if e.color is Some {
            lemma_colour_closed(e.color->0);
        }
        let k = style::css_line(e.line)->0;
        let v = line_value(e)->0;
        assert(lacks(k, ';') && lacks(c, ';'));
        assert(v =~= k + " "@ + c);
        assert(lacks(v, ';'));
    }
}

proof fn lemma_edge_says(side: Seq<char>, name: Seq<char>, e: Edge, n: Seq<char>)
    requires
        lacks(name, ':'),
        name == "border-"@ + side,
    ensures
        says(
            style::edge_text(side, e),
            n,
            pick(line_value(e) is Some && n == name, line_value(e)->0),
        ),
{
    lemma_line(e);
    reveal_strlit(":");
    reveal_strlit(";");
    let v = line_value(e)->0;
    lemma_says_one(line_value(e) is Some, name, v, n);
    assert(style::edge_text(side, e) =~= style::when(
        line_value(e) is Some,
        decl_text(name, v),
    ));
}

spec fn borders_say(b: Borders, n: Seq<char>) -> Option<Seq<char>> {
    or(
        or(
            or(
                pick(line_value(b.left) is Some && n == "border-left"@, line_value(b.left)->0),
                pick(line_value(b.right) is Some && n == "border-right"@, line_value(b.right)->0),
            ),
            pick(line_value(b.top) is Some && n == "border-top"@, line_value(b.top)->0),
        ),
        pick(line_value(b.bottom) is Some && n == "border-bottom"@, line_value(b.bottom)->0),
    )
}

proof fn lemma_sides()
    ensures
        "border-left"@ == "border-"@ + "left"@,
        "border-right"@ == "border-"@ + "right"@,
        "border-top"@ == "border-"@ + "top"@,
        "border-bottom"@ == "border-"@ + "bottom"@,
{
    reveal_strlit("border-");
    reveal_strlit("left");
    reveal_strlit("right");
    reveal_strlit("top");
    reveal_strlit("bottom");
    reveal_strlit("border-left");
    reveal_strlit("border-right");
    reveal_strlit("border-top");
    reveal_strlit("border-bottom");
    assert("border-left"@ =~= "border-"@ + "left"@);
    assert("border-right"@ =~= "border-"@ + "right"@);
    assert("border-top"@ =~= "border-"@ + "top"@);
    assert("border-bottom"@ =~= "border-"@ + "bottom"@);
}

proof fn lemma_borders_say(b: Borders, n: Seq<char>)
    ensures
        says(style::borders_text(b), n, borders_say(b, n)),
{
    lemma_names();
    lemma_sides();
    let w = style::edge_text("left"@, b.left);
    let x = style::edge_text("right"@, b.right);
    let y = style::edge_text("top"@, b.top);
    let z = style::edge_text("bottom"@, b.bottom);
    let vw = pick(line_value(b.left) is Some && n == "border-left"@, line_value(b.left)->0);
    let vx = pick(line_value(b.right) is Some && n == "border-right"@, line_value(b.right)->0);
    let vy = pick(line_value(b.top) is Some && n == "border-top"@, line_value(b.top)->0);
    let vz = pick(line_value(b.bottom) is Some && n == "border-bottom"@, line_value(b.bottom)->0);
    lemma_edge_says("left"@, "border-left"@, b.left, n);
    lemma_edge_says("right"@, "border-right"@, b.right, n);
    lemma_edge_says("top"@, "border-top"@, b.top, n);
    lemma_edge_says("bottom"@, "border-bottom"@, b.bottom, n);
    lemma_says_both(w, x, n, vw, vx);
    lemma_says_both(w + x, y, n, or(vw, vx), vy);
    lemma_says_both(w + x + y, z, n, or(or(vw, vx), vy), vz);
}

/// How text stands from left to right, where that is said.
pub open spec fn across_value(h: HAlign) -> Option<Seq<char>> {
    match h {
        HAlign::General => None,
        HAlign::Left => Some("left"@),
        HAlign::Center => Some("center"@),
        HAlign::Right => Some("right"@),
        HAlign::Justify => Some("justify"@),
    }
}

/// How text stands from top to bottom.
pub open spec fn down_value(v: VAlign) -> Seq<char> {
    match v {
        VAlign::Top => "top"@,
        VAlign::Center => "middle"@,
        VAlign::Bottom => "bottom"@,
    }
}

spec fn alignment_says(a: Alignment, n: Seq<char>) -> Option<Seq<char>> {
    or(
        pick(across_value(a.h) is Some && n == "text-align"@, across_value(a.h)->0),
        pick(n == "vertical-align"@, down_value(a.v)),
    )
}

proof fn lemma_across(h: HAlign)
    ensures
        across_value(h) is Some ==> closed_value(across_value(h)->0),
        (match h {
            HAlign::Left => "text-align:left;"@,
            HAlign::Center => "text-align:center;"@,
            HAlign::Right => "text-align:right;"@,
            HAlign::Justify => "text-align:justify;"@,
            HAlign::General => Seq::empty(),
        }) == style::when(
            across_value(h) is Some,
            decl_text("text-align"@, across_value(h)->0),
        ),
{
    reveal_strlit("text-align");
    reveal_strlit("left");
    reveal_strlit("center");
    reveal_strlit("right");
    reveal_strlit("justify");
    reveal_strlit("text-align:left;");
    reveal_strlit("text-align:center;");
    reveal_strlit("text-align:right;");
    reveal_strlit("text-align:justify;");
    match h {
        HAlign::Left => {
            assert("text-align:left;"@ =~= decl_text("text-align"@, "left"@));
        },
        HAlign::Center => {
            assert("text-align:center;"@ =~= decl_text("text-align"@, "center"@));
        },
        HAlign::Right => {
            assert("text-align:right;"@ =~= decl_text("text-align"@, "right"@));
        },
        HAlign::Justify => {
            assert("text-align:justify;"@ =~= decl_text("text-align"@, "justify"@));
        },
        HAlign::General => {},
    }
}

proof fn lemma_down(v: VAlign)
    ensures
        closed_value(down_value(v)),
        (match v {
            VAlign::Top => "vertical-align:top;"@,
            VAlign::Center => "vertical-align:middle;"@,
            VAlign::Bottom => "vertical-align:bottom;"@,
        }) == decl_text("vertical-align"@, down_value(v)),
{
    reveal_strlit("vertical-align");
    reveal_strlit("top");
    reveal_strlit("middle");
    reveal_strlit("bottom");
    reveal_strlit("vertical-align:top;");
    reveal_strlit("vertical-align:middle;");
    reveal_strlit("vertical-align:bottom;");
    assert("vertical-align:top;"@ =~= decl_text("vertical-align"@, "top"@));
    assert("vertical-align:middle;"@ =~= decl_text("vertical-align"@, "middle"@));
    assert("vertical-align:bottom;"@ =~= decl_text("vertical-align"@, "bottom"@));
}

proof fn lemma_alignment_says(a: Alignment, n: Seq<char>)
    ensures
        says(style::alignment_text(a), n, alignment_says(a, n)),
{
    lemma_names();
    lemma_across(a.h);
    lemma_down(a.v);
    let x = style::when(
        across_value(a.h) is Some,
        decl_text("text-align"@, across_value(a.h)->0),
    );
    let y = style::when(true, decl_text("vertical-align"@, down_value(a.v)));
    let vx = pick(across_value(a.h) is Some && n == "text-align"@, across_value(a.h)->0);
    let vy = pick(true && n == "vertical-align"@, down_value(a.v));
    lemma_says_one(across_value(a.h) is Some, "text-align"@, across_value(a.h)->0, n);
    lemma_says_one(true, "vertical-align"@, down_value(a.v), n);
    lemma_says_both(x, y, n, vx, vy);
    assert(style::alignment_text(a) =~= x + y);
}

spec fn look_says(l: Look, n: Seq<char>) -> Option<Seq<char>> {
    or(
        or(
            or(
                match l.font {
                    Some(f) => font_says(f, n),
                    None => None,
                },
                pick(l.fill is Some && n == "background"@, style::css_color(l.fill->0)),
            ),
            match l.borders {
                Some(b) => borders_say(b, n),
                None => None,
            },
        ),
        match l.alignment {
            Some(a) => alignment_says(a, n),
            None => None,
        },
    )
}

proof fn lemma_look_says(l: Look, n: Seq<char>)
    ensures
        decl_of(style::look_text(l), 0, n) == look_says(l, n),
{
    lemma_texts();
    lemma_names();
    lemma_nothing_said(n);
    let w = style::some_font_text(l.font);
    let x = style::color_text("background:"@, l.fill);
    let y = style::some_borders_text(l.borders);
    let z = style::some_alignment_text(l.alignment);
    let vw = match l.font {
        Some(f) => font_says(f, n),
        None => None,
    };
    let vx = pick(l.fill is Some && n == "background"@, style::css_color(l.fill->0));
    let vy = match l.borders {
        Some(b) => borders_say(b, n),
        None => None,
    };
    let vz = match l.alignment {
        Some(a) => alignment_says(a, n),
        None => None,
    };
    if l.font is Some {
        lemma_font_says(l.font->0, n);
    }
    lemma_color_says("background"@, l.fill, n);
    if l.borders is Some {
        lemma_borders_say(l.borders->0, n);
    }
    if l.alignment is Some {
        lemma_alignment_says(l.alignment->0, n);
    }
    lemma_says_both(w, x, n, vw, vx);
    lemma_says_both(w + x, y, n, or(vw, vx), vy);
    lemma_says_both(w + x + y, z, n, or(or(vw, vx), vy), vz);
    let t = style::look_text(l);
    let none = Seq::<char>::empty();
    assert(none + t + none =~= t);
    assert(decl_of(none + t + none, none.len() as int, n) == look_says(l, n)) by {
        reveal(says);
    }
}

/// What tells the names of properties apart.
proof fn lemma_names_differ()
    ensures
        "font-weight"@.len() == 11,
        "font-style"@.len() == 10,
        "text-decoration"@.len() == 15,
        "font-size"@.len() == 9,
        "font-family"@.len() == 11,
        "color"@.len() == 5,
        "background"@.len() == 10,
        "border-left"@.len() == 11,
        "border-right"@.len() == 12,
        "border-top"@.len() == 10,
        "border-bottom"@.len() == 13,
        "text-align"@.len() == 10,
        "vertical-align"@.len() == 14,
        "font-weight"@[2] == 'n' && "font-weight"@[5] == 'w',
        "font-style"@[2] == 'n' && "font-style"@[5] == 's',
        "font-family"@[2] == 'n' && "font-family"@[5] == 'f',
        "background"@[2] == 'c' && "background"@[5] == 'r',
        "border-left"@[2] == 'r' && "border-left"@[5] == 'r',
        "border-top"@[2] == 'r' && "border-top"@[5] == 'r',
        "text-align"@[2] == 'x' && "text-align"@[5] == 'a',
{
    reveal_strlit("font-weight");
    reveal_strlit("font-style");
    reveal_strlit("text-decoration");
    reveal_strlit("font-size");
    reveal_strlit("font-family");
    reveal_strlit("color");
    reveal_strlit("background");
    reveal_strlit("border-left");
    reveal_strlit("border-right");
    reveal_strlit("border-top");
    reveal_strlit("border-bottom");
    reveal_strlit("text-align");
    reveal_strlit("vertical-align");
}

/// Every part of a style is declared, each in its own property, and nothing is
/// declared that is not part of it.
pub proof fn lemma_style_declares_its_parts(l: Look)
    ensures
        ({
            let t = style::look_text(l);
            &&& decl_of(t, 0, "font-weight"@) == (if l.font is Some && l.font->0.bold {
                Some("700"@)
            } else {
                None
            })
            &&& decl_of(t, 0, "font-style"@) == (if l.font is Some && l.font->0.italic {
                Some("italic"@)
            } else {
                None
            })
            &&& decl_of(t, 0, "text-decoration"@) == (if l.font is Some && (l.font->0.underline
                || l.font->0.strike) {
                Some(lines_value(l.font->0.underline, l.font->0.strike))
            } else {
                None
            })
            &&& decl_of(t, 0, "font-size"@) == (if l.font is Some && l.font->0.size is Some {
                Some(text::decimal(l.font->0.size->0 as nat) + "px"@)
            } else {
                None
            })
            &&& decl_of(t, 0, "font-family"@) == (if l.font is Some && l.font->0.name is Some {
                Some(seq!['\''] + style::tamed(l.font->0.name->0@) + "',sans-serif"@)
            } else {
                None
            })
            &&& decl_of(t, 0, "color"@) == (if l.font is Some && l.font->0.color is Some {
                Some(style::css_color(l.font->0.color->0))
            } else {
                None
            })
            &&& decl_of(t, 0, "background"@) == (match l.fill {
                Some(c) => Some(style::css_color(c)),
                None => None,
            })
        }),
        ({
            let t = style::look_text(l);
            &&& decl_of(t, 0, "border-left"@) == (match l.borders {
                Some(b) => line_value(b.left),
                None => None,
            })
            &&& decl_of(t, 0, "border-right"@) == (match l.borders {
                Some(b) => line_value(b.right),
                None => None,
            })
            &&& decl_of(t, 0, "border-top"@) == (match l.borders {
                Some(b) => line_value(b.top),
                None => None,
            })
            &&& decl_of(t, 0, "border-bottom"@) == (match l.borders {
                Some(b) => line_value(b.bottom),
                None => None,
            })
            &&& decl_of(t, 0, "text-align"@) == (match l.alignment {
                Some(a) => across_value(a.h),
                None => None,
            })
            &&& decl_of(t, 0, "vertical-align"@) == (match l.alignment {
                Some(a) => Some(down_value(a.v)),
                None => None,
            })
        }),
{
    lemma_names_differ();
    lemma_look_says(l, "font-weight"@);
    lemma_look_says(l, "font-style"@);
    lemma_look_says(l, "text-decoration"@);
    lemma_look_says(l, "font-size"@);
    lemma_look_says(l, "font-family"@);
    lemma_look_says(l, "color"@);
    lemma_look_says(l, "background"@);
    lemma_look_says(l, "border-left"@);
    lemma_look_says(l, "border-right"@);
    lemma_look_says(l, "border-top"@);
    lemma_look_says(l, "border-bottom"@);
    lemma_look_says(l, "text-align"@);
    lemma_look_says(l, "vertical-align"@);
}

/// The class of a style goes by its index, and a style with nothing to declare
/// has none.
pub proof fn lemma_classes_go_by_index(s: Seq<Look>, l: Look)
    ensures
        style::classes_text(s.push(l)) == style::classes_text(s) + (if style::look_text(l).len()
            == 0 {
            Seq::empty()
        } else {
            ".x"@ + text::decimal(s.len()) + "{"@ + style::look_text(l) + "}\n"@
        }),
        style::classes_text(Seq::empty()) == Seq::<char>::empty(),
{
    assert(s.push(l).drop_last() =~= s);
}

} // verus!
