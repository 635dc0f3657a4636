//! What the tables of a page show.
use vstd::prelude::*;
use vstd::string::*;

use crate::export::grid;
use crate::export::grid::Spot;
use crate::export::html;
use crate::export::html::Plan;
use crate::export::laws;
use crate::export::model::{Appearance, Cell, CellRange};
use crate::export::style;
use crate::formula::ref_laws;
use crate::formula::refs;
use crate::text;

verus! {

pub open spec fn lacks(s: Seq<char>, c: char) -> bool {
    forall|k: int| 0 <= k < s.len() ==> #[trigger] s[k] != c
}

/// The value of an attribute of a tag, read from the place behind the name of
/// the tag, or behind the attributes before: a blank, a name, `="`, the value up
/// to the next quote.
pub open spec fn attr_of(t: Seq<char>, i: int, name: Seq<char>) -> Option<Seq<char>>
    decreases t.len() - i,
{
    if 0 <= i < t.len() && t[i] == ' ' {
        match text::find(t, i, '=') {
            None => None,
            Some(e) => match text::find(t, e + 2, '"') {
                None => None,
                Some(q) => if i < e && e + 2 <= q < t.len() {
                    if t.subrange(i + 1, e) == name {
                        Some(t.subrange(e + 2, q))
                    } else {
                        attr_of(t, q + 1, name)
                    }
                } else {
                    None
                },
            },
        }
    } else {
        None
    }
}

/// How many rows or columns a cell takes: what the attribute says, and one when
/// it is not there.
pub open spec fn spanned(t: Seq<char>, name: Seq<char>) -> nat {
    match attr_of(t, 3, name) {
        Some(v) => refs::digits_value(v),
        None => 1,
    }
}

/// An attribute as it is written.
pub open spec fn attr_text(name: Seq<char>, value: Seq<char>) -> Seq<char> {
    seq![' '] + name + seq!['=', '"'] + value + seq!['"']
}

proof fn lemma_attr_read(
    a: Seq<char>,
    name: Seq<char>,
    value: Seq<char>,
    rest: Seq<char>,
    asked: Seq<char>,
)
    requires
        lacks(name, '='),
        lacks(value, '"'),
    ensures
        ({
            let t = a + attr_text(name, value) + rest;
            let i = a.len() as int;
            attr_of(t, i, asked) == if asked == name {
                Some(value)
            } else {
                attr_of(t, i + attr_text(name, value).len(), asked)
            }
        }),
{
    let one = attr_text(name, value);
    let t = a + one + rest;
    let i = a.len() as int;
    let e = i + 1 + name.len();
    let q = e + 2 + value.len();
    assert(t[i] == ' ');
    assert(t[e] == '=');
    assert(t[q] == '"');
    text::lemma_find(t, i, '=');
    assert forall|j: int| i <= j < e implies #[trigger] t[j] != '=' by {
        if j > i {
            assert(t[j] == name[j - i - 1]);
        }
    }
    assert(text::find(t, i, '=') == Some(e)) by {
        let f = text::find(t, i, '=');
        if f is None {
            assert(t[e] != '=');
        } else if f->0 > e {
            assert(t[e] != '=');
        }
    }
    text::lemma_find(t, e + 2, '"');
    assert forall|j: int| e + 2 <= j < q implies #[trigger] t[j] != '"' by {
        assert(t[j] == value[j - e - 2]);
    }
    assert(text::find(t, e + 2, '"') == Some(q)) by {
        let f = text::find(t, e + 2, '"');
        if f is None {
            assert(t[q] != '"');
        } else if f->0 > q {
            assert(t[q] != '"');
        }
    }
    assert(t.subrange(i + 1, e) =~= name);
    assert(t.subrange(e + 2, q) =~= value);
}

/// An attribute that may be left out.
proof fn lemma_attr_read_when(
    a: Seq<char>,
    there: bool,
    name: Seq<char>,
    value: Seq<char>,
    rest: Seq<char>,
    asked: Seq<char>,
)
    requires
        lacks(name, '='),
        lacks(value, '"'),
    ensures
        ({
            let one = style::when(there, attr_text(name, value));
            let t = a + one + rest;
            let i = a.len() as int;
            attr_of(t, i, asked) == if there && asked == name {
                Some(value)
            } else {
                attr_of(t, i + one.len(), asked)
            }
        }),
{
    if there {
        lemma_attr_read(a, name, value, rest, asked);
    }
}

/// What the attributes of a cell say.
pub open spec fn tag_says(
    t: Seq<char>,
    class: Seq<char>,
    span: Option<(u32, u32)>,
    title: Option<Seq<char>>,
) -> bool {
    let (rs, cs): (u32, u32) = match span {
        Some(x) => x,
        None => (1, 1),
    };
    &&& attr_of(t, 3, "class"@) == Some(class)
    &&& attr_of(t, 3, "rowspan"@) == (if rs > 1 {
        Some(text::decimal(rs as nat))
    } else {
        None
    })
    &&& attr_of(t, 3, "colspan"@) == (if cs > 1 {
        Some(text::decimal(cs as nat))
    } else {
        None
    })
    &&& attr_of(t, 3, "title"@) == (match title {
        Some(x) => Some(html::escaped_text(x)),
        None => None,
    })
}

proof fn lemma_decimal_quoteless(n: nat)
    ensures
        lacks(text::decimal(n), '"'),
        text::decimal(n).len() > 0,
        refs::digits_value(text::decimal(n)) == n,
{
    ref_laws::lemma_decimal(n);
    assert forall|k: int| 0 <= k < text::decimal(n).len() implies #[trigger] text::decimal(n)[k]
        != '"' by {
        assert(text::is_digit(text::decimal(n)[k]));
    }
}

/// The classes of a cell hold no quote.
proof fn lemma_class_quoteless(s: Spot, clip: bool, ap: Option<Appearance>)
    requires
        lacks(s.class, '"'),
    ensures
        lacks(html::cell_class(s, clip, ap), '"'),
{
    reveal_strlit(" ff");
    reveal_strlit(" x");
    reveal_strlit(" ww");
    reveal_strlit(" clip");
    let n: nat = match s.style {
        Some(x) => x as nat,
        None => 0,
    };
    lemma_decimal_quoteless(n);
    let c = html::style_class(s.style, ap);
    assert(lacks(c, '"')) by {
        if s.style is Some {
            let w = style::when(html::wraps(ap, s.style->0), " ww"@);
            let d = text::decimal(n);
            assert forall|k: int| 0 <= k < c.len() implies #[trigger] c[k] != '"' by {
                if k < 2 {
                    assert(c[k] == " x"@[k]);
                } else if k < 2 + d.len() {
                    assert(c[k] == d[k - 2]);
                } else {
                    assert(c[k] == w[k - 2 - d.len()]);
                }
            }
        }
    }
    let f = style::when(s.title is Some, " ff"@);
    let z = style::when(clip, " clip"@);
    let all = html::cell_class(s, clip, ap);
    assert forall|k: int| 0 <= k < all.len() implies #[trigger] all[k] != '"' by {
        if k < s.class.len() {
            assert(all[k] == s.class[k]);
        } else if k < s.class.len() + f.len() {
            assert(all[k] == f[k - s.class.len()]);
        } else if k < s.class.len() + f.len() + c.len() {
            assert(all[k] == c[k - s.class.len() - f.len()]);
        } else {
            assert(all[k] == z[k - s.class.len() - f.len() - c.len()]);
        }
    }
}

proof fn lemma_names()
    ensures
        "class"@ == seq!['c', 'l', 'a', 's', 's'],
        "rowspan"@ == seq!['r', 'o', 'w', 's', 'p', 'a', 'n'],
        "colspan"@ == seq!['c', 'o', 'l', 's', 'p', 'a', 'n'],
        "title"@ == seq!['t', 'i', 't', 'l', 'e'],
        lacks("class"@, '='),
        lacks("rowspan"@, '='),
        lacks("colspan"@, '='),
        lacks("title"@, '='),
        "class"@ != "rowspan"@,
        "class"@ != "colspan"@,
        "class"@ != "title"@,
        "rowspan"@ != "colspan"@,
        "rowspan"@ != "title"@,
        "colspan"@ != "title"@,
{
    reveal_strlit("class");
    reveal_strlit("rowspan");
    reveal_strlit("colspan");
    reveal_strlit("title");
    assert("class"@ =~= seq!['c', 'l', 'a', 's', 's']);
    assert("rowspan"@ =~= seq!['r', 'o', 'w', 's', 'p', 'a', 'n']);
    assert("colspan"@ =~= seq!['c', 'o', 'l', 's', 'p', 'a', 'n']);
    assert("title"@ =~= seq!['t', 'i', 't', 'l', 'e']);
    assert("rowspan"@[0] != "colspan"@[0]);
    assert("class"@.len() == 5);
    assert("title"@.len() == 5);
    assert("class"@[0] != "title"@[0]);
}

proof fn lemma_class_part(class: Seq<char>)
    ensures
        "<td class=\""@ + class + "\""@ == seq!['<', 't', 'd'] + attr_text("class"@, class),
{
    lemma_names();
    reveal_strlit("<td class=\"");
    reveal_strlit("\"");
    assert("<td class=\""@ + class + "\""@ =~= seq!['<', 't', 'd'] + attr_text("class"@, class));
}

proof fn lemma_span_part(span: Option<(u32, u32)>)
    ensures
        ({
            let (rs, cs): (u32, u32) = match span {
                Some(x) => x,
                None => (1, 1),
            };
            html::span_text(span) == style::when(
                rs > 1,
                attr_text("rowspan"@, text::decimal(rs as nat)),
            ) + style::when(cs > 1, attr_text("colspan"@, text::decimal(cs as nat)))
        }),
{
    lemma_names();
    reveal_strlit(" rowspan=\"");
    reveal_strlit(" colspan=\"");
    reveal_strlit("\"");
    if let Some((rs, cs)) = span {
        assert(" rowspan=\""@ + text::decimal(rs as nat) + "\""@ =~= attr_text(
            "rowspan"@,
            text::decimal(rs as nat),
        ));
        assert(" colspan=\""@ + text::decimal(cs as nat) + "\""@ =~= attr_text(
            "colspan"@,
            text::decimal(cs as nat),
        ));
    } else {
        assert(Seq::<char>::empty() + Seq::<char>::empty() =~= Seq::<char>::empty());
    }
}

proof fn lemma_title_part(title: Option<Seq<char>>)
    ensures
        html::title_text(title) == match title {
            Some(x) => attr_text("title"@, html::escaped_text(x)),
            None => Seq::empty(),
        },
{
    lemma_names();
    reveal_strlit(" title=\"");
    reveal_strlit("\"");
    if let Some(x) = title {
        assert(" title=\""@ + html::escaped_text(x) + "\""@ =~= attr_text(
            "title"@,
            html::escaped_text(x),
        ));
    }
}

proof fn lemma_tag_tail(a: Seq<char>, b: Seq<char>, c: Seq<char>, x: Seq<char>)
    ensures
        a + b + c + ">"@ + x + "</td>"@ == a + (b + c + (">"@ + x + "</td>"@)),
{
    assert(a + b + c + ">"@ + x + "</td>"@ =~= a + (b + c + (">"@ + x + "</td>"@)));
}

proof fn lemma_row_of_parts(
    h: Seq<char>,
    a: Seq<char>,
    b: Seq<char>,
    c: Seq<char>,
    d: Seq<char>,
    z: Seq<char>,
)
    ensures
        h + a + (b + c + d + z) == (h + a) + b + (c + d + z),
        h + a + (b + c + d + z) == (h + a + b) + c + (d + z),
        h + a + (b + c + d + z) == (h + a + b + c) + d + z,
        h + a + (b + c + d + z) == (h + a + b + c + d) + z,
{
    assert(h + a + (b + c + d + z) =~= (h + a) + b + (c + d + z));
    assert(h + a + (b + c + d + z) =~= (h + a + b) + c + (d + z));
    assert(h + a + (b + c + d + z) =~= (h + a + b + c) + d + z);
    assert(h + a + (b + c + d + z) =~= (h + a + b + c + d) + z);
}

/// The tag of a cell says its class, its rows and columns and its title, each as
/// the value of the attribute of that name.
#[verifier::spinoff_prover]
#[verifier::rlimit(80)]
pub proof fn lemma_tag_says(s: Spot, right: Option<Spot>, ap: Option<Appearance>)
    requires
        !s.covered,
        lacks(s.class, '"'),
    ensures
        tag_says(
            html::cell_text(s, right, ap),
            html::cell_class(s, html::cut_off(s, right), ap),
            s.span,
            s.title,
        ),
{
    let clip = html::cut_off(s, right);
    let class = html::cell_class(s, clip, ap);
    let t = html::cell_text(s, right, ap);
    let (rs, cs): (u32, u32) = match s.span {
        Some(x) => x,
        None => (1, 1),
    };
    let title = match s.title {
        Some(x) => html::escaped_text(x),
        None => Seq::empty(),
    };
    lemma_class_quoteless(s, clip, ap);
    lemma_decimal_quoteless(rs as nat);
    lemma_decimal_quoteless(cs as nat);
    assert(lacks(title, '"')) by {
        if let Some(x) = s.title {
            laws::lemma_escaped_is_no_markup(x);
        }
    }
    let head = seq!['<', 't', 'd'];
    let a1 = attr_text("class"@, class);
    let a2 = style::when(rs > 1, attr_text("rowspan"@, text::decimal(rs as nat)));
    let a3 = style::when(cs > 1, attr_text("colspan"@, text::decimal(cs as nat)));
    let a4 = style::when(s.title is Some, attr_text("title"@, title));
    let tail = ">"@ + html::escaped_text(s.text) + "</td>"@;
    lemma_class_part(class);
    lemma_span_part(s.span);
    lemma_title_part(s.title);
    lemma_row_of_parts(head, a1, a2, a3, a4, tail);
    assert(t == head + a1 + (a2 + a3 + a4 + tail)) by {
        lemma_tag_tail(head + a1, a2 + a3, a4, html::escaped_text(s.text));
        lemma_row_of_parts(head, a1, a2, a3, a4, tail);
    }
    assert(t[(head + a1 + a2 + a3 + a4).len() as int] == '>') by {
        reveal_strlit(">");
        assert(t == (head + a1 + a2 + a3 + a4) + tail);
        assert(tail[0] == '>');
    }
    lemma_names();
    lemma_attr_chain(t, head, a1, a2, a3, a4, tail, class, rs, cs, s.title is Some, title, "class"@);
    lemma_attr_chain(t, head, a1, a2, a3, a4, tail, class, rs, cs, s.title is Some, title, "rowspan"@);
    lemma_attr_chain(t, head, a1, a2, a3, a4, tail, class, rs, cs, s.title is Some, title, "colspan"@);
    lemma_attr_chain(t, head, a1, a2, a3, a4, tail, class, rs, cs, s.title is Some, title, "title"@);
}

proof fn lemma_attr_chain(
    t: Seq<char>,
    head: Seq<char>,
    a1: Seq<char>,
    a2: Seq<char>,
    a3: Seq<char>,
    a4: Seq<char>,
    tail: Seq<char>,
    class: Seq<char>,
    rs: u32,
    cs: u32,
    titled: bool,
    title: Seq<char>,
    asked: Seq<char>,
)
    requires
        head.len() == 3,
        a1 == attr_text("class"@, class),
        a2 == style::when(rs > 1, attr_text("rowspan"@, text::decimal(rs as nat))),
        a3 == style::when(cs > 1, attr_text("colspan"@, text::decimal(cs as nat))),
        a4 == style::when(titled, attr_text("title"@, title)),
        t == head + a1 + (a2 + a3 + a4 + tail),
        t == (head + a1) + a2 + (a3 + a4 + tail),
        t == (head + a1 + a2) + a3 + (a4 + tail),
        t == (head + a1 + a2 + a3) + a4 + tail,
        t[(head + a1 + a2 + a3 + a4).len() as int] == '>',
        lacks(class, '"'),
        lacks(title, '"'),
    ensures
        attr_of(t, 3, asked) == if asked == "class"@ {
            Some(class)
        } else if rs > 1 && asked == "rowspan"@ {
            Some(text::decimal(rs as nat))
        } else if cs > 1 && asked == "colspan"@ {
            Some(text::decimal(cs as nat))
        } else if titled && asked == "title"@ {
            Some(title)
        } else {
            None
        },
{
    lemma_names();
    lemma_decimal_quoteless(rs as nat);
    lemma_decimal_quoteless(cs as nat);
    lemma_attr_read(head, "class"@, class, a2 + a3 + a4 + tail, asked);
    lemma_attr_read_when(
        head + a1,
        rs > 1,
        "rowspan"@,
        text::decimal(rs as nat),
        a3 + a4 + tail,
        asked,
    );
    lemma_attr_read_when(
        head + a1 + a2,
        cs > 1,
        "colspan"@,
        text::decimal(cs as nat),
        a4 + tail,
        asked,
    );
    lemma_attr_read_when(head + a1 + a2 + a3, titled, "title"@, title, tail, asked);
    assert((head + a1).len() == 3 + a1.len());
    assert((head + a1 + a2).len() == 3 + a1.len() + a2.len());
    assert((head + a1 + a2 + a3).len() == 3 + a1.len() + a2.len() + a3.len());
    let z = (head + a1 + a2 + a3 + a4).len() as int;
    assert(attr_of(t, z, asked) is None);
}

/// A range holds a place.
pub open spec fn holds(m: CellRange, r: int, c: int) -> bool {
    m.from.row <= r <= m.to.row && m.from.col <= c <= m.to.col
}

/// Every range goes from its upper left cell to its lower right one, and no two
/// of them share a cell.
pub open spec fn tidy(merges: Seq<CellRange>) -> bool {
    &&& forall|i: int|
        0 <= i < merges.len() ==> (#[trigger] merges[i]).from.row <= merges[i].to.row
            && merges[i].from.col <= merges[i].to.col
    &&& forall|i: int, j: int, r: int, c: int|
        0 <= i < merges.len() && 0 <= j < merges.len() && i != j ==> !(#[trigger] holds(
            merges[i],
            r,
            c,
        ) && #[trigger] holds(merges[j], r, c))
}

/// The cell that is written at a place of the table takes another place, by what
/// its tag says of rows and columns.
pub open spec fn takes(p: Plan, r: int, c: int, x: int, y: int) -> bool {
    let t = html::cell_text(p.spot(r, c), p.right_of(r, c), p.ap);
    &&& 0 <= r < p.rows
    &&& 0 <= c < p.cols
    &&& t.len() > 0
    &&& r <= x < r + spanned(t, "rowspan"@)
    &&& c <= y < c + spanned(t, "colspan"@)
}

/// What ranges make of a place.
pub(crate) proof fn lemma_spot_merged(
    cells: Seq<Cell>,
    merges: Seq<CellRange>,
    rows: int,
    cols: int,
    r: int,
    c: int,
)
    requires
        tidy(merges),
        0 <= r < rows <= u32::MAX,
        0 <= c < cols <= u32::MAX,
    ensures
        ({
            let s = grid::spot(cells, merges, rows, cols, r, c);
            &&& lacks(s.class, '"')
            &&& s.text == grid::spot_of_cells(cells, r, c).text
            &&& s.class == grid::spot_of_cells(cells, r, c).class
            &&& s.title == grid::spot_of_cells(cells, r, c).title
            &&& s.style == grid::spot_of_cells(cells, r, c).style
            &&& forall|i: int|
                0 <= i < merges.len() && holds(#[trigger] merges[i], r, c) ==> if r
                    == merges[i].from.row && c == merges[i].from.col {
                    &&& !s.covered
                    &&& s.span == Some(
                        (
                            shown(merges[i].from.row, merges[i].to.row, rows) as u32,
                            shown(merges[i].from.col, merges[i].to.col, cols) as u32,
                        ),
                    )
                } else {
                    s.covered
                }
            &&& (forall|i: int| 0 <= i < merges.len() ==> !holds(#[trigger] merges[i], r, c)) ==> {
                !s.covered && s.span is None
            }
        }),
    decreases merges.len(),
{
    if merges.len() == 0 {
        lemma_cells_class(cells, r, c);
    } else {
        let less = merges.drop_last();
        let m = merges.last();
        assert(m == merges[merges.len() - 1]);
        assert(tidy(less)) by {
            assert forall|i: int| 0 <= i < less.len() implies (#[trigger] less[i]).from.row
                <= less[i].to.row && less[i].from.col <= less[i].to.col by {
                assert(less[i] == merges[i]);
            }
            assert forall|i: int, j: int, r: int, c: int|
                0 <= i < less.len() && 0 <= j < less.len() && i != j implies !(#[trigger] holds(
                less[i],
                r,
                c,
            ) && #[trigger] holds(less[j], r, c)) by {
                assert(less[i] == merges[i] && less[j] == merges[j]);
                assert(holds(merges[i], r, c) && holds(merges[j], r, c) ==> false);
            }
        }
        lemma_spot_merged(cells, less, rows, cols, r, c);
        let before = grid::spot(cells, less, rows, cols, r, c);
        let s = grid::spot(cells, merges, rows, cols, r, c);
        if holds(m, r, c) {
            assert forall|i: int| 0 <= i < less.len() implies !holds(#[trigger] less[i], r, c) by {
                assert(less[i] == merges[i]);
                assert(holds(merges[i], r, c) && holds(merges[merges.len() - 1], r, c) ==> false);
            }
            assert forall|i: int| 0 <= i < merges.len() && holds(#[trigger] merges[i], r, c) implies i
                == merges.len() - 1 by {
                if i < less.len() {
                    assert(less[i] == merges[i]);
                }
            }
        } else {
            assert(s == before) by {
                if m.from.row < rows && m.from.col < cols {
                    assert(m.from.row <= m.to.row && m.from.col <= m.to.col);
                }
            }
            assert forall|i: int| 0 <= i < merges.len() && holds(#[trigger] merges[i], r, c) implies i
                < less.len() && less[i] == merges[i] by {}
            if forall|i: int| 0 <= i < merges.len() ==> !holds(#[trigger] merges[i], r, c) {
                assert forall|i: int| 0 <= i < less.len() implies !holds(#[trigger] less[i], r, c) by {
                    assert(less[i] == merges[i]);
                }
            }
        }
    }
}

/// How many lines from one to another, with both, are among the first `n`.
pub open spec fn shown(from: u32, to: u32, n: int) -> int {
    if to < n {
        to - from + 1
    } else {
        n - from
    }
}

proof fn lemma_cells_class(cells: Seq<Cell>, r: int, c: int)
    ensures
        lacks(grid::spot_of_cells(cells, r, c).class, '"'),
        !grid::spot_of_cells(cells, r, c).covered,
        grid::spot_of_cells(cells, r, c).span is None,
    decreases cells.len(),
{
    reveal_strlit("");
    reveal_strlit("s");
    reveal_strlit("n");
    reveal_strlit("b");
    reveal_strlit("e");
    if cells.len() > 0 {
        lemma_cells_class(cells.drop_last(), r, c);
    }
}

/// How far the written cell of a place goes.
proof fn lemma_written_spans(p: Plan, r: int, c: int)
    requires
        tidy(p.merges),
        p.rows <= u32::MAX,
        p.cols <= u32::MAX,
        0 <= r < p.rows,
        0 <= c < p.cols,
    ensures
        ({
            let t = html::cell_text(p.spot(r, c), p.right_of(r, c), p.ap);
            &&& forall|i: int|
                0 <= i < p.merges.len() && holds(#[trigger] p.merges[i], r, c) ==> if r
                    == p.merges[i].from.row && c == p.merges[i].from.col {
                    &&& t.len() > 0
                    &&& spanned(t, "rowspan"@) == shown(
                        p.merges[i].from.row,
                        p.merges[i].to.row,
                        p.rows as int,
                    )
                    &&& spanned(t, "colspan"@) == shown(
                        p.merges[i].from.col,
                        p.merges[i].to.col,
                        p.cols as int,
                    )
                } else {
                    t.len() == 0
                }
            &&& (forall|i: int| 0 <= i < p.merges.len() ==> !holds(#[trigger] p.merges[i], r, c))
                ==> t.len() > 0 && spanned(t, "rowspan"@) == 1 && spanned(t, "colspan"@) == 1
        }),
{
    let s = p.spot(r, c);
    lemma_spot_merged(p.cells, p.merges, p.rows as int, p.cols as int, r, c);
    if !s.covered {
        lemma_tag_says(s, p.right_of(r, c), p.ap);
        lemma_long(s, p.right_of(r, c), p.ap);
        if let Some((rs, cs)) = s.span {
            lemma_decimal_quoteless(rs as nat);
            lemma_decimal_quoteless(cs as nat);
        }
        assert forall|i: int| 0 <= i < p.merges.len() && holds(#[trigger] p.merges[i], r, c) implies shown(
            p.merges[i].from.row,
            p.merges[i].to.row,
            p.rows as int,
        ) >= 1 && shown(p.merges[i].from.col, p.merges[i].to.col, p.cols as int) >= 1 by {}
    }
}

proof fn lemma_long(s: Spot, right: Option<Spot>, ap: Option<Appearance>)
    requires
        !s.covered,
    ensures
        html::cell_text(s, right, ap).len() > 0,
{
    reveal_strlit("<td class=\"");
    assert("<td class=\""@.len() > 0);
}

/// A merged range is one cell of the table: it is written at the upper left
/// corner of the range, with as many rows and columns as the range has among
/// those that are shown.
pub proof fn lemma_range_is_one_cell(p: Plan, i: int)
    requires
        tidy(p.merges),
        p.rows <= u32::MAX,
        p.cols <= u32::MAX,
        0 <= i < p.merges.len(),
        p.merges[i].from.row < p.rows,
        p.merges[i].from.col < p.cols,
    ensures
        ({
            let m = p.merges[i];
            let r = m.from.row as int;
            let c = m.from.col as int;
            let t = html::cell_text(p.spot(r, c), p.right_of(r, c), p.ap);
            &&& t.len() > 0
            &&& spanned(t, "rowspan"@) == shown(m.from.row, m.to.row, p.rows as int)
            &&& spanned(t, "colspan"@) == shown(m.from.col, m.to.col, p.cols as int)
        }),
{
    let m = p.merges[i];
    lemma_written_spans(p, m.from.row as int, m.from.col as int);
    assert(holds(p.merges[i], m.from.row as int, m.from.col as int));
}

/// The cells of a table take every place of it, and none twice: for each place
/// there is one written cell that takes it by its rows and columns, and no
/// other.
pub proof fn lemma_cells_tile_the_table(p: Plan, x: int, y: int)
    requires
        tidy(p.merges),
        p.rows <= u32::MAX,
        p.cols <= u32::MAX,
        0 <= x < p.rows,
        0 <= y < p.cols,
    ensures
        exists|r: int, c: int| #[trigger] takes(p, r, c, x, y),
        forall|r: int, c: int, u: int, v: int| #[trigger]
            takes(p, r, c, x, y) && #[trigger] takes(p, u, v, x, y) ==> r == u && c == v,
{
    if exists|i: int| 0 <= i < p.merges.len() && holds(#[trigger] p.merges[i], x, y) {
        let i = choose|i: int| 0 <= i < p.merges.len() && holds(#[trigger] p.merges[i], x, y);
        let m = p.merges[i];
        lemma_range_is_one_cell(p, i);
        assert(takes(p, m.from.row as int, m.from.col as int, x, y));
        assert forall|r: int, c: int| #[trigger] takes(p, r, c, x, y) implies r == m.from.row && c
            == m.from.col by {
            lemma_taker(p, i, r, c, x, y);
        }
    } else {
        lemma_written_spans(p, x, y);
        assert(takes(p, x, y, x, y));
        assert forall|r: int, c: int| #[trigger] takes(p, r, c, x, y) implies r == x && c == y by {
            lemma_written_spans(p, r, c);
            if exists|j: int| 0 <= j < p.merges.len() && holds(#[trigger] p.merges[j], r, c) {
                let j = choose|j: int| 0 <= j < p.merges.len() && holds(#[trigger] p.merges[j], r, c);
                assert(holds(p.merges[j], x, y));
            }
        }
    }
}

proof fn lemma_taker(p: Plan, i: int, r: int, c: int, x: int, y: int)
    requires
        tidy(p.merges),
        p.rows <= u32::MAX,
        p.cols <= u32::MAX,
        0 <= x < p.rows,
        0 <= y < p.cols,
        0 <= i < p.merges.len(),
        holds(p.merges[i], x, y),
        takes(p, r, c, x, y),
    ensures
        r == p.merges[i].from.row,
        c == p.merges[i].from.col,
{
    lemma_written_spans(p, r, c);
    if exists|j: int| 0 <= j < p.merges.len() && holds(#[trigger] p.merges[j], r, c) {
        let j = choose|j: int| 0 <= j < p.merges.len() && holds(#[trigger] p.merges[j], r, c);
        assert(holds(p.merges[j], x, y));
        if j != i {
            assert(!(holds(p.merges[i], x, y) && holds(p.merges[j], x, y)));
        }
    } else {
        assert(r == x && c == y);
        assert(holds(p.merges[i], r, c));
    }
}

} // verus!
