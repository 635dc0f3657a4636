//! What reading and writing a reference keep.
use vstd::prelude::*;

use crate::formula::laws;
use crate::formula::refs;
use crate::formula::refs::{CellRef, Line, RefBody};
use crate::formula::scan;
use crate::text;

verus! {

pub open spec fn lacks(s: Seq<char>, c: char) -> bool {
    forall|i: int| 0 <= i < s.len() ==> #[trigger] s[i] != c
}

pub open spec fn all_name_chars(s: Seq<char>) -> bool {
    forall|i: int| 0 <= i < s.len() ==> scan::name_char(#[trigger] s[i])
}

/// A prefix whose parts can be told apart in its text.
pub open spec fn prefix_ok(p: refs::PrefixText) -> bool {
    if p.quoted {
        &&& p.book matches Some(b) ==> b.len() > 0 && b.last() == ']'
        &&& p.first.len() > 0 && lacks(p.first, ']') && lacks(p.first, ':')
        &&& p.last matches Some(l) ==> l.len() > 0 && lacks(l, ']')
    } else {
        &&& p.book matches Some(b) ==> b.len() > 0 && b[0] == '[' && b.last() == ']' && lacks(
            b.drop_last(),
            ']',
        )
        &&& p.first == scan::lost() || (p.first.len() > 0 && all_name_chars(p.first))
        &&& p.last matches Some(l) ==> l.len() > 0 && all_name_chars(l)
    }
}

/// A reference on the sheet, with a prefix whose parts can be told apart.
pub open spec fn ref_ok(r: refs::RefText) -> bool {
    &&& refs::on_grid(r.body)
    &&& r.sheet matches Some(p) ==> prefix_ok(p)
}

/// `t` stands at `i`, character by character.
pub(crate) proof fn lemma_stands(s: Seq<char>, i: int, t: Seq<char>, k: int)
    requires
        scan::stands(s, i, t),
        0 <= k < t.len(),
    ensures
        s[i + k] == t[k],
{
    assert(s.subrange(i, i + t.len())[k] == t[k]);
}

/// The parts of a text that stands at `i` stand one behind the other.
pub(crate) proof fn lemma_stands_split(s: Seq<char>, i: int, a: Seq<char>, b: Seq<char>)
    requires
        scan::stands(s, i, a + b),
    ensures
        scan::stands(s, i, a),
        scan::stands(s, i + a.len(), b),
{
    let t = a + b;
    assert(s.subrange(i, i + t.len()) == t);
    assert(s.subrange(i, i + a.len()) =~= a) by {
        assert forall|k: int| 0 <= k < a.len() implies s.subrange(i, i + a.len())[k] == a[k] by {
            assert(t[k] == a[k]);
            lemma_stands(s, i, t, k);
        }
    }
    assert(s.subrange(i + a.len(), i + a.len() + b.len()) =~= b) by {
        assert forall|k: int|
            0 <= k < b.len() implies s.subrange(i + a.len(), i + a.len() + b.len())[k] == b[k] by {
            assert(t[a.len() + k] == b[k]);
            lemma_stands(s, i, t, a.len() + k);
        }
    }
}

/// A decimal number is digits that spell it.
pub(crate) proof fn lemma_decimal(n: nat)
    ensures
        text::decimal(n).len() > 0,
        refs::all_digits(text::decimal(n)),
        refs::digits_value(text::decimal(n)) == n,
    decreases n,
{
    let s = text::decimal(n);
    if n < 10 {
        assert(s.drop_last() =~= Seq::<char>::empty());
        reveal_with_fuel(refs::digits_value, 2);
    } else {
        lemma_decimal(n / 10);
        assert(s.drop_last() =~= text::decimal(n / 10));
    }
}

pub(crate) proof fn lemma_digits_run(s: Seq<char>, i: int, e: int)
    requires
        0 <= i <= e <= s.len(),
        forall|k: int| i <= k < e ==> text::is_digit(#[trigger] s[k]),
        e < s.len() ==> !text::is_digit(s[e]),
    ensures
        scan::digits_end(s, i) == e,
    decreases e - i,
{
    if i < e {
        assert(text::is_digit(s[i]));
        lemma_digits_run(s, i + 1, e);
    }
}

pub(crate) proof fn lemma_letters_run(s: Seq<char>, i: int, e: int, n: nat)
    requires
        0 <= i <= e <= s.len(),
        e - i <= n,
        forall|k: int| i <= k < e ==> text::is_letter(#[trigger] s[k]),
        e < s.len() ==> !text::is_letter(s[e]),
    ensures
        scan::letters_end(s, i, n) == e,
    decreases e - i,
{
    if i < e {
        assert(text::is_letter(s[i]));
        lemma_letters_run(s, i + 1, e, (n - 1) as nat);
    }
}

pub(crate) proof fn lemma_name_run(s: Seq<char>, i: int, e: int)
    requires
        0 <= i <= e <= s.len(),
        forall|k: int| i <= k < e ==> scan::name_char(#[trigger] s[k]),
        e < s.len() ==> !scan::name_char(s[e]),
    ensures
        scan::name_end(s, i) == e,
    decreases e - i,
{
    if i < e {
        assert(scan::name_char(s[i]));
        lemma_name_run(s, i + 1, e);
    }
}

proof fn lemma_found(s: Seq<char>, i: int, k: int, c: char)
    requires
        0 <= i <= k < s.len(),
        s[k] == c,
        forall|j: int| i <= j < k ==> #[trigger] s[j] != c,
    ensures
        text::find(s, i, c) == Some(k),
    decreases k - i,
{
    if i < k {
        assert(s[i] != c);
        lemma_found(s, i + 1, k, c);
    }
}

/// A row reads as it is written.
proof fn lemma_row_read(s: Seq<char>, i: int, row: u32)
    requires
        row <= refs::MAX_ROW,
        scan::stands(s, i, refs::row_text(row as nat)),
        ({
            let e = i + refs::row_text(row as nat).len();
            e < s.len() ==> !text::is_digit(s[e])
        }),
    ensures
        refs::row_text(row as nat).len() > 0,
        text::is_digit(s[i]),
        scan::number_at(s, i) is Some,
        scan::row_at(s, i) == Some((row, i + refs::row_text(row as nat).len())),
{
    let t = refs::row_text(row as nat);
    let e = i + t.len();
    lemma_decimal(row as nat + 1);
    assert forall|k: int| i <= k < e implies text::is_digit(#[trigger] s[k]) by {
        lemma_stands(s, i, t, k - i);
        assert(text::is_digit(t[k - i]));
    }
    lemma_digits_run(s, i, e);
    assert(text::is_digit(s[i]));
}

/// A column reads as it is written.
proof fn lemma_col_read(s: Seq<char>, i: int, col: u32)
    requires
        col <= refs::MAX_COL,
        scan::stands(s, i, refs::col_text(col as nat)),
        ({
            let e = i + refs::col_text(col as nat).len();
            e < s.len() ==> !text::is_letter(s[e])
        }),
    ensures
        ({
            let e = i + refs::col_text(col as nat).len();
            &&& i < e
            &&& text::is_letter(s[i])
            &&& scan::letters_end(s, i, 3) == e
            &&& refs::col_of(s.subrange(i, e)) == Some(col)
        }),
{
    let t = refs::col_text(col as nat);
    let e = i + t.len();
    refs::lemma_col_round_trip(col as nat);
    assert forall|k: int| i <= k < e implies text::is_letter(#[trigger] s[k]) by {
        lemma_stands(s, i, t, k - i);
    }
    lemma_letters_run(s, i, e, 3);
    assert(text::is_letter(s[i]));
}

/// A dollar before a text that begins with none.
proof fn lemma_dollar_read(s: Seq<char>, i: int, abs: bool, t: Seq<char>)
    requires
        scan::stands(s, i, refs::dollar(abs) + t),
        t.len() > 0,
        t[0] != '$',
    ensures
        (scan::at(s, i) == Some('$')) == abs,
        scan::stands(s, i + refs::dollar(abs).len(), t),
{
    lemma_stands_split(s, i, refs::dollar(abs), t);
    lemma_stands(s, i + refs::dollar(abs).len(), t, 0);
    if abs {
        lemma_stands(s, i, refs::dollar(abs), 0);
    }
}

/// A cell reads as it is written.
pub(crate) proof fn lemma_cell_read(s: Seq<char>, i: int, c: CellRef)
    requires
        c.col <= refs::MAX_COL,
        c.row <= refs::MAX_ROW,
        scan::stands(s, i, refs::cell_text(c)),
        ({
            let e = i + refs::cell_text(c).len();
            e < s.len() ==> !text::is_digit(s[e])
        }),
    ensures
        scan::half_at(s, i) == Some((scan::Half::Cell(c), i + refs::cell_text(c).len())),
        refs::cell_text(c).len() > 0,
        s[i] == '$' || text::is_letter(s[i]),
{
    let col = refs::col_text(c.col as nat);
    let row = refs::row_text(c.row as nat);
    let tail = refs::dollar(c.row_abs) + row;
    refs::lemma_col_round_trip(c.col as nat);
    lemma_decimal(c.row as nat + 1);
    assert(refs::cell_text(c) =~= refs::dollar(c.col_abs) + (col + tail));
    assert((col + tail)[0] == col[0]);
    lemma_dollar_read(s, i, c.col_abs, col + tail);
    let from = i + refs::dollar(c.col_abs).len();
    lemma_stands_split(s, from, col, tail);
    let p = from + col.len();
    assert(row[0] != '$') by {
        assert(text::is_digit(row[0]));
    }
    lemma_dollar_read(s, p, c.row_abs, row);
    let q = p + refs::dollar(c.row_abs).len();
    lemma_row_read(s, q, c.row);
    assert(!text::is_letter(s[p]));
    lemma_col_read(s, from, c.col);
}

/// One end of whole columns reads as it is written.
pub(crate) proof fn lemma_col_line_read(s: Seq<char>, i: int, l: Line)
    requires
        l.idx <= refs::MAX_COL,
        scan::stands(s, i, refs::dollar(l.abs) + refs::col_text(l.idx as nat)),
        ({
            let e = i + (refs::dollar(l.abs) + refs::col_text(l.idx as nat)).len();
            e < s.len() ==> !text::is_letter(s[e]) && !text::is_digit(s[e]) && s[e] != '$'
        }),
    ensures
        scan::half_at(s, i) == Some(
            (
                scan::Half::Col(l),
                i + (refs::dollar(l.abs) + refs::col_text(l.idx as nat)).len(),
            ),
        ),
        s[i] == '$' || text::is_letter(s[i]),
{
    let col = refs::col_text(l.idx as nat);
    refs::lemma_col_round_trip(l.idx as nat);
    lemma_dollar_read(s, i, l.abs, col);
    let from = i + refs::dollar(l.abs).len();
    lemma_col_read(s, from, l.idx);
    let p = from + col.len();
    assert(scan::digits_end(s, p) == p);
}

/// One end of whole rows reads as it is written.
pub(crate) proof fn lemma_row_line_read(s: Seq<char>, i: int, l: Line)
    requires
        l.idx <= refs::MAX_ROW,
        scan::stands(s, i, refs::dollar(l.abs) + refs::row_text(l.idx as nat)),
        ({
            let e = i + (refs::dollar(l.abs) + refs::row_text(l.idx as nat)).len();
            e < s.len() ==> !text::is_digit(s[e])
        }),
    ensures
        scan::half_at(s, i) == Some(
            (
                scan::Half::Row(l),
                i + (refs::dollar(l.abs) + refs::row_text(l.idx as nat)).len(),
            ),
        ),
        s[i] == '$' || text::is_digit(s[i]),
{
    let row = refs::row_text(l.idx as nat);
    lemma_decimal(l.idx as nat + 1);
    assert(text::is_digit(row[0]));
    lemma_dollar_read(s, i, l.abs, row);
    let from = i + refs::dollar(l.abs).len();
    lemma_row_read(s, from, l.idx);
    assert(scan::letters_end(s, from, 3) == from);
}

/// `#REF!` does not stand where another character does.
pub(crate) proof fn lemma_not_lost(s: Seq<char>, i: int)
    requires
        0 <= i < s.len(),
        s[i] != '#',
    ensures
        !scan::stands(s, i, scan::lost()),
{
    if scan::stands(s, i, scan::lost()) {
        lemma_stands(s, i, scan::lost(), 0);
    }
}

/// Two texts with a colon between them.
pub(crate) proof fn lemma_pair_split(s: Seq<char>, i: int, a: Seq<char>, z: Seq<char>)
    requires
        scan::stands(s, i, a + seq![':'] + z),
    ensures
        scan::stands(s, i, a),
        scan::stands(s, i + a.len() + 1, z),
        s[i + a.len()] == ':',
{
    assert(a + seq![':'] + z =~= a + (seq![':'] + z));
    lemma_stands_split(s, i, a, seq![':'] + z);
    lemma_stands_split(s, i + a.len(), seq![':'], z);
    lemma_stands(s, i + a.len(), seq![':'], 0);
}

/// A reference may end at `e`: no character that would carry it on stands there.
pub open spec fn ends(s: Seq<char>, e: int) -> bool {
    e < s.len() ==> !scan::name_char(s[e]) && s[e] != '$'
}

proof fn lemma_cols_read(s: Seq<char>, i: int, from: Line, to: Line)
    requires
        refs::on_grid(RefBody::Cols { from, to }),
        scan::stands(s, i, refs::body_text(RefBody::Cols { from, to })),
        ends(s, i + refs::body_text(RefBody::Cols { from, to }).len()),
    ensures
        scan::body_at(s, i) == Some(
            (
                RefBody::Cols { from, to },
                i + refs::body_text(RefBody::Cols { from, to }).len() as int,
            ),
        ),
{
    let a = refs::dollar(from.abs) + refs::col_text(from.idx as nat);
    let z = refs::dollar(to.abs) + refs::col_text(to.idx as nat);
    assert(refs::body_text(RefBody::Cols { from, to }) =~= a + seq![':'] + z);
    lemma_pair_split(s, i, a, z);
    lemma_col_line_read(s, i, from);
    lemma_col_line_read(s, i + a.len() + 1, to);
    refs::lemma_col_round_trip(from.idx as nat);
    lemma_not_lost(s, i);
}

proof fn lemma_rows_read(s: Seq<char>, i: int, from: Line, to: Line)
    requires
        refs::on_grid(RefBody::Rows { from, to }),
        scan::stands(s, i, refs::body_text(RefBody::Rows { from, to })),
        ends(s, i + refs::body_text(RefBody::Rows { from, to }).len()),
    ensures
        scan::body_at(s, i) == Some(
            (
                RefBody::Rows { from, to },
                i + refs::body_text(RefBody::Rows { from, to }).len() as int,
            ),
        ),
{
    let a = refs::dollar(from.abs) + refs::row_text(from.idx as nat);
    let z = refs::dollar(to.abs) + refs::row_text(to.idx as nat);
    assert(refs::body_text(RefBody::Rows { from, to }) =~= a + seq![':'] + z);
    lemma_pair_split(s, i, a, z);
    lemma_row_line_read(s, i, from);
    lemma_row_line_read(s, i + a.len() + 1, to);
    lemma_decimal(from.idx as nat + 1);
    lemma_not_lost(s, i);
}

proof fn lemma_area_read(s: Seq<char>, i: int, from: CellRef, to: CellRef)
    requires
        refs::on_grid(RefBody::Area { from, to }),
        scan::stands(s, i, refs::body_text(RefBody::Area { from, to })),
        ends(s, i + refs::body_text(RefBody::Area { from, to }).len()),
    ensures
        scan::body_at(s, i) == Some(
            (
                RefBody::Area { from, to },
                i + refs::body_text(RefBody::Area { from, to }).len() as int,
            ),
        ),
{
    let a = refs::cell_text(from);
    let z = refs::cell_text(to);
    lemma_pair_split(s, i, a, z);
    lemma_cell_read(s, i, from);
    lemma_cell_read(s, i + a.len() + 1, to);
    lemma_not_lost(s, i);
}

/// What stands behind the sheet name reads as it is written.
pub(crate) proof fn lemma_body_read(s: Seq<char>, i: int, b: RefBody)
    requires
        refs::on_grid(b),
        scan::stands(s, i, refs::body_text(b)),
        ends(s, i + refs::body_text(b).len()),
        b matches RefBody::Cell(c) ==> scan::range_at(
            s,
            scan::Half::Cell(c),
            i + refs::body_text(b).len(),
        ) is None,
    ensures
        scan::body_at(s, i) == Some((b, i + refs::body_text(b).len() as int)),
{
    match b {
        RefBody::Invalid => {
            assert(refs::body_text(b) =~= scan::lost());
        },
        RefBody::Cell(c) => {
            lemma_cell_read(s, i, c);
            lemma_not_lost(s, i);
        },
        RefBody::Area { from, to } => lemma_area_read(s, i, from, to),
        RefBody::Cols { from, to } => lemma_cols_read(s, i, from, to),
        RefBody::Rows { from, to } => lemma_rows_read(s, i, from, to),
    }
}

/// The text of a body holds no apostrophe and no bracket, and no exclamation
/// mark but that of `#REF!`.
pub(crate) proof fn lemma_body_plain(b: RefBody)
    requires
        refs::on_grid(b),
        !(b is Invalid),
    ensures
        lacks(refs::body_text(b), '\''),
        lacks(refs::body_text(b), '['),
        lacks(refs::body_text(b), '!'),
        refs::body_text(b).len() > 0,
        refs::body_text(b)[0] != '#',
{
    match b {
        RefBody::Invalid => {},
        RefBody::Cell(c) => {
            refs::lemma_col_round_trip(c.col as nat);
            lemma_decimal(c.row as nat + 1);
            lemma_cell_plain(c);
        },
        RefBody::Area { from, to } => {
            refs::lemma_col_round_trip(from.col as nat);
            lemma_cell_plain(from);
            lemma_cell_plain(to);
        },
        RefBody::Cols { from, to } => {
            refs::lemma_col_round_trip(from.idx as nat);
            refs::lemma_col_round_trip(to.idx as nat);
        },
        RefBody::Rows { from, to } => {
            lemma_row_plain(from.idx as nat);
            lemma_row_plain(to.idx as nat);
        },
    }
}

proof fn lemma_row_plain(i: nat)
    ensures
        lacks(refs::row_text(i), '\''),
        lacks(refs::row_text(i), '['),
        lacks(refs::row_text(i), '!'),
        lacks(refs::row_text(i), '#'),
        refs::row_text(i).len() > 0,
{
    let n: nat = if i < u32::MAX {
        i + 1
    } else {
        i
    };
    lemma_decimal(n);
    let t = refs::row_text(i);
    assert forall|k: int| 0 <= k < t.len() implies #[trigger] t[k] != '\'' && t[k] != '[' && t[k]
        != '!' && t[k] != '#' by {
        assert(text::is_digit(t[k]));
    }
}

proof fn lemma_cell_plain(c: CellRef)
    requires
        c.col <= refs::MAX_COL,
    ensures
        lacks(refs::cell_text(c), '\''),
        lacks(refs::cell_text(c), '['),
        lacks(refs::cell_text(c), '!'),
        refs::cell_text(c).len() > 0,
        refs::cell_text(c)[0] != '#',
{
    refs::lemma_col_round_trip(c.col as nat);
    lemma_row_plain(c.row as nat);
}

/// A reference without a sheet name has no prefix to be read.
proof fn lemma_no_prefix(b: RefBody)
    requires
        refs::on_grid(b),
    ensures
        scan::prefix_at(refs::body_text(b), 0) is None,
{
    let s = refs::body_text(b);
    if b is Invalid {
        assert(s.subrange(0, 5) =~= scan::lost());
        assert(scan::stands(s, 0, scan::lost()));
    } else {
        lemma_body_plain(b);
        lemma_not_lost(s, 0);
        scan::lemma_name_end(s, 0);
        let q = scan::name_end(s, 0);
        if q < s.len() {
            scan::lemma_name_end(s, q + 1);
        }
    }
}

/// A text with its quotes doubled reads as the text.
pub(crate) proof fn lemma_quoted_read(s: Seq<char>, p: int, t: Seq<char>, q: char)
    requires
        scan::stands(s, p, refs::doubled(t, q) + seq![q]),
        scan::at(s, p + refs::doubled(t, q).len() + 1) != Some(q),
    ensures
        scan::unquoted(s, p, q) == Some((t, p + refs::doubled(t, q).len() + 1)),
    decreases t.len(),
{
    let d = refs::doubled(t, q);
    if t.len() == 0 {
        lemma_stands(s, p, d + seq![q], 0);
        assert(t =~= Seq::<char>::empty());
    } else {
        let one = seq![t[0]];
        let rest = t.skip(1);
        assert(t =~= one + rest);
        laws::lemma_doubled_concat(one, rest, q);
        let w = refs::doubled(one, q);
        assert(one.drop_last() =~= Seq::<char>::empty());
        assert(w =~= (if t[0] == q {
            seq![q, q]
        } else {
            seq![t[0]]
        })) by {
            reveal_with_fuel(refs::doubled, 2);
        }
        let tail = refs::doubled(rest, q) + seq![q];
        assert(d + seq![q] =~= w + tail);
        lemma_stands_split(s, p, w, tail);
        lemma_quoted_read(s, p + w.len(), rest, q);
        lemma_stands(s, p, w, 0);
        if t[0] == q {
            lemma_stands(s, p, w, 1);
        }
    }
}

/// What stands between the apostrophes of a quoted prefix.
pub open spec fn prefix_inner(p: refs::PrefixText) -> Seq<char> {
    (match p.book {
        Some(b) => b,
        None => Seq::empty(),
    }) + p.first + (match p.last {
        Some(l) => seq![':'] + l,
        None => Seq::empty(),
    })
}

proof fn lemma_doubled_one(c: char, q: char)
    requires
        c != q,
    ensures
        refs::doubled(seq![c], q) == seq![c],
{
    assert(seq![c].drop_last() =~= Seq::<char>::empty());
    reveal_with_fuel(refs::doubled, 2);
    assert(refs::doubled(seq![c], q) =~= seq![c]);
}

proof fn lemma_quoted_prefix_text(p: refs::PrefixText)
    requires
        p.quoted,
    ensures
        refs::prefix_text(p) == seq!['\''] + (refs::doubled(prefix_inner(p), '\'') + seq!['\''])
            + seq!['!'],
{
    let q = '\'';
    let b = match p.book {
        Some(b) => b,
        None => Seq::empty(),
    };
    let l = match p.last {
        Some(l) => seq![':'] + l,
        None => Seq::empty(),
    };
    laws::lemma_doubled_concat(b + p.first, l, q);
    laws::lemma_doubled_concat(b, p.first, q);
    lemma_doubled_one(':', q);
    if let Some(x) = p.last {
        laws::lemma_doubled_concat(seq![':'], x, q);
    }
    assert(refs::prefix_text(p) =~= seq![q] + (refs::doubled(prefix_inner(p), q) + seq![q])
        + seq!['!']);
}

/// The last `]` of a quoted prefix is that of its book.
proof fn lemma_book_found(t: Seq<char>, n: int)
    requires
        0 <= n <= t.len(),
        n > 0 ==> t[n - 1] == ']',
        forall|k: int| n <= k < t.len() ==> #[trigger] t[k] != ']',
    ensures
        scan::rfind(t, ']') == (if n > 0 {
            Some(n - 1)
        } else {
            None
        }),
{
    scan::lemma_rfind(t, ']');
    match scan::rfind(t, ']') {
        Some(k) => {
            if k >= n {
                assert(t[k] != ']');
            }
        },
        None => {},
    }
}

/// The sheets of a quoted prefix hold no `]`, and the first one no colon.
proof fn lemma_sheets_lack(first: Seq<char>, last: Option<Seq<char>>, rest: Seq<char>)
    requires
        lacks(first, ']'),
        lacks(first, ':'),
        last matches Some(l) ==> lacks(l, ']'),
        rest == first + (match last {
            Some(l) => seq![':'] + l,
            None => Seq::empty(),
        }),
    ensures
        lacks(rest, ']'),
        text::find(rest, 0, ':') == (match last {
            Some(_) => Some(first.len() as int),
            None => None,
        }),
{
    let k = first.len() as int;
    assert forall|j: int| 0 <= j < rest.len() implies #[trigger] rest[j] != ']' by {
        if j < k {
            assert(rest[j] == first[j]);
        } else if j > k {
            assert(rest[j] == last->0[j - k - 1]);
        }
    }
    assert forall|j: int| 0 <= j < k implies #[trigger] rest[j] != ':' by {
        assert(rest[j] == first[j]);
    }
    match last {
        Some(l) => lemma_found(rest, 0, k, ':'),
        None => text::lemma_find(rest, 0, ':'),
    }
}

/// The parts of a quoted prefix read as they are written.
proof fn lemma_parts_read(p: refs::PrefixText)
    requires
        p.quoted,
        prefix_ok(p),
    ensures
        scan::prefix_parts(prefix_inner(p)) == Some(p),
{
    let t = prefix_inner(p);
    let b = match p.book {
        Some(b) => b,
        None => Seq::empty(),
    };
    let rest = p.first + (match p.last {
        Some(l) => seq![':'] + l,
        None => Seq::empty(),
    });
    let n = b.len() as int;
    let k = p.first.len() as int;
    assert(t =~= b + rest);
    lemma_sheets_lack(p.first, p.last, rest);
    assert forall|j: int| n <= j < t.len() implies #[trigger] t[j] != ']' by {
        assert(t[j] == rest[j - n]);
    }
    lemma_book_found(t, n);
    assert(t.skip(n) =~= rest);
    assert(t.take(n) =~= b);
    match p.last {
        Some(x) => {
            assert(rest.take(k) =~= p.first);
            assert(rest.skip(k + 1) =~= x);
        },
        None => {
            assert(rest =~= p.first);
        },
    }
}

/// A quoted prefix reads as it is written.
pub(crate) proof fn lemma_quoted_prefix_read(s: Seq<char>, i: int, p: refs::PrefixText)
    requires
        p.quoted,
        prefix_ok(p),
        scan::stands(s, i, refs::prefix_text(p)),
    ensures
        scan::prefix_at(s, i) == Some((p, i + refs::prefix_text(p).len() as int)),
{
    let q = '\'';
    let t = prefix_inner(p);
    let d = refs::doubled(t, q);
    lemma_quoted_prefix_text(p);
    lemma_stands_split(s, i, seq![q] + (d + seq![q]), seq!['!']);
    lemma_stands_split(s, i, seq![q], d + seq![q]);
    lemma_stands(s, i, seq![q], 0);
    lemma_stands(s, i + 2 + d.len() as int, seq!['!'], 0);
    lemma_quoted_read(s, i + 1, t, q);
    lemma_parts_read(p);
}

/// An unquoted prefix reads as it is written.
pub(crate) proof fn lemma_plain_prefix_read(s: Seq<char>, i: int, x: refs::PrefixText)
    requires
        !x.quoted,
        prefix_ok(x),
        scan::stands(s, i, refs::prefix_text(x)),
    ensures
        scan::prefix_at(s, i) == Some((x, i + refs::prefix_text(x).len() as int)),
{
    let b = match x.book {
        Some(b) => b,
        None => Seq::empty(),
    };
    let l = match x.last {
        Some(l) => seq![':'] + l,
        None => Seq::empty(),
    };
    let p = i + b.len() as int;
    let q = p + x.first.len();
    let e = q + l.len();
    assert(refs::prefix_text(x) =~= b + (x.first + (l + seq!['!'])));
    lemma_stands_split(s, i, b, x.first + (l + seq!['!']));
    lemma_stands_split(s, p, x.first, l + seq!['!']);
    lemma_stands_split(s, q, l, seq!['!']);
    lemma_stands(s, e, seq!['!'], 0);
    lemma_stands(s, p, x.first, 0);
    if let Some(k) = x.book {
        lemma_stands(s, i, b, 0);
        lemma_stands(s, i, b, p - 1 - i);
        assert forall|j: int| i <= j < p - 1 implies #[trigger] s[j] != ']' by {
            lemma_stands(s, i, b, j - i);
            assert(b.drop_last()[j - i] != ']');
        }
        lemma_found(s, i, p - 1, ']');
    } else {
        if x.first == scan::lost() {
        } else {
            assert(scan::name_char(x.first[0]));
        }
    }
    assert(scan::book_end(s, i) == Some(p));
    if let Some(y) = x.last {
        lemma_stands(s, q, l, 0);
        lemma_stands_split(s, q, seq![':'], y);
        assert forall|j: int| q + 1 <= j < e implies scan::name_char(#[trigger] s[j]) by {
            lemma_stands(s, q + 1, y, j - q - 1);
            assert(scan::name_char(y[j - q - 1]));
        }
        lemma_name_run(s, q + 1, e);
    }
    assert(s[q] == ':' || s[q] == '!');
    if x.first != scan::lost() {
        assert(scan::name_char(x.first[0]));
        lemma_not_lost(s, p);
        assert forall|j: int| p <= j < q implies scan::name_char(#[trigger] s[j]) by {
            lemma_stands(s, p, x.first, j - p);
            assert(scan::name_char(x.first[j - p]));
        }
        lemma_name_run(s, p, q);
    }
    assert(scan::sheet_end(s, p) == q);
    assert(s.subrange(i, p) =~= b);
    assert(s.subrange(p, q) =~= x.first);
    if let Some(y) = x.last {
        assert(s.subrange(q + 1, e) =~= y);
    }
}

/// A reference that was written reads as it was: the sheet name with its
/// quotes, the cells and the dollars.
pub proof fn lemma_written_reads_back(r: refs::RefText)
    requires
        ref_ok(r),
    ensures
        scan::parsed(refs::ref_text(r)) == Some(r),
{
    let s = refs::ref_text(r);
    let body = refs::body_text(r.body);
    match r.sheet {
        Some(p) => {
            let t = refs::prefix_text(p);
            assert(s =~= t + body);
            assert(s.subrange(0, s.len() as int) =~= s);
            lemma_stands_split(s, 0, t, body);
            if p.quoted {
                lemma_quoted_prefix_read(s, 0, p);
            } else {
                lemma_plain_prefix_read(s, 0, p);
            }
            lemma_body_read(s, t.len() as int, r.body);
        },
        None => {
            assert(s =~= body);
            assert(s.subrange(0, s.len() as int) =~= s);
            lemma_no_prefix(r.body);
            lemma_body_read(s, 0, r.body);
        },
    }
}

/// What was read can be told apart in its text.
pub proof fn lemma_read_is_ok(s: Seq<char>, i: int)
    requires
        0 <= i <= s.len(),
    ensures
        match scan::ref_at(s, i) {
            Some((r, e)) => ref_ok(r),
            None => true,
        },
{
    scan::lemma_prefix_at(s, i);
    lemma_prefix_is_ok(s, i);
}

proof fn lemma_prefix_is_ok(s: Seq<char>, i: int)
    requires
        0 <= i <= s.len(),
    ensures
        match scan::prefix_at(s, i) {
            Some((p, e)) => prefix_ok(p),
            None => true,
        },
{
    if let Some((x, _)) = scan::prefix_at(s, i) {
        if scan::at(s, i) == Some('\'') {
            let (t, p) = scan::unquoted(s, i + 1, '\'')->0;
            lemma_parts_ok(t);
        } else {
            text::lemma_find(s, i, ']');
            let p = scan::book_end(s, i)->0;
            scan::lemma_name_end(s, p);
            let q = scan::sheet_end(s, p);
            if q < s.len() {
                scan::lemma_name_end(s, q + 1);
            }
            if let Some(b) = x.book {
                assert(b == s.subrange(i, p));
                assert forall|k: int| 0 <= k < b.drop_last().len() implies #[trigger] b.drop_last()[k]
                    != ']' by {
                    assert(b.drop_last()[k] == s[i + k]);
                }
            }
            if scan::stands(s, p, scan::lost()) {
                assert(x.first =~= scan::lost());
            } else {
                assert forall|k: int| 0 <= k < x.first.len() implies scan::name_char(
                    #[trigger] x.first[k],
                ) by {
                    assert(x.first[k] == s[p + k]);
                }
            }
            if let Some(y) = x.last {
                assert forall|k: int| 0 <= k < y.len() implies scan::name_char(
                    #[trigger] y[k],
                ) by {
                    assert(y[k] == s[q + 1 + k]);
                }
            }
        }
    }
}

proof fn lemma_parts_ok(t: Seq<char>)
    ensures
        match scan::prefix_parts(t) {
            Some(p) => prefix_ok(p),
            None => true,
        },
{
    scan::lemma_rfind(t, ']');
    let end = match scan::rfind(t, ']') {
        Some(k) => k + 1,
        None => 0,
    };
    let rest = t.skip(end);
    text::lemma_find(rest, 0, ':');
    if let Some(p) = scan::prefix_parts(t) {
        assert forall|k: int| 0 <= k < rest.len() implies #[trigger] rest[k] != ']' by {
            assert(rest[k] == t[end + k]);
        }
        match text::find(rest, 0, ':') {
            Some(k) => {
                assert forall|j: int| 0 <= j < p.first.len() implies #[trigger] p.first[j] != ']'
                    && p.first[j] != ':' by {
                    assert(p.first[j] == rest[j]);
                }
                let l = p.last->0;
                assert forall|j: int| 0 <= j < l.len() implies #[trigger] l[j] != ']' by {
                    assert(l[j] == rest[k + 1 + j]);
                }
            },
            None => {},
        }
    }
}

/// Writing a reference that was read, and reading it again, changes nothing.
pub proof fn lemma_read_written_read(s: Seq<char>)
    ensures
        match scan::parsed(s) {
            Some(r) => scan::parsed(refs::ref_text(r)) == Some(r),
            None => true,
        },
{
    lemma_read_is_ok(s, 0);
    if let Some(r) = scan::parsed(s) {
        lemma_written_reads_back(r);
    }
}

} // verus!
