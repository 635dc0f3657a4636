//! What a page says of the cells of a workbook.
use vstd::prelude::*;
use vstd::string::*;

use crate::export::grid;
use crate::export::html;
use crate::export::html::{HtmlOptions, Plan};
use crate::export::model::{Appearance, Cell, CellRange, CellValue, Sheet};
use crate::export::style;
use crate::export::table_laws;
use crate::text;

verus! {

/// A text of a page as a browser reads it: the four references stand for their
/// characters, every other character for itself.
pub open spec fn unescaped(s: Seq<char>, i: int) -> Seq<char>
    decreases s.len() - i,
{
    if !(0 <= i < s.len()) {
        Seq::empty()
    } else if at(s, i, seq!['&', 'a', 'm', 'p', ';']) {
        seq!['&'] + unescaped(s, i + 5)
    } else if at(s, i, seq!['&', 'l', 't', ';']) {
        seq!['<'] + unescaped(s, i + 4)
    } else if at(s, i, seq!['&', 'g', 't', ';']) {
        seq!['>'] + unescaped(s, i + 4)
    } else if at(s, i, seq!['&', 'q', 'u', 'o', 't', ';']) {
        seq!['"'] + unescaped(s, i + 6)
    } else {
        seq![s[i]] + unescaped(s, i + 1)
    }
}

pub open spec fn at(s: Seq<char>, i: int, t: Seq<char>) -> bool {
    0 <= i && i + t.len() <= s.len() && s.subrange(i, i + t.len()) == t
}

proof fn lemma_escaped_front(s: Seq<char>)
    requires
        s.len() > 0,
    ensures
        html::escaped_text(s) == html::escaped_char(s[0]) + html::escaped_text(s.skip(1)),
    decreases s.len(),
{
    if s.len() == 1 {
        assert(s.drop_last() =~= Seq::<char>::empty());
        assert(s.skip(1) =~= Seq::<char>::empty());
        assert(html::escaped_text(s) =~= html::escaped_char(s[0]) + html::escaped_text(s.skip(1)));
    } else {
        lemma_escaped_front(s.drop_last());
        assert(s.drop_last().skip(1) =~= s.skip(1).drop_last());
        assert(s.skip(1).last() == s.last());
        assert(html::escaped_text(s) =~= html::escaped_char(s[0]) + html::escaped_text(s.skip(1)));
    }
}

/// Nothing stands at `i` that begins with another character.
proof fn lemma_not_at(s: Seq<char>, i: int, t: Seq<char>)
    requires
        0 <= i < s.len(),
        t.len() > 0,
        s[i] != t[0],
    ensures
        !at(s, i, t),
{
    if at(s, i, t) {
        assert(s.subrange(i, i + t.len())[0] == t[0]);
    }
}

proof fn lemma_reads_from(x: Seq<char>, s: Seq<char>)
    ensures
        unescaped(x + html::escaped_text(s), x.len() as int) == s,
    decreases s.len(),
{
    let t = x + html::escaped_text(s);
    let i = x.len() as int;
    if s.len() == 0 {
        assert(s =~= Seq::<char>::empty());
    } else {
        let c = s[0];
        let w = html::escaped_char(c);
        let rest = s.skip(1);
        lemma_escaped_front(s);
        reveal_strlit("&amp;");
        reveal_strlit("&lt;");
        reveal_strlit("&gt;");
        reveal_strlit("&quot;");
        lemma_reads_from(x + w, rest);
        assert(t =~= (x + w) + html::escaped_text(rest));
        assert(t.subrange(i, i + w.len()) =~= w);
        let amp = seq!['&', 'a', 'm', 'p', ';'];
        let lt = seq!['&', 'l', 't', ';'];
        let gt = seq!['&', 'g', 't', ';'];
        let quot = seq!['&', 'q', 'u', 'o', 't', ';'];
        if c == '&' {
            assert(w =~= amp);
        } else if c == '<' {
            assert(w =~= lt);
            lemma_other(t, i, w, amp);
        } else if c == '>' {
            assert(w =~= gt);
            lemma_other(t, i, w, amp);
            lemma_other(t, i, w, lt);
        } else if c == '"' {
            assert(w =~= quot);
            lemma_other(t, i, w, amp);
            lemma_other(t, i, w, lt);
            lemma_other(t, i, w, gt);
        } else {
            assert(t[i] == c);
            lemma_not_at(t, i, amp);
            lemma_not_at(t, i, lt);
            lemma_not_at(t, i, gt);
            lemma_not_at(t, i, quot);
        }
        assert(seq![c] + rest =~= s);
    }
}

/// Two texts with different second characters do not stand at one place.
proof fn lemma_other(t: Seq<char>, i: int, w: Seq<char>, v: Seq<char>)
    requires
        at(t, i, w),
        w.len() > 1,
        v.len() > 1,
        w[1] != v[1],
    ensures
        !at(t, i, v),
{
    assert(t.subrange(i, i + w.len())[1] == w[1]);
    if at(t, i, v) {
        assert(t.subrange(i, i + v.len())[1] == v[1]);
    }
}

/// A text that was written for a page is read there as the text.
pub proof fn lemma_written_text_reads_back(s: Seq<char>)
    ensures
        unescaped(html::escaped_text(s), 0) == s,
{
    let none = Seq::<char>::empty();
    lemma_reads_from(none, s);
    assert(none + html::escaped_text(s) =~= html::escaped_text(s));
}

/// The last of the cells of a place is at `k`.
pub open spec fn last_at(cells: Seq<Cell>, r: int, c: int, k: int) -> bool {
    &&& 0 <= k < cells.len()
    &&& cells[k].at.row == r && cells[k].at.col == c
    &&& forall|j: int|
        k < j < cells.len() ==> !((#[trigger] cells[j]).at.row == r && cells[j].at.col == c)
}

/// What is shown of a value.
pub open spec fn shown_value(v: CellValue) -> Seq<char> {
    match v {
        CellValue::Empty => Seq::empty(),
        CellValue::Number(t) => t@,
        CellValue::Text(t) => t@,
        CellValue::Error(t) => t@,
        CellValue::Bool(true) => "ИСТИНА"@,
        CellValue::Bool(false) => "ЛОЖЬ"@,
    }
}

/// The letter of the kind of a value.
pub open spec fn kind_letter(v: CellValue) -> Seq<char> {
    match v {
        CellValue::Number(_) => "n"@,
        CellValue::Bool(_) => "b"@,
        CellValue::Error(_) => "e"@,
        CellValue::Text(_) => "s"@,
        CellValue::Empty => "s"@,
    }
}

proof fn lemma_spot_of_last(cells: Seq<Cell>, r: int, c: int, k: int)
    requires
        last_at(cells, r, c, k),
    ensures
        ({
            let s = grid::spot_of_cells(cells, r, c);
            &&& s.text == shown_value(cells[k].value)
            &&& s.class == kind_letter(cells[k].value)
            &&& s.style == cells[k].style
            &&& cells[k].formula matches Some(f) ==> s.title == Some("="@ + f@)
        }),
    decreases cells.len(),
{
    let n = cells.len() - 1;
    assert(cells.last() == cells[n]);
    if k < n {
        let less = cells.drop_last();
        assert(less[k] == cells[k]);
        assert forall|j: int| k < j < less.len() implies !((#[trigger] less[j]).at.row == r
            && less[j].at.col == c) by {
            assert(less[j] == cells[j]);
        }
        lemma_spot_of_last(less, r, c, k);
    }
}

proof fn lemma_spot_of_none(cells: Seq<Cell>, r: int, c: int)
    requires
        forall|j: int|
            0 <= j < cells.len() ==> !((#[trigger] cells[j]).at.row == r && cells[j].at.col == c),
    ensures
        ({
            let s = grid::spot_of_cells(cells, r, c);
            s.text.len() == 0 && s.class.len() == 0 && s.style is None && s.title is None
        }),
    decreases cells.len(),
{
    reveal_strlit("");
    if cells.len() > 0 {
        let less = cells.drop_last();
        assert forall|j: int| 0 <= j < less.len() implies !((#[trigger] less[j]).at.row == r
            && less[j].at.col == c) by {
            assert(less[j] == cells[j]);
        }
        lemma_spot_of_none(less, r, c);
        assert(cells.last() == cells[cells.len() - 1]);
    }
}

/// A text ends with another one.
pub open spec fn ends(s: Seq<char>, t: Seq<char>) -> bool {
    t.len() <= s.len() && s.skip(s.len() - t.len()) == t
}

/// Whether the text of a style goes on in the next line.
pub open spec fn wrapped(ap: Option<Appearance>, x: u32) -> bool {
    match ap {
        Some(a) => x < a.looks@.len() && a.looks@[x as int].alignment is Some
            && a.looks@[x as int].alignment->0.wrap,
        None => false,
    }
}

/// A place of the table shows the last cell that lies there: its text is the
/// value of the cell, written for the page, its classes say what kind of value
/// that is, that there is a formula, and the style, and its title is the
/// formula behind `=`. A place without a cell shows nothing.
pub proof fn lemma_place_shows_its_cell(p: Plan, r: int, c: int, k: int)
    requires
        table_laws::tidy(p.merges),
        p.rows <= u32::MAX,
        p.cols <= u32::MAX,
        0 <= r < p.rows,
        0 <= c < p.cols,
        last_at(p.cells, r, c, k),
        !p.spot(r, c).covered,
    ensures
        ({
            let cell = p.cells[k];
            let t = html::cell_text(p.spot(r, c), p.right_of(r, c), p.ap);
            let class = kind_letter(cell.value) + style::when(
                p.spot(r, c).title is Some,
                " ff"@,
            ) + (match cell.style {
                Some(x) => " x"@ + text::decimal(x as nat) + style::when(wrapped(p.ap, x), " ww"@),
                None => Seq::empty(),
            });
            &&& ends(t, seq!['>'] + html::escaped_text(shown_value(cell.value)) + "</td>"@)
            &&& cell.formula matches Some(f) ==> table_laws::attr_of(t, 3, "title"@) == Some(
                html::escaped_text("="@ + f@),
            )
            &&& table_laws::attr_of(t, 3, "class"@) == Some(class) || table_laws::attr_of(
                t,
                3,
                "class"@,
            ) == Some(class + " clip"@)
        }),
{
    let s = p.spot(r, c);
    let right = p.right_of(r, c);
    table_laws::lemma_spot_merged(p.cells, p.merges, p.rows as int, p.cols as int, r, c);
    lemma_spot_of_last(p.cells, r, c, k);
    table_laws::lemma_tag_says(s, right, p.ap);
    lemma_cell_ends(s, right, p.ap);
    let class = kind_letter(p.cells[k].value) + style::when(s.title is Some, " ff"@) + (
    match p.cells[k].style {
        Some(x) => " x"@ + text::decimal(x as nat) + style::when(wrapped(p.ap, x), " ww"@),
        None => Seq::empty(),
    });
    let clip = html::cut_off(s, right);
    assert(html::cell_class(s, clip, p.ap) =~= class + style::when(clip, " clip"@));
    assert(class + Seq::<char>::empty() =~= class);
}

proof fn lemma_cell_ends(s: grid::Spot, right: Option<grid::Spot>, ap: Option<Appearance>)
    requires
        !s.covered,
    ensures
        ends(
            html::cell_text(s, right, ap),
            seq!['>'] + html::escaped_text(s.text) + "</td>"@,
        ),
{
    let clip = html::cut_off(s, right);
    let a = "<td class=\""@ + html::cell_class(s, clip, ap) + "\""@ + html::span_text(s.span)
        + html::title_text(s.title);
    let z = seq!['>'] + html::escaped_text(s.text) + "</td>"@;
    let t = html::cell_text(s, right, ap);
    reveal_strlit(">");
    assert(">"@ =~= seq!['>']);
    assert(t =~= a + z);
    assert(t.skip(t.len() - z.len()) =~= z);
}

/// A place without a cell shows no text.
pub proof fn lemma_empty_place_shows_nothing(p: Plan, r: int, c: int)
    requires
        table_laws::tidy(p.merges),
        p.rows <= u32::MAX,
        p.cols <= u32::MAX,
        0 <= r < p.rows,
        0 <= c < p.cols,
        forall|j: int|
            0 <= j < p.cells.len() ==> !((#[trigger] p.cells[j]).at.row == r && p.cells[j].at.col
                == c),
        !p.spot(r, c).covered,
    ensures
        ends(
            html::cell_text(p.spot(r, c), p.right_of(r, c), p.ap),
            seq!['>'] + "</td>"@,
        ),
        table_laws::attr_of(
            html::cell_text(p.spot(r, c), p.right_of(r, c), p.ap),
            3,
            "title"@,
        ) is None,
{
    let s = p.spot(r, c);
    table_laws::lemma_spot_merged(p.cells, p.merges, p.rows as int, p.cols as int, r, c);
    lemma_spot_of_none(p.cells, r, c);
    table_laws::lemma_tag_says(s, p.right_of(r, c), p.ap);
    lemma_cell_ends(s, p.right_of(r, c), p.ap);
    assert(s.text =~= Seq::<char>::empty());
    assert(seq!['>'] + html::escaped_text(s.text) + "</td>"@ =~= seq!['>'] + "</td>"@);
}

/// Text of a place is cut off exactly when it is not empty and the place to the
/// right has text or belongs to another cell.
pub proof fn lemma_text_flows_over_empty_places(p: Plan, r: int, c: int)
    requires
        table_laws::tidy(p.merges),
        p.rows <= u32::MAX,
        p.cols <= u32::MAX,
        0 <= r < p.rows,
        0 <= c < p.cols,
        !p.spot(r, c).covered,
    ensures
        ({
            let t = html::cell_text(p.spot(r, c), p.right_of(r, c), p.ap);
            let class = table_laws::attr_of(t, 3, "class"@)->0;
            let cut = p.spot(r, c).text.len() > 0 && c + 1 < p.cols && (p.spot(
                r,
                c + 1,
            ).text.len() > 0 || p.spot(r, c + 1).covered);
            class == html::cell_class(p.spot(r, c), false, p.ap) + style::when(cut, " clip"@)
        }),
{
    let s = p.spot(r, c);
    let right = p.right_of(r, c);
    table_laws::lemma_spot_merged(p.cells, p.merges, p.rows as int, p.cols as int, r, c);
    table_laws::lemma_tag_says(s, right, p.ap);
    let clip = html::cut_off(s, right);
    let plain = html::cell_class(s, false, p.ap);
    assert(html::cell_class(s, clip, p.ap) =~= plain + style::when(clip, " clip"@));
}

/// Something stands in a cell.
pub open spec fn filled(c: Cell) -> bool {
    !(c.value is Empty) || c.formula is Some
}

proof fn lemma_last_lines(s: Seq<Cell>)
    ensures
        forall|i: int|
            0 <= i < s.len() && filled(#[trigger] s[i]) ==> s[i].at.row <= grid::last_row(s)
                && s[i].at.col <= grid::last_col(s),
        (exists|i: int| 0 <= i < s.len() && filled(#[trigger] s[i])) ==> (exists|i: int|
            0 <= i < s.len() && filled(#[trigger] s[i]) && s[i].at.row == grid::last_row(s)) && (
        exists|i: int|
            0 <= i < s.len() && filled(#[trigger] s[i]) && s[i].at.col == grid::last_col(s)),
        (forall|i: int| 0 <= i < s.len() ==> !filled(#[trigger] s[i])) ==> grid::last_row(s) == 0
            && grid::last_col(s) == 0,
    decreases s.len(),
{
    if s.len() > 0 {
        let t = s.drop_last();
        let n = s.len() - 1;
        lemma_last_lines(t);
        assert forall|i: int| 0 <= i < s.len() && filled(#[trigger] s[i]) implies s[i].at.row
            <= grid::last_row(s) && s[i].at.col <= grid::last_col(s) by {
            if i < n {
                assert(t[i] == s[i]);
            }
        }
        if exists|i: int| 0 <= i < t.len() && filled(#[trigger] t[i]) {
            let a = choose|i: int|
                0 <= i < t.len() && filled(#[trigger] t[i]) && t[i].at.row == grid::last_row(t);
            let b = choose|i: int|
                0 <= i < t.len() && filled(#[trigger] t[i]) && t[i].at.col == grid::last_col(t);
            assert(s[a] == t[a] && s[b] == t[b]);
            assert(filled(s[a]) && filled(s[b]));
            if filled(s[n]) {
                assert(filled(s[n]));
            }
        } else {
            assert forall|i: int| 0 <= i < t.len() implies !filled(#[trigger] t[i]) by {}
            if exists|i: int| 0 <= i < s.len() && filled(#[trigger] s[i]) {
                let i = choose|i: int| 0 <= i < s.len() && filled(#[trigger] s[i]);
                if i < n {
                    assert(t[i] == s[i]);
                }
                assert(filled(s[n]));
            }
        }
        if forall|i: int| 0 <= i < s.len() ==> !filled(#[trigger] s[i]) {
            assert forall|i: int| 0 <= i < t.len() implies !filled(#[trigger] t[i]) by {
                assert(t[i] == s[i]);
            }
            assert(!filled(s[n]));
        }
    }
}

/// A table reaches as far as the cells in which something stands, and no further
/// than the options allow: with `n` rows every such cell above the limit lies in
/// the table, and one of them in its last row unless the limit cuts it off; the
/// same of columns.
pub proof fn lemma_table_reaches_as_far_as_cells(
    cells: Seq<Cell>,
    merges: Seq<CellRange>,
    ap: Option<Appearance>,
    opts: HtmlOptions,
)
    requires
        forall|i: int|
            0 <= i < cells.len() ==> (#[trigger] cells[i]).at.row < u32::MAX && cells[i].at.col
                < u32::MAX,
        exists|i: int| 0 <= i < cells.len() && filled(#[trigger] cells[i]),
    ensures
        ({
            let p = html::plan_of(cells, merges, ap, opts);
            &&& p.rows <= opts.max_rows && p.cols <= opts.max_cols
            &&& forall|i: int|
                0 <= i < cells.len() && filled(#[trigger] cells[i]) && cells[i].at.row
                    < opts.max_rows ==> cells[i].at.row < p.rows
            &&& forall|i: int|
                0 <= i < cells.len() && filled(#[trigger] cells[i]) && cells[i].at.col
                    < opts.max_cols ==> cells[i].at.col < p.cols
            &&& p.rows == opts.max_rows || exists|i: int|
                0 <= i < cells.len() && filled(#[trigger] cells[i]) && cells[i].at.row + 1 == p.rows
            &&& p.cols == opts.max_cols || exists|i: int|
                0 <= i < cells.len() && filled(#[trigger] cells[i]) && cells[i].at.col + 1 == p.cols
            &&& p.cells == cells && p.merges == merges && p.ap == ap
        }),
{
    lemma_last_lines(cells);
    let a = choose|i: int|
        0 <= i < cells.len() && filled(#[trigger] cells[i]) && cells[i].at.row == grid::last_row(
            cells,
        );
    let b = choose|i: int|
        0 <= i < cells.len() && filled(#[trigger] cells[i]) && cells[i].at.col == grid::last_col(
            cells,
        );
    assert(filled(cells[a]) && filled(cells[b]));
}

/// A sheet is empty exactly when nothing stands in any of its cells.
pub proof fn lemma_blank_sheet(cells: Seq<Cell>)
    ensures
        grid::all_blank(cells) == (forall|i: int|
            0 <= i < cells.len() ==> !filled(#[trigger] cells[i])),
{
    if grid::all_blank(cells) {
        assert forall|i: int| 0 <= i < cells.len() implies !filled(#[trigger] cells[i]) by {
            assert(grid::is_blank(cells[i]));
        }
    }
    if forall|i: int| 0 <= i < cells.len() ==> !filled(#[trigger] cells[i]) {
        assert forall|i: int| 0 <= i < cells.len() implies grid::is_blank(#[trigger] cells[i]) by {
            assert(!filled(cells[i]));
        }
    }
}

/// The cells of a row stand in the order of their columns, each once.
pub proof fn lemma_cells_in_order(p: Plan, r: int, n: nat, c: int)
    requires
        0 <= c < n,
    ensures
        ({
            let before = html::cells_text(p, r, c as nat);
            let one = html::cell_text(p.spot(r, c), p.right_of(r, c), p.ap);
            let all = html::cells_text(p, r, n);
            &&& before.len() + one.len() <= all.len()
            &&& all.take((before.len() + one.len()) as int) == before + one
        }),
        html::cells_text(p, r, 0) == Seq::<char>::empty(),
    decreases n,
{
    let before = html::cells_text(p, r, c as nat);
    let one = html::cell_text(p.spot(r, c), p.right_of(r, c), p.ap);
    let all = html::cells_text(p, r, n);
    let k = (before.len() + one.len()) as int;
    if c < n - 1 {
        lemma_cells_in_order(p, r, (n - 1) as nat, c);
        assert(all.take(k) =~= html::cells_text(p, r, (n - 1) as nat).take(k));
    } else {
        assert(all.take(k) =~= before + one);
    }
}

/// The rows of a table stand in their order, each once: the tag with the height
/// of the row, its number from one where there are headers, and its cells.
pub proof fn lemma_rows_in_order(
    p: Plan,
    heights: Seq<Option<u32>>,
    headers: bool,
    n: nat,
    r: int,
)
    requires
        0 <= r < n,
    ensures
        ({
            let before = html::rows_text(p, heights, headers, r as nat);
            let tag = if r < heights.len() && heights[r] is Some {
                "<tr style=\"height:"@ + text::decimal(heights[r]->0 as nat) + "px\">"@
            } else {
                "<tr>"@
            };
            let number = if headers {
                "<th>"@ + text::decimal((r + 1) as nat) + "</th>"@
            } else {
                Seq::empty()
            };
            let one = tag + number + html::cells_text(p, r, p.cols) + "</tr>\n"@;
            let all = html::rows_text(p, heights, headers, n);
            &&& before.len() + one.len() <= all.len()
            &&& all.take((before.len() + one.len()) as int) == before + one
        }),
        html::rows_text(p, heights, headers, 0) == Seq::<char>::empty(),
    decreases n,
{
    let before = html::rows_text(p, heights, headers, r as nat);
    let one = html::row_text(p, heights, headers, r);
    let all = html::rows_text(p, heights, headers, n);
    let k = (before.len() + one.len()) as int;
    if r < n - 1 {
        lemma_rows_in_order(p, heights, headers, (n - 1) as nat, r);
        assert(all.take(k) =~= html::rows_text(p, heights, headers, (n - 1) as nat).take(k));
    } else {
        assert(all.take(k) =~= before + one);
    }
}

/// The headers of columns are their letters, in their order.
pub proof fn lemma_column_headers(n: nat)
    ensures
        html::col_heads(n + 1) == html::col_heads(n) + "<th>"@ + html::letters_of(n) + "</th>"@,
        html::col_heads(0) == Seq::<char>::empty(),
{
    assert(html::col_heads(n + 1) =~= html::col_heads(n) + "<th>"@ + html::letters_of(n)
        + "</th>"@);
}

/// The letters of the first columns are single, and the letters of a later one
/// are those of the columns of its block and one more: after `Z` comes `AA`.
pub proof fn lemma_letters_count_on(col: nat, k: nat)
    requires
        k < 26,
    ensures
        html::letters_of(k) == seq![
            seq![
                'A',
                'B',
                'C',
                'D',
                'E',
                'F',
                'G',
                'H',
                'I',
                'J',
                'K',
                'L',
                'M',
                'N',
                'O',
                'P',
                'Q',
                'R',
                'S',
                'T',
                'U',
                'V',
                'W',
                'X',
                'Y',
                'Z',
            ][k as int],
        ],
        html::letters_of(26 * (col + 1) + k) == html::letters_of(col) + html::letters_of(k),
{
    let n = 26 * (col + 1) + k;
    assert(n / 26 - 1 == col);
    assert(n % 26 == k);
    assert(html::letters_of(n) =~= html::letters_of(col) + html::letters_of(k));
}

/// Every column has a tag with its width, where one is declared.
pub proof fn lemma_column_tags(s: Seq<Option<u32>>, n: nat)
    ensures
        html::col_tags(s, 0) == Seq::<char>::empty(),
        html::col_tags(s, n + 1) == html::col_tags(s, n) + (if n < s.len() && s[n as int] is Some {
            "<col style=\"width:"@ + text::decimal(s[n as int]->0 as nat) + "px\">"@
        } else {
            "<col>"@
        }),
{
}

/// A table is as wide as its columns together: each has the width that is
/// declared for it, or that of a column without one.
pub proof fn lemma_table_width_adds_up(s: Seq<Option<u32>>, n: nat)
    ensures
        html::cols_width(s, 0) == 0,
        html::cols_width(s, n + 1) == html::cols_width(s, n) + (if n < s.len() && s[n as int] is Some {
            s[n as int]->0 as nat
        } else {
            64
        }),
{
}

/// The sheets of a page stand in their order; one that is hidden is left out
/// unless hidden sheets are asked for.
pub proof fn lemma_sheets_in_order(a: Seq<Sheet>, s: Sheet, ap: Option<Appearance>, opts: HtmlOptions)
    ensures
        html::sections_text(a.push(s), ap, opts) == if s.visible || opts.hidden_sheets {
            html::sections_text(a, ap, opts) + html::section_text(s, ap, opts)
        } else {
            html::sections_text(a, ap, opts)
        },
        html::sections_text(Seq::empty(), ap, opts) == Seq::<char>::empty(),
{
    assert(a.push(s).drop_last() =~= a);
    assert(html::sections_text(a, ap, opts) + Seq::<char>::empty() =~= html::sections_text(
        a,
        ap,
        opts,
    ));
}

/// The title of a place is the formula of the last cell there that has one.
pub proof fn lemma_title_is_the_last_formula(cells: Seq<Cell>, r: int, c: int, k: int)
    requires
        0 <= k < cells.len(),
        cells[k].at.row == r && cells[k].at.col == c && cells[k].formula is Some,
        forall|j: int|
            k < j < cells.len() && (#[trigger] cells[j]).at.row == r && cells[j].at.col == c
                ==> cells[j].formula is None,
    ensures
        grid::spot_of_cells(cells, r, c).title == Some("="@ + cells[k].formula->0@),
    decreases cells.len(),
{
    let n = cells.len() - 1;
    assert(cells.last() == cells[n]);
    if k < n {
        let less = cells.drop_last();
        assert(less[k] == cells[k]);
        assert forall|j: int|
            k < j < less.len() && (#[trigger] less[j]).at.row == r && less[j].at.col
                == c implies less[j].formula is None by {
            assert(less[j] == cells[j]);
        }
        lemma_title_is_the_last_formula(less, r, c, k);
    }
}

/// A place has a title only where a cell with a formula lies.
pub proof fn lemma_no_formula_no_title(cells: Seq<Cell>, r: int, c: int)
    requires
        forall|j: int|
            0 <= j < cells.len() && (#[trigger] cells[j]).at.row == r && cells[j].at.col == c
                ==> cells[j].formula is None,
    ensures
        grid::spot_of_cells(cells, r, c).title is None,
    decreases cells.len(),
{
    if cells.len() > 0 {
        let less = cells.drop_last();
        assert forall|j: int|
            0 <= j < less.len() && (#[trigger] less[j]).at.row == r && less[j].at.col
                == c implies less[j].formula is None by {
            assert(less[j] == cells[j]);
        }
        assert(cells.last() == cells[cells.len() - 1]);
        lemma_no_formula_no_title(less, r, c);
    }
}

/// A sheet is said to be shown in part exactly when something stands in a cell
/// behind the limits, and the numbers are those of the rows and columns that are
/// shown and that there are.
pub proof fn lemma_cut_table_says_so(s: Sheet, ap: Option<Appearance>, opts: HtmlOptions)
    requires
        forall|i: int|
            0 <= i < s.cells@.len() ==> (#[trigger] s.cells@[i]).at.row < u32::MAX
                && s.cells@[i].at.col < u32::MAX,
        exists|i: int| 0 <= i < s.cells@.len() && filled(#[trigger] s.cells@[i]),
        opts.max_rows > 0,
        opts.max_cols > 0,
    ensures
        ({
            let t = html::content_text(s, ap, opts);
            let p = html::plan_of(s.cells@, s.merges@, ap, opts);
            let end = "</tbody></table></div>\n"@;
            if exists|i: int|
                0 <= i < s.cells@.len() && filled(#[trigger] s.cells@[i]) && (s.cells@[i].at.row
                    >= opts.max_rows || s.cells@[i].at.col >= opts.max_cols) {
                exists|rows: nat, cols: nat|
                    ends(t, end + #[trigger] note(p.rows, p.cols, rows, cols)) && (exists|i: int|
                        0 <= i < s.cells@.len() && filled(#[trigger] s.cells@[i])
                            && s.cells@[i].at.row + 1 == rows) && (exists|i: int|
                        0 <= i < s.cells@.len() && filled(#[trigger] s.cells@[i])
                            && s.cells@[i].at.col + 1 == cols) && (forall|i: int|
                        0 <= i < s.cells@.len() && filled(#[trigger] s.cells@[i])
                            ==> s.cells@[i].at.row < rows && s.cells@[i].at.col < cols)
            } else {
                ends(t, end)
            }
        }),
{
    let cells = s.cells@;
    lemma_last_lines(cells);
    lemma_blank_sheet(cells);
    let p = html::plan_of(cells, s.merges@, ap, opts);
    let headers = opts.headers && s.grid;
    let all_rows = grid::next(grid::last_row(cells));
    let all_cols = grid::next(grid::last_col(cells));
    let end = "</tbody></table></div>\n"@;
    let tail = style::when(
        all_rows > opts.max_rows || all_cols > opts.max_cols,
        html::part_text(p.rows, p.cols, all_rows, all_cols),
    );
    let x = html::table_head(s.grid, headers, s.layout.cols@, p.cols) + html::colgroup_text(
        headers,
        s.layout.cols@,
        p.cols,
    ) + style::when(headers, html::head_text(p.cols)) + "<tbody>\n"@ + html::rows_text(
        p,
        s.layout.rows@,
        headers,
        p.rows,
    );
    let t = html::content_text(s, ap, opts);
    assert(t == x + end + tail);
    let z = end + tail;
    assert(t =~= x + z);
    assert(t.skip(t.len() - z.len()) =~= z);
    let a = choose|i: int|
        0 <= i < cells.len() && filled(#[trigger] cells[i]) && cells[i].at.row == grid::last_row(
            cells,
        );
    let b = choose|i: int|
        0 <= i < cells.len() && filled(#[trigger] cells[i]) && cells[i].at.col == grid::last_col(
            cells,
        );
    assert(filled(cells[a]) && filled(cells[b]));
    let over = exists|i: int|
        0 <= i < cells.len() && filled(#[trigger] cells[i]) && (cells[i].at.row >= opts.max_rows
            || cells[i].at.col >= opts.max_cols);
    assert(over == (all_rows > opts.max_rows || all_cols > opts.max_cols)) by {
        if over {
            let i = choose|i: int|
                0 <= i < cells.len() && filled(#[trigger] cells[i]) && (cells[i].at.row
                    >= opts.max_rows || cells[i].at.col >= opts.max_cols);
            assert(filled(cells[i]));
        }
    }
    if over {
        assert(tail == note(p.rows, p.cols, all_rows as nat, all_cols as nat));
        assert(cells[a].at.row + 1 == all_rows as nat);
        assert(cells[b].at.col + 1 == all_cols as nat);
        assert(ends(t, end + note(p.rows, p.cols, all_rows as nat, all_cols as nat)));
    } else {
        assert(z =~= end);
    }
}

/// What is said of a sheet of which not all is shown.
pub open spec fn note(rows: nat, cols: nat, all_rows: nat, all_cols: nat) -> Seq<char> {
    "<p class=\"meta\">Показано "@ + text::decimal(rows) + "×"@ + text::decimal(cols) + " из "@
        + text::decimal(all_rows) + "×"@ + text::decimal(all_cols) + "</p>\n"@
}

/// The word for so many cells goes by the last digit, but for the second ten
/// of every hundred.
pub proof fn lemma_word_goes_by_last_digit(hundreds: nat, tens: nat, d: nat)
    requires
        tens < 10,
        d < 10,
    ensures
        html::cells_word(100 * hundreds + 10 * tens + d) == if tens == 1 || d == 0 || d > 4 {
            "ячеек"@
        } else if d == 1 {
            "ячейка"@
        } else {
            "ячейки"@
        },
{
    let n = 100 * hundreds + 10 * tens + d;
    assert(n % 10 == d);
    assert(n % 100 == 10 * tens + d);
}

/// A table is as wide as its columns, and the column of the numbers of rows
/// where there are headers. Only a table with lines has headers.
pub proof fn lemma_table_begins(s: Sheet, ap: Option<Appearance>, opts: HtmlOptions)
    requires
        exists|i: int| 0 <= i < s.cells@.len() && filled(#[trigger] s.cells@[i]),
    ensures
        ({
            let cols = html::plan_of(s.cells@, s.merges@, ap, opts).cols;
            let w = html::cols_width(s.layout.cols@, cols);
            begins(
                html::content_text(s, ap, opts),
                if !s.grid {
                    "<div class=\"wrap\"><table class=\""@ + "plain"@ + "\" style=\"width:"@
                        + text::decimal(w) + "px\">\n"@ + "<colgroup>"@ + html::col_tags(
                        s.layout.cols@,
                        cols,
                    ) + "</colgroup>\n"@ + "<tbody>\n"@
                } else if !opts.headers {
                    "<div class=\"wrap\"><table class=\""@ + "grid"@ + "\" style=\"width:"@
                        + text::decimal(w) + "px\">\n"@ + "<colgroup>"@ + html::col_tags(
                        s.layout.cols@,
                        cols,
                    ) + "</colgroup>\n"@ + "<tbody>\n"@
                } else {
                    "<div class=\"wrap\"><table class=\""@ + "grid"@ + "\" style=\"width:"@
                        + text::decimal(46 + w) + "px\">\n"@ + "<colgroup>"@
                        + "<col style=\"width:46px\">"@ + html::col_tags(s.layout.cols@, cols)
                        + "</colgroup>\n"@ + "<thead><tr><th></th>"@ + html::col_heads(cols)
                        + "</tr></thead>\n"@ + "<tbody>\n"@
                },
            )
        }),
{
    lemma_blank_sheet(s.cells@);
    let p = html::plan_of(s.cells@, s.merges@, ap, opts);
    let headers = opts.headers && s.grid;
    let t = html::content_text(s, ap, opts);
    let x = html::table_head(s.grid, headers, s.layout.cols@, p.cols) + html::colgroup_text(
        headers,
        s.layout.cols@,
        p.cols,
    ) + style::when(headers, html::head_text(p.cols)) + "<tbody>\n"@;
    let y = html::rows_text(p, s.layout.rows@, headers, p.rows);
    let end = "</tbody></table></div>\n"@;
    let z = style::when(
        grid::next(grid::last_row(s.cells@)) > opts.max_rows || grid::next(
            grid::last_col(s.cells@),
        ) > opts.max_cols,
        html::part_text(
            p.rows,
            p.cols,
            grid::next(grid::last_row(s.cells@)),
            grid::next(grid::last_col(s.cells@)),
        ),
    );
    assert(t == x + y + end + z);
    assert(t.take(x.len() as int) =~= x);
    let w = html::cols_width(s.layout.cols@, p.cols);
    if !headers {
        let head = html::table_head(s.grid, headers, s.layout.cols@, p.cols);
        let tags = html::col_tags(s.layout.cols@, p.cols);
        assert(x =~= head + "<colgroup>"@ + tags + "</colgroup>\n"@ + "<tbody>\n"@);
    } else {
        let head = html::table_head(s.grid, headers, s.layout.cols@, p.cols);
        let tags = html::col_tags(s.layout.cols@, p.cols);
        assert(x =~= head + "<colgroup>"@ + "<col style=\"width:46px\">"@ + tags
            + "</colgroup>\n"@ + "<thead><tr><th></th>"@ + html::col_heads(p.cols)
            + "</tr></thead>\n"@ + "<tbody>\n"@);
    }
}

/// A text begins with another one.
pub open spec fn begins(s: Seq<char>, t: Seq<char>) -> bool {
    t.len() <= s.len() && s.take(t.len() as int) == t
}

} // verus!
