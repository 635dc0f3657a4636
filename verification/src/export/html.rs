//! A workbook as one page of HTML, with nothing that has to be loaded.
//!
//! Every sheet is a table. A formula is the title of its cell, and the cell
//! shows its last value.
use vstd::prelude::*;
use vstd::string::*;

use crate::export::grid;
use crate::export::grid::{Slot, Spot};
use crate::export::model;
use crate::export::model::{Appearance, Cell, CellRange, Sheet, SheetLayout, Workbook};
use crate::export::style;
use crate::formula::refs;
use crate::text;

verus! {

/// What is shown.
#[derive(Debug, Clone)]
pub struct HtmlOptions {
    /// The letters of columns and the numbers of rows.
    pub headers: bool,
    /// Sheets that are hidden.
    pub hidden_sheets: bool,
    /// So many rows of a sheet at most.
    pub max_rows: u32,
    /// So many columns of a sheet at most.
    pub max_cols: u32,
    /// The title of the page.
    pub title: String,
}

impl Default for HtmlOptions {
    fn default() -> (r: Self)
        ensures
            r.headers,
            !r.hidden_sheets,
            r.max_rows == 5000,
            r.max_cols == 256,
            r.title@ == "Книга"@,
    {
        HtmlOptions {
            headers: true,
            hidden_sheets: false,
            max_rows: 5000,
            max_cols: 256,
            title: "Книга".to_owned(),
        }
    }
}

pub const STYLE: &'static str = ":root{color-scheme:light dark}
*{box-sizing:border-box}
body{margin:0;padding:24px;font:14px/1.45 -apple-system,BlinkMacSystemFont,'Segoe UI',Roboto,sans-serif;
background:#fbfbfa;color:#1b1b19}
h1{font-size:20px;margin:0 0 4px}
.meta{color:#6b6b66;font-size:13px;margin-bottom:20px}
.sheet{margin-bottom:40px}
.sheet h2{font-size:15px;margin:0 0 8px;font-weight:600}
.sheet h2 .n{color:#6b6b66;font-weight:400;font-size:13px;margin-left:8px}
.wrap{overflow-x:auto;border:1px solid #e0dfda;border-radius:6px;background:#fff}
table{border-collapse:collapse;font-size:13px;table-layout:fixed}
th,td{padding:1px 3px;white-space:nowrap;vertical-align:bottom;position:relative}
/* Excel даёт тексту вытекать в соседние пустые ячейки, и заголовки листа на
   этом держатся. Обрезка превратила бы «Настоящее уведомление...» в «Н». */
td{overflow:visible}
td.ww{overflow:hidden;white-space:normal}
td.clip{overflow:hidden}
table.grid td{border:1px solid #eceae4}
/* Лист — это бумага: у неё свой цвет, заданный документом. Инвертировать её
   в тёмной теме — то же самое, что печатать негатив. */
.wrap{background:#fff;color:#111}
.paper{background:#fff;color:#111}
thead th,tbody th{background:#f5f4f0;color:#6b6b66;font-weight:500;text-align:center;
border:1px solid #eceae4;position:sticky;top:0;z-index:1}
tbody th{position:static;min-width:44px}
/* Типовое выравнивание — только запасной вариант. Селекторы намеренно
   слабее, чем `.xN` со стилями книги: иначе они перебивали бы
   выравнивание, заданное в самом документе. */
.n{text-align:right;font-variant-numeric:tabular-nums}
.s{text-align:left}
.b,.e{text-align:center}
.e{color:#a3372a}
td.ff{background:#fcfbf5}
td.ff::after{content:'ƒ';float:right;color:#b8b096;font-size:10px;margin-left:6px}
.empty{color:#9a9a93;font-style:italic;padding:12px}
@media (prefers-color-scheme:dark){
body{background:#191917;color:#e8e6e1}
.wrap{border-color:#33322e}
.meta,.sheet h2 .n{color:#98968f}
}";

/// What is written for a character.
pub open spec fn escaped_char(c: char) -> Seq<char> {
    if c == '&' {
        "&amp;"@
    } else if c == '<' {
        "&lt;"@
    } else if c == '>' {
        "&gt;"@
    } else if c == '"' {
        "&quot;"@
    } else {
        seq![c]
    }
}

/// What is written for a text.
pub open spec fn escaped_text(s: Seq<char>) -> Seq<char>
    decreases s.len(),
{
    if s.len() == 0 {
        Seq::empty()
    } else {
        escaped_text(s.drop_last()) + escaped_char(s.last())
    }
}

/// Appends a text, written for HTML.
pub fn escape(s: &str, out: &mut String)
    ensures
        final(out)@ == old(out)@ + escaped_text(s@),
{
    let cs: Vec<char> = text::chars_of(s);
    let mut i: usize = 0;
    assert(old(out)@ + escaped_text(cs@.take(0)) =~= old(out)@);
    while i < cs.len()
        invariant
            i <= cs@.len(),
            out@ == old(out)@ + escaped_text(cs@.take(i as int)),
        decreases cs@.len() - i,
    {
        let ghost before = out@;
        let c: char = cs[i];
        assert(cs@.take(i + 1).drop_last() =~= cs@.take(i as int));
        if c == '&' {
            out.append("&amp;");
        } else if c == '<' {
            out.append("&lt;");
        } else if c == '>' {
            out.append("&gt;");
        } else if c == '"' {
            out.append("&quot;");
        } else {
            out.push(c);
        }
        assert(out@ =~= before + escaped_char(c));
        i = i + 1;
        assert(out@ =~= old(out)@ + escaped_text(cs@.take(i as int)));
    }
    assert(cs@.take(i as int) =~= cs@);
}

/// A text, written for HTML.
pub fn escaped(s: &str) -> (r: String)
    ensures
        r@ == escaped_text(s@),
{
    let mut o: String = String::new();
    escape(s, &mut o);
    assert(o@ =~= escaped_text(s@));
    o
}

/// The letters of a column: A, ..., Z, AA, ...
pub open spec fn letters_of(col: nat) -> Seq<char>
    decreases col,
{
    if col < 26 {
        seq![refs::letter(col)]
    } else {
        letters_of((col / 26 - 1) as nat).push(refs::letter(col % 26))
    }
}

fn push_letters(out: &mut String, col: u32)
    ensures
        final(out)@ == old(out)@ + letters_of(col as nat),
    decreases col,
{
    if col >= 26 {
        push_letters(out, col / 26 - 1);
    }
    let c: char = (65 + (col % 26) as u8) as char;
    out.push(c);
    assert(out@ =~= old(out)@ + letters_of(col as nat));
}

/// The letters of a column, counted from zero.
#[must_use]
pub fn col_letter(col: u32) -> (r: String)
    ensures
        r@ == letters_of(col as nat),
{
    let mut out: String = String::new();
    push_letters(&mut out, col);
    assert(out@ =~= letters_of(col as nat));
    out
}

/// The word for so many cells.
pub open spec fn cells_word(n: nat) -> Seq<char> {
    if n % 10 == 1 && n % 100 != 11 {
        "ячейка"@
    } else if 2 <= n % 10 <= 4 && !(12 <= n % 100 <= 14) {
        "ячейки"@
    } else {
        "ячеек"@
    }
}

/// The word for so many cells.
#[must_use]
pub fn plural_cells(n: usize) -> (r: &'static str)
    ensures
        r@ == cells_word(n as nat),
{
    let d10: usize = n % 10;
    let d100: usize = n % 100;
    if d10 == 1 && d100 != 11 {
        "ячейка"
    } else if 2 <= d10 && d10 <= 4 && !(12 <= d100 && d100 <= 14) {
        "ячейки"
    } else {
        "ячеек"
    }
}

/// The tag of a column.
pub open spec fn col_tag(w: Option<u32>) -> Seq<char> {
    match w {
        Some(px) => "<col style=\"width:"@ + text::decimal(px as nat) + "px\">"@,
        None => "<col>"@,
    }
}

/// The tags of the first `n` columns.
pub open spec fn col_tags(s: Seq<Option<u32>>, n: nat) -> Seq<char>
    decreases n,
{
    if n == 0 {
        Seq::empty()
    } else {
        col_tags(s, (n - 1) as nat) + col_tag(model::size_at(s, n - 1))
    }
}

/// How wide a column is, in pixels.
pub open spec fn col_width(w: Option<u32>) -> nat {
    match w {
        Some(px) => px as nat,
        None => 64,
    }
}

/// How wide the first `n` columns are, in pixels.
pub open spec fn cols_width(s: Seq<Option<u32>>, n: nat) -> nat
    decreases n,
{
    if n == 0 {
        0
    } else {
        cols_width(s, (n - 1) as nat) + col_width(model::size_at(s, n - 1))
    }
}

/// The headers of the first `n` columns.
pub open spec fn col_heads(n: nat) -> Seq<char>
    decreases n,
{
    if n == 0 {
        Seq::empty()
    } else {
        col_heads((n - 1) as nat) + ("<th>"@ + letters_of((n - 1) as nat) + "</th>"@)
    }
}

/// The row of the headers of columns.
pub open spec fn head_text(n: nat) -> Seq<char> {
    "<thead><tr><th></th>"@ + col_heads(n) + "</tr></thead>\n"@
}

/// Whether text of a style goes on in the next line.
pub open spec fn wraps(ap: Option<Appearance>, style: u32) -> bool {
    match ap {
        Some(a) => style < a.looks@.len() && match a.looks@[style as int].alignment {
            Some(x) => x.wrap,
            None => false,
        },
        None => false,
    }
}

/// The class of the style of a cell.
pub open spec fn style_class(style: Option<u32>, ap: Option<Appearance>) -> Seq<char> {
    match style {
        Some(x) => " x"@ + text::decimal(x as nat) + style::when(wraps(ap, x), " ww"@),
        None => Seq::empty(),
    }
}

/// Whether text stands in a place.
pub open spec fn occupied(s: Spot) -> bool {
    s.text.len() > 0 && !s.covered
}

/// Whether text of a place is cut off by the place to the right. Text flows
/// over empty places alone.
pub open spec fn cut_off(s: Spot, right: Option<Spot>) -> bool {
    occupied(s) && match right {
        Some(t) => t.text.len() > 0 || t.covered,
        None => false,
    }
}

/// The attributes of a cell that takes more than one row or column.
pub open spec fn span_text(span: Option<(u32, u32)>) -> Seq<char> {
    match span {
        Some((rs, cs)) => style::when(
            rs > 1,
            " rowspan=\""@ + text::decimal(rs as nat) + "\""@,
        ) + style::when(cs > 1, " colspan=\""@ + text::decimal(cs as nat) + "\""@),
        None => Seq::empty(),
    }
}

pub open spec fn title_text(title: Option<Seq<char>>) -> Seq<char> {
    match title {
        Some(t) => " title=\""@ + escaped_text(t) + "\""@,
        None => Seq::empty(),
    }
}

/// The classes of a cell.
pub open spec fn cell_class(s: Spot, clip: bool, ap: Option<Appearance>) -> Seq<char> {
    s.class + style::when(s.title is Some, " ff"@) + style_class(s.style, ap) + style::when(
        clip,
        " clip"@,
    )
}

/// The opening tag of a cell.
pub open spec fn cell_tag(s: Spot, clip: bool, ap: Option<Appearance>) -> Seq<char> {
    "<td class=\""@ + cell_class(s, clip, ap) + "\""@ + span_text(s.span) + title_text(s.title)
        + ">"@
}

/// A cell. One that another one covers is not written.
pub open spec fn cell_text(s: Spot, right: Option<Spot>, ap: Option<Appearance>) -> Seq<char> {
    if s.covered {
        Seq::empty()
    } else {
        cell_tag(s, cut_off(s, right), ap) + escaped_text(s.text) + "</td>"@
    }
}

/// What a table is made of.
pub struct Plan {
    pub cells: Seq<Cell>,
    pub merges: Seq<CellRange>,
    pub rows: nat,
    pub cols: nat,
    pub ap: Option<Appearance>,
}

impl Plan {
    pub open spec fn spot(self, r: int, c: int) -> Spot {
        grid::spot(self.cells, self.merges, self.rows as int, self.cols as int, r, c)
    }

    pub open spec fn right_of(self, r: int, c: int) -> Option<Spot> {
        if c + 1 < self.cols {
            Some(self.spot(r, c + 1))
        } else {
            None
        }
    }
}

/// The first `n` cells of a row.
pub open spec fn cells_text(p: Plan, r: int, n: nat) -> Seq<char>
    decreases n,
{
    if n == 0 {
        Seq::empty()
    } else {
        cells_text(p, r, (n - 1) as nat) + cell_text(
            p.spot(r, n - 1),
            p.right_of(r, n - 1),
            p.ap,
        )
    }
}

/// The tag of a row.
pub open spec fn row_tag(h: Option<u32>) -> Seq<char> {
    match h {
        Some(px) => "<tr style=\"height:"@ + text::decimal(px as nat) + "px\">"@,
        None => "<tr>"@,
    }
}

/// A row.
pub open spec fn row_text(p: Plan, heights: Seq<Option<u32>>, headers: bool, r: int) -> Seq<char> {
    row_tag(model::size_at(heights, r)) + style::when(
        headers,
        "<th>"@ + text::decimal((r + 1) as nat) + "</th>"@,
    ) + cells_text(p, r, p.cols) + "</tr>\n"@
}

/// The first `n` rows.
pub open spec fn rows_text(
    p: Plan,
    heights: Seq<Option<u32>>,
    headers: bool,
    n: nat,
) -> Seq<char>
    decreases n,
{
    if n == 0 {
        Seq::empty()
    } else {
        rows_text(p, heights, headers, (n - 1) as nat) + row_text(p, heights, headers, n - 1)
    }
}

/// The opening tags of a table.
pub open spec fn table_head(grid: bool, headers: bool, widths: Seq<Option<u32>>, cols: nat) -> Seq<
    char,
> {
    "<div class=\"wrap\"><table class=\""@ + (if grid {
        "grid"@
    } else {
        "plain"@
    }) + "\" style=\"width:"@ + text::decimal(
        (if headers {
            46nat
        } else {
            0nat
        }) + cols_width(widths, cols),
    ) + "px\">\n"@
}

/// The columns of a table.
pub open spec fn colgroup_text(headers: bool, widths: Seq<Option<u32>>, cols: nat) -> Seq<char> {
    "<colgroup>"@ + style::when(headers, "<col style=\"width:46px\">"@) + col_tags(widths, cols)
        + "</colgroup>\n"@
}

/// What is said of a sheet that is shown in part.
pub open spec fn part_text(rows: nat, cols: nat, all_rows: u32, all_cols: u32) -> Seq<char> {
    "<p class=\"meta\">Показано "@ + text::decimal(rows) + "×"@ + text::decimal(cols) + " из "@
        + text::decimal(all_rows as nat) + "×"@ + text::decimal(all_cols as nat) + "</p>\n"@
}

pub open spec fn plan_of(
    cells: Seq<Cell>,
    merges: Seq<CellRange>,
    ap: Option<Appearance>,
    opts: HtmlOptions,
) -> Plan {
    Plan {
        cells,
        merges,
        rows: grid::lesser(grid::next(grid::last_row(cells)), opts.max_rows) as nat,
        cols: grid::lesser(grid::next(grid::last_col(cells)), opts.max_cols) as nat,
        ap,
    }
}

/// The table of a sheet. A sheet without lines between cells is a page and not
/// a table, so it gets no headers.
pub open spec fn sheet_text(
    cells: Seq<Cell>,
    merges: Seq<CellRange>,
    layout: SheetLayout,
    grid: bool,
    ap: Option<Appearance>,
    opts: HtmlOptions,
) -> Seq<char> {
    let p = plan_of(cells, merges, ap, opts);
    let headers = opts.headers && grid;
    let all_rows = grid::next(grid::last_row(cells));
    let all_cols = grid::next(grid::last_col(cells));
    table_head(grid, headers, layout.cols@, p.cols) + colgroup_text(
        headers,
        layout.cols@,
        p.cols,
    ) + style::when(headers, head_text(p.cols)) + "<tbody>\n"@ + rows_text(
        p,
        layout.rows@,
        headers,
        p.rows,
    ) + "</tbody></table></div>\n"@ + style::when(
        all_rows > opts.max_rows || all_cols > opts.max_cols,
        part_text(p.rows, p.cols, all_rows, all_cols),
    )
}

fn push_col_tag(out: &mut String, w: Option<u32>)
    ensures
        final(out)@ == old(out)@ + col_tag(w),
{
    match w {
        Some(px) => {
            out.append("<col style=\"width:");
            text::push_decimal(out, px as u64);
            out.append("px\">");
        },
        None => out.append("<col>"),
    }
    assert(out@ =~= old(out)@ + col_tag(w));
}

fn push_col_tags(out: &mut String, s: &Vec<Option<u32>>, n: usize)
    ensures
        final(out)@ == old(out)@ + col_tags(s@, n as nat),
{
    let mut c: usize = 0;
    assert(old(out)@ + col_tags(s@, 0) =~= old(out)@);
    while c < n
        invariant
            c <= n,
            out@ == old(out)@ + col_tags(s@, c as nat),
        decreases n - c,
    {
        let ghost before = out@;
        push_col_tag(out, model::size_of_line(s, c));
        c = c + 1;
        assert(out@ =~= old(out)@ + col_tags(s@, c as nat));
    }
}

/// How wide the first columns are, in pixels.
fn total_width(s: &Vec<Option<u32>>, n: usize) -> (r: u128)
    requires
        n <= u32::MAX,
    ensures
        r == cols_width(s@, n as nat),
        r <= n * 0xFFFF_FFFF,
{
    let mut c: usize = 0;
    let mut sum: u128 = 0;
    while c < n
        invariant
            c <= n,
            n <= u32::MAX,
            sum == cols_width(s@, c as nat),
            sum <= c * 0xFFFF_FFFF,
        decreases n - c,
    {
        let w: u128 = match model::size_of_line(s, c) {
            Some(px) => px as u128,
            None => 64,
        };
        sum = sum + w;
        c = c + 1;
    }
    sum
}

fn push_head(out: &mut String, n: usize)
    requires
        n <= u32::MAX,
    ensures
        final(out)@ == old(out)@ + head_text(n as nat),
{
    out.append("<thead><tr><th></th>");
    let ghost start = out@;
    let mut c: usize = 0;
    assert(start + col_heads(0) =~= start);
    while c < n
        invariant
            c <= n,
            n <= u32::MAX,
            out@ == start + col_heads(c as nat),
        decreases n - c,
    {
        let ghost before = out@;
        out.append("<th>");
        push_letters(out, c as u32);
        out.append("</th>");
        c = c + 1;
        assert(out@ =~= before + ("<th>"@ + letters_of((c - 1) as nat) + "</th>"@));
        assert(out@ =~= start + col_heads(c as nat));
    }
    out.append("</tr></thead>\n");
    assert(out@ =~= old(out)@ + head_text(n as nat));
}

fn style_wraps(ap: Option<&Appearance>, style: u32) -> (r: bool)
    ensures
        r == wraps(opt(ap), style),
{
    match ap {
        Some(a) => {
            let i: usize = style as usize;
            if i < a.looks.len() {
                match a.looks[i].alignment {
                    Some(x) => x.wrap,
                    None => false,
                }
            } else {
                false
            }
        },
        None => false,
    }
}

pub open spec fn opt(ap: Option<&Appearance>) -> Option<Appearance> {
    match ap {
        Some(a) => Some(*a),
        None => None,
    }
}

fn push_style_class(out: &mut String, style: Option<u32>, ap: Option<&Appearance>)
    ensures
        final(out)@ == old(out)@ + style_class(style, opt(ap)),
{
    if let Some(x) = style {
        out.append(" x");
        text::push_decimal(out, x as u64);
        style::push_when(out, style_wraps(ap, x), " ww");
    }
    assert(out@ =~= old(out)@ + style_class(style, opt(ap)));
}

fn push_span(out: &mut String, span: Option<(u32, u32)>)
    ensures
        final(out)@ == old(out)@ + span_text(span),
{
    if let Some((rs, cs)) = span {
        if rs > 1 {
            out.append(" rowspan=\"");
            text::push_decimal(out, rs as u64);
            out.append("\"");
        }
        if cs > 1 {
            out.append(" colspan=\"");
            text::push_decimal(out, cs as u64);
            out.append("\"");
        }
    }
    assert(out@ =~= old(out)@ + span_text(span));
}

fn push_title(out: &mut String, title: &Option<String>)
    ensures
        final(out)@ == old(out)@ + title_text(model::text_of(*title)),
{
    if let Some(t) = title {
        out.append(" title=\"");
        escape(t.as_str(), out);
        out.append("\"");
    }
    assert(out@ =~= old(out)@ + title_text(model::text_of(*title)));
}

fn push_class(out: &mut String, s: &Slot, clip: bool, ap: Option<&Appearance>)
    ensures
        final(out)@ == old(out)@ + cell_class(s@, clip, opt(ap)),
{
    out.append(s.class);
    style::push_when(out, s.title.is_some(), " ff");
    push_style_class(out, s.style, ap);
    style::push_when(out, clip, " clip");
    assert(out@ =~= old(out)@ + cell_class(s@, clip, opt(ap)));
}

fn has_text(s: &Slot) -> (r: bool)
    ensures
        r == (s@.text.len() > 0),
{
    text::chars_of(s.text.as_str()).len() > 0
}

#[verifier::spinoff_prover]
#[verifier::rlimit(80)]
fn push_cell_tag(out: &mut String, s: &Slot, clip: bool, ap: Option<&Appearance>)
    ensures
        final(out)@ == old(out)@ + cell_tag(s@, clip, opt(ap)),
{
    out.append("<td class=\"");
    push_class(out, s, clip, ap);
    out.append("\"");
    push_span(out, s.span);
    push_title(out, &s.title);
    out.append(">");
    assert(out@ =~= old(out)@ + cell_tag(s@, clip, opt(ap)));
}

fn push_cell(out: &mut String, line: &Vec<Slot>, c: usize, ap: Option<&Appearance>)
    requires
        c < line@.len(),
    ensures
        final(out)@ == old(out)@ + cell_text(
            line@[c as int]@,
            if c + 1 < line@.len() {
                Some(line@[c + 1]@)
            } else {
                None
            },
            opt(ap),
        ),
{
    let s: &Slot = &line[c];
    let ghost right = if c + 1 < line@.len() {
        Some(line@[c + 1]@)
    } else {
        None
    };
    if s.covered {
        assert(out@ =~= old(out)@ + cell_text(s@, right, opt(ap)));
        return;
    }
    let clip: bool = has_text(s) && line.len() - c > 1 && (has_text(&line[c + 1])
        || line[c + 1].covered);
    push_cell_tag(out, s, clip, ap);
    escape(s.text.as_str(), out);
    out.append("</td>");
    assert(clip == cut_off(s@, right));
    assert(out@ =~= old(out)@ + cell_text(s@, right, opt(ap)));
}

fn push_row_tag(out: &mut String, h: Option<u32>)
    ensures
        final(out)@ == old(out)@ + row_tag(h),
{
    match h {
        Some(px) => {
            out.append("<tr style=\"height:");
            text::push_decimal(out, px as u64);
            out.append("px\">");
        },
        None => out.append("<tr>"),
    }
    assert(out@ =~= old(out)@ + row_tag(h));
}

fn push_cells(
    out: &mut String,
    line: &Vec<Slot>,
    ap: Option<&Appearance>,
    p: Ghost<Plan>,
    r: Ghost<int>,
)
    requires
        p@.ap == opt(ap),
        line@.len() == p@.cols,
        forall|c: int| 0 <= c < p@.cols ==> (#[trigger] line@[c])@ == p@.spot(r@, c),
    ensures
        final(out)@ == old(out)@ + cells_text(p@, r@, p@.cols),
{
    let mut c: usize = 0;
    assert(old(out)@ + cells_text(p@, r@, 0) =~= old(out)@);
    while c < line.len()
        invariant
            c <= line@.len(),
            p@.ap == opt(ap),
            line@.len() == p@.cols,
            forall|c: int| 0 <= c < p@.cols ==> (#[trigger] line@[c])@ == p@.spot(r@, c),
            out@ == old(out)@ + cells_text(p@, r@, c as nat),
        decreases line@.len() - c,
    {
        let ghost before = out@;
        push_cell(out, line, c, ap);
        proof {
            assert(line@[c as int]@ == p@.spot(r@, c as int));
            if c + 1 < line@.len() {
                assert(line@[c + 1]@ == p@.spot(r@, c + 1));
            }
        }
        c = c + 1;
        assert(out@ =~= old(out)@ + cells_text(p@, r@, c as nat));
    }
}

fn push_row(
    out: &mut String,
    line: &Vec<Slot>,
    heights: &Vec<Option<u32>>,
    headers: bool,
    r: usize,
    ap: Option<&Appearance>,
    p: Ghost<Plan>,
)
    requires
        p@.ap == opt(ap),
        r < u32::MAX,
        line@.len() == p@.cols,
        forall|c: int| 0 <= c < p@.cols ==> (#[trigger] line@[c])@ == p@.spot(r as int, c),
    ensures
        final(out)@ == old(out)@ + row_text(p@, heights@, headers, r as int),
{
    push_row_tag(out, model::size_of_line(heights, r));
    if headers {
        out.append("<th>");
        text::push_decimal(out, r as u64 + 1);
        out.append("</th>");
    }
    push_cells(out, line, ap, p, Ghost(r as int));
    out.append("</tr>\n");
    assert(out@ =~= old(out)@ + row_text(p@, heights@, headers, r as int));
}

fn push_rows(
    out: &mut String,
    g: &Vec<Vec<Slot>>,
    heights: &Vec<Option<u32>>,
    headers: bool,
    ap: Option<&Appearance>,
    p: Ghost<Plan>,
)
    requires
        p@.ap == opt(ap),
        p@.rows <= u32::MAX,
        grid::sized(g@, p@.rows as int, p@.cols as int),
        forall|r: int, c: int|
            0 <= r < p@.rows && 0 <= c < p@.cols ==> #[trigger] grid::at(g@, r, c) == p@.spot(r, c),
    ensures
        final(out)@ == old(out)@ + rows_text(p@, heights@, headers, p@.rows),
{
    let mut r: usize = 0;
    assert(old(out)@ + rows_text(p@, heights@, headers, 0) =~= old(out)@);
    while r < g.len()
        invariant
            r <= g@.len(),
            p@.ap == opt(ap),
            p@.rows <= u32::MAX,
            grid::sized(g@, p@.rows as int, p@.cols as int),
            forall|r: int, c: int|
                0 <= r < p@.rows && 0 <= c < p@.cols ==> #[trigger] grid::at(g@, r, c) == p@.spot(
                    r,
                    c,
                ),
            out@ == old(out)@ + rows_text(p@, heights@, headers, r as nat),
        decreases g@.len() - r,
    {
        let ghost before = out@;
        proof {
            assert(g@[r as int]@.len() == p@.cols);
            assert forall|c: int| 0 <= c < p@.cols implies (#[trigger] g@[r as int]@[c])@
                == p@.spot(r as int, c) by {
                assert(grid::at(g@, r as int, c) == p@.spot(r as int, c));
            }
        }
        push_row(out, &g[r], heights, headers, r, ap, p);
        r = r + 1;
        assert(out@ =~= old(out)@ + rows_text(p@, heights@, headers, r as nat));
    }
}

#[verifier::spinoff_prover]
#[verifier::rlimit(80)]
fn push_table_head(
    out: &mut String,
    grid: bool,
    headers: bool,
    widths: &Vec<Option<u32>>,
    cols: usize,
)
    requires
        cols <= u32::MAX,
    ensures
        final(out)@ == old(out)@ + table_head(grid, headers, widths@, cols as nat),
{
    let inner: u128 = total_width(widths, cols);
    let total: u128 = if headers {
        46 + inner
    } else {
        inner
    };
    out.append("<div class=\"wrap\"><table class=\"");
    out.append(
        if grid {
            "grid"
        } else {
            "plain"
        },
    );
    out.append("\" style=\"width:");
    text::push_decimal_wide(out, total);
    out.append("px\">\n");
    assert(out@ =~= old(out)@ + table_head(grid, headers, widths@, cols as nat));
}

fn push_colgroup(out: &mut String, headers: bool, widths: &Vec<Option<u32>>, cols: usize)
    ensures
        final(out)@ == old(out)@ + colgroup_text(headers, widths@, cols as nat),
{
    out.append("<colgroup>");
    style::push_when(out, headers, "<col style=\"width:46px\">");
    push_col_tags(out, widths, cols);
    out.append("</colgroup>\n");
    assert(out@ =~= old(out)@ + colgroup_text(headers, widths@, cols as nat));
}

#[verifier::spinoff_prover]
#[verifier::rlimit(80)]
fn push_part(out: &mut String, rows: usize, cols: usize, all_rows: u32, all_cols: u32)
    ensures
        final(out)@ == old(out)@ + part_text(rows as nat, cols as nat, all_rows, all_cols),
{
    out.append("<p class=\"meta\">Показано ");
    text::push_decimal(out, rows as u64);
    out.append("×");
    text::push_decimal(out, cols as u64);
    out.append(" из ");
    text::push_decimal(out, all_rows as u64);
    out.append("×");
    text::push_decimal(out, all_cols as u64);
    out.append("</p>\n");
    assert(out@ =~= old(out)@ + part_text(rows as nat, cols as nat, all_rows, all_cols));
}

/// The table of a sheet; `None` when nothing stands in it.
#[verifier::spinoff_prover]
#[verifier::rlimit(80)]
pub fn render_sheet(
    cells: &Vec<Cell>,
    merges: &Vec<CellRange>,
    layout: &SheetLayout,
    show_grid: bool,
    ap: Option<&Appearance>,
    opts: &HtmlOptions,
) -> (r: Option<String>)
    ensures
        match r {
            Some(t) => !grid::all_blank(cells@) && t@ == sheet_text(
                cells@,
                merges@,
                *layout,
                show_grid,
                opt(ap),
                *opts,
            ),
            None => grid::all_blank(cells@),
        },
{
    let (max_row, max_col): (u32, u32) = match grid::extent(cells) {
        Some(x) => x,
        None => return None,
    };
    let headers: bool = opts.headers && show_grid;
    let all_rows: u32 = max_row.saturating_add(1);
    let all_cols: u32 = max_col.saturating_add(1);
    let rows: usize = (if all_rows < opts.max_rows {
        all_rows
    } else {
        opts.max_rows
    }) as usize;
    let cols: usize = (if all_cols < opts.max_cols {
        all_cols
    } else {
        opts.max_cols
    }) as usize;
    let g: Vec<Vec<Slot>> = grid::lay_out(cells, merges, rows, cols);
    let ghost p = plan_of(cells@, merges@, opt(ap), *opts);
    let mut out: String = String::new();
    push_table_head(&mut out, show_grid, headers, &layout.cols, cols);
    push_colgroup(&mut out, headers, &layout.cols, cols);
    let ghost s1 = out@;
    if headers {
        push_head(&mut out, cols);
    }
    proof {
        assert(out@ =~= s1 + style::when(headers, head_text(p.cols)));
    }
    out.append("<tbody>\n");
    push_rows(&mut out, &g, &layout.rows, headers, ap, Ghost(p));
    out.append("</tbody></table></div>\n");
    let ghost s2 = out@;
    if all_rows > opts.max_rows || all_cols > opts.max_cols {
        push_part(&mut out, rows, cols, all_rows, all_cols);
    }
    proof {
        assert(out@ =~= s2 + style::when(
            all_rows > opts.max_rows || all_cols > opts.max_cols,
            part_text(p.rows, p.cols, all_rows, all_cols),
        ));
        assert(out@ =~= sheet_text(cells@, merges@, *layout, show_grid, opt(ap), *opts));
    }
    Some(out)
}

/// What is shown of the cells of a sheet.
pub open spec fn content_text(s: Sheet, ap: Option<Appearance>, opts: HtmlOptions) -> Seq<char> {
    if grid::all_blank(s.cells@) {
        "<div class=\"wrap\"><p class=\"empty\">Лист пуст</p></div>\n"@
    } else {
        sheet_text(s.cells@, s.merges@, s.layout, s.grid, ap, opts)
    }
}

/// The name of a sheet, and how many cells it has.
pub open spec fn caption_text(s: Sheet) -> Seq<char> {
    "<section class=\"sheet\">\n<h2>"@ + escaped_text(s.name@) + "<span class=\"n\">"@
        + text::decimal(s.cells@.len()) + " "@ + cells_word(s.cells@.len()) + "</span></h2>\n"@
}

/// A sheet.
pub open spec fn section_text(s: Sheet, ap: Option<Appearance>, opts: HtmlOptions) -> Seq<char> {
    caption_text(s) + content_text(s, ap, opts) + "</section>\n"@
}

/// Sheets, without those that are hidden unless they are asked for.
pub open spec fn sections_text(
    s: Seq<Sheet>,
    ap: Option<Appearance>,
    opts: HtmlOptions,
) -> Seq<char>
    decreases s.len(),
{
    if s.len() == 0 {
        Seq::empty()
    } else {
        sections_text(s.drop_last(), ap, opts) + style::when(
            s.last().visible || opts.hidden_sheets,
            section_text(s.last(), ap, opts),
        )
    }
}

/// The classes of styles on the page.
pub open spec fn page_styles(ap: Option<Appearance>) -> Seq<char> {
    match ap {
        Some(a) => "\n"@ + style::classes_text(a.looks@),
        None => Seq::empty(),
    }
}

/// What stands before the sheets.
pub open spec fn page_head(wb: Workbook, opts: HtmlOptions) -> Seq<char> {
    "<!doctype html>\n<html lang=\"ru\"><head><meta charset=\"utf-8\">\n"@
        + "<meta name=\"viewport\" content=\"width=device-width,initial-scale=1\">\n<title>"@
        + escaped_text(opts.title@) + "</title>\n<style>"@ + STYLE@ + page_styles(wb.appearance)
        + "</style>\n</head>\n<body>\n<h1>"@ + escaped_text(opts.title@) + "</h1>\n"@
        + "<p class=\"meta\">Листов: "@ + text::decimal(wb.sheets@.len()) + "</p>\n"@
}

/// The page of a workbook.
pub open spec fn page_text(wb: Workbook, opts: HtmlOptions) -> Seq<char> {
    page_head(wb, opts) + sections_text(wb.sheets@, wb.appearance, opts) + "</body></html>\n"@
}

#[verifier::spinoff_prover]
#[verifier::rlimit(80)]
fn push_caption(out: &mut String, s: &Sheet)
    ensures
        final(out)@ == old(out)@ + caption_text(*s),
{
    out.append("<section class=\"sheet\">\n<h2>");
    escape(s.name.as_str(), out);
    out.append("<span class=\"n\">");
    text::push_decimal(out, s.cells.len() as u64);
    out.append(" ");
    out.append(plural_cells(s.cells.len()));
    out.append("</span></h2>\n");
    assert(out@ =~= old(out)@ + caption_text(*s));
}

fn push_section(out: &mut String, s: &Sheet, ap: Option<&Appearance>, opts: &HtmlOptions)
    ensures
        final(out)@ == old(out)@ + section_text(*s, opt(ap), *opts),
{
    push_caption(out, s);
    let ghost mid = out@;
    match render_sheet(&s.cells, &s.merges, &s.layout, s.grid, ap, opts) {
        Some(t) => out.append(t.as_str()),
        None => out.append("<div class=\"wrap\"><p class=\"empty\">Лист пуст</p></div>\n"),
    }
    assert(out@ =~= mid + content_text(*s, opt(ap), *opts));
    out.append("</section>\n");
    assert(out@ =~= old(out)@ + section_text(*s, opt(ap), *opts));
}

#[verifier::spinoff_prover]
#[verifier::rlimit(80)]
fn push_page_head(out: &mut String, wb: &Workbook, opts: &HtmlOptions)
    ensures
        final(out)@ == old(out)@ + page_head(*wb, *opts),
{
    out.append("<!doctype html>\n<html lang=\"ru\"><head><meta charset=\"utf-8\">\n");
    out.append("<meta name=\"viewport\" content=\"width=device-width,initial-scale=1\">\n<title>");
    escape(opts.title.as_str(), out);
    out.append("</title>\n<style>");
    out.append(STYLE);
    let ghost mid = out@;
    if let Some(a) = &wb.appearance {
        out.append("\n");
        let css: String = style::style_classes(a);
        out.append(css.as_str());
    }
    assert(out@ =~= mid + page_styles(wb.appearance));
    out.append("</style>\n</head>\n<body>\n<h1>");
    escape(opts.title.as_str(), out);
    out.append("</h1>\n");
    out.append("<p class=\"meta\">Листов: ");
    text::push_decimal(out, wb.sheets.len() as u64);
    out.append("</p>\n");
    assert(out@ =~= old(out)@ + page_head(*wb, *opts));
}

/// A workbook as one page of HTML.
pub fn workbook_to_html(wb: &Workbook, opts: &HtmlOptions) -> (r: String)
    ensures
        r@ == page_text(*wb, *opts),
{
    let mut out: String = String::new();
    push_page_head(&mut out, wb, opts);
    let ap: Option<&Appearance> = match &wb.appearance {
        Some(a) => Some(a),
        None => None,
    };
    let ghost all = wb.sheets@;
    let ghost start = out@;
    let mut i: usize = 0;
    proof {
        assert(start =~= page_head(*wb, *opts));
        assert(start + sections_text(all.take(0), wb.appearance, *opts) =~= start);
    }
    while i < wb.sheets.len()
        invariant
            i <= wb.sheets@.len(),
            all == wb.sheets@,
            opt(ap) == wb.appearance,
            out@ == start + sections_text(all.take(i as int), wb.appearance, *opts),
        decreases wb.sheets@.len() - i,
    {
        let ghost before = out@;
        let s: &Sheet = &wb.sheets[i];
        proof {
            assert(all.take(i + 1).drop_last() =~= all.take(i as int));
            assert(all.take(i + 1).last() == *s);
        }
        if s.visible || opts.hidden_sheets {
            push_section(&mut out, s, ap, opts);
        }
        assert(out@ =~= before + style::when(
            s.visible || opts.hidden_sheets,
            section_text(*s, wb.appearance, *opts),
        ));
        i = i + 1;
        assert(out@ =~= start + sections_text(all.take(i as int), wb.appearance, *opts));
    }
    assert(all.take(i as int) =~= all);
    out.append("</body></html>\n");
    out
}

} // verus!
