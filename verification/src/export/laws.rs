//! What holds of pages.
use vstd::prelude::*;
use vstd::string::*;

use crate::export::grid;
use crate::export::grid::Spot;
use crate::export::html;
use crate::export::html::HtmlOptions;
use crate::export::model;
use crate::export::model::{Appearance, Cell, CellRange, Edge, Look, Sheet, Workbook};
use crate::export::style;
use crate::formula::refs;
use crate::text;

verus! {

/// A text that was written for HTML opens no tag, closes none, and does not end
/// the value of an attribute.
pub proof fn lemma_escaped_is_no_markup(s: Seq<char>)
    ensures
        forall|k: int|
            0 <= k < html::escaped_text(s).len() ==> {
                let c = #[trigger] html::escaped_text(s)[k];
                c != '<' && c != '>' && c != '"'
            },
    decreases s.len(),
{
    if s.len() > 0 {
        lemma_escaped_is_no_markup(s.drop_last());
        let a = html::escaped_text(s.drop_last());
        let b = html::escaped_char(s.last());
        reveal_strlit("&amp;");
        reveal_strlit("&lt;");
        reveal_strlit("&gt;");
        reveal_strlit("&quot;");
        assert forall|k: int| 0 <= k < html::escaped_text(s).len() implies {
            let c = #[trigger] html::escaped_text(s)[k];
            c != '<' && c != '>' && c != '"'
        } by {
            if k < a.len() {
                assert(html::escaped_text(s)[k] == a[k]);
            } else {
                assert(html::escaped_text(s)[k] == b[k - a.len()]);
            }
        }
    }
}

/// The columns of a page are called as formulas call them.
pub proof fn lemma_columns_called_alike(col: nat)
    requires
        col <= 16383,
    ensures
        html::letters_of(col) == refs::col_text(col),
{
    reveal_with_fuel(html::letters_of, 4);
    reveal_with_fuel(refs::letters, 4);
}

/// A text that the page has of its own.
pub open spec fn own_tag(s: Seq<char>) -> bool {
    ||| s == "ячейка"@
    ||| s == "ячейки"@
    ||| s == "ячеек"@
    ||| s == "<col style=\"width:"@
    ||| s == "px\">"@
    ||| s == "<col>"@
    ||| s == "<th>"@
    ||| s == "</th>"@
    ||| s == "<thead><tr><th></th>"@
    ||| s == "</tr></thead>\n"@
    ||| s == " x"@
    ||| s == " ww"@
    ||| s == " rowspan=\""@
    ||| s == "\""@
    ||| s == " colspan=\""@
    ||| s == " title=\""@
    ||| s == " ff"@
    ||| s == " clip"@
    ||| s == "<td class=\""@
    ||| s == ">"@
    ||| s == "</td>"@
    ||| s == "<tr style=\"height:"@
    ||| s == "<tr>"@
    ||| s == "</tr>\n"@
    ||| s == "<div class=\"wrap\"><table class=\""@
    ||| s == "grid"@
    ||| s == "plain"@
    ||| s == "\" style=\"width:"@
    ||| s == "px\">\n"@
    ||| s == "<colgroup>"@
    ||| s == "<col style=\"width:46px\">"@
    ||| s == "</colgroup>\n"@
    ||| s == "<p class=\"meta\">Показано "@
    ||| s == "×"@
    ||| s == " из "@
    ||| s == "</p>\n"@
    ||| s == "<tbody>\n"@
    ||| s == "</tbody></table></div>\n"@
    ||| s == "<div class=\"wrap\"><p class=\"empty\">Лист пуст</p></div>\n"@
    ||| s == "<section class=\"sheet\">\n<h2>"@
    ||| s == "<span class=\"n\">"@
    ||| s == " "@
    ||| s == "</span></h2>\n"@
    ||| s == "</section>\n"@
    ||| s == "\n"@
    ||| s == "<!doctype html>\n<html lang=\"ru\"><head><meta charset=\"utf-8\">\n"@
    ||| s == "<meta name=\"viewport\" content=\"width=device-width,initial-scale=1\">\n<title>"@
    ||| s == "</title>\n<style>"@
    ||| s == "</style>\n</head>\n<body>\n<h1>"@
    ||| s == "</h1>\n"@
    ||| s == "<p class=\"meta\">Листов: "@
    ||| s == "</body></html>\n"@
    ||| s == ""@
    ||| s == "s"@
    ||| s == "n"@
    ||| s == "b"@
    ||| s == "e"@
    ||| s == html::STYLE@
}

/// A text that the classes of styles have of their own.
pub open spec fn own_rule(s: Seq<char>) -> bool {
    ||| s == "1px solid"@
    ||| s == "2px solid"@
    ||| s == "3px solid"@
    ||| s == "3px double"@
    ||| s == "1px dashed"@
    ||| s == "1px dotted"@
    ||| s == "font-size:"@
    ||| s == "px;"@
    ||| s == "font-family:'"@
    ||| s == "',sans-serif;"@
    ||| s == ";"@
    ||| s == "text-decoration:"@
    ||| s == "underline "@
    ||| s == "line-through"@
    ||| s == "font-weight:700;"@
    ||| s == "font-style:italic;"@
    ||| s == "color:"@
    ||| s == "border-"@
    ||| s == ":"@
    ||| s == " "@
    ||| s == "currentColor"@
    ||| s == "left"@
    ||| s == "right"@
    ||| s == "top"@
    ||| s == "bottom"@
    ||| s == "text-align:left;"@
    ||| s == "text-align:center;"@
    ||| s == "text-align:right;"@
    ||| s == "text-align:justify;"@
    ||| s == "vertical-align:top;"@
    ||| s == "vertical-align:middle;"@
    ||| s == "vertical-align:bottom;"@
    ||| s == "background:"@
    ||| s == ".x"@
    ||| s == "{"@
    ||| s == "}\n"@
}

/// A text that opens no tag and closes none.
pub open spec fn plain(s: Seq<char>) -> bool {
    forall|k: int| 0 <= k < s.len() ==> #[trigger] s[k] != '<' && s[k] != '>'
}

/// A name that can stand between the quotes of a rule: it opens no tag and does
/// not end there.
pub open spec fn quotable(s: Seq<char>) -> bool {
    forall|k: int| 0 <= k < s.len() ==> style::harmless(#[trigger] s[k])
}

/// A text of the page itself, or one that cannot be markup.
pub open spec fn piece(s: Seq<char>) -> bool {
    own_tag(s) || own_rule(s) || plain(s) || quotable(s)
}

/// Texts one behind the other.
pub open spec fn glued(parts: Seq<Seq<char>>) -> Seq<char>
    decreases parts.len(),
{
    if parts.len() == 0 {
        Seq::empty()
    } else {
        glued(parts.drop_last()) + parts.last()
    }
}

/// A text is made of texts of the page itself and of others that cannot be
/// markup.
pub open spec fn made(s: Seq<char>) -> bool {
    exists|parts: Seq<Seq<char>>| #[trigger] made_of(s, parts)
}

pub open spec fn made_of(s: Seq<char>, parts: Seq<Seq<char>>) -> bool {
    &&& s == glued(parts)
    &&& forall|i: int| 0 <= i < parts.len() ==> piece(#[trigger] parts[i])
}

proof fn lemma_glued(a: Seq<Seq<char>>, b: Seq<Seq<char>>)
    ensures
        glued(a + b) == glued(a) + glued(b),
    decreases b.len(),
{
    if b.len() > 0 {
        lemma_glued(a, b.drop_last());
        assert((a + b).drop_last() =~= a + b.drop_last());
        assert(glued(a) + (glued(b.drop_last()) + b.last()) =~= glued(a) + glued(b.drop_last())
            + b.last());
    } else {
        assert(a + b =~= a);
        assert(glued(a) + glued(b) =~= glued(a));
    }
}

broadcast proof fn lemma_join(a: Seq<char>, b: Seq<char>)
    requires
        made(a),
        made(b),
    ensures
        #[trigger] made(a + b),
{
    let p = choose|p: Seq<Seq<char>>| #[trigger] made_of(a, p);
    let q = choose|q: Seq<Seq<char>>| #[trigger] made_of(b, q);
    lemma_glued(p, q);
    assert forall|i: int| 0 <= i < (p + q).len() implies piece(#[trigger] (p + q)[i]) by {
        if i < p.len() {
            assert((p + q)[i] == p[i]);
        } else {
            assert((p + q)[i] == q[i - p.len()]);
        }
    }
    assert(made_of(a + b, p + q));
}

broadcast proof fn lemma_piece(s: Seq<char>)
    requires
        piece(s),
    ensures
        #[trigger] made(s),
{
    let p = seq![s];
    assert(p.drop_last() =~= Seq::empty());
    assert(glued(p) =~= s) by {
        reveal_with_fuel(glued, 2);
    }
    assert(made_of(s, p));
}

broadcast proof fn lemma_when(b: bool, t: Seq<char>)
    requires
        made(t),
    ensures
        #[trigger] made(style::when(b, t)),
{
    broadcast use lemma_piece;

}

broadcast proof fn lemma_decimal(n: nat)
    ensures
        #[trigger] made(text::decimal(n)),
{
    broadcast use lemma_piece;

    lemma_decimal_plain(n);
}

proof fn lemma_decimal_plain(n: nat)
    ensures
        plain(text::decimal(n)),
    decreases n,
{
    if n >= 10 {
        lemma_decimal_plain(n / 10);
    }
}

broadcast proof fn lemma_letters(n: nat)
    ensures
        #[trigger] made(html::letters_of(n)),
{
    broadcast use lemma_piece;

    lemma_letters_plain(n);
}

proof fn lemma_letters_plain(n: nat)
    ensures
        plain(html::letters_of(n)),
    decreases n,
{
    if n >= 26 {
        lemma_letters_plain((n / 26 - 1) as nat);
    }
}

broadcast proof fn lemma_escaped(s: Seq<char>)
    ensures
        #[trigger] made(html::escaped_text(s)),
{
    broadcast use lemma_piece;

    lemma_escaped_is_no_markup(s);
}

/// A name that was tamed holds no character that could end it.
pub proof fn lemma_tamed_is_harmless(s: Seq<char>)
    ensures
        forall|k: int|
            0 <= k < style::tamed(s).len() ==> style::harmless(#[trigger] style::tamed(s)[k]),
    decreases s.len(),
{
    if s.len() > 0 {
        let a = style::tamed(s.drop_last());
        lemma_tamed_is_harmless(s.drop_last());
        assert forall|k: int| 0 <= k < style::tamed(s).len() implies style::harmless(
            #[trigger] style::tamed(s)[k],
        ) by {
            if k < a.len() {
                assert(style::tamed(s)[k] == a[k]);
            }
        }
    }
}

broadcast proof fn lemma_tamed(s: Seq<char>)
    ensures
        #[trigger] made(style::tamed(s)),
{
    broadcast use lemma_piece;

    lemma_tamed_is_harmless(s);
    assert(quotable(style::tamed(s)));
}

broadcast proof fn lemma_color(c: u32)
    ensures
        #[trigger] made(style::css_color(c)),
{
    broadcast use lemma_piece;

    assert(plain(style::css_color(c)));
}

broadcast group group_made {
    lemma_join,
    lemma_piece,
    lemma_when,
    lemma_decimal,
    lemma_letters,
    lemma_escaped,
    lemma_tamed,
    lemma_color,
}

proof fn lemma_look(l: Look)
    ensures
        made(style::look_text(l)),
{
    broadcast use group_made;

    if let Some(f) = l.font {
        assert(made(style::lines_text(f)));
        assert(made(style::size_text(f.size)));
        assert(made(style::family_text(f.name)));
        assert(made(style::color_text("color:"@, f.color)));
        assert(made(style::font_text(f)));
    }
    assert(made(style::color_text("background:"@, l.fill)));
    if let Some(b) = l.borders {
        lemma_edge("left"@, b.left);
        lemma_edge("right"@, b.right);
        lemma_edge("top"@, b.top);
        lemma_edge("bottom"@, b.bottom);
        assert(made(style::borders_text(b)));
    }
    if let Some(a) = l.alignment {
        assert(made(style::alignment_text(a)));
    }
}

proof fn lemma_edge(name: Seq<char>, e: Edge)
    requires
        piece(name),
    ensures
        made(style::edge_text(name, e)),
{
    broadcast use group_made;

}

proof fn lemma_classes(s: Seq<Look>)
    ensures
        made(style::classes_text(s)),
    decreases s.len(),
{
    broadcast use group_made;

    if s.len() > 0 {
        lemma_classes(s.drop_last());
        lemma_look(s.last());
        assert(made(style::class_text(s.len() - 1, s.last())));
    }
}

proof fn lemma_col_tags(s: Seq<Option<u32>>, n: nat)
    ensures
        made(html::col_tags(s, n)),
        made(html::col_heads(n)),
    decreases n,
{
    broadcast use group_made;

    if n > 0 {
        lemma_col_tags(s, (n - 1) as nat);
        assert(made(html::col_tag(model::size_at(s, n - 1))));
    }
}

proof fn lemma_cell(s: Spot, right: Option<Spot>, ap: Option<Appearance>)
    requires
        piece(s.class),
    ensures
        made(html::cell_text(s, right, ap)),
{
    broadcast use group_made;

    let clip = html::cut_off(s, right);
    assert(made(html::style_class(s.style, ap)));
    assert(made(html::cell_class(s, clip, ap)));
    assert(made(html::span_text(s.span)));
    assert(made(html::title_text(s.title)));
    assert(made(html::cell_tag(s, clip, ap)));
}

proof fn lemma_cells_class(s: Seq<Cell>, r: int, c: int)
    ensures
        piece(grid::spot_of_cells(s, r, c).class),
    decreases s.len(),
{
    if s.len() > 0 {
        lemma_cells_class(s.drop_last(), r, c);
    }
}

proof fn lemma_spot_class(
    cells: Seq<Cell>,
    merges: Seq<CellRange>,
    rows: int,
    cols: int,
    r: int,
    c: int,
)
    ensures
        piece(grid::spot(cells, merges, rows, cols, r, c).class),
    decreases merges.len(),
{
    lemma_cells_class(cells, r, c);
    if merges.len() > 0 {
        lemma_spot_class(cells, merges.drop_last(), rows, cols, r, c);
    }
}

proof fn lemma_cells(p: html::Plan, r: int, n: nat)
    ensures
        made(html::cells_text(p, r, n)),
    decreases n,
{
    broadcast use group_made;

    if n > 0 {
        lemma_cells(p, r, (n - 1) as nat);
        lemma_spot_class(p.cells, p.merges, p.rows as int, p.cols as int, r, n - 1);
        lemma_cell(p.spot(r, n - 1), p.right_of(r, n - 1), p.ap);
    }
}

proof fn lemma_rows(p: html::Plan, heights: Seq<Option<u32>>, headers: bool, n: nat)
    ensures
        made(html::rows_text(p, heights, headers, n)),
    decreases n,
{
    broadcast use group_made;

    if n > 0 {
        lemma_rows(p, heights, headers, (n - 1) as nat);
        lemma_cells(p, n - 1, p.cols);
        assert(made(html::row_tag(model::size_at(heights, n - 1))));
        assert(made(html::row_text(p, heights, headers, n - 1)));
    }
}

proof fn lemma_section(s: Sheet, ap: Option<Appearance>, opts: HtmlOptions)
    ensures
        made(html::section_text(s, ap, opts)),
{
    broadcast use group_made;

    assert(made(html::cells_word(s.cells@.len())));
    assert(made(html::caption_text(s)));
    if !grid::all_blank(s.cells@) {
        let p = html::plan_of(s.cells@, s.merges@, ap, opts);
        let headers = opts.headers && s.grid;
        let all_rows = grid::next(grid::last_row(s.cells@));
        let all_cols = grid::next(grid::last_col(s.cells@));
        lemma_col_tags(s.layout.cols@, p.cols);
        lemma_rows(p, s.layout.rows@, headers, p.rows);
        assert(made(html::table_head(s.grid, headers, s.layout.cols@, p.cols)));
        assert(made(html::colgroup_text(headers, s.layout.cols@, p.cols)));
        assert(made(html::head_text(p.cols)));
        assert(made(html::part_text(p.rows, p.cols, all_rows, all_cols)));
        assert(made(
            html::sheet_text(s.cells@, s.merges@, s.layout, s.grid, ap, opts),
        ));
    }
    assert(made(html::content_text(s, ap, opts)));
}

proof fn lemma_sections(s: Seq<Sheet>, ap: Option<Appearance>, opts: HtmlOptions)
    ensures
        made(html::sections_text(s, ap, opts)),
    decreases s.len(),
{
    broadcast use group_made;

    if s.len() > 0 {
        lemma_sections(s.drop_last(), ap, opts);
        lemma_section(s.last(), ap, opts);
    }
}

/// No `<` of a page comes from the workbook or from the title, and no `>` but in
/// the name of a font: the page is made of texts of its own, which [`own_tag`] and
/// [`own_rule`] list, and of others that cannot be markup.
pub proof fn lemma_page_has_no_foreign_markup(wb: Workbook, opts: HtmlOptions)
    ensures
        made(html::page_text(wb, opts)),
{
    broadcast use group_made;

    lemma_sections(wb.sheets@, wb.appearance, opts);
    if let Some(a) = wb.appearance {
        lemma_classes(a.looks@);
    }
    assert(made(html::page_styles(wb.appearance)));
    assert(made(html::page_head(wb, opts)));
}

} // verus!
