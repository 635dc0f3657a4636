use ooxml::export::html::{
    col_letter, escape, escaped, plural_cells, render_sheet, workbook_to_html, HtmlOptions, STYLE,
};
use ooxml::export::model::{
    Alignment, Appearance, BorderStyle, Borders, Cell, CellPos, CellRange, CellValue, Edge, Font, HAlign, Look,
    Sheet, SheetLayout, VAlign, Workbook,
};
use ooxml::export::style::style_classes;

fn cell(row: u32, col: u32, value: CellValue) -> Cell {
    Cell { at: CellPos { row, col }, value, formula: None, style: None }
}

fn bare_layout() -> SheetLayout {
    SheetLayout { cols: Vec::new(), rows: Vec::new() }
}

fn no_edge() -> Edge {
    Edge { line: BorderStyle::Absent, color: None }
}

#[test]
fn column_letters_follow_excel() {
    assert_eq!(col_letter(0), "A");
    assert_eq!(col_letter(25), "Z");
    assert_eq!(col_letter(26), "AA");
    assert_eq!(col_letter(51), "AZ");
    assert_eq!(col_letter(52), "BA");
    assert_eq!(col_letter(16383), "XFD");
}

#[test]
fn escaping_closes_the_obvious_holes() {
    let mut o = String::new();
    escape("<b>&\"x\"</b>", &mut o);
    assert_eq!(o, "&lt;b&gt;&amp;&quot;x&quot;&lt;/b&gt;");
    assert_eq!(escaped("a'b"), "a'b");
}

#[test]
fn plural_matches_russian_rules() {
    assert_eq!(plural_cells(1), "ячейка");
    assert_eq!(plural_cells(2), "ячейки");
    assert_eq!(plural_cells(5), "ячеек");
    assert_eq!(plural_cells(11), "ячеек");
    assert_eq!(plural_cells(21), "ячейка");
    assert_eq!(plural_cells(112), "ячеек");
}

#[test]
fn default_options() {
    let o = HtmlOptions::default();
    assert!(o.headers);
    assert!(!o.hidden_sheets);
    assert_eq!(o.max_rows, 5000);
    assert_eq!(o.max_cols, 256);
    assert_eq!(o.title, "Книга");
}

#[test]
fn blank_sheet_has_no_table() {
    let cells = vec![cell(3, 4, CellValue::Empty)];
    let t = render_sheet(&cells, &Vec::new(), &bare_layout(), true, None, &HtmlOptions::default());
    assert_eq!(t, None);
}

#[test]
fn one_cell_with_headers() {
    let cells = vec![cell(0, 0, CellValue::Number("1.5".to_string()))];
    let t = render_sheet(&cells, &Vec::new(), &bare_layout(), true, None, &HtmlOptions::default());
    assert_eq!(
        t.unwrap(),
        "<div class=\"wrap\"><table class=\"grid\" style=\"width:110px\">\n\
         <colgroup><col style=\"width:46px\"><col></colgroup>\n\
         <thead><tr><th></th><th>A</th></tr></thead>\n\
         <tbody>\n<tr><th>1</th><td class=\"n\">1.5</td></tr>\n</tbody></table></div>\n"
    );
}

#[test]
fn merged_cells_cover_others_and_text_is_cut() {
    let mut f = cell(0, 0, CellValue::Text("a<".to_string()));
    f.formula = Some("A1&\"\"".to_string());
    f.style = Some(1);
    let cells = vec![
        f,
        cell(1, 0, CellValue::Bool(true)),
        cell(1, 1, CellValue::Error("Div0".to_string())),
        cell(1, 2, CellValue::Bool(false)),
    ];
    let merges = vec![CellRange {
        from: CellPos { row: 0, col: 0 },
        to: CellPos { row: 0, col: 9 },
    }];
    let layout = SheetLayout { cols: vec![Some(12), None, Some(0)], rows: vec![None, Some(40)] };
    let ap = Appearance {
        looks: vec![
            Look { font: None, fill: None, borders: None, alignment: None },
            Look {
                font: None,
                fill: None,
                borders: None,
                alignment: Some(Alignment { h: HAlign::General, v: VAlign::Top, wrap: true }),
            },
        ],
    };
    let t = render_sheet(&cells, &merges, &layout, false, Some(&ap), &HtmlOptions::default());
    assert_eq!(
        t.unwrap(),
        "<div class=\"wrap\"><table class=\"plain\" style=\"width:76px\">\n\
         <colgroup><col style=\"width:12px\"><col><col style=\"width:0px\"></colgroup>\n\
         <tbody>\n\
         <tr><td class=\"s ff x1 ww clip\" colspan=\"3\" title=\"=A1&amp;&quot;&quot;\">a&lt;</td></tr>\n\
         <tr style=\"height:40px\"><td class=\"b clip\">ИСТИНА</td><td class=\"e clip\">Div0</td>\
         <td class=\"b\">ЛОЖЬ</td></tr>\n\
         </tbody></table></div>\n"
    );
}

#[test]
fn large_sheet_is_shown_in_part() {
    let cells = vec![
        cell(0, 0, CellValue::Text("x".to_string())),
        cell(9, 3, CellValue::Text("y".to_string())),
    ];
    let opts = HtmlOptions {
        headers: false,
        hidden_sheets: false,
        max_rows: 1,
        max_cols: 2,
        title: String::new(),
    };
    let t = render_sheet(&cells, &Vec::new(), &bare_layout(), true, None, &opts).unwrap();
    assert!(t.ends_with(
        "<tbody>\n<tr><td class=\"s\">x</td><td class=\"\"></td></tr>\n</tbody></table></div>\n\
         <p class=\"meta\">Показано 1×2 из 10×4</p>\n"
    ));
}

#[test]
fn styles_become_classes() {
    let ap = Appearance {
        looks: vec![
            Look {
                font: Some(Font {
                    bold: true,
                    italic: true,
                    underline: true,
                    strike: true,
                    size: Some(15),
                    name: Some("O'Neil".to_string()),
                    color: Some(0x00ff_0000),
                }),
                fill: Some(0x0000_ff00),
                borders: Some(Borders {
                    left: Edge { line: BorderStyle::Thin, color: None },
                    right: no_edge(),
                    top: Edge {
                        line: BorderStyle::Medium,
                        color: Some(0x0012_3456),
                    },
                    bottom: no_edge(),
                }),
                alignment: Some(Alignment { h: HAlign::Justify, v: VAlign::Center, wrap: false }),
            },
            Look { font: None, fill: None, borders: None, alignment: None },
        ],
    };
    assert_eq!(
        style_classes(&ap),
        ".x0{font-weight:700;font-style:italic;text-decoration:underline line-through;\
         font-size:15px;font-family:'ONeil',sans-serif;color:#ff0000;background:#00ff00;\
         border-left:1px solid currentColor;border-top:2px solid #123456;\
         text-align:justify;vertical-align:middle;}\n"
    );
}

#[test]
fn page_of_a_workbook() {
    let wb = Workbook {
        sheets: vec![
            Sheet {
                name: "A&B".to_string(),
                visible: true,
                cells: Vec::new(),
                merges: Vec::new(),
                layout: bare_layout(),
                grid: true,
            },
            Sheet {
                name: "hidden".to_string(),
                visible: false,
                cells: Vec::new(),
                merges: Vec::new(),
                layout: bare_layout(),
                grid: true,
            },
        ],
        appearance: None,
    };
    let opts = HtmlOptions::default();
    let page = workbook_to_html(&wb, &opts);
    let head = format!(
        "<!doctype html>\n<html lang=\"ru\"><head><meta charset=\"utf-8\">\n\
         <meta name=\"viewport\" content=\"width=device-width,initial-scale=1\">\n\
         <title>Книга</title>\n<style>{STYLE}</style>\n</head>\n<body>\n<h1>Книга</h1>\n\
         <p class=\"meta\">Листов: 2</p>\n"
    );
    let rest = "<section class=\"sheet\">\n<h2>A&amp;B<span class=\"n\">0 ячеек</span></h2>\n\
                <div class=\"wrap\"><p class=\"empty\">Лист пуст</p></div>\n</section>\n\
                </body></html>\n";
    assert_eq!(page, format!("{head}{rest}"));
}

#[test]
fn columns_are_called_as_in_formulas() {
    for col in [0u32, 25, 26, 701, 702, 16_383] {
        let mut s = String::new();
        ooxml::formula::refs::write_col(col, &mut s);
        assert_eq!(col_letter(col), s);
    }
}

#[test]
fn written_text_is_no_markup() {
    let t = escaped("<a href=\"x\">&</a>");
    assert_eq!(t, "&lt;a href=&quot;x&quot;&gt;&amp;&lt;/a&gt;");
}

#[test]
fn nothing_of_a_workbook_is_markup() {
    let evil = "</style><script>alert(1)</script>\"'\\}\n";
    let look = Look {
        font: Some(Font {
            bold: false,
            italic: false,
            underline: false,
            strike: false,
            size: None,
            name: Some(evil.to_string()),
            color: None,
        }),
        fill: None,
        borders: None,
        alignment: None,
    };
    let ap = Appearance { looks: vec![look] };
    assert_eq!(
        style_classes(&ap),
        ".x0{font-family:'/style>script>alert(1)/script>\"}',sans-serif;}\n"
    );
    let mut one = cell(0, 0, CellValue::Text(evil.to_string()));
    one.formula = Some(evil.to_string());
    one.style = Some(0);
    let wb = Workbook {
        sheets: vec![Sheet {
            name: evil.to_string(),
            visible: true,
            cells: vec![one],
            merges: Vec::new(),
            layout: bare_layout(),
            grid: true,
        }],
        appearance: Some(ap),
    };
    let opts = HtmlOptions { title: evil.to_string(), ..HtmlOptions::default() };
    let page = workbook_to_html(&wb, &opts);
    assert!(!page.contains("<script"));
    assert_eq!(page.matches("</style>").count(), 1);
}
