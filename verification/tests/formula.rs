use ooxml::error::{Error, FormulaError};
use ooxml::formula::ast::{BinOp, Expr, ExprKind, Move};
use ooxml::formula::lexer::tokenize;
use ooxml::formula::parser::parse;
use ooxml::formula::print::print;
use ooxml::formula::refs::{
    col_from_name, write_col, CellRef, Line, RefBody, Reference, SheetPrefix, Shift,
};
use ooxml::formula::scan::parse_ref;

fn same(src: &str) {
    assert_eq!(print(&parse(src).unwrap()), src);
}

fn shifted(src: &str, sh: Shift<'_>) -> String {
    let mut e = parse(src).unwrap();
    e.visit_refs_mut(Move::Shift(sh));
    print(&e)
}

fn translated(src: &str, d_col: i64, d_row: i64) -> String {
    let mut e = parse(src).unwrap();
    e.visit_refs_mut(Move::Translate { d_col, d_row });
    print(&e)
}

#[test]
fn formulas_print_as_they_were_written() {
    for src in [
        "1+2*3",
        " SUM( A1:B2 , 3 ) ",
        "IF(A1,,B1)",
        "-2^2",
        "A1 B1",
        "(A1,B1)",
        "{1,2;3,4}",
        "\"say \"\"hi\"\"\"",
        "50%%",
        "'My Sheet'!$A$1",
        "[1]Sheet1!A1",
        "Sheet1:Sheet3!A1",
        "#REF!+#N/A",
        "A:A+1:1",
        "TRUE<>FALSE",
        "a.b_c+1.5E-3",
        "1\u{a0}+\u{a0}2",
        "Лист1!A1+Итог_٣",
        "TODAY( )",
        "TODAY()",
        "1+F(  )*2",
    ] {
        same(src);
    }
}

#[test]
fn precedence_of_operators() {
    let e = parse("1+2*3").unwrap();
    match e.kind {
        ExprKind::Binary { op, rhs, .. } => {
            assert_eq!(op, BinOp::Add);
            assert!(matches!(rhs.kind, ExprKind::Binary { op: BinOp::Mul, .. }));
        },
        _ => panic!(),
    }
    // The sign binds tighter than the power.
    assert!(matches!(parse("-2^2").unwrap().kind, ExprKind::Binary { op: BinOp::Pow, .. }));
}

#[test]
fn faulty_formulas_are_refused() {
    let kind = |s: &str| match parse(s) {
        Err(Error::Formula { kind, .. }) => kind,
        _ => panic!(),
    };
    assert_eq!(kind(""), FormulaError::UnexpectedEof);
    assert_eq!(kind("1+"), FormulaError::UnexpectedEof);
    assert_eq!(kind("(1"), FormulaError::UnbalancedParen);
    assert_eq!(kind("\"abc"), FormulaError::UnterminatedString);
    let deep = "(".repeat(100) + "1" + &")".repeat(100);
    assert_eq!(kind(&deep), FormulaError::TooDeep);
}

#[test]
fn tokens_are_cut_from_the_text() {
    let src: Vec<char> = "A1+ 2".chars().collect();
    let toks = tokenize(&src).unwrap();
    assert!(toks.len() >= 3);
}

#[test]
fn column_names_there_and_back() {
    for (i, name) in [(0, "A"), (25, "Z"), (26, "AA"), (701, "ZZ"), (702, "AAA"), (16383, "XFD")] {
        let mut s = String::new();
        write_col(i, &mut s);
        assert_eq!(s, name);
        assert_eq!(col_from_name(name), Some(i));
    }
    assert_eq!(col_from_name("xfd"), Some(16383));
    assert_eq!(col_from_name("XFE"), None);
    assert_eq!(col_from_name(""), None);
    assert_eq!(col_from_name("A1"), None);
}

#[test]
fn references_are_read_and_written() {
    let r = parse_ref("$B3").unwrap();
    assert_eq!(
        r,
        Reference {
            sheet: None,
            body: RefBody::Cell(CellRef { col: 1, row: 2, col_abs: true, row_abs: false }),
        }
    );
    assert_eq!(r.to_string(), "$B3");
    for s in ["A1", "$XFD$1048576", "A1:B2", "$A:C", "1:$7", "'It''s'!A1", "#REF!", "S!#REF!"] {
        assert_eq!(parse_ref(s).unwrap().to_string(), s);
    }
    for s in ["A0", "XFE1", "A1048577", "", "A1 ", "1"] {
        assert!(parse_ref(s).is_none());
    }
    assert_eq!(Reference::cell(2, 3).to_string(), "C4");
    assert_eq!(
        Reference::on_sheet(
            SheetPrefix::plain("Sheet1"),
            RefBody::Cols { from: Line::new(0), to: Line::new(1) }
        )
        .to_string(),
        "Sheet1!A:B"
    );
}

#[test]
fn inserting_rows_moves_references() {
    assert_eq!(shifted("A1+A5", Shift::insert_rows(2, 3)), "A1+A8");
    assert_eq!(shifted("$A$5", Shift::insert_rows(2, 3)), "$A$8");
    assert_eq!(shifted("A1:A5", Shift::insert_rows(2, 3)), "A1:A8");
    assert_eq!(shifted("B1", Shift::insert_cols(0, 1)), "C1");
    assert_eq!(shifted("B:C", Shift::insert_rows(0, 9)), "B:C");
    assert_eq!(shifted("A1048576", Shift::insert_rows(0, 1)), "#REF!");
}

#[test]
fn deleting_rows_moves_or_loses_references() {
    assert_eq!(shifted("A5", Shift::delete_rows(4, 1)), "#REF!");
    assert_eq!(shifted("A6", Shift::delete_rows(4, 1)), "A5");
    assert_eq!(shifted("A3:A9", Shift::delete_rows(4, 3)), "A3:A6");
    assert_eq!(shifted("A4:A5", Shift::delete_rows(3, 2)), "#REF!");
    assert_eq!(shifted("C:E", Shift::delete_cols(3, 1)), "C:D");
    // Inserting and deleting the same rows leaves everything as it was.
    let mut e = parse("A1+B7:C9+$D$3").unwrap();
    e.visit_refs_mut(Move::Shift(Shift::insert_rows(4, 6)));
    e.visit_refs_mut(Move::Shift(Shift::delete_rows(4, 6)));
    assert_eq!(print(&e), "A1+B7:C9+$D$3");
}

#[test]
fn only_references_to_the_edited_sheet_move() {
    assert_eq!(shifted("Other!A5+A5", Shift::insert_rows(0, 1)), "Other!A5+A6");
    assert_eq!(
        shifted("Data!A5+A5", Shift::insert_rows(0, 1).on_sheet("Data").from_other_sheet()),
        "Data!A6+A5"
    );
}

#[test]
fn copied_formulas_keep_their_dollars() {
    assert_eq!(translated("A1+$A1+A$1+$A$1", 1, 2), "B3+$A3+B$1+$A$1");
    assert_eq!(translated("B2", -2, 0), "#REF!");
    assert_eq!(translated("A:B+1:2", 1, 1), "B:C+2:3");
}

#[test]
fn trees_are_walked() {
    let e = parse("SUM(A1,B2*2)+C3").unwrap();
    let refs: Vec<String> = e.visit_refs().iter().map(|r| r.to_string()).collect();
    assert_eq!(refs, vec!["A1", "B2", "C3"]);
    assert_eq!(e.walk().len(), 7);
}

#[test]
fn trees_are_built() {
    let sum = Expr::call("SUM", vec![Expr::reference(Reference::cell(0, 0))]);
    let e = Expr::binary(BinOp::Concat, Expr::paren(sum), Expr::str_lit("a\"b"));
    assert_eq!(print(&e), "(SUM(A1))&\"a\"\"b\"");
    assert_eq!(print(&Expr::str_lit("x").with_ws_before("  ")), "  \"x\"");
}

#[test]
fn an_empty_list_has_no_argument() {
    for src in ["TODAY()", "TODAY( )", "TODAY(\u{a0} )"] {
        let e = parse(src).unwrap();
        match &e.kind {
            ExprKind::Func { name, args, ws_inside } => {
                assert_eq!(name, "TODAY");
                assert!(args.is_empty());
                assert_eq!(ws_inside.len() + 7, src.len());
            },
            _ => panic!(),
        }
        assert_eq!(print(&e), src);
        assert!(e.clone() == e);
    }
    match parse("IF( ,)").unwrap().kind {
        ExprKind::Func { args, .. } => assert_eq!(args.len(), 2),
        _ => panic!(),
    }
}

#[test]
fn what_was_printed_reads_the_same() {
    for (src, printed) in [
        ("sum(a01:b$002)", "sum(A1:B$2)"),
        ("true & False", "TRUE & FALSE"),
        ("1:02+x:a1", "1:2+x:A1"),
        ("a:b+'it''s'!c003", "A:B+'it''s'!C3"),
        ("-e005%", "-E5%"),
    ] {
        let e = parse(src).unwrap();
        assert_eq!(print(&e), printed);
        assert!(parse(printed).unwrap() == e);
    }
}
