use ooxml::bridge::entry::{classify, CellEdit, Reading};
use ooxml::bridge::handle::pack;
use ooxml::bridge::sheet::build_sheet;
use ooxml::bridge::styles::{border_code, build_styles, rgb_of, BorderStyle, Side, StyleRecord};
use ooxml::cli::{action, Action};
use ooxml::export::model::{Cell, CellPos, CellRange, CellValue, HAlign, VAlign};

fn words(v: &[u32]) -> Vec<u8> {
    let mut o = Vec::new();
    for w in v {
        o.extend_from_slice(&w.to_le_bytes());
    }
    o
}

#[test]
fn place_and_length_in_one_number() {
    assert_eq!(pack(0, 0), 0);
    assert_eq!(pack(1, 2), 0x1_0000_0002);
    let v = pack(0xFFFF_FFFF, 0xFFFF_FFFE);
    assert_eq!(v >> 32, 0xFFFF_FFFF);
    assert_eq!(v & 0xFFFF_FFFF, 0xFFFF_FFFE);
}

#[test]
fn default_sizes_are_those_numbers() {
    assert_eq!(64.0f32.to_bits(), 0x4280_0000);
    assert_eq!(20.0f32.to_bits(), 0x41A0_0000);
    assert_eq!(((11.0f64 * 4.0 / 3.0) as f32).to_bits(), 0x416A_AAAB);
}

#[test]
fn block_of_a_sheet() {
    let cells = vec![
        Cell {
            at: CellPos { row: 0, col: 1 },
            value: CellValue::Text("я".to_string()),
            formula: None,
            style: None,
        },
        Cell {
            at: CellPos { row: 7, col: 7 },
            value: CellValue::Empty,
            formula: None,
            style: None,
        },
        Cell {
            at: CellPos { row: 1, col: 0 },
            value: CellValue::Empty,
            formula: None,
            style: Some(9),
        },
    ];
    let merges = vec![
        CellRange { from: CellPos { row: 0, col: 0 }, to: CellPos { row: 5, col: 6 } },
        CellRange { from: CellPos { row: 2, col: 0 }, to: CellPos { row: 3, col: 0 } },
    ];
    let widths = vec![Some(1.5f32.to_bits())];
    let heights = vec![None, Some(3.0f32.to_bits())];
    let mut want = words(&[2, 2, 2, 1.5f32.to_bits(), 64.0f32.to_bits(), 2, 20.0f32.to_bits()]);
    want.extend(words(&[3.0f32.to_bits(), 1, 0, 0, 5, 6, 2, 0, 1, 0]));
    want.push(2);
    want.extend(words(&[2]));
    want.extend("я".as_bytes());
    want.extend(words(&[1, 0, 9]));
    want.push(0);
    want.extend(words(&[0]));
    assert_eq!(build_sheet(&cells, &merges, &widths, &heights), want);
}

#[test]
fn colours_are_numbers() {
    assert_eq!(rgb_of(&None), 0xFF00_0000);
    assert_eq!(rgb_of(&Some("#00ff7F".to_string())), 0x00FF7F);
    assert_eq!(rgb_of(&Some("##1".to_string())), 1);
    assert_eq!(rgb_of(&Some("+a".to_string())), 10);
    assert_eq!(rgb_of(&Some("FFFFFFFF".to_string())), 0xFFFF_FFFF);
    assert_eq!(rgb_of(&Some("100000000".to_string())), 0xFF00_0000);
    assert_eq!(rgb_of(&Some("#".to_string())), 0xFF00_0000);
    assert_eq!(rgb_of(&Some("red".to_string())), 0xFF00_0000);
}

#[test]
fn lines_have_numbers() {
    let all = [
        BorderStyle::Absent,
        BorderStyle::Hair,
        BorderStyle::Thin,
        BorderStyle::Medium,
        BorderStyle::Thick,
        BorderStyle::Double,
        BorderStyle::Dashed,
        BorderStyle::Dotted,
    ];
    let codes: Vec<u8> = all.iter().map(|s| border_code(*s)).collect();
    assert_eq!(codes, vec![0, 1, 1, 2, 3, 4, 5, 6]);
}

fn side(style: BorderStyle, color: Option<&str>) -> Side {
    Side { style, color: color.map(|c| c.to_string()) }
}

fn record(name: Option<String>) -> StyleRecord {
    StyleRecord {
        bold: true,
        italic: false,
        wrap: true,
        size: None,
        color: Some("#010203".to_string()),
        fill: None,
        h_align: Some(HAlign::Right),
        v_align: Some(VAlign::Top),
        left: side(BorderStyle::Thick, Some("#00000a")),
        right: side(BorderStyle::Absent, None),
        top: side(BorderStyle::Absent, None),
        bottom: side(BorderStyle::Absent, None),
        name,
    }
}

#[test]
fn block_of_styles() {
    let list = vec![record(Some("Arial".to_string()))];
    let mut want = words(&[1]);
    want.push(5);
    want.extend(words(&[0x416A_AAAB, 0x010203, 0xFF00_0000]));
    want.push(3);
    want.push(0);
    want.push(3);
    want.extend(words(&[10]));
    for _ in 0..3 {
        want.push(0);
        want.extend(words(&[0xFF00_0000]));
    }
    want.push(5);
    want.extend(b"Arial");
    assert_eq!(build_styles(&list), want);
}

#[test]
fn long_names_are_cut_between_characters() {
    let plain = build_styles(&vec![record(Some("a".repeat(300)))]);
    assert_eq!(plain[plain.len() - 256], 255);
    // The cut would fall inside a character, so nothing is left.
    let wide = build_styles(&vec![record(Some("я".repeat(200)))]);
    assert_eq!(wide[wide.len() - 1], 0);
    let even = build_styles(&vec![record(Some(format!("a{}", "я".repeat(200))))]);
    assert_eq!(even[even.len() - 256], 255);
}

#[test]
fn typed_text_is_classified() {
    assert_eq!(classify("  ", Reading::NoNumber), CellEdit::Clear);
    assert_eq!(classify("", Reading::NoNumber), CellEdit::Clear);
    assert_eq!(classify(" 12 ", Reading::Finite), CellEdit::Number);
    assert_eq!(classify("inf", Reading::NotFinite), CellEdit::Text);
    assert_eq!(classify(" TRUE\u{a0}", Reading::NoNumber), CellEdit::Bool(true));
    assert_eq!(classify("истина", Reading::NoNumber), CellEdit::Bool(true));
    assert_eq!(classify("False", Reading::NoNumber), CellEdit::Bool(false));
    assert_eq!(classify("ложь", Reading::NoNumber), CellEdit::Bool(false));
    // Only letters of ASCII are read in either case.
    assert_eq!(classify("ИСТИНА", Reading::NoNumber), CellEdit::Text);
    assert_eq!(classify("x", Reading::NoNumber), CellEdit::Text);
}

#[test]
fn commands_of_the_program() {
    assert_eq!(action(None), Action::Usage);
    assert_eq!(action(Some("--help")), Action::Help);
    assert_eq!(action(Some("-h")), Action::Help);
    assert_eq!(action(Some("help")), Action::Help);
    for c in ["info", "zipdump", "xmldump", "get", "set", "roundtrip", "fuzz"] {
        assert_eq!(action(Some(c)), Action::Planned);
    }
    assert_eq!(action(Some("Info")), Action::Unknown);
}
