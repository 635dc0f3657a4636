use ooxml::error::{
    DeflateError, Error, FormulaError, LimitError, OpcError, XlsxError, XmlError, ZipError,
};
use ooxml::limits::Limits;

#[test]
fn in_part_wraps_and_preserves_limit_flag() {
    let inner = Error::Limit(LimitError::XmlDepth { got: 300, max: 256 });
    assert!(inner.is_limit());
    let wrapped = inner.in_part("/xl/worksheets/sheet1.xml");
    assert!(wrapped.is_limit());
    assert!(wrapped.to_string().contains("sheet1.xml"));
}

#[test]
fn display_mentions_offset() {
    let e = Error::Xml {
        kind: XmlError::DoctypeForbidden,
        offset: 42,
    };
    let s = e.to_string();
    assert!(s.contains("DoctypeForbidden"), "{s}");
    assert!(s.contains("42"), "{s}");
}

#[test]
fn messages_spell_kind_and_position() {
    let e = Error::Zip {
        kind: ZipError::BadSignature { expected: 10, found: 7 },
        offset: 1234567890123,
    };
    assert_eq!(
        e.to_string(),
        "zip: BadSignature { expected: 10, found: 7 } на офсете 1234567890123"
    );
    let e = Error::Deflate { kind: DeflateError::DistanceTooFar, in_off: 0, out_off: 19 };
    assert_eq!(e.to_string(), "deflate: DistanceTooFar (вход 0, выход 19)");
    let e = Error::from(OpcError::BadPartName("/a\"b".to_owned()));
    assert_eq!(e.to_string(), "opc: BadPartName(\"/a\\\"b\")");
    let e = Error::from(XlsxError::SharedStringOutOfRange(5));
    assert_eq!(e.to_string(), "xlsx: SharedStringOutOfRange(5)");
    let e = Error::Formula { kind: FormulaError::UnexpectedChar('\n'), pos: 3 };
    assert_eq!(e.to_string(), "формула: UnexpectedChar('\\n') на позиции 3");
    let e = Error::from(LimitError::NameTooLong { got: 9, max: 8 });
    assert_eq!(e.to_string(), "превышена квота: NameTooLong { got: 9, max: 8 }");
    let e = Error::Unsupported("pivot");
    assert_eq!(e.to_string(), "не поддерживается: pivot");
    assert!(!e.is_limit());
    assert_eq!(
        e.in_part("/x").to_string(),
        "в части /x: не поддерживается: pivot"
    );
}

#[test]
fn default_is_strict() {
    assert_eq!(Limits::default(), Limits::strict());
}

#[test]
fn doctype_forbidden_in_every_profile() {
    assert!(!Limits::strict().allow_doctype);
    assert!(!Limits::permissive().allow_doctype);
}

#[test]
fn ratio_skipped_at_stream_start() {
    assert!(Limits::strict().check_ratio(1 << 20, 0).is_ok());
}

#[test]
fn ratio_catches_bomb() {
    let l = Limits::strict();
    assert!(l.check_ratio(100 * 1024, 1024).is_ok());
    let err = l.check_ratio(1024 * 1024, 1024).unwrap_err();
    assert!(matches!(
        err,
        Error::Limit(LimitError::CompressionRatio {
            got: 1024,
            max: 200
        })
    ));
}

#[test]
fn boundary_is_inclusive() {
    let l = Limits::strict();
    assert!(l.check_entries(l.max_entries).is_ok());
    assert!(l.check_entries(l.max_entries + 1).is_err());
}

#[test]
fn each_quota_has_its_error() {
    let l = Limits::strict();
    assert!(matches!(l.check_input(l.max_input_bytes + 1), Err(Error::Limit(LimitError::InputTooLarge { .. }))));
    assert!(matches!(l.check_part_size(l.max_part_bytes + 1), Err(Error::Limit(LimitError::PartTooLarge { .. }))));
    assert!(matches!(
        l.check_total_uncompressed(l.max_total_uncompressed + 1),
        Err(Error::Limit(LimitError::TotalUncompressed { .. }))
    ));
    assert!(matches!(l.check_depth(257), Err(Error::Limit(LimitError::XmlDepth { got: 257, max: 256 }))));
    assert!(matches!(l.check_attrs(4_097), Err(Error::Limit(LimitError::TooManyAttrs { .. }))));
    assert!(matches!(l.check_nodes(8_000_001), Err(Error::Limit(LimitError::TooManyNodes { .. }))));
    assert!(matches!(l.check_name_len(1_025), Err(Error::Limit(LimitError::NameTooLong { .. }))));
    assert!(l.check_name_len(1_024).is_ok());
}

#[test]
fn errors_are_cloned() {
    let e = Error::Opc(OpcError::PartNotFound("/a".to_string())).in_part("/b");
    assert_eq!(e.clone(), e);
    let x = Error::Xlsx(XlsxError::BadNumber("1.".to_string()));
    assert_eq!(x.clone(), x);
}
