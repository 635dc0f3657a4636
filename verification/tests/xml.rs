use ooxml::error::{Error, XmlError};
use ooxml::limits::Limits;
use ooxml::xml::entity::decode;
use ooxml::xml::escape::escape;
use ooxml::xml::lexer::Piece;
use ooxml::xml::name::{is_qname, local_of, prefix_of};
use ooxml::xml::reader::scan;

fn chars(s: &str) -> Vec<char> {
    s.chars().collect()
}

fn fault(src: &[u8]) -> XmlError {
    match scan(src, &Limits::strict()).failure {
        Some(Error::Xml { kind, .. }) => kind,
        _ => panic!(),
    }
}

#[test]
fn what_is_written_reads_back() {
    let s = "a<b>&\"c\"'d'\t\n\r\u{e9}";
    for quote in [None, Some('"'), Some('\'')] {
        let w = escape(s, quote).unwrap();
        assert_eq!(decode(&chars(&w), quote.is_some()).unwrap(), s);
    }
    assert_eq!(escape("<&>\r", None).unwrap(), "&lt;&amp;&gt;&#xD;");
    assert_eq!(escape("\"\t\n>", Some('"')).unwrap(), "&quot;&#x9;&#xA;>");
    assert_eq!(escape("'\"", Some('\'')).unwrap(), "&apos;\"");
}

#[test]
fn characters_that_are_not_allowed() {
    match escape("ab\u{1}", None) {
        Err(Error::Xml { kind, offset }) => {
            assert_eq!(kind, XmlError::IllegalChar(1));
            assert_eq!(offset, 2);
        },
        _ => panic!(),
    }
}

#[test]
fn references_are_read() {
    let read = |s: &str, attr: bool| decode(&chars(s), attr);
    assert_eq!(read("&#65;&#x42;&amp;lt;", false).unwrap(), "AB&lt;");
    assert_eq!(read("a\r\nb\rc", false).unwrap(), "a\nb\nc");
    assert_eq!(read("a\tb\nc", true).unwrap(), "a b c");
    assert!(matches!(
        read("&nope;", false),
        Err(Error::Xml { kind: XmlError::UnknownEntity, .. })
    ));
    assert!(matches!(read("&#0;", false), Err(Error::Xml { kind: XmlError::BadCharRef, .. })));
    assert!(matches!(read("&#xD800;", false), Err(Error::Xml { kind: XmlError::BadCharRef, .. })));
}

#[test]
fn names_and_prefixes() {
    assert!(is_qname(b"w:val"));
    assert!(is_qname(b"_a-b.c1"));
    for bad in ["", "1a", ":a", "a:", "a:b:c", "a b", "-a"] {
        assert!(!is_qname(bad.as_bytes()));
    }
    assert_eq!(prefix_of(b"w:val"), b"w");
    assert_eq!(local_of(b"w:val"), b"val");
    assert_eq!(prefix_of(b"val"), b"");
    assert_eq!(local_of(b"val"), b"val");
}

#[test]
fn events_of_a_part() {
    let src = b"\xEF\xBB\xBF<?xml version=\"1.0\"?><a xmlns='u' b = \"c\"><!--x--><![CDATA[y]]>z<d/></a >";
    let s = scan(src, &Limits::strict());
    assert!(s.bom);
    assert!(s.failure.is_none());
    assert_eq!(s.events.len(), 7);
    match &s.events[1].piece {
        Piece::Start(t) => {
            assert_eq!(t.attrs.len(), 2);
            assert_eq!(t.attrs[1].quote, b'"');
            assert!(!t.empty);
        },
        _ => panic!(),
    }
    assert_eq!(s.events[1].ns.as_deref(), Some("u"));
    assert!(matches!(s.events[6].piece, Piece::End(_)));
}

#[test]
fn faulty_parts_are_refused() {
    assert_eq!(fault(b""), XmlError::NoRoot);
    assert_eq!(fault(b"<a>"), XmlError::UnbalancedTag);
    assert_eq!(fault(b"</a>"), XmlError::UnbalancedTag);
    assert_eq!(fault(b"<a></b>"), XmlError::MismatchedTag);
    assert_eq!(fault(b"<a/><b/>"), XmlError::MultipleRoots);
    assert_eq!(fault(b"<a b=c/>"), XmlError::UnquotedAttribute);
    assert_eq!(fault(b"<p:a/>"), XmlError::UndeclaredPrefix);
    assert_eq!(fault(b"<!DOCTYPE a><a/>"), XmlError::DoctypeForbidden);
    assert_eq!(fault(b"<a b='1' b='2'/>"), XmlError::DuplicateAttribute);
    assert_eq!(fault(b"x<a/>"), XmlError::UnexpectedByte(b'x'));
    assert_eq!(fault(b"<a"), XmlError::UnexpectedEof);
}

#[test]
fn depth_is_limited() {
    let mut limits = Limits::strict();
    limits.max_xml_depth = 2;
    let s = scan(b"<a><b><c/></b></a>", &limits);
    assert!(s.failure.unwrap().is_limit());
}
