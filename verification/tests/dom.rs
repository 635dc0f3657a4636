use ooxml::dom::arena::NodeKind;
use ooxml::dom::document::Document;
use ooxml::error::{Error, LimitError, XmlError};
use ooxml::limits::Limits;

const PART: &str = "<?xml version=\"1.0\"?>\r\n<w:doc xmlns:w=\"urn:w\" a = 'x&#xA;y'>\
                    <w:p  w:val=\"1\" />t&amp;u<e></e><!--c--><![CDATA[d]]></w:doc >\n";

fn doc(s: &str) -> Document {
    match Document::parse(s.as_bytes().to_vec(), &Limits::strict()) {
        Ok(d) => d,
        Err(e) => panic!("{e:?}"),
    }
}

fn written(d: &Document) -> String {
    String::from_utf8(d.serialize().unwrap()).unwrap()
}

#[test]
fn parts_are_written_as_they_were_read() {
    let d = doc(PART);
    assert_eq!(written(&d), PART);
    assert!(!d.is_dirty());
    assert!(!d.has_bom());
    assert_eq!(d.check_coverage(), Ok(()));
    let b = doc("\u{feff}<a/>");
    assert!(b.has_bom());
    assert_eq!(written(&b), "\u{feff}<a/>");
    assert_eq!(b.check_coverage(), Ok(()));
}

#[test]
fn queries() {
    let d = doc(PART);
    let r = d.root_element().unwrap();
    assert_eq!(d.qname(r), Some(&b"w:doc"[..]));
    assert_eq!(d.local_name(r), Some(&b"doc"[..]));
    assert_eq!(d.element_uri(r), Some("urn:w"));
    assert_eq!(d.attr(r, None, "a").unwrap(), "x\ny");
    assert_eq!(d.attr_raw(r, None, "a").unwrap(), b"x&#xA;y");
    assert_eq!(d.attr(r, None, "zz"), None);
    let kids = d.children(r);
    let kinds: Vec<_> = kids.iter().map(|k| d.kind(*k).unwrap()).collect();
    assert_eq!(
        kinds,
        vec![
            NodeKind::Element,
            NodeKind::Text,
            NodeKind::Element,
            NodeKind::Comment,
            NodeKind::CData
        ]
    );
    assert_eq!(d.find_child(r, Some("urn:w"), "p"), Some(kids[0]));
    assert_eq!(d.find_child(r, None, "p"), None);
    assert_eq!(d.attr(kids[0], Some("urn:w"), "val").unwrap(), "1");
    assert!(d.is_self_closing(kids[0]));
    assert!(!d.is_self_closing(kids[2]));
    assert_eq!(d.text(r).unwrap(), "t&ud");
    assert_eq!(d.parent(kids[0]), Some(r));
    assert_eq!(d.attr_count(r), 2);
    assert_eq!(d.attr_name_at(r, 1), Some(&b"a"[..]));
    let at = PART.find("w:val").unwrap() as u32;
    assert_eq!(d.node_at(at), Some(kids[0]));
    assert!(d.path(kids[0]).ends_with("w:p"));
}

#[test]
fn one_attribute_is_one_change() {
    let mut d = doc(PART);
    let r = d.root_element().unwrap();
    let p = d.children(r)[0];
    d.set_attr(p, "w:val", "<\"2\">").unwrap();
    assert!(d.is_dirty());
    assert_eq!(written(&d), PART.replace("w:val=\"1\"", "w:val=\"&lt;&quot;2&quot;>\""));
    assert_eq!(d.attr(p, Some("urn:w"), "val").unwrap(), "<\"2\">");
    // The same value again gives the same bytes.
    let mut same = doc(PART);
    let q = same.children(same.root_element().unwrap())[0];
    same.set_attr(q, "w:val", "1").unwrap();
    assert_eq!(written(&same), PART);
}

#[test]
fn new_attributes_come_last() {
    let mut d = doc("<a b='1'/>");
    let r = d.root_element().unwrap();
    d.set_attr(r, "c", "x\ty").unwrap();
    assert_eq!(written(&d), "<a b='1' c=\"x&#x9;y\"/>");
    assert_eq!(d.remove_attr(r, None, "b"), Ok(true));
    assert_eq!(d.remove_attr(r, None, "b"), Ok(false));
    assert_eq!(written(&d), "<a c=\"x&#x9;y\"/>");
}

#[test]
fn attributes_that_are_refused() {
    let mut d = doc("<a>t</a>");
    let r = d.root_element().unwrap();
    let t = d.children(r)[0];
    assert_eq!(
        d.set_attr(r, "1a", ""),
        Err(Error::Xml { kind: XmlError::BadName, offset: 0 })
    );
    assert_eq!(
        d.set_attr(r, "b", "\u{0}"),
        Err(Error::Xml { kind: XmlError::IllegalChar(0), offset: 0 })
    );
    assert!(matches!(d.set_attr(t, "b", ""), Err(Error::Unsupported(_))));
    assert_eq!(written(&d), "<a>t</a>");
    let mut limits = Limits::strict();
    limits.max_attrs_per_element = 1;
    let mut e = match Document::parse(b"<a b='1'/>".to_vec(), &limits) {
        Ok(e) => e,
        Err(_) => panic!(),
    };
    let r = e.root_element().unwrap();
    assert_eq!(
        e.set_attr(r, "c", ""),
        Err(Error::Limit(LimitError::TooManyAttrs { got: 2, max: 1 }))
    );
}

#[test]
fn text_is_set() {
    let mut d = doc("<a><b/>x</a>");
    let r = d.root_element().unwrap();
    let b = d.children(r)[0];
    let x = d.children(r)[1];
    d.set_text(x, "1<2").unwrap();
    assert_eq!(written(&d), "<a><b/>1&lt;2</a>");
    assert_eq!(d.text(x).unwrap(), "1<2");
    d.set_text(b, "y").unwrap();
    assert_eq!(written(&d), "<a><b>y</b>1&lt;2</a>");
    d.set_text(r, "z").unwrap();
    assert_eq!(written(&d), "<a>z</a>");
    assert_eq!(d.text(r).unwrap(), "z");
    let root = d.document_node();
    assert!(matches!(d.set_text(root, ""), Err(Error::Unsupported(_))));
}

#[test]
fn a_text_that_is_refused_changes_nothing() {
    let mut d = doc("<a><b/>x</a>");
    let r = d.root_element().unwrap();
    let kids = d.children(r);
    assert!(d.set_text(r, "\u{1}").is_err());
    assert_eq!(d.children(r), kids);
    assert!(!d.is_dirty());
    assert_eq!(written(&d), "<a><b/>x</a>");
}

#[test]
fn nodes_are_hung_and_taken_off() {
    let mut d = doc("<a><b/></a>");
    let r = d.root_element().unwrap();
    let b = d.children(r)[0];
    let n = d.new_element("x:n").unwrap();
    assert_eq!(written(&d), "<a><b/></a>");
    d.append_child(b, n).unwrap();
    assert_eq!(written(&d), "<a><b><x:n/></b></a>");
    assert!(matches!(d.append_child(r, n), Err(Error::Unsupported(_))));
    d.remove(n).unwrap();
    assert_eq!(written(&d), "<a><b></b></a>");
    assert!(matches!(d.remove(n), Err(Error::Unsupported(_))));
    d.insert_before(b, n).unwrap();
    assert_eq!(written(&d), "<a><x:n/><b></b></a>");
    assert_eq!(d.children(r), vec![n, b]);
    assert!(matches!(d.insert_before(r, d.document_node()), Err(Error::Unsupported(_))));
    let root = d.document_node();
    assert!(matches!(d.remove(root), Err(Error::Unsupported(_))));
    d.remove(r).unwrap();
    // A node cannot hang on what hangs on it.
    assert!(matches!(d.append_child(b, r), Err(Error::Unsupported(_))));
}

#[test]
fn copies_are_written_alike() {
    let mut d = doc("<a><b c=\"1\"><d>t</d></b></a>");
    let r = d.root_element().unwrap();
    let b = d.children(r)[0];
    let copy = d.clone_subtree(b).unwrap();
    assert_eq!(written(&d), "<a><b c=\"1\"><d>t</d></b></a>");
    d.append_child(r, copy).unwrap();
    assert_eq!(written(&d), "<a><b c=\"1\"><d>t</d></b><b c=\"1\"><d>t</d></b></a>");
    d.set_attr(copy, "c", "2").unwrap();
    assert_eq!(written(&d), "<a><b c=\"1\"><d>t</d></b><b c=\"2\"><d>t</d></b></a>");
}

#[test]
fn nodes_are_limited() {
    let mut limits = Limits::strict();
    limits.max_nodes_per_part = 4;
    let mut d = match Document::parse(b"<a><b/>t</a>".to_vec(), &limits) {
        Ok(d) => d,
        Err(_) => panic!(),
    };
    assert_eq!(d.node_count(), 4);
    assert_eq!(
        d.new_element("x"),
        Err(Error::Limit(LimitError::TooManyNodes { got: 5, max: 4 }))
    );
    let r = d.root_element().unwrap();
    assert_eq!(
        d.clone_subtree(r),
        Err(Error::Limit(LimitError::TooManyNodes { got: 5, max: 4 }))
    );
    assert!(Document::parse(b"<a><b/>t<c/></a>".to_vec(), &limits).is_err());
}

#[test]
fn depth_is_limited_when_writing() {
    let mut limits = Limits::strict();
    limits.max_xml_depth = 1;
    let mut d = match Document::parse(b"<a/>".to_vec(), &limits) {
        Ok(d) => d,
        Err(_) => panic!(),
    };
    let mut at = d.root_element().unwrap();
    for _ in 0..3 {
        let n = d.new_element("n").unwrap();
        d.append_child(at, n).unwrap();
        at = n;
    }
    assert_eq!(
        d.serialize(),
        Err(Error::Limit(LimitError::XmlDepth { got: 4, max: 1 }))
    );
}

#[test]
fn every_edit_is_one_region() {
    let src = "<r>\r\n <a  x = 'v&#34;' y=\"2\" >t<b/>&#xA;</a>\t<c></c></r>";
    let edited = |f: &dyn Fn(&mut Document)| {
        let mut d = doc(src);
        f(&mut d);
        written(&d)
    };
    let a = |d: &Document| d.find_child(d.root_element().unwrap(), None, "a").unwrap();
    assert_eq!(
        edited(&|d| d.set_attr(a(d), "x", "w").unwrap()),
        src.replace("'v&#34;'", "'w'")
    );
    assert_eq!(
        edited(&|d| d.set_attr(a(d), "z", "3").unwrap()),
        src.replace("y=\"2\" >", "y=\"2\" z=\"3\" >")
    );
    assert_eq!(
        edited(&|d| assert!(d.remove_attr(a(d), None, "y").unwrap())),
        src.replace(" y=\"2\"", "")
    );
    assert_eq!(
        edited(&|d| d.set_text(d.children(a(d))[0], "u").unwrap()),
        src.replace(">t<", ">u<")
    );
    assert_eq!(
        edited(&|d| d.set_text(a(d), "u").unwrap()),
        src.replace("t<b/>&#xA;", "u")
    );
    assert_eq!(
        edited(&|d| d.set_text(d.children(a(d))[1], "u").unwrap()),
        src.replace("<b/>", "<b>u</b>")
    );
    assert_eq!(
        edited(&|d| d.remove(d.children(a(d))[1]).unwrap()),
        src.replace("<b/>", "")
    );
}

#[test]
fn later_edits_leave_earlier_ones_alone() {
    let mut d = doc("<r><a x='1'/><b>t</b></r>");
    let r = d.root_element().unwrap();
    let a = d.children(r)[0];
    let b = d.children(r)[1];
    d.set_attr(a, "x", "2").unwrap();
    d.set_text(b, "u").unwrap();
    let n = d.new_element("n").unwrap();
    d.insert_before(b, n).unwrap();
    assert_eq!(written(&d), "<r><a x='2'/><n/><b>u</b></r>");
}

#[test]
fn memory_is_counted() {
    let d = doc(PART);
    let parts = d.memory_breakdown();
    assert_eq!(parts[0].0, "исходник");
    assert!(parts[0].1 >= PART.len());
    let sum: usize = parts.iter().map(|p| p.1).sum();
    assert!(d.memory_bytes() >= sum);
    let w = d.rooms();
    assert_eq!(w.bytes(), d.memory_bytes());
    assert_eq!(w.breakdown(), parts);
    assert_eq!(ooxml::dom::memory::sum(&vec![1, 2, 3]), 6);
    assert_eq!(ooxml::dom::memory::sum(&vec![usize::MAX, 2]), usize::MAX);
}
