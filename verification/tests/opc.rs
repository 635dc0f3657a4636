use ooxml::deflate::Level;
use ooxml::error::{Error, OpcError, ZipError};
use ooxml::limits::Limits;
use ooxml::opc::archive::{Archive, EntrySource, Record, Refusal};
use ooxml::opc::package::Package;
use ooxml::opc::partname::PartName;
use ooxml::opc::parts::is_xml_content_type;
use ooxml::opc::rels::TargetMode;

const TYPES: &str = "<Types xmlns=\"http://schemas.openxmlformats.org/package/2006/content-types\">\
    <Default Extension=\"rels\" ContentType=\"application/vnd.openxmlformats-package.relationships+xml\"/>\
    <Default Extension=\"XML\" ContentType=\"application/xml\"/>\
    <Override PartName=\"/xl/a.xml\" ContentType=\"application/a+xml\"/></Types>";

const RELS: &str = "<Relationships xmlns=\"http://schemas.openxmlformats.org/package/2006/relationships\">\
    <Relationship Id=\"rId1\" Type=\"t\" Target=\"xl/a.xml\"/>\
    <Relationship Id=\"rId2\" Type=\"t\" Target=\"http://x/\" TargetMode=\"External\"/></Relationships>";

fn record(name: &str, data: &str) -> Record {
    Record { name: name.to_string(), dir: false, content: Ok(data.as_bytes().to_vec()) }
}

fn archive() -> Archive {
    Archive {
        records: vec![
            record("[content_types].xml", TYPES),
            record("_rels/.rels", RELS),
            Record { name: "xl/".to_string(), dir: true, content: Ok(Vec::new()) },
            record("xl/a.xml", "<a/>"),
            record("xl/b.bin", "b"),
            Record {
                name: "xl/broken.xml".to_string(),
                dir: false,
                content: Err(Refusal::Zip { kind: ZipError::Truncated, offset: 7 }),
            },
        ],
    }
}

fn open(a: &Archive) -> Package<'_> {
    match Package::open(a, Limits::strict()) {
        Ok(p) => p,
        Err(e) => panic!("{e:?}"),
    }
}

fn name(s: &str) -> PartName {
    PartName::new(s).unwrap()
}

fn plan(p: &Package<'_>) -> Vec<String> {
    p.save()
        .unwrap()
        .iter()
        .map(|e| match e {
            EntrySource::Verbatim { index } => format!("copy {index}"),
            EntrySource::Replace { index, data, level } => {
                assert_eq!(*level, Level::Default);
                format!("replace {index} {}", String::from_utf8_lossy(data))
            },
            EntrySource::New { name, data, dos, external_attrs, .. } => {
                assert_eq!(*dos, (0, 0x0021));
                assert_eq!(*external_attrs, 0);
                format!("new {name} {}", String::from_utf8_lossy(data))
            },
        })
        .collect()
}

#[test]
fn names_of_parts() {
    let n = name("/xl/Worksheets/sheet1.XML");
    assert_eq!(n.as_str(), "/xl/Worksheets/sheet1.XML");
    assert_eq!(n.key(), "/xl/worksheets/sheet1.xml");
    assert_eq!(n.zip_name(), "xl/Worksheets/sheet1.XML");
    assert_eq!(n.last_segment(), "sheet1.XML");
    assert_eq!(n.dir(), "/xl/Worksheets/");
    assert_eq!(n.extension().unwrap(), "XML");
    assert!(n == name("/XL/worksheets/SHEET1.xml"));
    assert!(n != name("/xl/sheet1.xml"));
    assert_eq!(name("/_rels/.rels").extension().unwrap(), "rels");
    assert_eq!(name("/a").extension(), None);
    assert!(PartName::root().is_root());
    assert!(!n.is_root());
    assert_eq!(PartName::from_zip_name("a/b").unwrap().as_str(), "/a/b");
    for bad in ["", "a", "/a/", "//a", "/a//b", "/.", "/a/..", "/a.", "/a\\b", "/a\u{1}", "/\u{7f}"] {
        assert_eq!(
            PartName::new(bad).unwrap_err(),
            Error::Opc(OpcError::BadPartName(bad.to_string()))
        );
    }
}

#[test]
fn relationships_belong_to_parts() {
    let r = name("/xl/workbook.xml").rels_part().unwrap();
    assert_eq!(r.as_str(), "/xl/_rels/workbook.xml.rels");
    assert!(r.is_rels_part());
    assert_eq!(r.rels_owner().unwrap().as_str(), "/xl/workbook.xml");
    let top = PartName::root().rels_part().unwrap();
    assert_eq!(top.as_str(), "/_rels/.rels");
    assert!(top.rels_owner().unwrap().is_root());
    assert!(r.rels_part().is_err());
    assert!(name("/a.xml").rels_owner().is_none());
    assert!(name("/xl/_rels/.rels").rels_owner().is_none());
}

#[test]
fn targets_are_resolved() {
    let p = name("/word/document.xml");
    let to = |t: &str| p.resolve(t).unwrap().as_str().to_string();
    assert_eq!(to("../media/image1.png"), "/media/image1.png");
    assert_eq!(to("styles.xml"), "/word/styles.xml");
    assert_eq!(to("/xl/./a.xml#frag"), "/xl/a.xml");
    assert_eq!(to("a%20b.xml?x"), "/word/a b.xml");
    assert_eq!(to("100%.xml"), "/word/100%.xml");
    assert_eq!(to("%d1%8f.xml"), "/word/я.xml");
    assert_eq!(to(""), "/word");
    for bad in ["../../a", "..", "/", "%ff"] {
        assert!(matches!(p.resolve(bad), Err(Error::Opc(OpcError::BadPartName(_)))));
    }
}

#[test]
fn packages_are_saved_as_they_were() {
    let a = archive();
    let mut p = open(&a);
    let all: Vec<String> = (0..6).map(|i| format!("copy {i}")).collect();
    assert_eq!(plan(&p), all);
    assert_eq!(p.part_count(), 4);
    let names: Vec<&str> = p.part_names().iter().map(|n| n.as_str()).collect();
    assert_eq!(names, vec!["/_rels/.rels", "/xl/a.xml", "/xl/b.bin", "/xl/broken.xml"]);
    assert!(p.has(&name("/XL/A.xml")));
    assert!(!p.has(&name("/nope")));
    // Reading is no change.
    assert_eq!(p.bytes(&name("/xl/b.bin")).unwrap(), b"b");
    assert!(p.dom(&name("/xl/a.xml")).is_ok());
    assert_eq!(p.rels(&PartName::root()).unwrap().len(), 2);
    assert_eq!(plan(&p), all);
    let d = p.dom(&name("/xl/a.xml")).ok().unwrap();
    let r = d.root_element().unwrap();
    let n = d.new_element("b").unwrap();
    d.append_child(r, n).unwrap();
    assert_eq!(plan(&p)[3], "replace 3 <a><b/></a>");
}

#[test]
fn types_of_parts() {
    let a = archive();
    let p = open(&a);
    assert_eq!(p.content_type(&name("/xl/a.xml")), Some("application/a+xml"));
    assert_eq!(p.content_type(&name("/xl/broken.xml")), Some("application/xml"));
    assert_eq!(p.content_type(&name("/xl/b.bin")), None);
    assert_eq!(p.content_type(&name("/nope.xml")), None);
    assert_eq!(p.content_types().override_count(), 1);
    assert_eq!(p.content_types().default_for("Xml"), Some("application/xml"));
    assert!(is_xml_content_type("application/XML"));
    assert!(is_xml_content_type(" text/xml ; charset=utf-8"));
    assert!(is_xml_content_type("image/svg+xml"));
    assert!(!is_xml_content_type("+xml"));
    assert!(!is_xml_content_type("image/png"));
}

#[test]
fn parts_that_cannot_be_read() {
    let a = archive();
    let mut p = open(&a);
    assert_eq!(
        p.bytes(&name("/nope")).unwrap_err(),
        Error::Opc(OpcError::PartNotFound("/nope".to_string()))
    );
    assert_eq!(
        p.bytes(&name("/xl/broken.xml")).unwrap_err(),
        Error::Zip { kind: ZipError::Truncated, offset: 7 }.in_part("xl/broken.xml")
    );
    assert_eq!(
        p.dom(&name("/xl/b.bin")).err().unwrap(),
        Error::Opc(OpcError::UnknownContentType("/xl/b.bin".to_string()))
    );
    assert_eq!(
        p.rels(&name("/xl/a.xml")).err().unwrap(),
        Error::Opc(OpcError::PartNotFound("/xl/_rels/a.xml.rels".to_string()))
    );
    assert!(!p.has_rels(&name("/xl/a.xml")));
    assert!(p.has_rels(&PartName::root()));
    let d = p.dom(&name("/xl/a.xml")).ok().unwrap();
    let r = d.root_element().unwrap();
    d.set_text(r, "x").unwrap();
    assert!(matches!(p.bytes(&name("/xl/a.xml")), Err(Error::InPart { .. })));
}

#[test]
fn packages_that_cannot_be_opened() {
    let none = Archive { records: Vec::new() };
    assert_eq!(
        Package::open(&none, Limits::strict()).err().unwrap(),
        Error::Opc(OpcError::NoContentTypes)
    );
    let mut twice = archive();
    twice.records.push(record("XL/a.xml", ""));
    assert_eq!(
        Package::open(&twice, Limits::strict()).err().unwrap(),
        Error::Opc(OpcError::PartExists("/xl/a.xml".to_string()))
    );
    let mut bad = archive();
    bad.records.push(record("a//b", ""));
    assert_eq!(
        Package::open(&bad, Limits::strict()).err().unwrap(),
        Error::Opc(OpcError::BadPartName("/a//b".to_string()))
    );
    let other = Archive { records: vec![record("[Content_Types].xml", "<Types/>")] };
    assert_eq!(
        Package::open(&other, Limits::strict()).err().unwrap(),
        Error::Opc(OpcError::NoContentTypes)
    );
    let broken = Archive { records: vec![record("[Content_Types].xml", "<Types")] };
    assert!(matches!(
        Package::open(&broken, Limits::strict()).err().unwrap(),
        Error::InPart { .. }
    ));
}

#[test]
fn parts_are_added_and_removed() {
    let a = archive();
    let mut p = open(&a);
    p.add_part(name("/xl/c.xml"), b"<c/>".to_vec(), "application/xml").unwrap();
    let now = plan(&p);
    assert_eq!(now.len(), 7);
    // The type was there already.
    assert_eq!(now[0], "copy 0");
    assert_eq!(now[6], "new xl/c.xml <c/>");
    assert_eq!(
        p.add_part(name("/xl/C.xml"), Vec::new(), "x").unwrap_err(),
        Error::Opc(OpcError::PartExists("/xl/C.xml".to_string()))
    );
    assert!(p.add_part(PartName::root(), Vec::new(), "x").is_err());
    p.add_part(name("/d.dat"), b"d".to_vec(), "application/d").unwrap();
    assert_eq!(p.content_type(&name("/d.dat")), Some("application/d"));
    assert!(plan(&p)[0].contains("<Override PartName=\"/d.dat\" ContentType=\"application/d\"/></Types>"));

    p.remove_part(&name("/xl/a.xml")).unwrap();
    assert!(!p.has(&name("/xl/a.xml")));
    let gone = plan(&p);
    assert!(!gone.contains(&"copy 3".to_string()));
    assert!(!gone[0].contains("/xl/a.xml"));
    assert!(!gone[1].contains("rId1"));
    assert!(gone[1].contains("rId2"));
    assert_eq!(
        p.remove_part(&name("/xl/a.xml")).unwrap_err(),
        Error::Opc(OpcError::PartNotFound("/xl/a.xml".to_string()))
    );
    // It comes back to its place.
    p.add_part(name("/xl/a.xml"), b"new".to_vec(), "application/a+xml").unwrap();
    assert!(plan(&p).contains(&"replace 3 new".to_string()));
}

#[test]
fn relationships_are_added() {
    let a = archive();
    let mut p = open(&a);
    let root = PartName::root();
    let id = p.add_relationship(&root, "t2", "xl/b.bin", TargetMode::Internal).unwrap();
    assert_eq!(id, "rId3");
    let r = p.rels(&root).unwrap();
    assert_eq!(r.by_id("rId3").unwrap().target, "xl/b.bin");
    assert_eq!(r.target_of("rId3").unwrap().as_str(), "/xl/b.bin");
    assert_eq!(r.by_type("t").len(), 2);
    assert_eq!(r.iter().len(), 3);
    assert!(!r.is_empty());
    assert!(r.owner().is_root());
    assert!(matches!(r.target_of("rId2"), Err(Error::Unsupported(_))));
    assert_eq!(
        r.target_of("rId9").unwrap_err(),
        Error::Opc(OpcError::RelationshipNotFound("rId9".to_string()))
    );
    assert_eq!(r.next_id(), "rId4");
    let owner = name("/xl/a.xml");
    let id = p.add_relationship(&owner, "t", "http://y/", TargetMode::External).unwrap();
    assert_eq!(id, "rId1");
    let now = plan(&p);
    assert!(now[6].starts_with("new xl/_rels/a.xml.rels "));
    assert!(now[6].contains(
        "<Relationship Id=\"rId1\" Type=\"t\" Target=\"http://y/\" TargetMode=\"External\"/>"
    ));
    assert!(matches!(
        p.add_relationship(&name("/nope"), "t", "x", TargetMode::Internal),
        Err(Error::Opc(OpcError::PartNotFound(_)))
    ));
}

#[test]
fn a_change_taken_back_is_none() {
    let a = archive();
    let mut p = open(&a);
    let d = p.dom(&name("/xl/a.xml")).ok().unwrap();
    let r = d.root_element().unwrap();
    d.set_attr(r, "x", "1").unwrap();
    assert_eq!(plan(&p)[3], "replace 3 <a x=\"1\"/>");
    let d = p.dom(&name("/xl/a.xml")).ok().unwrap();
    assert!(d.remove_attr(r, None, "x").unwrap());
    assert!(d.is_dirty());
    assert_eq!(plan(&p)[3], "copy 3");
}

#[test]
fn memory_of_a_package() {
    let a = archive();
    let mut p = open(&a);
    let before = p.memory_bytes();
    assert_eq!(p.bytes(&name("/xl/b.bin")).unwrap(), b"b");
    assert!(p.memory_bytes() > before);
    assert_eq!(p.sizes().len(), 12);
}

#[test]
fn all_that_points_at_a_part_goes() {
    let mut a = archive();
    a.records[1] = record(
        "_rels/.rels",
        "<Relationships xmlns=\"http://schemas.openxmlformats.org/package/2006/relationships\">\
         <Relationship Id=\"rId1\" Type=\"first\" Target=\"xl/b.bin\"/>\
         <Relationship Id=\"rId1\" Type=\"second\" Target=\"xl/a.xml\"/>\
         <Relationship Id=\"rId1\" Type=\"third\" Target=\"/XL/A.xml\"/></Relationships>",
    );
    let mut p = open(&a);
    p.remove_part(&name("/xl/a.xml")).unwrap();
    let r = p.rels(&PartName::root()).unwrap();
    assert_eq!(r.iter().len(), 1);
    assert_eq!(r.by_id("rId1").unwrap().rel_type, "first");
    let rest = plan(&p);
    assert!(rest[1].contains("Type=\"first\""));
    assert!(!rest[1].contains("second") && !rest[1].contains("third"));
}

#[test]
fn every_part_can_have_relationships() {
    for t in ["/", "/a", "/xl/workbook.xml", "/_rels/a.xml", "/a.rels"] {
        let n = if t == "/" { PartName::root() } else { name(t) };
        let r = n.rels_part().unwrap();
        assert_eq!(r.rels_owner().unwrap().as_str(), t);
    }
    assert!(name("/xl/_rels/a.xml.rels").rels_part().is_err());
}

#[test]
fn a_part_that_came_back_keeps_its_new_content() {
    let a = archive();
    let part = name("/xl/a.xml");
    let mut p = open(&a);
    p.remove_part(&part).unwrap();
    p.add_part(name("/xl/a.xml"), b"<b/>".to_vec(), "application/a+xml").unwrap();
    assert_eq!(plan(&p)[3], "replace 3 <b/>");
    // Reading it changes nothing of that.
    assert_eq!(p.bytes(&part).unwrap(), b"<b/>");
    assert!(p.dom(&part).is_ok());
    assert_eq!(plan(&p)[3], "replace 3 <b/>");
    // An edit that is taken back neither.
    let d = p.dom(&part).ok().unwrap();
    let r = d.root_element().unwrap();
    d.set_attr(r, "x", "1").unwrap();
    d.remove_attr(r, None, "x").unwrap();
    assert_eq!(plan(&p)[3], "replace 3 <b/>");
    // A document with the content of the archive is a copy.
    let mut p = open(&a);
    p.remove_part(&part).unwrap();
    p.add_part(name("/xl/a.xml"), b"<a/>".to_vec(), "application/a+xml").unwrap();
    assert!(p.dom(&part).is_ok());
    assert_eq!(plan(&p)[3], "copy 3");
}

#[test]
fn the_same_content_is_copied() {
    let a = archive();
    let mut p = open(&a);
    p.remove_part(&name("/xl/b.bin")).unwrap();
    p.add_part(name("/xl/b.bin"), b"b".to_vec(), "application/x").unwrap();
    assert_eq!(plan(&p)[4], "copy 4");
    // What cannot be unpacked is other content.
    p.remove_part(&name("/xl/broken.xml")).unwrap();
    p.add_part(name("/xl/broken.xml"), b"<c/>".to_vec(), "application/xml").unwrap();
    assert!(p.dom(&name("/xl/broken.xml")).is_ok());
    assert_eq!(plan(&p)[5], "replace 5 <c/>");
}

#[test]
fn relationships_that_came_back_are_saved() {
    let a = archive();
    let mut p = open(&a);
    let rels = name("/_rels/.rels");
    let other = RELS.replace("rId1", "rId7");
    p.remove_part(&rels).unwrap();
    p.add_part(
        name("/_rels/.rels"),
        other.as_bytes().to_vec(),
        "application/vnd.openxmlformats-package.relationships+xml",
    )
    .unwrap();
    // This reads all relationships.
    p.remove_part(&name("/xl/b.bin")).unwrap();
    assert_eq!(plan(&p)[1], format!("replace 1 {other}"));
}
