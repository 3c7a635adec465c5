use std::collections::VecDeque;

use isbn2::message::read_xml_tag;
use isbn2::xml::{read_document, XmlEvent, XmlRead};
use isbn2::{IsbnError, IsbnRange, IsbnRangeError, Segment};

fn start(name: &str) -> XmlRead {
    Ok(XmlEvent::Start(name.as_bytes().to_vec()))
}

fn end(name: &str) -> XmlRead {
    Ok(XmlEvent::End(name.as_bytes().to_vec()))
}

fn text(text: &str) -> XmlRead {
    Ok(XmlEvent::Text(Ok(text.to_string())))
}

fn element(reads: &mut VecDeque<XmlRead>, name: &str, body: &str) {
    reads.push_back(start(name));
    reads.push_back(text(body));
    reads.push_back(end(name));
}

fn rule(reads: &mut VecDeque<XmlRead>, range: &str, length: &str) {
    reads.push_back(start("Rule"));
    element(reads, "Range", range);
    element(reads, "Length", length);
    reads.push_back(end("Rule"));
}

fn agency(name: &str, rules: &[(&str, &str)]) -> VecDeque<XmlRead> {
    let mut reads = VecDeque::new();
    element(&mut reads, "Agency", name);
    reads.push_back(start("Rules"));
    for (range, length) in rules {
        rule(&mut reads, range, length);
    }
    reads.push_back(end("Rules"));
    reads
}

fn group(segment: &Segment, number: u32) -> Result<(String, usize), IsbnError> {
    segment
        .group(number)
        .map(|group| (group.name.to_string(), group.segment_length))
}

#[test]
fn segment_gives_the_length_of_the_first_range() {
    let mut reads = agency(
        "Korea, Republic",
        &[("0000000-2499999", "2"), ("2500000-5499999", "3"), ("6000000-6999999", "0")],
    );
    reads.push_back(end("Group"));
    reads.push_back(end("RegistrationGroups"));
    let segment = Segment::from_reader(&mut reads).unwrap();
    assert_eq!(reads.len(), 1);
    let name = "Korea, Republic".to_string();
    assert_eq!(group(&segment, 0), Ok((name.clone(), 2)));
    assert_eq!(group(&segment, 2499998), Ok((name.clone(), 2)));
    assert_eq!(group(&segment, 2499999), Err(IsbnError::InvalidGroup));
    assert_eq!(group(&segment, 2500000), Ok((name, 3)));
    assert_eq!(group(&segment, 5999999), Err(IsbnError::InvalidGroup));
    assert_eq!(group(&segment, 6000000), Err(IsbnError::UndefinedRange));
    assert_eq!(group(&segment, 6999999), Err(IsbnError::InvalidGroup));
    assert_eq!(group(&segment, u32::MAX), Err(IsbnError::InvalidGroup));
}

#[test]
fn segment_ends_with_its_own_element() {
    let mut reads = agency("A", &[]);
    reads.push_back(end("EAN.UCC"));
    let segment = Segment::from_reader(&mut reads).unwrap();
    assert_eq!(group(&segment, 0), Err(IsbnError::InvalidGroup));
    let mut reads = agency("A", &[]);
    reads.push_back(end("Agency"));
    assert!(matches!(Segment::from_reader(&mut reads), Err(IsbnRangeError::WrongXmlEnd)));
    let mut reads = agency("A", &[]);
    assert!(matches!(Segment::from_reader(&mut reads), Err(IsbnRangeError::MissingXmlEnd)));
}

#[test]
fn another_end_tag_passes_for_the_start_of_a_rule() {
    let mut reads = VecDeque::new();
    element(&mut reads, "Agency", "A");
    reads.push_back(start("Rules"));
    reads.push_back(end("Other"));
    element(&mut reads, "Range", "0-5");
    element(&mut reads, "Length", "7");
    reads.push_back(end("Rule"));
    reads.push_back(end("Rules"));
    reads.push_back(end("Group"));
    let segment = Segment::from_reader(&mut reads).unwrap();
    assert_eq!(group(&segment, 4), Ok(("A".to_string(), 7)));
}

#[test]
fn rules_out_of_place() {
    let mut reads = VecDeque::new();
    element(&mut reads, "Agency", "A");
    reads.push_back(start("Rules"));
    reads.push_back(start("Other"));
    assert!(matches!(Segment::from_reader(&mut reads), Err(IsbnRangeError::WrongXmlStart)));
    let mut reads = VecDeque::new();
    element(&mut reads, "Agency", "A");
    reads.push_back(start("Rules"));
    reads.push_back(text("text"));
    assert!(matches!(Segment::from_reader(&mut reads), Err(IsbnRangeError::MissingXmlStart)));
    let mut reads = VecDeque::new();
    element(&mut reads, "Agency", "A");
    reads.push_back(text("text"));
    assert!(matches!(Segment::from_reader(&mut reads), Err(IsbnRangeError::MissingXmlStart)));
}

#[test]
fn tag_gives_its_text() {
    let mut reads = VecDeque::new();
    element(&mut reads, "Prefix", "978");
    reads.push_back(text("left"));
    assert_eq!(read_xml_tag(&mut reads, "Prefix").unwrap(), "978");
    assert_eq!(reads.len(), 1);
}

#[test]
fn tag_is_refused_where_it_fails() {
    let mut reads = VecDeque::new();
    assert!(matches!(
        read_xml_tag(&mut reads, "Prefix"),
        Err(IsbnRangeError::MissingXmlStart)
    ));
    element(&mut reads, "Prefix", "978");
    assert!(matches!(read_xml_tag(&mut reads, "Agency"), Err(IsbnRangeError::WrongXmlStart)));
    assert_eq!(reads.len(), 2);
    assert!(matches!(
        read_xml_tag(&mut reads, "Prefix"),
        Err(IsbnRangeError::MissingXmlStart)
    ));
    assert_eq!(reads.len(), 1);
    reads.clear();
    reads.push_back(start("Prefix"));
    reads.push_back(Ok(XmlEvent::Other));
    assert!(matches!(read_xml_tag(&mut reads, "Prefix"), Err(IsbnRangeError::WrongXmlBody)));
    reads.push_back(start("Prefix"));
    reads.push_back(Ok(XmlEvent::Text(Err(quick_xml::Error::TextNotFound))));
    reads.push_back(end("Prefix"));
    assert!(matches!(
        read_xml_tag(&mut reads, "Prefix"),
        Err(IsbnRangeError::Xml(quick_xml::Error::TextNotFound))
    ));
    assert_eq!(reads.len(), 1);
    reads.clear();
    reads.push_back(start("Prefix"));
    reads.push_back(text("978"));
    reads.push_back(end("Agency"));
    assert!(matches!(read_xml_tag(&mut reads, "Prefix"), Err(IsbnRangeError::WrongXmlEnd)));
    reads.push_back(start("Prefix"));
    reads.push_back(text("978"));
    reads.push_back(start("Prefix"));
    assert!(matches!(read_xml_tag(&mut reads, "Prefix"), Err(IsbnRangeError::MissingXmlEnd)));
    reads.push_back(Err(quick_xml::Error::UnexpectedBang));
    assert!(matches!(
        read_xml_tag(&mut reads, "Prefix"),
        Err(IsbnRangeError::Xml(quick_xml::Error::UnexpectedBang))
    ));
}

#[test]
fn document_is_read_to_its_end() {
    let reads = read_document(b"<!-- c --><a x=\"1\">  1 &lt; 2  </a ><b/> &none; <?pi?>");
    let shown: Vec<String> = reads
        .iter()
        .map(|read| match read {
            Ok(XmlEvent::Start(name)) => format!("<{}>", String::from_utf8_lossy(name)),
            Ok(XmlEvent::End(name)) => format!("</{}>", String::from_utf8_lossy(name)),
            Ok(XmlEvent::Text(Ok(text))) => text.to_string(),
            Ok(XmlEvent::Text(Err(_))) => "bad text".to_string(),
            Ok(XmlEvent::Other) => "other".to_string(),
            Err(_) => "error".to_string(),
        })
        .collect();
    assert_eq!(shown, ["other", "<a>", "1 < 2", "</a>", "other", "bad text", "other"]);
}

#[test]
fn nothing_is_read_behind_an_error() {
    let reads = read_document(b"<a></b><c>text</c>");
    assert_eq!(reads.len(), 2);
    assert!(matches!(reads[0], Ok(XmlEvent::Start(_))));
    assert!(matches!(reads[1], Err(quick_xml::Error::EndEventMismatch { .. })));
    assert_eq!(read_document(b"").len(), 0);
}

#[test]
fn message_in_the_expected_format_loads() {
    let mut reads = VecDeque::new();
    reads.push_back(Ok(XmlEvent::Other));
    reads.push_back(start("ISBNRangeMessage"));
    element(&mut reads, "MessageSource", "source");
    element(&mut reads, "MessageSerialNumber", "serial");
    element(&mut reads, "MessageDate", "date");
    reads.push_back(start("EAN.UCCPrefixes"));
    reads.push_back(start("EAN.UCC"));
    element(&mut reads, "Prefix", "978");
    reads.append(&mut agency("International", &[("0-9999999", "1")]));
    reads.push_back(end("EAN.UCC"));
    reads.push_back(end("EAN.UCCPrefixes"));
    reads.push_back(start("RegistrationGroups"));
    reads.push_back(start("Group"));
    element(&mut reads, "Prefix", "978-3");
    reads.append(&mut agency("German language", &[("0-9999999", "2")]));
    reads.push_back(end("Group"));
    reads.push_back(end("RegistrationGroups"));
    reads.push_back(Err(quick_xml::Error::UnexpectedBang));
    let range = IsbnRange::from_reads(reads).unwrap();
    let isbn = isbn2::Isbn::parse("9783161484100").unwrap();
    assert_eq!(range.hyphenate_isbn(&isbn).unwrap().as_str(), "978-3-16-148410-0");
    assert_eq!(range.get_registration_group_isbn(&isbn), Ok("German language"));
}

#[test]
fn reads_without_a_message() {
    assert!(matches!(
        IsbnRange::from_reads(VecDeque::new()),
        Err(IsbnRangeError::NoIsbnRangeMessageTag)
    ));
    let mut reads = VecDeque::new();
    reads.push_back(start("Other"));
    reads.push_back(Err(quick_xml::Error::UnexpectedBang));
    assert!(matches!(
        IsbnRange::from_reads(reads),
        Err(IsbnRangeError::Xml(quick_xml::Error::UnexpectedBang))
    ));
}
