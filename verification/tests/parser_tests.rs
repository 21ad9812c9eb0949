use fulltext::chunker::ContentsSplit;
use fulltext::documents::DocumentRaw;
use fulltext::parser::{parse_documents_vec, DocumentParser, XmlEvent};

fn same(record: &DocumentRaw, title: (usize, usize), url: (usize, usize), text: (usize, usize), id: i32) {
    assert_eq!((record.title.start, record.title.end), title);
    assert_eq!((record.url.start, record.url.end), url);
    assert_eq!((record.text.start, record.text.end), text);
    assert_eq!(record.id, id);
}

#[test]
fn parses_one_document() {
    let data = "<doc><title>Cats</title><url>u1</url><abstract>The quick brown fox</abstract></doc>";
    let docs = parse_documents_vec(&ContentsSplit { base_offset: 0, data }, 0);
    assert_eq!(docs.len(), 1);
    same(&docs[0], (12, 16), (29, 31), (47, 66), 0);
    assert_eq!(&data[12..16], "Cats");
    assert_eq!(&data[29..31], "u1");
    assert_eq!(&data[47..66], "The quick brown fox");
}

#[test]
fn shifts_ranges_by_the_base_offset_and_numbers_from_the_first_id() {
    let data = "<doc><title>A</title></doc><doc><url>B</url></doc>";
    let docs = parse_documents_vec(&ContentsSplit { base_offset: 1000, data }, 7);
    assert_eq!(docs.len(), 2);
    same(&docs[0], (1012, 1013), (0, 0), (0, 0), 7);
    same(&docs[1], (0, 0), (1037, 1038), (0, 0), 8);
}

#[test]
fn passes_over_other_elements() {
    let data = "<doc><links><title>inner</title><sublink>x</sublink></links><abstract>text</abstract></doc>";
    let docs = parse_documents_vec(&ContentsSplit { base_offset: 0, data }, 0);
    assert_eq!(docs.len(), 1);
    assert_eq!(&data[docs[0].title.start..docs[0].title.end], "inner");
    assert_eq!(&data[docs[0].text.start..docs[0].text.end], "text");
    assert_eq!((docs[0].url.start, docs[0].url.end), (0, 0));
}

#[test]
fn stops_at_malformed_xml() {
    let data = "<doc><title>A</title></doc><doc><title>B</title><<</doc><doc><title>C</title></doc>";
    let docs = parse_documents_vec(&ContentsSplit { base_offset: 0, data }, 0);
    assert_eq!(docs.len(), 1);
    assert_eq!(&data[docs[0].title.start..docs[0].title.end], "A");
}

#[test]
fn a_piece_without_documents_gives_none() {
    let docs = parse_documents_vec(&ContentsSplit { base_offset: 0, data: "" }, 0);
    assert_eq!(docs.len(), 0);
    let docs = parse_documents_vec(&ContentsSplit { base_offset: 0, data: "<title>t</title>" }, 0);
    assert_eq!(docs.len(), 0);
}

#[test]
fn the_parser_steps_through_events() {
    let mut parser = DocumentParser::new(100, 5);
    assert!(parser.feed(&XmlEvent::Open { local: "doc" }).is_none());
    assert!(parser.feed(&XmlEvent::Text { start: 1, end: 2 }).is_none());
    assert!(parser.feed(&XmlEvent::Open { local: "title" }).is_none());
    assert!(parser.feed(&XmlEvent::Text { start: 10, end: 14 }).is_none());
    assert!(parser.feed(&XmlEvent::Close { local: "title" }).is_none());
    assert!(parser.feed(&XmlEvent::Text { start: 14, end: 15 }).is_none());
    assert!(parser.feed(&XmlEvent::Open { local: "abstract" }).is_none());
    assert!(parser.feed(&XmlEvent::Other).is_none());
    assert!(parser.feed(&XmlEvent::Text { start: 20, end: 30 }).is_none());
    assert!(parser.feed(&XmlEvent::Malformed).is_none());
    assert!(parser.feed(&XmlEvent::Close { local: "abstract" }).is_none());
    assert!(parser.feed(&XmlEvent::Open { local: "url" }).is_none());
    assert!(parser.feed(&XmlEvent::Text { start: 40, end: 41 }).is_none());
    let done = parser.feed(&XmlEvent::Close { local: "doc" });
    let record = done.expect("a document is closed");
    same(&record, (110, 114), (140, 141), (120, 130), 5);
    assert_eq!(parser.next_id, 6);
    same(&parser.document, (0, 0), (0, 0), (0, 0), 0);
    let next = parser.feed(&XmlEvent::Close { local: "doc" }).expect("an empty document");
    same(&next, (0, 0), (0, 0), (0, 0), 6);
}

#[test]
fn no_document_is_handed_out_when_the_ids_have_run_out() {
    let mut parser = DocumentParser::new(0, i32::MAX - 1);
    let last = parser.feed(&XmlEvent::Close { local: "doc" }).expect("one id is left");
    assert_eq!(last.id, i32::MAX - 1);
    assert!(parser.feed(&XmlEvent::Close { local: "doc" }).is_none());
    assert_eq!(parser.next_id, i32::MAX);
}
