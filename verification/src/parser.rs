//! From the XML of one piece of the corpus to document records.
use crate::chunker::{lemma_boundary_in_prefix, lemma_boundary_in_suffix, ContentsSplit};
use crate::documents::{range_fits, DocumentRaw};
use crate::text::same_text;
use core::ops::Range;
use vstd::prelude::*;
use vstd::string::StringSliceAdditionalSpecFns;
use vstd::utf8::*;

verus! {

/// `xmlparser::Tokenizer`, of which nothing is known but what is said of
/// the events it has yet to yield.
#[verifier::external_type_specification]
#[verifier::external_body]
pub struct ExTokenizer<'a>(xmlparser::Tokenizer<'a>);

/// `xmlparser::Token`, which the tokenizer yields; it is only named here.
#[verifier::external_type_specification]
#[verifier::external_body]
pub struct ExToken<'a>(xmlparser::Token<'a>);

/// `xmlparser::Error`, which the tokenizer yields; it is only named here.
#[verifier::external_type_specification]
#[verifier::external_body]
pub struct ExTokenError(xmlparser::Error);

/// What the parser reads of one XML token.
pub enum XmlEvent<'a> {
    /// The start of an element, with its local name.
    Open { local: &'a str },
    /// Text between two tags, as a byte range of the tokenized text.
    Text { start: usize, end: usize },
    /// A closing tag, with its local name.
    Close { local: &'a str },
    /// A token that the parser passes over.
    Other,
    /// Text that the tokenizer could not read as XML.
    Malformed,
}

/// An `XmlEvent` as mathematical values.
pub ghost enum XmlEventView {
    Open { local: Seq<char> },
    Text { start: int, end: int },
    Close { local: Seq<char> },
    Other,
    Malformed,
}

impl<'a> View for XmlEvent<'a> {
    type V = XmlEventView;

    open spec fn view(&self) -> XmlEventView {
        match self {
            XmlEvent::Open { local } => XmlEventView::Open { local: local@ },
            XmlEvent::Text { start, end } => XmlEventView::Text {
                start: *start as int,
                end: *end as int,
            },
            XmlEvent::Close { local } => XmlEventView::Close { local: local@ },
            XmlEvent::Other => XmlEventView::Other,
            XmlEvent::Malformed => XmlEventView::Malformed,
        }
    }
}

/// The events that the tokenizer yields for a fragment of this text, in
/// order, up to and including the first malformed one.
pub uninterp spec fn xml_events(text: Seq<char>) -> Seq<XmlEventView>;

/// The events that a tokenizer has yet to yield.
pub uninterp spec fn pending_events(tokens: xmlparser::Tokenizer<'_>) -> Seq<XmlEventView>;

/// Whether a text event names a range that can be cut out of `bytes`.
pub open spec fn event_fits(event: XmlEventView, bytes: Seq<u8>) -> bool {
    match event {
        XmlEventView::Text { start, end } => {
            &&& 0 <= start <= end <= bytes.len()
            &&& is_char_boundary(bytes, start)
            &&& is_char_boundary(bytes, end)
        },
        _ => true,
    }
}

/// `xmlparser::Tokenizer::from_fragment` over the whole of `data`.
///
/// Trusted: the tokenizer holds the events of `data`, and every text event
/// among them names a range that is a string slice of `data` (the crate cuts
/// each span out of the text with a slice expression).
#[verifier::external_body]
fn tokenizer_over<'a>(data: &'a str) -> (tokens: xmlparser::Tokenizer<'a>)
    ensures
        pending_events(tokens) == xml_events(data@),
        forall|k: int|
            0 <= k < pending_events(tokens).len() ==> event_fits(
                #[trigger] pending_events(tokens)[k],
                data.spec_bytes(),
            ),
{
    xmlparser::Tokenizer::from_fragment(data, 0..data.len())
}

/// `Iterator::next` of `xmlparser::Tokenizer`.
///
/// Trusted: the call hands out the first pending event and leaves the rest
/// pending; with nothing pending it returns `None`. Element starts and
/// closing tags come with their local names, text with its span, an error as
/// `Malformed`, every other token as `Other`.
#[verifier::external_body]
fn next_event<'a>(tokens: &mut xmlparser::Tokenizer<'a>) -> (event: Option<XmlEvent<'a>>)
    ensures
        match event {
            Some(e) => {
                &&& pending_events(*old(tokens)).len() > 0
                &&& e@ == pending_events(*old(tokens))[0]
                &&& pending_events(*final(tokens)) == pending_events(*old(tokens)).drop_first()
            },
            None => pending_events(*old(tokens)).len() == 0 && pending_events(*final(tokens)).len()
                == 0,
        },
{
    match tokens.next() {
        None => None,
        Some(Ok(xmlparser::Token::ElementStart { local, .. })) => Some(
            XmlEvent::Open { local: local.as_str() },
        ),
        Some(Ok(xmlparser::Token::Text { text })) => Some(
            XmlEvent::Text { start: text.start(), end: text.end() },
        ),
        Some(Ok(xmlparser::Token::ElementEnd { end: xmlparser::ElementEnd::Close(_, local), .. })) => Some(
            XmlEvent::Close { local: local.as_str() },
        ),
        Some(Ok(_)) => Some(XmlEvent::Other),
        Some(Err(_)) => Some(XmlEvent::Malformed),
    }
}

/// The part of a document that the text of an element belongs to.
#[derive(Clone, Copy, PartialEq, Eq, Structural)]
pub enum Field {
    Title,
    Url,
    Body,
    Skipped,
}

/// The part that the text of an element of this name belongs to: `title`,
/// `url`, `abstract` for the body, and none for any other name.
pub open spec fn field_named(name: Seq<char>) -> Field {
    if name == "title"@ {
        Field::Title
    } else if name == "abstract"@ {
        Field::Body
    } else if name == "url"@ {
        Field::Url
    } else {
        Field::Skipped
    }
}

/// Whether a closing tag of this name ends a document.
pub open spec fn closes_document(name: Seq<char>) -> bool {
    name == "doc"@
}

fn field_of(local: &str) -> (field: Field)
    ensures
        field == field_named(local@),
{
    if same_text(local, "title") {
        Field::Title
    } else if same_text(local, "abstract") {
        Field::Body
    } else if same_text(local, "url") {
        Field::Url
    } else {
        Field::Skipped
    }
}

/// The parser between two events: the element it is in, the record it is
/// filling, and the id that the next document gets.
pub struct DocumentParser {
    pub base_offset: usize,
    pub current: Field,
    pub document: DocumentRaw,
    pub next_id: i32,
}

impl DocumentParser {
    /// The parser before the first event of a piece that starts at
    /// `base_offset`, where documents are numbered from `first_id` on.
    pub open spec fn start(base_offset: usize, first_id: i32) -> DocumentParser {
        DocumentParser {
            base_offset,
            current: Field::Skipped,
            document: DocumentRaw::blank(),
            next_id: first_id,
        }
    }

    /// Whether there is an id left for one more document.
    pub open spec fn has_room(self) -> bool {
        self.next_id < i32::MAX
    }

    /// The range of a text event, moved from the piece into the corpus.
    pub open spec fn absolute(self, start: int, end: int) -> Range<usize> {
        Range { start: (self.base_offset + start) as usize, end: (self.base_offset + end) as usize }
    }

    /// The parser after `event`.
    ///
    /// An element start makes its name the current element. Text is noted in
    /// the record where the current element is one of title, url and
    /// abstract. A closing tag leaves the element; one that closes a
    /// document also starts a fresh record and uses up one id, if there is
    /// one left.
    pub open spec fn after(self, event: XmlEventView) -> DocumentParser {
        match event {
            XmlEventView::Open { local } => DocumentParser { current: field_named(local), ..self },
            XmlEventView::Text { start, end } => match self.current {
                Field::Title => DocumentParser {
                    document: DocumentRaw { title: self.absolute(start, end), ..self.document },
                    ..self
                },
                Field::Url => DocumentParser {
                    document: DocumentRaw { url: self.absolute(start, end), ..self.document },
                    ..self
                },
                Field::Body => DocumentParser {
                    document: DocumentRaw { text: self.absolute(start, end), ..self.document },
                    ..self
                },
                Field::Skipped => self,
            },
            XmlEventView::Close { local } => if closes_document(local) {
                DocumentParser {
                    current: Field::Skipped,
                    document: DocumentRaw::blank(),
                    next_id: if self.has_room() {
                        (self.next_id + 1) as i32
                    } else {
                        self.next_id
                    },
                    ..self
                }
            } else {
                DocumentParser { current: Field::Skipped, ..self }
            },
            _ => self,
        }
    }

    /// The document that `event` completes: the record as it is filled,
    /// under the next id, where the event closes a document and an id is
    /// left.
    pub open spec fn emits(self, event: XmlEventView) -> Option<DocumentRaw> {
        match event {
            XmlEventView::Close { local } => if closes_document(local) && self.has_room() {
                Some(DocumentRaw { id: self.next_id, ..self.document })
            } else {
                None
            },
            _ => None,
        }
    }

    /// A parser for a piece that starts at `base_offset`.
    pub fn new(base_offset: usize, first_id: i32) -> (parser: DocumentParser)
        ensures
            parser == DocumentParser::start(base_offset, first_id),
    {
        DocumentParser {
            base_offset,
            current: Field::Skipped,
            document: DocumentRaw::default(),
            next_id: first_id,
        }
    }

    /// Takes one event and hands out the document that it completes.
    pub fn feed(&mut self, event: &XmlEvent) -> (done: Option<DocumentRaw>)
        requires
            event@ matches XmlEventView::Text { start, end } ==> old(self).base_offset + start
                <= usize::MAX && old(self).base_offset + end <= usize::MAX,
        ensures
            *final(self) == old(self).after(event@),
            done == old(self).emits(event@),
    {
        match event {
            XmlEvent::Open { local } => {
                self.current = field_of(local);
                None
            },
            XmlEvent::Text { start, end } => {
                let range = Range { start: self.base_offset + *start, end: self.base_offset + *end };
                match self.current {
                    Field::Title => {
                        self.document.title = range;
                    },
                    Field::Url => {
                        self.document.url = range;
                    },
                    Field::Body => {
                        self.document.text = range;
                    },
                    Field::Skipped => {},
                }
                None
            },
            XmlEvent::Close { local } => {
                self.current = Field::Skipped;
                if same_text(local, "doc") {
                    let mut done = DocumentRaw::default();
                    core::mem::swap(&mut done, &mut self.document);
                    if self.next_id < i32::MAX {
                        done.id = self.next_id;
                        self.next_id = self.next_id + 1;
                        Some(done)
                    } else {
                        None
                    }
                } else {
                    None
                }
            },
            XmlEvent::Other => None,
            XmlEvent::Malformed => None,
        }
    }
}

/// The documents that a parser in state `parser` completes over `events`.
pub open spec fn documents_of(events: Seq<XmlEventView>, parser: DocumentParser) -> Seq<
    DocumentRaw,
>
    decreases events.len(),
{
    if events.len() == 0 {
        Seq::empty()
    } else {
        let rest = documents_of(events.drop_first(), parser.after(events[0]));
        match parser.emits(events[0]) {
            Some(document) => seq![document] + rest,
            None => rest,
        }
    }
}

/// Parses one piece of the corpus into the records of the documents that
/// are closed in it, numbered from `first_id` on in the order in which they
/// are closed. What follows malformed XML in the piece is not read.
pub fn parse_documents_vec(file_contents: &ContentsSplit, first_id: i32) -> (docs: Vec<
    DocumentRaw,
>)
    requires
        file_contents.base_offset + file_contents.data.spec_bytes().len() <= usize::MAX,
    ensures
        docs@ == documents_of(
            xml_events(file_contents.data@),
            DocumentParser::start(file_contents.base_offset, first_id),
        ),
        forall|k: int|
            0 <= k < docs@.len() ==> record_in_piece(
                #[trigger] docs@[k],
                file_contents.base_offset as int,
                file_contents.data.spec_bytes(),
            ),
{
    let mut tokens = tokenizer_over(file_contents.data);
    let mut parser = DocumentParser::new(file_contents.base_offset, first_id);
    let mut docs: Vec<DocumentRaw> = Vec::new();
    let ghost all = xml_events(file_contents.data@);
    let ghost begin = parser;
    proof {
        lemma_documents_in_piece(all, begin, file_contents.data.spec_bytes());
    }
    loop
        invariant
            file_contents.base_offset + file_contents.data.spec_bytes().len() <= usize::MAX,
            parser.base_offset == file_contents.base_offset,
            forall|k: int|
                0 <= k < pending_events(tokens).len() ==> event_fits(
                    #[trigger] pending_events(tokens)[k],
                    file_contents.data.spec_bytes(),
                ),
            documents_of(all, begin) == docs@ + documents_of(pending_events(tokens), parser),
        ensures
            docs@ == documents_of(all, begin),
        decreases pending_events(tokens).len(),
    {
        let ghost pending = pending_events(tokens);
        let ghost before = parser;
        match next_event(&mut tokens) {
            None => {
                break ;
            },
            Some(event) => {
                proof {
                    assert(event_fits(pending[0], file_contents.data.spec_bytes()));
                    assert forall|k: int| 0 <= k < pending_events(tokens).len() implies event_fits(
                        #[trigger] pending_events(tokens)[k],
                        file_contents.data.spec_bytes(),
                    ) by {
                        assert(pending_events(tokens)[k] == pending[k + 1]);
                    }
                }
                match parser.feed(&event) {
                    Some(document) => {
                        docs.push(document);
                    },
                    None => {},
                }
                proof {
                    let rest = documents_of(pending.drop_first(), before.after(pending[0]));
                    assert(docs@ + rest =~= documents_of(all, begin));
                }
            },
        }
    }
    docs
}

/// How many of the events close a document.
pub open spec fn closed_documents(events: Seq<XmlEventView>) -> nat
    decreases events.len(),
{
    if events.len() == 0 {
        0
    } else {
        let rest = closed_documents(events.drop_first());
        match events[0] {
            XmlEventView::Close { local } => if closes_document(local) {
                rest + 1
            } else {
                rest
            },
            _ => rest,
        }
    }
}

/// While ids last, the parser yields one document for each closing tag of a
/// document.
pub proof fn lemma_documents_counted(events: Seq<XmlEventView>, parser: DocumentParser)
    requires
        parser.next_id + closed_documents(events) <= i32::MAX,
    ensures
        documents_of(events, parser).len() == closed_documents(events),
    decreases events.len(),
{
    if events.len() > 0 {
        lemma_documents_counted(events.drop_first(), parser.after(events[0]));
    }
}

/// The parser numbers its documents one after the other from its next id
/// on, and yields no more of them than there are ids left.
pub proof fn lemma_documents_numbered(events: Seq<XmlEventView>, parser: DocumentParser)
    ensures
        documents_of(events, parser).len() > 0 ==> parser.next_id + documents_of(
            events,
            parser,
        ).len() <= i32::MAX,
        forall|k: int|
            0 <= k < documents_of(events, parser).len() ==> (#[trigger] documents_of(
                events,
                parser,
            )[k]).id == parser.next_id + k,
    decreases events.len(),
{
    if events.len() > 0 {
        let next = parser.after(events[0]);
        let rest = documents_of(events.drop_first(), next);
        lemma_documents_numbered(events.drop_first(), next);
        assert forall|k: int| 0 <= k < documents_of(events, parser).len() implies (
        #[trigger] documents_of(events, parser)[k]).id == parser.next_id + k by {
            if parser.emits(events[0]).is_some() && k > 0 {
                assert(documents_of(events, parser)[k] == rest[k - 1]);
            }
        }
    }
}

/// While ids last, the id from which a parser numbers its documents
/// decides their ids and nothing else.
pub proof fn lemma_documents_renumbered(
    events: Seq<XmlEventView>,
    parser: DocumentParser,
    other: DocumentParser,
)
    requires
        other == (DocumentParser { next_id: other.next_id, ..parser }),
        parser.next_id + closed_documents(events) <= i32::MAX,
        other.next_id + closed_documents(events) <= i32::MAX,
    ensures
        documents_of(events, parser).len() == documents_of(events, other).len(),
        forall|k: int|
            0 <= k < documents_of(events, parser).len() ==> #[trigger] documents_of(
                events,
                parser,
            )[k] == (DocumentRaw {
                id: documents_of(events, parser)[k].id,
                ..documents_of(events, other)[k]
            }),
    decreases events.len(),
{
    if events.len() > 0 {
        let rest = documents_of(events.drop_first(), parser.after(events[0]));
        let other_rest = documents_of(events.drop_first(), other.after(events[0]));
        lemma_documents_renumbered(
            events.drop_first(),
            parser.after(events[0]),
            other.after(events[0]),
        );
        assert forall|k: int| 0 <= k < documents_of(events, parser).len() implies #[trigger] documents_of(
            events,
            parser,
        )[k] == (DocumentRaw {
            id: documents_of(events, parser)[k].id,
            ..documents_of(events, other)[k]
        }) by {
            if parser.emits(events[0]).is_some() {
                if k > 0 {
                    assert(documents_of(events, parser)[k] == rest[k - 1]);
                    assert(documents_of(events, other)[k] == other_rest[k - 1]);
                }
            } else {
                assert(documents_of(events, parser)[k] == rest[k]);
                assert(documents_of(events, other)[k] == other_rest[k]);
            }
        }
    }
}

/// Whether `range` is empty at 0 or, seen from `base`, can be cut out of the
/// piece `data`.
pub open spec fn range_in_piece(range: Range<usize>, base: int, data: Seq<u8>) -> bool {
    ||| range.start == 0 && range.end == 0
    ||| {
        &&& base <= range.start <= range.end <= base + data.len()
        &&& is_char_boundary(data, range.start - base)
        &&& is_char_boundary(data, range.end - base)
    }
}

/// Whether all three ranges of a record lie in the piece.
pub open spec fn record_in_piece(record: DocumentRaw, base: int, data: Seq<u8>) -> bool {
    &&& range_in_piece(record.title, base, data)
    &&& range_in_piece(record.url, base, data)
    &&& range_in_piece(record.text, base, data)
}

/// Where every text event can be cut out of the piece, every document that
/// the parser yields lies in the piece.
pub proof fn lemma_documents_in_piece(
    events: Seq<XmlEventView>,
    parser: DocumentParser,
    data: Seq<u8>,
)
    requires
        forall|k: int| 0 <= k < events.len() ==> event_fits(#[trigger] events[k], data),
        parser.base_offset + data.len() <= usize::MAX,
        record_in_piece(parser.document, parser.base_offset as int, data),
    ensures
        forall|k: int|
            0 <= k < documents_of(events, parser).len() ==> record_in_piece(
                #[trigger] documents_of(events, parser)[k],
                parser.base_offset as int,
                data,
            ),
    decreases events.len(),
{
    if events.len() > 0 {
        let next = parser.after(events[0]);
        let rest = documents_of(events.drop_first(), next);
        assert(event_fits(events[0], data));
        assert forall|k: int| 0 <= k < events.drop_first().len() implies event_fits(
            #[trigger] events.drop_first()[k],
            data,
        ) by {
            assert(events.drop_first()[k] == events[k + 1]);
        }
        lemma_documents_in_piece(events.drop_first(), next, data);
        assert forall|k: int| 0 <= k < documents_of(events, parser).len() implies record_in_piece(
            #[trigger] documents_of(events, parser)[k],
            parser.base_offset as int,
            data,
        ) by {
            if parser.emits(events[0]).is_some() && k > 0 {
                assert(documents_of(events, parser)[k] == rest[k - 1]);
            }
        }
    }
}

/// A record that lies in a piece of a corpus can be materialized from the
/// corpus.
pub proof fn lemma_piece_record_fits(record: DocumentRaw, base: int, data: Seq<u8>, bytes: Seq<u8>)
    requires
        valid_utf8(bytes),
        0 <= base,
        base + data.len() <= bytes.len(),
        data == bytes.subrange(base, base + data.len()),
        is_char_boundary(bytes, base),
        is_char_boundary(bytes, base + data.len()),
        record_in_piece(record, base, data),
    ensures
        record.fits(bytes),
{
    lemma_piece_range_fits(record.title, base, data, bytes);
    lemma_piece_range_fits(record.url, base, data, bytes);
    lemma_piece_range_fits(record.text, base, data, bytes);
}

proof fn lemma_piece_range_fits(range: Range<usize>, base: int, data: Seq<u8>, bytes: Seq<u8>)
    requires
        valid_utf8(bytes),
        0 <= base,
        base + data.len() <= bytes.len(),
        data == bytes.subrange(base, base + data.len()),
        is_char_boundary(bytes, base),
        is_char_boundary(bytes, base + data.len()),
        range_in_piece(range, base, data),
    ensures
        range_fits(bytes, range),
{
    if range.start == 0 && range.end == 0 {
    } else {
        let end = base + data.len();
        let prefix = bytes.subrange(0, end);
        lemma_boundary_in_prefix(bytes, end, base);
        lemma_boundary_in_prefix(bytes, end, range.start as int);
        lemma_boundary_in_prefix(bytes, end, range.end as int);
        assert(prefix.subrange(base, prefix.len() as int) =~= data);
        lemma_boundary_in_suffix(prefix, base, range.start - base);
        lemma_boundary_in_suffix(prefix, base, range.end - base);
    }
}

} // verus!
