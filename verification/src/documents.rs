//! Document records, which point into the corpus, and materialized documents.
use crate::chunker::slice_between;
use core::ops::Range;
use vstd::prelude::*;
use vstd::string::StringSliceAdditionalSpecFns;
use vstd::utf8::*;

verus! {

/// A document with its strings copied out of the corpus.
pub struct Document {
    pub title: String,
    pub url: String,
    pub text: String,
    pub id: i32,
}

/// What a `Document` holds, as mathematical values.
pub ghost struct DocumentView {
    pub title: Seq<char>,
    pub url: Seq<char>,
    pub text: Seq<char>,
    pub id: int,
}

impl View for Document {
    type V = DocumentView;

    open spec fn view(&self) -> DocumentView {
        DocumentView { title: self.title@, url: self.url@, text: self.text@, id: self.id as int }
    }
}

/// A document as three byte ranges of the corpus and an id.
pub struct DocumentRaw {
    pub title: Range<usize>,
    pub url: Range<usize>,
    pub text: Range<usize>,
    pub id: i32,
}

/// The characters that the bytes from `start` up to `end` encode.
pub open spec fn text_between(bytes: Seq<u8>, start: int, end: int) -> Seq<char> {
    decode_utf8(bytes.subrange(start, end))
}

/// Whether the range lies inside `bytes` and begins and ends on character
/// boundaries of it.
pub open spec fn range_fits(bytes: Seq<u8>, range: Range<usize>) -> bool {
    &&& range.start <= range.end <= bytes.len()
    &&& is_char_boundary(bytes, range.start as int)
    &&& is_char_boundary(bytes, range.end as int)
}

/// Whether `text` can be cut at both ends of `range`.
pub fn range_fits_text(text: &str, range: &Range<usize>) -> (fits: bool)
    ensures
        fits == range_fits(text.spec_bytes(), *range),
{
    let len = text.as_bytes().len();
    range.start <= range.end && range.end <= len && text.is_char_boundary(range.start)
        && text.is_char_boundary(range.end)
}

impl Clone for Document {
    fn clone(&self) -> (copy: Document)
        ensures
            copy@ == self@,
    {
        Document {
            title: self.title.clone(),
            url: self.url.clone(),
            text: self.text.clone(),
            id: self.id,
        }
    }
}

impl Clone for DocumentRaw {
    fn clone(&self) -> (copy: DocumentRaw)
        ensures
            copy == *self,
    {
        self.duplicate()
    }
}

impl Default for Document {
    /// A document with empty strings and id 0.
    fn default() -> (document: Document)
        ensures
            document@ == (DocumentView {
                title: Seq::empty(),
                url: Seq::empty(),
                text: Seq::empty(),
                id: 0,
            }),
    {
        Document { title: String::new(), url: String::new(), text: String::new(), id: 0 }
    }
}

impl Default for DocumentRaw {
    /// A record with three empty ranges and id 0.
    fn default() -> (record: DocumentRaw)
        ensures
            record == DocumentRaw::blank(),
    {
        DocumentRaw {
            title: Range { start: 0, end: 0 },
            url: Range { start: 0, end: 0 },
            text: Range { start: 0, end: 0 },
            id: 0,
        }
    }
}

impl DocumentRaw {
    /// The record that `default` gives.
    pub open spec fn blank() -> DocumentRaw {
        DocumentRaw {
            title: Range { start: 0, end: 0 },
            url: Range { start: 0, end: 0 },
            text: Range { start: 0, end: 0 },
            id: 0,
        }
    }

    /// A copy of the record.
    pub fn duplicate(&self) -> (copy: DocumentRaw)
        ensures
            copy == *self,
    {
        DocumentRaw {
            title: Range { start: self.title.start, end: self.title.end },
            url: Range { start: self.url.start, end: self.url.end },
            text: Range { start: self.text.start, end: self.text.end },
            id: self.id,
        }
    }

    /// Whether all three ranges can be cut out of a corpus of these bytes.
    pub open spec fn fits(&self, bytes: Seq<u8>) -> bool {
        &&& range_fits(bytes, self.title)
        &&& range_fits(bytes, self.url)
        &&& range_fits(bytes, self.text)
    }

    /// The document that this record stands for in a corpus of these bytes.
    pub open spec fn materialized(&self, bytes: Seq<u8>) -> DocumentView {
        DocumentView {
            title: text_between(bytes, self.title.start as int, self.title.end as int),
            url: text_between(bytes, self.url.start as int, self.url.end as int),
            text: text_between(bytes, self.text.start as int, self.text.end as int),
            id: self.id as int,
        }
    }

    /// Tells whether the record can be materialized from `full_document`.
    pub fn fits_text(&self, full_document: &str) -> (fits: bool)
        ensures
            fits == self.fits(full_document.spec_bytes()),
    {
        range_fits_text(full_document, &self.title) && range_fits_text(full_document, &self.url)
            && range_fits_text(full_document, &self.text)
    }

    /// Copies title, url and text out of the corpus.
    pub fn to_document(&self, full_document: &str) -> (document: Document)
        requires
            self.fits(full_document.spec_bytes()),
        ensures
            document@ == self.materialized(full_document.spec_bytes()),
    {
        broadcast use vstd::utf8::group_utf8_lib;

        let title = slice_between(full_document, self.title.start, self.title.end);
        let url = slice_between(full_document, self.url.start, self.url.end);
        let text = slice_between(full_document, self.text.start, self.text.end);
        Document { title: title.to_owned(), url: url.to_owned(), text: text.to_owned(), id: self.id }
    }
}

/// The documents that hold one term of a query.
pub struct SearchResults {
    pub term: String,
    pub matches: Vec<Document>,
}

} // verus!
