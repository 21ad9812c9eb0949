//! The document table: the records of a corpus, each at the place of its id.
use crate::chunker::{
    lemma_split_partitions_input, pieces_in_order, split_bounds, split_contents, ContentsSplit,
};
use crate::documents::{text_between, DocumentRaw};
use crate::parser::{
    closed_documents, documents_of, lemma_documents_counted, lemma_documents_numbered,
    lemma_documents_renumbered, lemma_piece_record_fits, parse_documents_vec, xml_events,
    DocumentParser,
};
use vstd::prelude::*;
use vstd::string::StringSliceAdditionalSpecFns;
use vstd::utf8::*;

verus! {

/// Whether `chunk` is the part of a corpus of these bytes that begins at
/// its base offset, cut at character boundaries.
pub open spec fn is_piece(chunk: ContentsSplit, bytes: Seq<u8>) -> bool {
    let end = chunk.base_offset + chunk.data.spec_bytes().len();
    &&& end <= bytes.len()
    &&& chunk.data.spec_bytes() == bytes.subrange(chunk.base_offset as int, end)
    &&& is_char_boundary(bytes, chunk.base_offset as int)
    &&& is_char_boundary(bytes, end)
}

/// The id that the next document gets in a table of `count` documents. It
/// stays at the largest id once the ids have run out.
pub open spec fn next_free_id(count: nat) -> i32 {
    if count <= i32::MAX {
        count as i32
    } else {
        i32::MAX
    }
}

/// The documents of one piece, given as its base offset and its text,
/// numbered from `first_id` on.
pub open spec fn piece_documents(piece: (usize, Seq<char>), first_id: i32) -> Seq<DocumentRaw> {
    documents_of(xml_events(piece.1), DocumentParser::start(piece.0, first_id))
}

/// The documents of the pieces, in the order of the pieces, each numbered
/// by its place.
pub open spec fn table_of(pieces: Seq<(usize, Seq<char>)>) -> Seq<DocumentRaw>
    decreases pieces.len(),
{
    if pieces.len() == 0 {
        Seq::empty()
    } else {
        let before = table_of(pieces.drop_last());
        before + piece_documents(pieces.last(), next_free_id(before.len()))
    }
}

/// Each piece as its base offset and its text.
pub open spec fn piece_views(chunks: Seq<ContentsSplit>) -> Seq<(usize, Seq<char>)> {
    Seq::new(chunks.len(), |k: int| (chunks[k].base_offset, chunks[k].data@))
}

/// The pieces into which a corpus of these bytes is split for `num_chunks`
/// workers, at the ends of documents.
pub open spec fn corpus_pieces(bytes: Seq<u8>, num_chunks: int) -> Seq<(usize, Seq<char>)> {
    let bounds = split_bounds(bytes, document_end(), num_chunks);
    Seq::new(
        bounds.len(),
        |k: int| (bounds[k].0 as usize, text_between(bytes, bounds[k].0, bounds[k].1)),
    )
}

/// The bytes of the tag that ends a document.
pub open spec fn document_end() -> Seq<u8> {
    encode_utf8("</doc>"@)
}

/// The document table of a corpus that is parsed in `num_chunks` pieces.
pub open spec fn corpus_table(bytes: Seq<u8>, num_chunks: int) -> Seq<DocumentRaw> {
    table_of(corpus_pieces(bytes, num_chunks))
}

/// Whether each record stands at the place of its id.
pub open spec fn ids_are_places(table: Seq<DocumentRaw>) -> bool {
    &&& table.len() <= i32::MAX
    &&& forall|k: int| 0 <= k < table.len() ==> (#[trigger] table[k]).id == k
}

/// Whether each record can be materialized from a corpus of these bytes.
pub open spec fn all_fit(table: Seq<DocumentRaw>, bytes: Seq<u8>) -> bool {
    forall|k: int| 0 <= k < table.len() ==> (#[trigger] table[k]).fits(bytes)
}

/// In the table of any pieces, each record stands at the place of its id.
pub proof fn lemma_table_ids(pieces: Seq<(usize, Seq<char>)>)
    ensures
        ids_are_places(table_of(pieces)),
    decreases pieces.len(),
{
    if pieces.len() > 0 {
        let before = table_of(pieces.drop_last());
        lemma_table_ids(pieces.drop_last());
        let first = next_free_id(before.len());
        lemma_documents_numbered(
            xml_events(pieces.last().1),
            DocumentParser::start(pieces.last().0, first),
        );
    }
}

/// How many closing tags of documents the pieces hold.
pub open spec fn closed_in(pieces: Seq<(usize, Seq<char>)>) -> nat
    decreases pieces.len(),
{
    if pieces.len() == 0 {
        0
    } else {
        closed_in(pieces.drop_last()) + closed_documents(xml_events(pieces.last().1))
    }
}

/// While ids last, the table has one record for each closing tag of a
/// document in the pieces.
pub proof fn lemma_table_counts(pieces: Seq<(usize, Seq<char>)>)
    requires
        closed_in(pieces) <= i32::MAX,
    ensures
        table_of(pieces).len() == closed_in(pieces),
    decreases pieces.len(),
{
    if pieces.len() > 0 {
        let before = table_of(pieces.drop_last());
        lemma_table_counts(pieces.drop_last());
        lemma_documents_counted(
            xml_events(pieces.last().1),
            DocumentParser::start(pieces.last().0, next_free_id(before.len())),
        );
    }
}

/// The documents of the pieces, one piece behind the other, each piece
/// numbered from 0 on as a parser numbers them that knows no other piece.
pub open spec fn pieces_alone(pieces: Seq<(usize, Seq<char>)>) -> Seq<DocumentRaw>
    decreases pieces.len(),
{
    if pieces.len() == 0 {
        Seq::empty()
    } else {
        pieces_alone(pieces.drop_last()) + piece_documents(pieces.last(), 0)
    }
}

/// While ids last, the table is what parsers that each know their own
/// piece alone yield, with each record numbered by its place. So pieces
/// can be parsed at the same time and numbered afterwards.
pub proof fn lemma_table_of_pieces_alone(pieces: Seq<(usize, Seq<char>)>)
    requires
        closed_in(pieces) <= i32::MAX,
    ensures
        table_of(pieces).len() == pieces_alone(pieces).len(),
        forall|k: int|
            0 <= k < table_of(pieces).len() ==> #[trigger] table_of(pieces)[k] == (DocumentRaw {
                id: k as i32,
                ..pieces_alone(pieces)[k]
            }),
    decreases pieces.len(),
{
    if pieces.len() > 0 {
        let front = pieces.drop_last();
        let before = table_of(front);
        let last = pieces.last();
        let events = xml_events(last.1);
        lemma_table_of_pieces_alone(front);
        lemma_table_counts(front);
        lemma_table_ids(pieces);
        let numbered = DocumentParser::start(last.0, next_free_id(before.len()));
        let alone = DocumentParser::start(last.0, 0);
        lemma_documents_renumbered(events, numbered, alone);
        assert forall|k: int| 0 <= k < table_of(pieces).len() implies #[trigger] table_of(
            pieces,
        )[k] == (DocumentRaw { id: k as i32, ..pieces_alone(pieces)[k] }) by {
            if k >= before.len() {
                let j = k - before.len();
                assert(table_of(pieces)[k] == documents_of(events, numbered)[j]);
                assert(pieces_alone(pieces)[k] == documents_of(events, alone)[j]);
            } else {
                assert(table_of(pieces)[k] == before[k]);
                assert(pieces_alone(pieces)[k] == pieces_alone(front)[k]);
            }
        }
    }
}

/// Parses the pieces of a corpus, one after the other, into one table.
pub fn collect_documents(contents: &str, chunks: &Vec<ContentsSplit>) -> (table: Vec<DocumentRaw>)
    requires
        forall|k: int| 0 <= k < chunks@.len() ==> is_piece(#[trigger] chunks@[k], contents.spec_bytes()),
    ensures
        table@ == table_of(piece_views(chunks@)),
        ids_are_places(table@),
        all_fit(table@, contents.spec_bytes()),
{
    let ghost bytes = contents.spec_bytes();
    let ghost pieces = piece_views(chunks@);
    let mut table: Vec<DocumentRaw> = Vec::new();
    let mut k: usize = 0;
    let total = contents.as_bytes().len();
    proof {
        assert(pieces.take(0) =~= Seq::<(usize, Seq<char>)>::empty());
    }
    while k < chunks.len()
        invariant
            k <= chunks@.len(),
            total == bytes.len(),
            bytes == contents.spec_bytes(),
            forall|k: int| 0 <= k < chunks@.len() ==> is_piece(#[trigger] chunks@[k], bytes),
            pieces == piece_views(chunks@),
            table@ == table_of(pieces.take(k as int)),
            all_fit(table@, bytes),
        decreases chunks@.len() - k,
    {
        let chunk = &chunks[k];
        proof {
            assert(is_piece(chunks@[k as int], bytes));
            lemma_table_ids(pieces.take(k as int));
        }
        let first_id: i32 = if table.len() <= i32::MAX as usize {
            table.len() as i32
        } else {
            i32::MAX
        };
        let mut found = parse_documents_vec(chunk, first_id);
        proof {
            assert(pieces.take(k + 1).drop_last() =~= pieces.take(k as int));
            assert(pieces.take(k + 1).last() == (chunk.base_offset, chunk.data@));
            assert forall|j: int| 0 <= j < found@.len() implies (#[trigger] found@[j]).fits(
                bytes,
            ) by {
                encode_utf8_valid_utf8(contents@);
                lemma_piece_record_fits(
                    found@[j],
                    chunk.base_offset as int,
                    chunk.data.spec_bytes(),
                    bytes,
                );
            }
        }
        table.append(&mut found);
        k = k + 1;
    }
    proof {
        assert(pieces.take(chunks@.len() as int) =~= pieces);
        lemma_table_ids(pieces);
    }
    table
}

/// Gives each record the id of its place. Records for which no id is left
/// are dropped.
pub fn number_by_place(table: &mut Vec<DocumentRaw>)
    ensures
        ids_are_places(final(table)@),
        final(table)@.len() == if old(table)@.len() <= i32::MAX {
            old(table)@.len()
        } else {
            i32::MAX as nat
        },
        forall|k: int|
            0 <= k < final(table)@.len() ==> #[trigger] final(table)@[k] == (DocumentRaw {
                id: k as i32,
                ..old(table)@[k]
            }),
{
    let ghost before = table@;
    if table.len() > i32::MAX as usize {
        table.truncate(i32::MAX as usize);
    }
    let ghost cut = table@;
    let mut k: usize = 0;
    while k < table.len()
        invariant
            k <= table@.len(),
            table@.len() == cut.len(),
            cut.len() <= i32::MAX,
            forall|j: int| 0 <= j < k ==> #[trigger] table@[j] == (DocumentRaw {
                id: j as i32,
                ..cut[j]
            }),
            forall|j: int| k <= j < table@.len() ==> #[trigger] table@[j] == cut[j],
        decreases table@.len() - k,
    {
        table[k].id = k as i32;
        k = k + 1;
    }
}

/// Splits a corpus for `num_chunks` workers at the ends of documents.
pub fn split_corpus<'a>(contents: &'a str, num_chunks: usize) -> (chunks: Vec<ContentsSplit<'a>>)
    requires
        num_chunks > 0,
    ensures
        forall|k: int| 0 <= k < chunks@.len() ==> is_piece(#[trigger] chunks@[k], contents.spec_bytes()),
        piece_views(chunks@) == corpus_pieces(contents.spec_bytes(), num_chunks as int),
{
    let chunks = split_contents(contents, "</doc>", num_chunks);
    proof {
        let bytes = contents.spec_bytes();
        let bounds = split_bounds(bytes, document_end(), num_chunks as int);
        encode_utf8_valid_utf8(contents@);
        encode_utf8_valid_utf8("</doc>"@);
        lemma_split_partitions_input(bytes, document_end(), num_chunks as int);
        assert forall|k: int| 0 <= k < chunks@.len() implies is_piece(
            #[trigger] chunks@[k],
            bytes,
        ) by {
            let bound = bounds[k];
            assert(chunks@[k].data.spec_bytes().len() == bound.1 - bound.0);
        }
        assert forall|k: int| 0 <= k < chunks@.len() implies piece_views(chunks@)[k]
            == corpus_pieces(bytes, num_chunks as int)[k] by {
            let bound = bounds[k];
            encode_utf8_decode_utf8(chunks@[k].data@);
        }
        assert(piece_views(chunks@) =~= corpus_pieces(bytes, num_chunks as int));
    }
    chunks
}

/// Splits a corpus for `num_chunks` workers at the ends of documents and
/// parses the pieces, one after the other, into one table.
pub fn parse_corpus(contents: &str, num_chunks: usize) -> (table: Vec<DocumentRaw>)
    requires
        num_chunks > 0,
    ensures
        table@ == corpus_table(contents.spec_bytes(), num_chunks as int),
        ids_are_places(table@),
        all_fit(table@, contents.spec_bytes()),
{
    let chunks = split_corpus(contents, num_chunks);
    collect_documents(contents, &chunks)
}

} // verus!
