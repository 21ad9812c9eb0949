//! Indexers: a corpus, its document table and its inverted index, built
//! once and then queried.
pub mod rayon_indexer;
pub mod threadpool_indexer;

pub use crate::indexers::rayon_indexer::RayonIndexer;
pub use crate::indexers::threadpool_indexer::ThreadPoolIndexer;

use crate::codec::{decode_documents, decode_entries, stored_entries, stored_table, table_bytes};
use crate::documents::{DocumentRaw, SearchResults};
use crate::index::{entry_views, lemma_entries_ids, postings_of_entries};
use crate::analyzer::analyzed;
use crate::indexing::{body_of, holds_term, postings_of};
use crate::search::{answers_query, ids_in_table, slices};
use crate::table::{
    all_fit, closed_in, corpus_pieces, corpus_table, ids_are_places, lemma_table_counts,
    lemma_table_ids,
};
use vstd::prelude::*;
use vstd::string::StringSliceAdditionalSpecFns;
use vstd::utf8::*;

verus! {

/// What an indexer holds, as mathematical values.
pub ghost struct IndexerView {
    /// The inverted index.
    pub postings: Map<Seq<char>, Set<i32>>,
    /// The document table.
    pub table: Seq<DocumentRaw>,
    /// The bytes of the corpus.
    pub corpus: Seq<u8>,
}

impl IndexerView {
    /// Whether table and index belong to the corpus: each record stands at
    /// the place of its id and can be materialized, and every id of the
    /// index is a place of the table.
    pub open spec fn consistent(self) -> bool {
        &&& valid_utf8(self.corpus)
        &&& ids_are_places(self.table)
        &&& all_fit(self.table, self.corpus)
        &&& ids_in_table(self.postings, self.table.len())
    }

    /// Whether table and index are those of `corpus`, parsed in
    /// `num_chunks` pieces.
    pub open spec fn built_from(self, corpus: Seq<u8>, num_chunks: int) -> bool {
        &&& self.corpus == corpus
        &&& self.table == corpus_table(corpus, num_chunks)
        &&& self.postings == postings_of(self.table, corpus)
    }
}

/// In an indexer that is built from a corpus, each record stands at the
/// place of its id, and there is one record for each closing tag of a
/// document in the pieces of the corpus, while ids last.
pub proof fn lemma_built_table(state: IndexerView, corpus: Seq<u8>, num_chunks: int)
    requires
        state.built_from(corpus, num_chunks),
    ensures
        forall|d: int| 0 <= d < state.table.len() ==> (#[trigger] state.table[d]).id == d,
        closed_in(corpus_pieces(corpus, num_chunks)) <= i32::MAX ==> state.table.len()
            == closed_in(corpus_pieces(corpus, num_chunks)),
{
    lemma_table_ids(corpus_pieces(corpus, num_chunks));
    if closed_in(corpus_pieces(corpus, num_chunks)) <= i32::MAX {
        lemma_table_counts(corpus_pieces(corpus, num_chunks));
    }
}

/// In an indexer that is built from a corpus, a term has the id of a
/// document exactly when the text of the document yields the term.
pub proof fn lemma_built_index(
    state: IndexerView,
    corpus: Seq<u8>,
    num_chunks: int,
    term: Seq<char>,
    d: int,
)
    requires
        state.built_from(corpus, num_chunks),
        0 <= d < state.table.len(),
    ensures
        (state.postings.contains_key(term) && state.postings[term].contains(d as i32))
            <==> analyzed(body_of(state.table[d], corpus)).contains(term),
{
    lemma_table_ids(corpus_pieces(corpus, num_chunks));
    if state.postings.contains_key(term) && state.postings[term].contains(d as i32) {
        let k = choose|k: int|
            0 <= k < state.table.len() && (#[trigger] state.table[k]).id == d as i32
                && holds_term(state.table[k], corpus, term);
        assert(k == d);
    }
    if holds_term(state.table[d], corpus, term) {
        assert(state.table[d].id == d);
    }
}

/// Two indexers that are built from the same corpus, parsed in the same
/// number of pieces, hold the same table and the same index, whichever way
/// each of them is built.
pub proof fn lemma_builds_agree(a: IndexerView, b: IndexerView, corpus: Seq<u8>, num_chunks: int)
    requires
        a.built_from(corpus, num_chunks),
        b.built_from(corpus, num_chunks),
    ensures
        a == b,
        a.postings.dom() == b.postings.dom(),
        forall|term: Seq<char>| a.postings.contains_key(term) ==> a.postings[term] == b.postings[term],
{
}

/// The stored form of an indexer: the corpus, and table and index as bytes.
pub struct SerializedIndex {
    pub inverted_index: Vec<u8>,
    pub documents: Vec<u8>,
    pub file_contents: String,
}

/// What an indexer holds after it has loaded these artifacts: the entries
/// and the table that they are the stored form of, with the corpus; none
/// where one of them is no stored form or they do not belong together.
pub open spec fn stored_state(index: Seq<u8>, table: Seq<u8>, corpus: Seq<u8>) -> Option<
    IndexerView,
> {
    match (stored_entries(index), stored_table(table)) {
        (Some(entries), Some(records)) => {
            let state = IndexerView {
                postings: postings_of_entries(entries),
                table: records,
                corpus,
            };
            if state.consistent() {
                Some(state)
            } else {
                None
            }
        },
        _ => None,
    }
}

/// What was stored of a consistent indexer loads, and gives what the
/// indexer held. So an indexer that is built, stored and loaded answers
/// every query as the one that was built.
pub proof fn lemma_stored_state_loads(state: IndexerView, index: Seq<u8>, table: Seq<u8>)
    requires
        state.consistent(),
        stored_table(table) == Some(state.table),
        stored_entries(index) matches Some(entries) && postings_of_entries(entries)
            == state.postings,
    ensures
        stored_state(index, table, state.corpus) == Some(state),
{
}

/// Whether every id of every entry is a place of a table of `count`
/// records.
pub open spec fn entries_in_table(entries: Seq<(Seq<char>, Seq<i32>)>, count: nat) -> bool {
    forall|k: int, j: int|
        0 <= k < entries.len() && 0 <= j < entries[k].1.len() ==> 0 <= #[trigger] entries[k].1[j]
            < count
}

/// The ids of entries are places of a table exactly when the ids of the
/// map of the entries are.
pub proof fn lemma_entries_in_table(entries: Seq<(Seq<char>, Seq<i32>)>, count: nat)
    ensures
        entries_in_table(entries, count) <==> ids_in_table(postings_of_entries(entries), count),
{
    let map = postings_of_entries(entries);
    if entries_in_table(entries, count) {
        assert forall|term: Seq<char>, id: i32|
            map.contains_key(term) && #[trigger] map[term].contains(id) implies 0 <= id
            < count by {
            lemma_entries_ids(entries, term, id);
            let k = choose|k: int|
                0 <= k < entries.len() && (#[trigger] entries[k]).0 == term
                    && entries[k].1.contains(id);
            let j = choose|j: int| 0 <= j < entries[k].1.len() && entries[k].1[j] == id;
            assert(0 <= entries[k].1[j] < count);
        }
    }
    if ids_in_table(map, count) {
        assert forall|k: int, j: int|
            0 <= k < entries.len() && 0 <= j < entries[k].1.len() implies 0
            <= #[trigger] entries[k].1[j] < count by {
            let id = entries[k].1[j];
            assert(entries[k].1.contains(id));
            lemma_entries_ids(entries, entries[k].0, id);
            assert(map[entries[k].0].contains(id));
        }
    }
}

/// Tells whether each record stands at the place of its id.
fn check_places(table: &Vec<DocumentRaw>) -> (ok: bool)
    ensures
        ok == ids_are_places(table@),
{
    if table.len() > i32::MAX as usize {
        return false;
    }
    let mut k: usize = 0;
    while k < table.len()
        invariant
            k <= table@.len(),
            table@.len() <= i32::MAX,
            forall|j: int| 0 <= j < k ==> (#[trigger] table@[j]).id == j,
        decreases table@.len() - k,
    {
        if table[k].id != k as i32 {
            return false;
        }
        k = k + 1;
    }
    true
}

/// Tells whether each record can be materialized from the corpus.
fn check_fit(table: &Vec<DocumentRaw>, contents: &str) -> (ok: bool)
    ensures
        ok == all_fit(table@, contents.spec_bytes()),
{
    let mut k: usize = 0;
    while k < table.len()
        invariant
            k <= table@.len(),
            forall|j: int| 0 <= j < k ==> (#[trigger] table@[j]).fits(contents.spec_bytes()),
        decreases table@.len() - k,
    {
        if !table[k].fits_text(contents) {
            return false;
        }
        k = k + 1;
    }
    true
}

/// Tells whether every id of every entry is a place of a table of `count`
/// records.
fn check_entries(entries: &Vec<(String, Vec<i32>)>, count: usize) -> (ok: bool)
    ensures
        ok == entries_in_table(entry_views(entries@), count as nat),
{
    let ghost views = entry_views(entries@);
    let mut k: usize = 0;
    while k < entries.len()
        invariant
            k <= entries@.len(),
            views == entry_views(entries@),
            forall|i: int, j: int|
                0 <= i < k && 0 <= j < views[i].1.len() ==> 0 <= #[trigger] views[i].1[j] < count,
        decreases entries@.len() - k,
    {
        let ids = &entries[k].1;
        let mut j: usize = 0;
        while j < ids.len()
            invariant
                j <= ids@.len(),
                k < entries@.len(),
                views == entry_views(entries@),
                ids@ == views[k as int].1,
                forall|i: int| 0 <= i < j ==> 0 <= #[trigger] ids@[i] < count,
            decreases ids@.len() - j,
        {
            let id = ids[j];
            if id < 0 || id as usize >= count {
                assert(!(0 <= views[k as int].1[j as int] < count));
                return false;
            }
            j = j + 1;
        }
        k = k + 1;
    }
    true
}

/// Tells whether a table and the entries of an index belong to a corpus.
pub fn check_parts(
    entries: &Vec<(String, Vec<i32>)>,
    table: &Vec<DocumentRaw>,
    contents: &str,
) -> (ok: bool)
    ensures
        ok == (IndexerView {
            postings: postings_of_entries(entry_views(entries@)),
            table: table@,
            corpus: contents.spec_bytes(),
        }).consistent(),
{
    proof {
        encode_utf8_valid_utf8(contents@);
        lemma_entries_in_table(entry_views(entries@), table@.len());
    }
    check_places(table) && check_fit(table, contents) && check_entries(entries, table.len())
}

/// Reads entries and table from their stored form and checks that they
/// belong to the corpus.
pub fn load_parts(serialized_data: &SerializedIndex) -> (parts: Option<
    (Vec<(String, Vec<i32>)>, Vec<DocumentRaw>),
>)
    ensures
        match parts {
            Some((entries, table)) => stored_state(
                serialized_data.inverted_index@,
                serialized_data.documents@,
                encode_utf8(serialized_data.file_contents@),
            ) == Some(
                IndexerView {
                    postings: postings_of_entries(entry_views(entries@)),
                    table: table@,
                    corpus: encode_utf8(serialized_data.file_contents@),
                },
            ),
            None => stored_state(
                serialized_data.inverted_index@,
                serialized_data.documents@,
                encode_utf8(serialized_data.file_contents@),
            ).is_none(),
        },
{
    let contents = serialized_data.file_contents.as_str();
    proof {
        encode_utf8_valid_utf8(serialized_data.file_contents@);
    }
    let entries = match decode_entries(serialized_data.inverted_index.as_slice()) {
        Some(entries) => entries,
        None => {
            return None;
        },
    };
    let table = match decode_documents(serialized_data.documents.as_slice()) {
        Some(table) => table,
        None => {
            return None;
        },
    };
    if check_parts(&entries, &table, contents) {
        Some((entries, table))
    } else {
        None
    }
}

/// The operations of an indexer, whatever way it is built.
pub trait DocumentIndexer {
    /// What the indexer holds.
    spec fn state(&self) -> IndexerView;

    /// Whether the indexer is in order.
    spec fn wf(&self) -> bool;

    /// The number of pieces in which the indexer parses a corpus, where that
    /// is fixed before the build.
    spec fn pieces(&self) -> Option<int>;

    /// In an indexer that is in order, table and index belong to the
    /// corpus.
    proof fn lemma_consistent(&self)
        requires
            self.wf(),
        ensures
            self.state().consistent(),
    ;

    /// Builds table and index from the text of a corpus.
    fn build_from_file_contents(&mut self, file_contents: String)
        requires
            old(self).wf(),
        ensures
            final(self).wf(),
            final(self).pieces() == old(self).pieces(),
            exists|num_chunks: int|
                1 <= num_chunks && (old(self).pieces() matches Some(n) ==> n == num_chunks)
                    && #[trigger] final(self).state().built_from(
                    encode_utf8(file_contents@),
                    num_chunks,
                ),
    ;

    /// Takes table and index from their stored form, if that is in order;
    /// else the indexer stays as it is. Tells whether it took them.
    fn build_from_serialized(&mut self, serialized_data: SerializedIndex) -> (loaded: bool)
        requires
            old(self).wf(),
        ensures
            final(self).wf(),
            final(self).pieces() == old(self).pieces(),
            loaded == stored_state(
                serialized_data.inverted_index@,
                serialized_data.documents@,
                encode_utf8(serialized_data.file_contents@),
            ).is_some(),
            loaded ==> Some(final(self).state()) == stored_state(
                serialized_data.inverted_index@,
                serialized_data.documents@,
                encode_utf8(serialized_data.file_contents@),
            ),
            !loaded ==> final(self).state() == old(self).state(),
    ;

    /// The stored form of the index.
    fn get_serialized_inverted_index(&self) -> (bytes: Vec<u8>)
        requires
            self.wf(),
        ensures
            stored_entries(bytes@) matches Some(entries) && postings_of_entries(entries)
                == self.state().postings,
    ;

    /// The stored form of the document table.
    fn get_serialized_documents(&self) -> (bytes: Vec<u8>)
        requires
            self.wf(),
        ensures
            bytes@ == table_bytes(self.state().table),
            stored_table(bytes@) == Some(self.state().table),
    ;

    /// Answers a query.
    fn search(&self, all_terms: Vec<&str>) -> (results: Vec<SearchResults>)
        requires
            self.wf(),
        ensures
            answers_query(
                results@,
                slices(all_terms@),
                self.state().postings,
                self.state().table,
                self.state().corpus,
            ),
    ;

    /// The number of terms in the index.
    fn num_tokens(&self) -> (n: usize)
        requires
            self.wf(),
        ensures
            n == self.state().postings.dom().len(),
    ;

    /// The number of documents in the table.
    fn num_documents(&self) -> (n: usize)
        requires
            self.wf(),
        ensures
            n == self.state().table.len(),
    ;
}

} // verus!
