//! The map/reduce indexer: the corpus is parsed piece by piece into one
//! table, the table is indexed share by share, and the partial indices are
//! merged.
use crate::analyzer::Analyzer;
use crate::documents::{DocumentRaw, SearchResults};
use crate::codec::{encode_documents, encode_entries};
use crate::index::{fill, InvertedIndex, Postings};
use crate::indexers::{check_parts, load_parts, DocumentIndexer, IndexerView, SerializedIndex};
use crate::indexing::{index_all_docs, lemma_postings_in_table, postings_of};
use crate::search::search_in;
use crate::table::parse_corpus;
use vstd::prelude::*;
use vstd::string::StringSliceAdditionalSpecFns;
use vstd::utf8::*;

verus! {

/// `num_cpus::get`.
///
/// Trusted: the number of logical cores that the call reports is at least 1.
#[verifier::external_body]
fn available_cpus() -> (n: usize)
    ensures
        n >= 1,
{
    num_cpus::get()
}

/// An indexer that parses and indexes in as many pieces as the machine has
/// logical cores.
pub struct RayonIndexer {
    index: InvertedIndex,
    documents: Vec<DocumentRaw>,
    full_contents: String,
    analyzer: Analyzer,
}

impl View for RayonIndexer {
    type V = IndexerView;

    closed spec fn view(&self) -> IndexerView {
        IndexerView {
            postings: self.index@,
            table: self.documents@,
            corpus: encode_utf8(self.full_contents@),
        }
    }
}

impl RayonIndexer {
    /// Whether the index is in order and fits table and corpus.
    pub closed spec fn well_formed(&self) -> bool {
        self.index.wf() && self@.consistent()
    }

    /// An indexer without corpus, documents or terms.
    pub fn new() -> (indexer: RayonIndexer)
        ensures
            indexer.well_formed(),
            indexer@.table.len() == 0,
            indexer@.postings == Map::<Seq<char>, Set<i32>>::empty(),
            indexer@.corpus.len() == 0,
    {
        let indexer = RayonIndexer {
            index: InvertedIndex::new(),
            documents: Vec::new(),
            full_contents: String::new(),
            analyzer: Analyzer::new_english(),
        };
        proof {
            encode_utf8_valid_utf8(indexer.full_contents@);
        }
        indexer
    }

    /// An indexer of parts that were built elsewhere, if they belong
    /// together.
    pub fn from_parts(index: InvertedIndex, documents: Vec<DocumentRaw>, full_contents: String) -> (indexer:
        Option<RayonIndexer>)
        requires
            index.wf(),
        ensures
            match indexer {
                Some(made) => {
                    &&& made.well_formed()
                    &&& made@.postings == index@
                    &&& made@.table == documents@
                    &&& made@.corpus == encode_utf8(full_contents@)
                },
                None => !(IndexerView {
                    postings: index@,
                    table: documents@,
                    corpus: encode_utf8(full_contents@),
                }).consistent(),
            },
    {
        if check_parts(&index.entries(), &documents, full_contents.as_str()) {
            Some(
                RayonIndexer { index, documents, full_contents, analyzer: Analyzer::new_english() },
            )
        } else {
            None
        }
    }

    /// Builds table and index from the text of a corpus, parsed and indexed
    /// in `num_threads` pieces.
    pub fn build_with(&mut self, file_contents: String, num_threads: usize)
        requires
            num_threads > 0,
        ensures
            final(self).well_formed(),
            final(self)@.built_from(encode_utf8(file_contents@), num_threads as int),
    {
        let contents = file_contents.as_str();
        let documents = parse_corpus(contents, num_threads);
        let index = index_all_docs(contents, &documents, num_threads, &self.analyzer);
        proof {
            lemma_postings_in_table(documents@, contents.spec_bytes());
            encode_utf8_valid_utf8(file_contents@);
        }
        self.documents = documents;
        self.index = index;
        self.full_contents = file_contents;
    }
}

impl DocumentIndexer for RayonIndexer {
    open spec fn state(&self) -> IndexerView {
        self@
    }

    open spec fn wf(&self) -> bool {
        self.well_formed()
    }

    open spec fn pieces(&self) -> Option<int> {
        None
    }

    proof fn lemma_consistent(&self) {
    }

    fn build_from_file_contents(&mut self, file_contents: String) {
        let num_threads = available_cpus();
        let ghost corpus = encode_utf8(file_contents@);
        self.build_with(file_contents, num_threads);
        assert(self.state().built_from(corpus, num_threads as int));
    }

    fn build_from_serialized(&mut self, serialized_data: SerializedIndex) -> (loaded: bool) {
        match load_parts(&serialized_data) {
            Some((entries, table)) => {
                let mut index = InvertedIndex::new();
                fill(&mut index, entries);
                self.index = index;
                self.documents = table;
                self.full_contents = serialized_data.file_contents;
                true
            },
            None => false,
        }
    }

    fn get_serialized_inverted_index(&self) -> (bytes: Vec<u8>) {
        encode_entries(&self.index.entries())
    }

    fn get_serialized_documents(&self) -> (bytes: Vec<u8>) {
        encode_documents(&self.documents)
    }

    fn search(&self, all_terms: Vec<&str>) -> (results: Vec<SearchResults>) {
        search_in(
            &self.index,
            &self.documents,
            self.full_contents.as_str(),
            &self.analyzer,
            &all_terms,
        )
    }

    fn num_tokens(&self) -> (n: usize) {
        self.index.len()
    }

    fn num_documents(&self) -> (n: usize) {
        self.documents.len()
    }
}

} // verus!
