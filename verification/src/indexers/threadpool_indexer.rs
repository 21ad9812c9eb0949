//! The pipeline indexer: parsers cut the documents of their pieces into
//! batches, indexers take the batches in turn, and what the indexers hold
//! becomes one index, either by merging their partial indices or because
//! they all fill one shared map.
use crate::analyzer::Analyzer;
use crate::chunker::ContentsSplit;
use crate::codec::{encode_documents, encode_entries};
use crate::documents::{DocumentRaw, SearchResults};
use crate::index::{fill, InvertedIndex, Postings};
use crate::indexers::{check_parts, load_parts, DocumentIndexer, IndexerView, SerializedIndex};
use crate::indexing::{lemma_postings_in_table, lemma_postings_merged, postings_of};
use crate::index::{lemma_merged_with_empty, merged};
use crate::pipeline::{
    batches_fit, dashmap_index_task, index_task, index_views, joined_batches, lemma_merged_all_empty,
    lemma_merged_into_one, merged_all, parse_documents, reduce_indices,
};
use crate::search::search_in;
use crate::shared::SharedIndex;
use crate::table::{
    all_fit, corpus_pieces, ids_are_places, is_piece, piece_views, split_corpus, table_of,
};
use vstd::prelude::*;
use vstd::string::StringSliceAdditionalSpecFns;
use vstd::utf8::*;

verus! {

/// The index of a pipeline indexer: one that is merged from the partial
/// indices of the indexers, or one that all indexers fill.
pub enum IndexType {
    SingleThread(InvertedIndex),
    MultiThread(SharedIndex),
}

impl IndexType {
    /// The terms, each with its set of ids.
    pub open spec fn terms(&self) -> Map<Seq<char>, Set<i32>> {
        match self {
            IndexType::SingleThread(index) => index@,
            IndexType::MultiThread(index) => index@,
        }
    }

    /// Whether the index is in order.
    pub open spec fn sound(&self) -> bool {
        match self {
            IndexType::SingleThread(index) => index.wf(),
            IndexType::MultiThread(_) => true,
        }
    }
}

/// What each indexer holds after the batches are dealt, as maps.
pub open spec fn partial_views(taken: Seq<Vec<Vec<DocumentRaw>>>, bytes: Seq<u8>) -> Seq<
    Map<Seq<char>, Set<i32>>,
> {
    Seq::new(taken.len(), |w: int| postings_of(joined_batches(taken[w]@), bytes))
}

/// An indexer that parses in `parse_threads` pieces and indexes with
/// `index_threads` indexers.
pub struct ThreadPoolIndexer {
    index: IndexType,
    documents: Vec<DocumentRaw>,
    analyzer: Analyzer,
    parse_threads: usize,
    index_threads: usize,
    full_contents: String,
}

impl View for ThreadPoolIndexer {
    type V = IndexerView;

    closed spec fn view(&self) -> IndexerView {
        IndexerView {
            postings: self.index.terms(),
            table: self.documents@,
            corpus: encode_utf8(self.full_contents@),
        }
    }
}

impl ThreadPoolIndexer {
    /// Whether the index is in order and fits table and corpus, and there
    /// is at least one parser and one indexer.
    pub closed spec fn well_formed(&self) -> bool {
        &&& self.index.sound()
        &&& self@.consistent()
        &&& self.parse_threads >= 1
        &&& self.index_threads >= 1
    }

    /// The number of parsers.
    pub closed spec fn parsers(&self) -> int {
        self.parse_threads as int
    }

    /// Whether all indexers fill one shared map.
    pub closed spec fn shares_map(&self) -> bool {
        self.index is MultiThread
    }

    /// An empty indexer whose indexers each build a partial index.
    pub fn new_hashmap(parse_threads: usize, index_threads: usize) -> (indexer: ThreadPoolIndexer)
        requires
            parse_threads >= 1,
            index_threads >= 1,
        ensures
            indexer.well_formed(),
            indexer.parsers() == parse_threads,
            !indexer.shares_map(),
            indexer@.table.len() == 0,
            indexer@.postings == Map::<Seq<char>, Set<i32>>::empty(),
            indexer@.corpus.len() == 0,
    {
        let indexer = ThreadPoolIndexer {
            index: IndexType::SingleThread(InvertedIndex::new()),
            documents: Vec::new(),
            analyzer: Analyzer::new_english(),
            parse_threads,
            index_threads,
            full_contents: String::new(),
        };
        proof {
            encode_utf8_valid_utf8(indexer.full_contents@);
        }
        indexer
    }

    /// An empty indexer whose indexers all fill one shared map.
    pub fn new_dashmap(parse_threads: usize, index_threads: usize) -> (indexer: ThreadPoolIndexer)
        requires
            parse_threads >= 1,
            index_threads >= 1,
        ensures
            indexer.well_formed(),
            indexer.parsers() == parse_threads,
            indexer.shares_map(),
            indexer@.table.len() == 0,
            indexer@.postings == Map::<Seq<char>, Set<i32>>::empty(),
            indexer@.corpus.len() == 0,
    {
        let indexer = ThreadPoolIndexer {
            index: IndexType::MultiThread(SharedIndex::new()),
            documents: Vec::new(),
            analyzer: Analyzer::new_english(),
            parse_threads,
            index_threads,
            full_contents: String::new(),
        };
        proof {
            encode_utf8_valid_utf8(indexer.full_contents@);
        }
        indexer
    }

    /// An indexer of parts that were built elsewhere, if they belong
    /// together.
    pub fn from_parts(
        index: IndexType,
        documents: Vec<DocumentRaw>,
        full_contents: String,
        parse_threads: usize,
        index_threads: usize,
    ) -> (indexer: Option<ThreadPoolIndexer>)
        requires
            index.sound(),
            parse_threads >= 1,
            index_threads >= 1,
        ensures
            match indexer {
                Some(made) => {
                    &&& made.well_formed()
                    &&& made.parsers() == parse_threads
                    &&& made.shares_map() == (index is MultiThread)
                    &&& made@.postings == index.terms()
                    &&& made@.table == documents@
                    &&& made@.corpus == encode_utf8(full_contents@)
                },
                None => !(IndexerView {
                    postings: index.terms(),
                    table: documents@,
                    corpus: encode_utf8(full_contents@),
                }).consistent(),
            },
    {
        let entries = match &index {
            IndexType::SingleThread(held) => held.entries(),
            IndexType::MultiThread(held) => held.entries(),
        };
        if check_parts(&entries, &documents, full_contents.as_str()) {
            Some(
                ThreadPoolIndexer {
                    index,
                    documents,
                    analyzer: Analyzer::new_english(),
                    parse_threads,
                    index_threads,
                    full_contents,
                },
            )
        } else {
            None
        }
    }

    /// The partitioned build: the batches of the parsers go to the indexers
    /// in turn, each indexer builds an index of its own, and these are
    /// merged.
    fn build_hashmap(&self, contents_split: &Vec<ContentsSplit>, full_contents: &str) -> (out: (
        InvertedIndex,
        Vec<DocumentRaw>,
    ))
        requires
            self.index_threads >= 1,
            forall|k: int|
                0 <= k < contents_split@.len() ==> is_piece(
                    #[trigger] contents_split@[k],
                    full_contents.spec_bytes(),
                ),
        ensures
            out.0.wf(),
            out.0@ == postings_of(out.1@, full_contents.spec_bytes()),
            out.1@ == table_of(piece_views(contents_split@)),
            ids_are_places(out.1@),
            all_fit(out.1@, full_contents.spec_bytes()),
    {
        let ghost bytes = full_contents.spec_bytes();
        let (queue, documents) = parse_documents(full_contents, contents_split);
        let ghost all = queue@;
        let workers = self.index_threads;
        let mut taken: Vec<Vec<Vec<DocumentRaw>>> = Vec::new();
        let mut w: usize = 0;
        while w < workers
            invariant
                w <= workers,
                taken@.len() == w,
                forall|i: int| 0 <= i < w ==> (#[trigger] taken@[i])@.len() == 0,
            decreases workers - w,
        {
            taken.push(Vec::new());
            w = w + 1;
        }
        let mut turn: usize = 0;
        proof {
            assert(all.take(0) =~= Seq::<Vec<DocumentRaw>>::empty());
            assert(postings_of(Seq::<DocumentRaw>::empty(), bytes) =~= Map::<
                Seq<char>,
                Set<i32>,
            >::empty());
            assert forall|i: int| 0 <= i < workers implies #[trigger] partial_views(taken@, bytes)[i]
                == Map::<Seq<char>, Set<i32>>::empty() by {
                assert(taken@[i]@.len() == 0);
                assert(joined_batches(taken@[i]@) =~= Seq::<DocumentRaw>::empty());
            }
            lemma_merged_all_empty(partial_views(taken@, bytes));
        }
        for batch in it: queue
            invariant
                it.seq() == all,
                batches_fit(all, bytes),
                taken@.len() == workers,
                turn < workers,
                forall|i: int| 0 <= i < workers ==> batches_fit(#[trigger] taken@[i]@, bytes),
                merged_all(partial_views(taken@, bytes)) == postings_of(
                    joined_batches(all.take(it.index())),
                    bytes,
                ),
        {
            let ghost before = taken@;
            let ghost fed = joined_batches(all.take(it.index()));
            proof {
                assert(all[it.index()] == batch);
                assert(all.take(it.index() + 1).drop_last() =~= all.take(it.index()));
                assert(all.take(it.index() + 1).last() == batch);
            }
            taken[turn].push(batch);
            proof {
                let held = joined_batches(before[turn as int]@);
                assert(taken@[turn as int]@.drop_last() =~= before[turn as int]@);
                assert(taken@[turn as int]@.last() == batch);
                lemma_postings_merged(held, batch@, bytes);
                assert(partial_views(taken@, bytes) =~= partial_views(before, bytes).update(
                    turn as int,
                    merged(partial_views(before, bytes)[turn as int], postings_of(batch@, bytes)),
                ));
                lemma_merged_into_one(
                    partial_views(before, bytes),
                    turn as int,
                    postings_of(batch@, bytes),
                );
                lemma_postings_merged(fed, batch@, bytes);
                assert forall|i: int| 0 <= i < workers implies batches_fit(
                    #[trigger] taken@[i]@,
                    bytes,
                ) by {
                    if i == turn {
                        assert forall|b: int, k: int|
                            0 <= b < taken@[i]@.len() && 0 <= k < taken@[i]@[b]@.len() implies crate::documents::range_fits(
                            bytes,
                            (#[trigger] taken@[i]@[b]@[k]).text,
                        ) by {
                            if b < before[i]@.len() {
                                assert(taken@[i]@[b] == before[i]@[b]);
                            } else {
                                assert(taken@[i]@[b] == all[it.index()]);
                            }
                        }
                    } else {
                        assert(taken@[i] == before[i]);
                    }
                }
            }
            turn = if turn + 1 == workers {
                0
            } else {
                turn + 1
            };
        }
        proof {
            assert(all.take(all.len() as int) =~= all);
        }
        let mut partials: Vec<InvertedIndex> = Vec::new();
        let mut w: usize = 0;
        while w < workers
            invariant
                w <= workers,
                bytes == full_contents.spec_bytes(),
                taken@.len() == workers,
                forall|i: int| 0 <= i < workers ==> batches_fit(#[trigger] taken@[i]@, bytes),
                partials@.len() == w,
                forall|i: int| 0 <= i < w ==> (#[trigger] partials@[i]).wf(),
                forall|i: int|
                    0 <= i < w ==> (#[trigger] partials@[i])@ == partial_views(taken@, bytes)[i],
            decreases workers - w,
        {
            assert(batches_fit(taken@[w as int]@, bytes));
            partials.push(index_task(&taken[w], &self.analyzer, full_contents));
            w = w + 1;
        }
        proof {
            assert(index_views(partials@) =~= partial_views(taken@, bytes));
        }
        (reduce_indices(partials), documents)
    }

    /// The shared build: the batches of the parsers all go into one map.
    fn build_dashmap(&self, contents_split: &Vec<ContentsSplit>, full_contents: &str) -> (out: (
        SharedIndex,
        Vec<DocumentRaw>,
    ))
        requires
            forall|k: int|
                0 <= k < contents_split@.len() ==> is_piece(
                    #[trigger] contents_split@[k],
                    full_contents.spec_bytes(),
                ),
        ensures
            out.0@ == postings_of(out.1@, full_contents.spec_bytes()),
            out.1@ == table_of(piece_views(contents_split@)),
            ids_are_places(out.1@),
            all_fit(out.1@, full_contents.spec_bytes()),
    {
        let (queue, documents) = parse_documents(full_contents, contents_split);
        let mut inverted_index = SharedIndex::new();
        dashmap_index_task(&queue, &mut inverted_index, &self.analyzer, full_contents);
        proof {
            lemma_merged_with_empty(postings_of(documents@, full_contents.spec_bytes()));
        }
        (inverted_index, documents)
    }
}

impl DocumentIndexer for ThreadPoolIndexer {
    open spec fn state(&self) -> IndexerView {
        self@
    }

    open spec fn wf(&self) -> bool {
        self.well_formed()
    }

    open spec fn pieces(&self) -> Option<int> {
        Some(self.parsers())
    }

    proof fn lemma_consistent(&self) {
    }

    fn build_from_file_contents(&mut self, file_contents: String)
        ensures
            final(self).state().built_from(encode_utf8(file_contents@), old(self).parsers()),
            final(self).shares_map() == old(self).shares_map(),
    {
        let contents = file_contents.as_str();
        let contents_split = split_corpus(contents, self.parse_threads);
        let ghost bytes = contents.spec_bytes();
        match &self.index {
            IndexType::SingleThread(_) => {
                let (index, documents) = self.build_hashmap(&contents_split, contents);
                proof {
                    lemma_postings_in_table(documents@, bytes);
                }
                self.index = IndexType::SingleThread(index);
                self.documents = documents;
            },
            IndexType::MultiThread(_) => {
                let (index, documents) = self.build_dashmap(&contents_split, contents);
                proof {
                    lemma_postings_in_table(documents@, bytes);
                }
                self.index = IndexType::MultiThread(index);
                self.documents = documents;
            },
        }
        proof {
            encode_utf8_valid_utf8(file_contents@);
        }
        self.full_contents = file_contents;
        assert(self.state().built_from(bytes, self.parse_threads as int));
    }

    fn build_from_serialized(&mut self, serialized_data: SerializedIndex) -> (loaded: bool)
        ensures
            final(self).shares_map() == old(self).shares_map(),
    {
        match load_parts(&serialized_data) {
            Some((entries, table)) => {
                match &self.index {
                    IndexType::SingleThread(_) => {
                        let mut index = InvertedIndex::new();
                        fill(&mut index, entries);
                        self.index = IndexType::SingleThread(index);
                    },
                    IndexType::MultiThread(_) => {
                        let mut index = SharedIndex::new();
                        fill(&mut index, entries);
                        self.index = IndexType::MultiThread(index);
                    },
                }
                self.documents = table;
                self.full_contents = serialized_data.file_contents;
                true
            },
            None => false,
        }
    }

    fn get_serialized_inverted_index(&self) -> (bytes: Vec<u8>) {
        match &self.index {
            IndexType::SingleThread(index) => encode_entries(&index.entries()),
            IndexType::MultiThread(index) => encode_entries(&index.entries()),
        }
    }

    fn get_serialized_documents(&self) -> (bytes: Vec<u8>) {
        encode_documents(&self.documents)
    }

    fn search(&self, all_terms: Vec<&str>) -> (results: Vec<SearchResults>) {
        match &self.index {
            IndexType::SingleThread(index) => search_in(
                index,
                &self.documents,
                self.full_contents.as_str(),
                &self.analyzer,
                &all_terms,
            ),
            IndexType::MultiThread(index) => search_in(
                index,
                &self.documents,
                self.full_contents.as_str(),
                &self.analyzer,
                &all_terms,
            ),
        }
    }

    fn num_tokens(&self) -> (n: usize) {
        match &self.index {
            IndexType::SingleThread(index) => index.count(),
            IndexType::MultiThread(index) => index.count(),
        }
    }

    fn num_documents(&self) -> (n: usize) {
        self.documents.len()
    }
}

} // verus!
