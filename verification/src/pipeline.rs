//! The steps of the pipelined build: parsers hand out their documents in
//! batches, indexers take batches in turn, and partial indices are merged.
use crate::chunker::ContentsSplit;
use crate::documents::DocumentRaw;
use crate::analyzer::Analyzer;
use crate::documents::range_fits;
use crate::index::{
    lemma_merged_associates, lemma_merged_commutes, lemma_merged_with_empty, merged, InvertedIndex,
    Postings,
};
use crate::indexing::{add_documents, lemma_postings_merged, postings_of};
use crate::shared::SharedIndex;
use crate::parser::{
    documents_of, lemma_piece_record_fits, parse_documents_vec, record_in_piece, xml_events,
    DocumentParser,
};
use crate::table::{
    all_fit, ids_are_places, is_piece, lemma_table_ids, piece_views, table_of,
};
use vstd::utf8::*;
use vstd::prelude::*;
use vstd::string::StringSliceAdditionalSpecFns;

verus! {

/// The number of documents that a parser hands to the indexers at a time.
pub const BATCH: usize = 100;

/// Batch `b` of a parser's documents: the next `BATCH` of them, or what is
/// left.
pub open spec fn batch_of(all: Seq<DocumentRaw>, b: int) -> Seq<DocumentRaw> {
    all.subrange(
        b * BATCH,
        if (b + 1) * BATCH <= all.len() {
            (b + 1) * BATCH
        } else {
            all.len() as int
        },
    )
}

/// The number of batches of `count` documents. The last batch is the one
/// that is not full; it is empty where `count` is a multiple of `BATCH`.
pub open spec fn batch_count(count: nat) -> int {
    count as int / BATCH as int + 1
}

/// Parses one piece of the corpus and hands out its documents twice: cut
/// into batches for the indexers, and whole for the document table.
pub fn parse_task(contents: &ContentsSplit, first_id: i32) -> (out: (
    Vec<Vec<DocumentRaw>>,
    Vec<DocumentRaw>,
))
    requires
        contents.base_offset + contents.data.spec_bytes().len() <= usize::MAX,
    ensures
        out.1@ == documents_of(
            xml_events(contents.data@),
            DocumentParser::start(contents.base_offset, first_id),
        ),
        forall|k: int|
            0 <= k < out.1@.len() ==> record_in_piece(
                #[trigger] out.1@[k],
                contents.base_offset as int,
                contents.data.spec_bytes(),
            ),
        out.0@.len() == batch_count(out.1@.len()),
        forall|b: int| 0 <= b < out.0@.len() ==> (#[trigger] out.0@[b])@ == batch_of(out.1@, b),
{
    let all_docs = parse_documents_vec(contents, first_id);
    let mut batches: Vec<Vec<DocumentRaw>> = Vec::new();
    let mut chunk: Vec<DocumentRaw> = Vec::new();
    let mut k: usize = 0;
    while k < all_docs.len()
        invariant
            k <= all_docs@.len(),
            batches@.len() == k / BATCH,
            chunk@ == all_docs@.subrange((k / BATCH) * BATCH, k as int),
            forall|b: int| 0 <= b < batches@.len() ==> (#[trigger] batches@[b])@ == batch_of(all_docs@, b),
        decreases all_docs@.len() - k,
    {
        chunk.push(all_docs[k].duplicate());
        k = k + 1;
        proof {
            assert(chunk@ =~= all_docs@.subrange(((k - 1) / (BATCH as int)) * BATCH, k as int));
        }
        if chunk.len() == BATCH {
            let ghost full = chunk@;
            let mut sent: Vec<DocumentRaw> = Vec::new();
            core::mem::swap(&mut sent, &mut chunk);
            batches.push(sent);
            proof {
                assert(k % BATCH == 0);
                assert(full == batch_of(all_docs@, (k / BATCH) as int - 1));
                assert(chunk@ =~= all_docs@.subrange((k / BATCH) * BATCH, k as int));
            }
        }
    }
    batches.push(chunk);
    (batches, all_docs)
}

/// All the maps merged into one.
pub open spec fn merged_all(maps: Seq<Map<Seq<char>, Set<i32>>>) -> Map<Seq<char>, Set<i32>>
    decreases maps.len(),
{
    if maps.len() == 0 {
        Map::empty()
    } else {
        merged(merged_all(maps.drop_last()), maps.last())
    }
}

/// Merging something into one of the maps merges it into the whole.
pub proof fn lemma_merged_into_one(
    maps: Seq<Map<Seq<char>, Set<i32>>>,
    at: int,
    more: Map<Seq<char>, Set<i32>>,
)
    requires
        0 <= at < maps.len(),
    ensures
        merged_all(maps.update(at, merged(maps[at], more))) == merged(merged_all(maps), more),
    decreases maps.len(),
{
    let grown = maps.update(at, merged(maps[at], more));
    let front = merged_all(maps.drop_last());
    if at == maps.len() - 1 {
        assert(grown.drop_last() =~= maps.drop_last());
        lemma_merged_associates(front, maps[at], more);
    } else {
        lemma_merged_into_one(maps.drop_last(), at, more);
        assert(grown.drop_last() =~= maps.drop_last().update(at, merged(maps[at], more)));
        lemma_merged_associates(front, more, maps.last());
        lemma_merged_commutes(more, maps.last());
        lemma_merged_associates(front, maps.last(), more);
    }
}

/// What `workers` indexers hold after they have taken the batches, batch
/// `b` going to indexer `turns[b]`: each the index of the batches it took.
pub open spec fn dealt(
    batches: Seq<Seq<DocumentRaw>>,
    turns: Seq<int>,
    workers: nat,
    bytes: Seq<u8>,
) -> Seq<Map<Seq<char>, Set<i32>>>
    decreases batches.len(),
{
    if batches.len() == 0 {
        Seq::new(workers, |w: int| Map::empty())
    } else {
        let before = dealt(batches.drop_last(), turns, workers, bytes);
        let turn = turns[batches.len() - 1];
        before.update(turn, merged(before[turn], postings_of(batches.last(), bytes)))
    }
}

/// The documents of batches that are given as sequences, one batch behind
/// the other.
pub open spec fn joined(batches: Seq<Seq<DocumentRaw>>) -> Seq<DocumentRaw>
    decreases batches.len(),
{
    if batches.len() == 0 {
        Seq::empty()
    } else {
        joined(batches.drop_last()) + batches.last()
    }
}

/// Whichever indexer takes which batch, the partial indices of the
/// indexers, merged, are the index of all the documents.
pub proof fn lemma_any_turns(
    batches: Seq<Seq<DocumentRaw>>,
    turns: Seq<int>,
    workers: nat,
    bytes: Seq<u8>,
)
    requires
        turns.len() == batches.len(),
        forall|b: int| 0 <= b < turns.len() ==> 0 <= #[trigger] turns[b] < workers,
    ensures
        dealt(batches, turns, workers, bytes).len() == workers,
        merged_all(dealt(batches, turns, workers, bytes)) == postings_of(joined(batches), bytes),
    decreases batches.len(),
{
    if batches.len() == 0 {
        lemma_merged_all_empty(dealt(batches, turns, workers, bytes));
        assert(postings_of(Seq::<DocumentRaw>::empty(), bytes) =~= Map::<
            Seq<char>,
            Set<i32>,
        >::empty());
    } else {
        let front = batches.drop_last();
        let before = dealt(front, turns, workers, bytes);
        let turn = turns[batches.len() - 1];
        assert forall|b: int| 0 <= b < turns.drop_last().len() implies 0
            <= #[trigger] turns.drop_last()[b] < workers by {
            assert(turns.drop_last()[b] == turns[b]);
        }
        lemma_dealt_turns(front, turns, turns.drop_last(), workers, bytes);
        lemma_any_turns(front, turns.drop_last(), workers, bytes);
        lemma_merged_into_one(before, turn, postings_of(batches.last(), bytes));
        lemma_postings_merged(joined(front), batches.last(), bytes);
    }
}

/// What the indexers hold depends on the turns of the batches alone.
proof fn lemma_dealt_turns(
    batches: Seq<Seq<DocumentRaw>>,
    long: Seq<int>,
    short: Seq<int>,
    workers: nat,
    bytes: Seq<u8>,
)
    requires
        batches.len() <= short.len() <= long.len(),
        forall|b: int| 0 <= b < batches.len() ==> long[b] == short[b],
    ensures
        dealt(batches, long, workers, bytes) == dealt(batches, short, workers, bytes),
    decreases batches.len(),
{
    if batches.len() > 0 {
        lemma_dealt_turns(batches.drop_last(), long, short, workers, bytes);
    }
}

/// Maps without terms, merged, have no terms.
pub proof fn lemma_merged_all_empty(maps: Seq<Map<Seq<char>, Set<i32>>>)
    requires
        forall|k: int| 0 <= k < maps.len() ==> #[trigger] maps[k] == Map::<Seq<char>, Set<i32>>::empty(),
    ensures
        merged_all(maps) == Map::<Seq<char>, Set<i32>>::empty(),
    decreases maps.len(),
{
    if maps.len() > 0 {
        lemma_merged_all_empty(maps.drop_last());
        lemma_merged_with_empty(Map::<Seq<char>, Set<i32>>::empty());
    }
}

/// The maps of a list of indices.
pub open spec fn index_views(indices: Seq<InvertedIndex>) -> Seq<Map<Seq<char>, Set<i32>>> {
    Seq::new(indices.len(), |k: int| indices[k]@)
}

/// Merges the partial indices of the workers into one.
pub fn reduce_indices(partials: Vec<InvertedIndex>) -> (joined: InvertedIndex)
    requires
        forall|k: int| 0 <= k < partials@.len() ==> (#[trigger] partials@[k]).wf(),
    ensures
        joined.wf(),
        joined@ == merged_all(index_views(partials@)),
{
    let ghost all = index_views(partials@);
    let mut joined = InvertedIndex::new();
    proof {
        assert(all.take(0) =~= Seq::<Map<Seq<char>, Set<i32>>>::empty());
    }
    for partial in it: partials
        invariant
            joined.wf(),
            index_views(it.seq()) == all,
            forall|k: int| 0 <= k < it.seq().len() ==> (#[trigger] it.seq()[k]).wf(),
            joined@ == merged_all(all.take(it.index())),
    {
        proof {
            assert(all[it.index()] == partial@);
            assert(all.take(it.index() + 1).drop_last() =~= all.take(it.index()));
            assert(all.take(it.index() + 1).last() == partial@);
            assert(it.seq()[it.index()].wf());
        }
        joined.merge(partial);
    }
    proof {
        assert(all.take(all.len() as int) =~= all);
    }
    joined
}

/// The documents of a list of batches, one batch behind the other.
pub open spec fn joined_batches(batches: Seq<Vec<DocumentRaw>>) -> Seq<DocumentRaw>
    decreases batches.len(),
{
    if batches.len() == 0 {
        Seq::empty()
    } else {
        joined_batches(batches.drop_last()) + batches.last()@
    }
}

/// The documents of two lists of batches, one list behind the other.
pub proof fn lemma_joined_batches_add(a: Seq<Vec<DocumentRaw>>, b: Seq<Vec<DocumentRaw>>)
    ensures
        joined_batches(a + b) == joined_batches(a) + joined_batches(b),
    decreases b.len(),
{
    if b.len() == 0 {
        assert(a + b =~= a);
        assert(joined_batches(a) + joined_batches(b) =~= joined_batches(a));
    } else {
        lemma_joined_batches_add(a, b.drop_last());
        assert((a + b).drop_last() =~= a + b.drop_last());
        assert((a + b).last() == b.last());
        assert(joined_batches(a) + joined_batches(b.drop_last()) + b.last()@ =~= joined_batches(a)
            + (joined_batches(b.drop_last()) + b.last()@));
    }
}

/// The batches of a parser's documents, joined, are its documents.
pub proof fn lemma_batches_join(all: Seq<DocumentRaw>, batches: Seq<Vec<DocumentRaw>>)
    requires
        batches.len() == batch_count(all.len()),
        forall|b: int| 0 <= b < batches.len() ==> (#[trigger] batches[b])@ == batch_of(all, b),
    ensures
        joined_batches(batches) == all,
{
    lemma_batches_join_upto(all, batches, batches.len() as int);
    assert(batches.take(batches.len() as int) =~= batches);
    assert(all.take(all.len() as int) =~= all);
}

proof fn lemma_batches_join_upto(all: Seq<DocumentRaw>, batches: Seq<Vec<DocumentRaw>>, count: int)
    requires
        batches.len() == batch_count(all.len()),
        forall|b: int| 0 <= b < batches.len() ==> (#[trigger] batches[b])@ == batch_of(all, b),
        0 <= count <= batches.len(),
    ensures
        joined_batches(batches.take(count)) == all.take(
            if count * BATCH <= all.len() {
                count * BATCH
            } else {
                all.len() as int
            },
        ),
    decreases count,
{
    if count == 0 {
        assert(all.take(0) =~= Seq::<DocumentRaw>::empty());
    } else {
        lemma_batches_join_upto(all, batches, count - 1);
        assert(batches.take(count).drop_last() =~= batches.take(count - 1));
        assert(batches.take(count).last() == batches[count - 1]);
        let end = if count * BATCH <= all.len() {
            count * BATCH
        } else {
            all.len() as int
        };
        assert(all.take((count - 1) * BATCH) + batch_of(all, count - 1) =~= all.take(end));
    }
}

/// Whether the text of every document of every batch can be cut out of a
/// corpus of these bytes.
pub open spec fn batches_fit(batches: Seq<Vec<DocumentRaw>>, bytes: Seq<u8>) -> bool {
    forall|b: int, k: int|
        0 <= b < batches.len() && 0 <= k < batches[b]@.len() ==> range_fits(
            bytes,
            (#[trigger] batches[b]@[k]).text,
        )
}

/// Enters the documents of the batches into `index`, batch by batch.
pub fn feed_batches<P: Postings>(
    index: &mut P,
    full_contents: &str,
    batches: &Vec<Vec<DocumentRaw>>,
    analyzer: &Analyzer,
)
    requires
        old(index).sound(),
        batches_fit(batches@, full_contents.spec_bytes()),
    ensures
        final(index).sound(),
        final(index).terms() == merged(
            old(index).terms(),
            postings_of(joined_batches(batches@), full_contents.spec_bytes()),
        ),
{
    let ghost before = index.terms();
    let ghost bytes = full_contents.spec_bytes();
    let mut b: usize = 0;
    proof {
        assert(batches@.take(0) =~= Seq::<Vec<DocumentRaw>>::empty());
        assert(postings_of(Seq::<DocumentRaw>::empty(), bytes) =~= Map::<
            Seq<char>,
            Set<i32>,
        >::empty());
        lemma_merged_with_empty(before);
    }
    while b < batches.len()
        invariant
            b <= batches@.len(),
            bytes == full_contents.spec_bytes(),
            index.sound(),
            batches_fit(batches@, bytes),
            index.terms() == merged(
                before,
                postings_of(joined_batches(batches@.take(b as int)), bytes),
            ),
        decreases batches@.len() - b,
    {
        let batch = &batches[b];
        let ghost fed = joined_batches(batches@.take(b as int));
        proof {
            assert(batches@.take(b + 1).drop_last() =~= batches@.take(b as int));
            assert(batches@.take(b + 1).last() == *batch);
            assert forall|k: int| 0 <= k < batch@.len() implies range_fits(
                bytes,
                (#[trigger] batch@[k]).text,
            ) by {
                assert(range_fits(bytes, batches@[b as int]@[k].text));
            }
            lemma_postings_merged(fed, batch@, bytes);
            lemma_merged_associates(before, postings_of(fed, bytes), postings_of(batch@, bytes));
        }
        add_documents(index, full_contents, batch.as_slice(), analyzer);
        b = b + 1;
    }
    proof {
        assert(batches@.take(batches@.len() as int) =~= batches@);
    }
}

/// What one indexer of the partitioned build does: it enters every batch
/// that it takes into an index of its own and hands that index on.
pub fn index_task(
    batches: &Vec<Vec<DocumentRaw>>,
    analyzer: &Analyzer,
    full_contents: &str,
) -> (inverted_index: InvertedIndex)
    requires
        batches_fit(batches@, full_contents.spec_bytes()),
    ensures
        inverted_index.wf(),
        inverted_index@ == postings_of(joined_batches(batches@), full_contents.spec_bytes()),
{
    let mut inverted_index = InvertedIndex::new();
    feed_batches(&mut inverted_index, full_contents, batches, analyzer);
    proof {
        lemma_merged_with_empty(
            postings_of(joined_batches(batches@), full_contents.spec_bytes()),
        );
    }
    inverted_index
}

/// What one indexer of the shared build does: it enters every batch that it
/// takes into the one index of all indexers.
pub fn dashmap_index_task(
    batches: &Vec<Vec<DocumentRaw>>,
    inverted_index: &mut SharedIndex,
    analyzer: &Analyzer,
    full_contents: &str,
)
    requires
        batches_fit(batches@, full_contents.spec_bytes()),
    ensures
        final(inverted_index)@ == merged(
            old(inverted_index)@,
            postings_of(joined_batches(batches@), full_contents.spec_bytes()),
        ),
{
    feed_batches(inverted_index, full_contents, batches, analyzer);
}

/// What the parsers of the pipelined build do, one after the other: each
/// parses its piece; the batches of all of them go into one queue for the
/// indexers, and the documents of all of them into one table.
pub fn parse_documents(full_contents: &str, file_contents: &Vec<ContentsSplit>) -> (out: (
    Vec<Vec<DocumentRaw>>,
    Vec<DocumentRaw>,
))
    requires
        forall|k: int|
            0 <= k < file_contents@.len() ==> is_piece(
                #[trigger] file_contents@[k],
                full_contents.spec_bytes(),
            ),
    ensures
        out.1@ == table_of(piece_views(file_contents@)),
        ids_are_places(out.1@),
        all_fit(out.1@, full_contents.spec_bytes()),
        joined_batches(out.0@) == out.1@,
        batches_fit(out.0@, full_contents.spec_bytes()),
{
    let ghost bytes = full_contents.spec_bytes();
    let ghost pieces = piece_views(file_contents@);
    let mut queue: Vec<Vec<DocumentRaw>> = Vec::new();
    let mut table: Vec<DocumentRaw> = Vec::new();
    let total = full_contents.as_bytes().len();
    let mut k: usize = 0;
    proof {
        assert(pieces.take(0) =~= Seq::<(usize, Seq<char>)>::empty());
    }
    while k < file_contents.len()
        invariant
            k <= file_contents@.len(),
            total == bytes.len(),
            bytes == full_contents.spec_bytes(),
            pieces == piece_views(file_contents@),
            forall|k: int| 0 <= k < file_contents@.len() ==> is_piece(#[trigger] file_contents@[k], bytes),
            table@ == table_of(pieces.take(k as int)),
            all_fit(table@, bytes),
            joined_batches(queue@) == table@,
            batches_fit(queue@, bytes),
        decreases file_contents@.len() - k,
    {
        let chunk = &file_contents[k];
        proof {
            assert(is_piece(file_contents@[k as int], bytes));
            lemma_table_ids(pieces.take(k as int));
        }
        let first_id: i32 = if table.len() <= i32::MAX as usize {
            table.len() as i32
        } else {
            i32::MAX
        };
        let (mut batches, mut all_docs) = parse_task(chunk, first_id);
        proof {
            assert(pieces.take(k + 1).drop_last() =~= pieces.take(k as int));
            assert(pieces.take(k + 1).last() == (chunk.base_offset, chunk.data@));
            assert forall|j: int| 0 <= j < all_docs@.len() implies (#[trigger] all_docs@[j]).fits(
                bytes,
            ) by {
                encode_utf8_valid_utf8(full_contents@);
                lemma_piece_record_fits(
                    all_docs@[j],
                    chunk.base_offset as int,
                    chunk.data.spec_bytes(),
                    bytes,
                );
            }
            lemma_batches_join(all_docs@, batches@);
            lemma_joined_batches_add(queue@, batches@);
            assert forall|b: int, j: int|
                0 <= b < batches@.len() && 0 <= j < batches@[b]@.len() implies range_fits(
                bytes,
                (#[trigger] batches@[b]@[j]).text,
            ) by {
                assert(batches@[b]@ == batch_of(all_docs@, b));
                assert(batches@[b]@[j] == all_docs@[b * BATCH + j]);
                assert(all_docs@[b * BATCH + j].fits(bytes));
            }
        }
        queue.append(&mut batches);
        table.append(&mut all_docs);
        k = k + 1;
    }
    proof {
        assert(pieces.take(file_contents@.len() as int) =~= pieces);
        lemma_table_ids(pieces);
    }
    (queue, table)
}

} // verus!
