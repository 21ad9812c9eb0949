//! Entering documents into an inverted index.
use crate::analyzer::{analyzed, texts, Analyzer};
use crate::chunker::slice_between;
use crate::documents::{range_fits, text_between, DocumentRaw};
use crate::index::{
    lemma_merged_with_empty, lemma_pair_entered, lemma_pairs_merged, lemma_posting_merged, merged,
    postings_of_pairs, with_posting, InvertedIndex, Postings,
};
use crate::search::ids_in_table;
use crate::table::ids_are_places;
use vstd::prelude::*;
use vstd::slice::slice_subrange;
use vstd::string::StringSliceAdditionalSpecFns;
use vstd::utf8::*;

verus! {

/// The text of a document, which is what is indexed of it.
pub open spec fn body_of(document: DocumentRaw, bytes: Seq<u8>) -> Seq<char> {
    text_between(bytes, document.text.start as int, document.text.end as int)
}

/// Whether `term` is one of the index terms of the document's text.
pub open spec fn holds_term(document: DocumentRaw, bytes: Seq<u8>, term: Seq<char>) -> bool {
    analyzed(body_of(document, bytes)).contains(term)
}

/// The inverted index of `docs` over a corpus of these bytes: its terms are
/// the terms of the documents' texts, and a term has the ids of exactly the
/// documents whose text yields it.
pub open spec fn postings_of(docs: Seq<DocumentRaw>, bytes: Seq<u8>) -> Map<Seq<char>, Set<i32>> {
    Map::new(
        |term: Seq<char>|
            exists|k: int| 0 <= k < docs.len() && holds_term(#[trigger] docs[k], bytes, term),
        |term: Seq<char>|
            Set::new(
                |id: i32|
                    exists|k: int|
                        0 <= k < docs.len() && (#[trigger] docs[k]).id == id && holds_term(
                            docs[k],
                            bytes,
                            term,
                        ),
            ),
    )
}

/// Each of `terms` paired with `id`.
pub open spec fn term_pairs(terms: Seq<Seq<char>>, id: i32) -> Seq<(Seq<char>, i32)> {
    Seq::new(terms.len(), |j: int| (terms[j], id))
}

/// The pairs of term and id that indexing `docs` enters, in order.
pub open spec fn pairs_of(docs: Seq<DocumentRaw>, bytes: Seq<u8>) -> Seq<(Seq<char>, i32)>
    decreases docs.len(),
{
    if docs.len() == 0 {
        Seq::empty()
    } else {
        pairs_of(docs.drop_last(), bytes) + term_pairs(
            analyzed(body_of(docs.last(), bytes)),
            docs.last().id,
        )
    }
}

proof fn lemma_pairs_contain(docs: Seq<DocumentRaw>, bytes: Seq<u8>, term: Seq<char>, id: i32)
    ensures
        pairs_of(docs, bytes).contains((term, id)) <==> exists|k: int|
            0 <= k < docs.len() && (#[trigger] docs[k]).id == id && holds_term(
                docs[k],
                bytes,
                term,
            ),
    decreases docs.len(),
{
    if docs.len() > 0 {
        let front = docs.drop_last();
        let last = docs.last();
        let head = pairs_of(front, bytes);
        let terms = analyzed(body_of(last, bytes));
        let tail = term_pairs(terms, last.id);
        lemma_pairs_contain(front, bytes, term, id);
        if pairs_of(docs, bytes).contains((term, id)) {
            let j = choose|j: int|
                0 <= j < pairs_of(docs, bytes).len() && pairs_of(docs, bytes)[j] == (term, id);
            if j < head.len() {
                assert(head[j] == (term, id));
                let k = choose|k: int|
                    0 <= k < front.len() && (#[trigger] front[k]).id == id && holds_term(
                        front[k],
                        bytes,
                        term,
                    );
                assert(docs[k] == front[k]);
            } else {
                assert(tail[j - head.len()] == (term, id));
                assert(terms[j - head.len()] == term);
                assert(docs[docs.len() - 1].id == id);
            }
        }
        if exists|k: int|
            0 <= k < docs.len() && (#[trigger] docs[k]).id == id && holds_term(docs[k], bytes, term) {
            let k = choose|k: int|
                0 <= k < docs.len() && (#[trigger] docs[k]).id == id && holds_term(
                    docs[k],
                    bytes,
                    term,
                );
            if k < front.len() {
                assert(front[k] == docs[k]);
                assert(head.contains((term, id)));
                let j = choose|j: int| 0 <= j < head.len() && head[j] == (term, id);
                assert(pairs_of(docs, bytes)[j] == (term, id));
            } else {
                let j = choose|j: int| 0 <= j < terms.len() && terms[j] == term;
                assert(tail[j] == (term, id));
                assert(pairs_of(docs, bytes)[head.len() + j] == (term, id));
            }
        }
    }
}

/// Entering the pairs of `docs` one by one gives the index of `docs`.
pub proof fn lemma_pairs_are_postings(docs: Seq<DocumentRaw>, bytes: Seq<u8>)
    ensures
        postings_of_pairs(pairs_of(docs, bytes)) == postings_of(docs, bytes),
{
    let left = postings_of_pairs(pairs_of(docs, bytes));
    let right = postings_of(docs, bytes);
    assert forall|term: Seq<char>, id: i32|
        pairs_of(docs, bytes).contains((term, id)) <==> exists|k: int|
            0 <= k < docs.len() && (#[trigger] docs[k]).id == id && holds_term(
                docs[k],
                bytes,
                term,
            ) by {
        lemma_pairs_contain(docs, bytes, term, id);
    }
    assert forall|term: Seq<char>| #[trigger] left.contains_key(term) <==> right.contains_key(
        term,
    ) by {
        if left.contains_key(term) {
            let id = choose|id: i32| pairs_of(docs, bytes).contains((term, id));
            lemma_pairs_contain(docs, bytes, term, id);
        }
        if right.contains_key(term) {
            let k = choose|k: int|
                0 <= k < docs.len() && holds_term(#[trigger] docs[k], bytes, term);
            lemma_pairs_contain(docs, bytes, term, docs[k].id);
        }
    }
    assert forall|term: Seq<char>| #[trigger] left.contains_key(term) implies left[term]
        =~= right[term] by {}
    assert(left =~= right);
}

/// The index of two lists of documents, one behind the other, is the two
/// indices merged.
pub proof fn lemma_postings_merged(a: Seq<DocumentRaw>, b: Seq<DocumentRaw>, bytes: Seq<u8>)
    ensures
        merged(postings_of(a, bytes), postings_of(b, bytes)) == postings_of(a + b, bytes),
    decreases b.len(),
{
    lemma_pairs_of_joined(a, b, bytes);
    lemma_pairs_are_postings(a, bytes);
    lemma_pairs_are_postings(b, bytes);
    lemma_pairs_are_postings(a + b, bytes);
    lemma_pairs_merged(pairs_of(a, bytes), pairs_of(b, bytes));
}

proof fn lemma_pairs_of_joined(a: Seq<DocumentRaw>, b: Seq<DocumentRaw>, bytes: Seq<u8>)
    ensures
        pairs_of(a + b, bytes) == pairs_of(a, bytes) + pairs_of(b, bytes),
    decreases b.len(),
{
    if b.len() == 0 {
        assert(a + b =~= a);
        assert(pairs_of(a, bytes) + pairs_of(b, bytes) =~= pairs_of(a, bytes));
    } else {
        lemma_pairs_of_joined(a, b.drop_last(), bytes);
        assert((a + b).drop_last() =~= a + b.drop_last());
        assert((a + b).last() == b.last());
        let tail = term_pairs(analyzed(body_of(b.last(), bytes)), b.last().id);
        assert(pairs_of(a, bytes) + pairs_of(b.drop_last(), bytes) + tail =~= pairs_of(a, bytes) + (
        pairs_of(b.drop_last(), bytes) + tail));
    }
}

/// Enters each of `documents` into `index`, under every term of its text.
pub fn add_documents<P: Postings>(
    index: &mut P,
    full_contents: &str,
    documents: &[DocumentRaw],
    analyzer: &Analyzer,
)
    requires
        old(index).sound(),
        forall|k: int|
            0 <= k < documents@.len() ==> range_fits(
                full_contents.spec_bytes(),
                (#[trigger] documents@[k]).text,
            ),
    ensures
        final(index).sound(),
        final(index).terms() == merged(
            old(index).terms(),
            postings_of(documents@, full_contents.spec_bytes()),
        ),
{
    let ghost before = index.terms();
    let ghost bytes = full_contents.spec_bytes();
    let mut k: usize = 0;
    proof {
        lemma_merged_with_empty(before);
        assert(postings_of_pairs(Seq::empty()) =~= Map::<Seq<char>, Set<i32>>::empty());
        assert(documents@.take(0) =~= Seq::<DocumentRaw>::empty());
    }
    while k < documents.len()
        invariant
            k <= documents@.len(),
            bytes == full_contents.spec_bytes(),
            index.sound(),
            forall|k: int|
                0 <= k < documents@.len() ==> range_fits(bytes, (#[trigger] documents@[k]).text),
            index.terms() == merged(
                before,
                postings_of_pairs(pairs_of(documents@.take(k as int), bytes)),
            ),
        decreases documents@.len() - k,
    {
        let document = &documents[k];
        let id = document.id;
        let body = slice_between(full_contents, document.text.start, document.text.end);
        let terms = analyzer.analyze(body);
        let ghost entered = pairs_of(documents@.take(k as int), bytes);
        let ghost words = analyzed(body_of(*document, bytes));
        proof {
            encode_utf8_decode_utf8(body@);
            assert(texts(terms@) == words);
            assert(entered + term_pairs(words.take(0), id) =~= entered);
        }
        for term in it: terms
            invariant
                index.sound(),
                texts(it.seq()) == words,
                index.terms() == merged(
                    before,
                    postings_of_pairs(entered + term_pairs(words.take(it.index()), id)),
                ),
        {
            let ghost so_far = entered + term_pairs(words.take(it.index()), id);
            proof {
                lemma_posting_merged(before, postings_of_pairs(so_far), term@, id);
                lemma_pair_entered(so_far, term@, id);
                assert(words[it.index()] == term@);
                assert(so_far.push((term@, id)) =~= entered + term_pairs(
                    words.take(it.index() + 1),
                    id,
                ));
            }
            index.enter(term, id);
        }
        proof {
            assert(words.take(words.len() as int) =~= words);
            assert(documents@.take(k + 1).drop_last() =~= documents@.take(k as int));
            assert(documents@.take(k + 1).last() == *document);
        }
        k = k + 1;
    }
    proof {
        assert(documents@.take(documents@.len() as int) =~= documents@);
        lemma_pairs_are_postings(documents@, bytes);
    }
}

/// The inverted index of `documents` alone.
pub fn index_docs_index_only(
    full_contents: &str,
    documents: &[DocumentRaw],
    analyzer: &Analyzer,
) -> (inverted_index: InvertedIndex)
    requires
        forall|k: int|
            0 <= k < documents@.len() ==> range_fits(
                full_contents.spec_bytes(),
                (#[trigger] documents@[k]).text,
            ),
    ensures
        inverted_index.wf(),
        inverted_index@ == postings_of(documents@, full_contents.spec_bytes()),
{
    let mut inverted_index = InvertedIndex::new();
    add_documents(&mut inverted_index, full_contents, documents, analyzer);
    proof {
        lemma_merged_with_empty(postings_of(documents@, full_contents.spec_bytes()));
    }
    inverted_index
}

/// Every id in the index of a table is a place of the table.
pub proof fn lemma_postings_in_table(docs: Seq<DocumentRaw>, bytes: Seq<u8>)
    requires
        ids_are_places(docs),
    ensures
        ids_in_table(postings_of(docs, bytes), docs.len()),
{
}

/// The inverted index of `documents`, built as `num_threads` workers build
/// it: each takes an equal share of the table, at least one document, and
/// indexes it alone; the partial indices are then merged into one.
pub fn index_all_docs(
    full_contents: &str,
    documents: &Vec<DocumentRaw>,
    num_threads: usize,
    analyzer: &Analyzer,
) -> (inverted_index: InvertedIndex)
    requires
        num_threads > 0,
        forall|k: int|
            0 <= k < documents@.len() ==> range_fits(
                full_contents.spec_bytes(),
                (#[trigger] documents@[k]).text,
            ),
    ensures
        inverted_index.wf(),
        inverted_index@ == postings_of(documents@, full_contents.spec_bytes()),
{
    let ghost bytes = full_contents.spec_bytes();
    let all = documents.as_slice();
    let share = if documents.len() / num_threads > 1 {
        documents.len() / num_threads
    } else {
        1
    };
    let mut inverted_index = InvertedIndex::new();
    let mut start: usize = 0;
    proof {
        assert(documents@.take(0) =~= Seq::<DocumentRaw>::empty());
        assert(postings_of(Seq::<DocumentRaw>::empty(), bytes) =~= Map::<
            Seq<char>,
            Set<i32>,
        >::empty());
    }
    while start < all.len()
        invariant
            all@ == documents@,
            share >= 1,
            start <= all@.len(),
            bytes == full_contents.spec_bytes(),
            forall|k: int|
                0 <= k < documents@.len() ==> range_fits(bytes, (#[trigger] documents@[k]).text),
            inverted_index.wf(),
            inverted_index@ == postings_of(documents@.take(start as int), bytes),
        decreases all@.len() - start,
    {
        let end = if share >= all.len() - start {
            all.len()
        } else {
            start + share
        };
        let part = slice_subrange(all, start, end);
        let partial = index_docs_index_only(full_contents, part, analyzer);
        proof {
            lemma_postings_merged(documents@.take(start as int), part@, bytes);
            assert(documents@.take(start as int) + part@ =~= documents@.take(end as int));
        }
        inverted_index.merge(partial);
        start = end;
    }
    proof {
        assert(documents@.take(documents@.len() as int) =~= documents@);
    }
    inverted_index
}

} // verus!
