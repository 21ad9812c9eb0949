//! Looking up the terms of a query and materializing the documents found.
use crate::analyzer::{analyzed, texts, Analyzer};
use crate::documents::{Document, DocumentRaw, SearchResults};
use crate::index::Postings;
use crate::table::{all_fit, ids_are_places};
use vstd::prelude::*;
use vstd::string::StringSliceAdditionalSpecFns;
use vstd::utf8::*;

verus! {

/// The views of a list of string slices.
pub open spec fn slices(inputs: Seq<&str>) -> Seq<Seq<char>> {
    Seq::new(inputs.len(), |i: int| inputs[i]@)
}

/// The index terms of the inputs of a query, in order.
pub open spec fn query_terms(inputs: Seq<Seq<char>>) -> Seq<Seq<char>>
    decreases inputs.len(),
{
    if inputs.len() == 0 {
        Seq::empty()
    } else {
        query_terms(inputs.drop_last()) + analyzed(inputs.last())
    }
}

/// Those of `terms` that `index` holds, in order.
pub open spec fn found_terms(index: Map<Seq<char>, Set<i32>>, terms: Seq<Seq<char>>) -> Seq<
    Seq<char>,
>
    decreases terms.len(),
{
    if terms.len() == 0 {
        Seq::empty()
    } else {
        let before = found_terms(index, terms.drop_last());
        if index.contains_key(terms.last()) {
            before.push(terms.last())
        } else {
            before
        }
    }
}

/// Whether every id in `index` is a place of a table of `count` records.
pub open spec fn ids_in_table(index: Map<Seq<char>, Set<i32>>, count: nat) -> bool {
    forall|term: Seq<char>, id: i32|
        #![trigger index[term].contains(id)]
        index.contains_key(term) && index[term].contains(id) ==> 0 <= id < count
}

/// The ids of the documents of a result, in order.
pub open spec fn match_ids(matches: Seq<Document>) -> Seq<i32> {
    Seq::new(matches.len(), |j: int| matches[j].id)
}

/// Whether `result` is the answer for `term`: it names the term, and its
/// matches are the documents of the term's ids, each once, copied out of
/// the corpus.
pub open spec fn answers(
    result: SearchResults,
    term: Seq<char>,
    index: Map<Seq<char>, Set<i32>>,
    table: Seq<DocumentRaw>,
    bytes: Seq<u8>,
) -> bool {
    &&& result.term@ == term
    &&& match_ids(result.matches@).no_duplicates()
    &&& match_ids(result.matches@).to_set() == index[term]
    &&& forall|j: int|
        0 <= j < result.matches@.len() ==> 0 <= (#[trigger] result.matches@[j]).id < table.len()
            && result.matches@[j]@ == table[result.matches@[j].id as int].materialized(bytes)
}

/// Whether `results` answer a query with these inputs: one result for each
/// term of the query that the index holds, in the order of the query.
pub open spec fn answers_query(
    results: Seq<SearchResults>,
    inputs: Seq<Seq<char>>,
    index: Map<Seq<char>, Set<i32>>,
    table: Seq<DocumentRaw>,
    bytes: Seq<u8>,
) -> bool {
    let found = found_terms(index, query_terms(inputs));
    &&& results.len() == found.len()
    &&& forall|r: int|
        0 <= r < results.len() ==> answers(#[trigger] results[r], found[r], index, table, bytes)
}

/// Copies the documents with these ids out of the corpus.
fn materialize(ids: &Vec<i32>, documents: &Vec<DocumentRaw>, contents: &str) -> (matches: Vec<
    Document,
>)
    requires
        all_fit(documents@, contents.spec_bytes()),
        ids_are_places(documents@),
        forall|j: int| 0 <= j < ids@.len() ==> 0 <= #[trigger] ids@[j] < documents@.len(),
    ensures
        match_ids(matches@) == ids@,
        forall|j: int|
            0 <= j < matches@.len() ==> (#[trigger] matches@[j])@ == documents@[ids@[j] as int].materialized(
                contents.spec_bytes(),
            ),
{
    let mut matches: Vec<Document> = Vec::new();
    let mut j: usize = 0;
    while j < ids.len()
        invariant
            j <= ids@.len(),
            all_fit(documents@, contents.spec_bytes()),
            ids_are_places(documents@),
            forall|j: int| 0 <= j < ids@.len() ==> 0 <= #[trigger] ids@[j] < documents@.len(),
            matches@.len() == j,
            forall|i: int| 0 <= i < j ==> (#[trigger] matches@[i]).id == ids@[i],
            forall|i: int|
                0 <= i < j ==> (#[trigger] matches@[i])@ == documents@[ids@[i] as int].materialized(
                    contents.spec_bytes(),
                ),
        decreases ids@.len() - j,
    {
        let id = ids[j];
        let record = &documents[id as usize];
        matches.push(record.to_document(contents));
        j = j + 1;
    }
    assert(match_ids(matches@) =~= ids@);
    matches
}

/// Answers a query: each input is analyzed, each term that the index holds
/// gives one result, and a result holds the documents of the term.
pub fn search_in<P: Postings>(
    index: &P,
    documents: &Vec<DocumentRaw>,
    contents: &str,
    analyzer: &Analyzer,
    all_terms: &Vec<&str>,
) -> (results: Vec<SearchResults>)
    requires
        index.sound(),
        all_fit(documents@, contents.spec_bytes()),
        ids_are_places(documents@),
        ids_in_table(index.terms(), documents@.len()),
    ensures
        answers_query(
            results@,
            slices(all_terms@),
            index.terms(),
            documents@,
            contents.spec_bytes(),
        ),
{
    let ghost bytes = contents.spec_bytes();
    let ghost inputs = slices(all_terms@);
    let mut results: Vec<SearchResults> = Vec::new();
    let mut i: usize = 0;
    proof {
        assert(inputs.take(0) =~= Seq::<Seq<char>>::empty());
    }
    while i < all_terms.len()
        invariant
            i <= all_terms@.len(),
            inputs == slices(all_terms@),
            bytes == contents.spec_bytes(),
            index.sound(),
            all_fit(documents@, bytes),
            ids_are_places(documents@),
            ids_in_table(index.terms(), documents@.len()),
            answers_query(results@, inputs.take(i as int), index.terms(), documents@, bytes),
        decreases all_terms@.len() - i,
    {
        let terms = analyzer.analyze(all_terms[i]);
        let ghost asked = query_terms(inputs.take(i as int));
        let ghost words = analyzed(inputs[i as int]);
        proof {
            assert(texts(terms@) == words);
            assert(asked + words.take(0) =~= asked);
        }
        for term in it: terms
            invariant
                index.sound(),
                bytes == contents.spec_bytes(),
                all_fit(documents@, bytes),
                ids_are_places(documents@),
                ids_in_table(index.terms(), documents@.len()),
                texts(it.seq()) == words,
                results@.len() == found_terms(index.terms(), asked + words.take(it.index())).len(),
                forall|r: int|
                    0 <= r < results@.len() ==> answers(
                        #[trigger] results@[r],
                        found_terms(index.terms(), asked + words.take(it.index()))[r],
                        index.terms(),
                        documents@,
                        bytes,
                    ),
        {
            let ghost so_far = asked + words.take(it.index());
            let ghost grown = asked + words.take(it.index() + 1);
            proof {
                assert(words[it.index()] == term@);
                assert(grown.drop_last() =~= so_far);
                assert(grown.last() == term@);
            }
            match index.ids(term.as_str()) {
                Some(ids) => {
                    proof {
                        assert forall|j: int| 0 <= j < ids@.len() implies 0 <= #[trigger] ids@[j]
                            < documents@.len() by {
                            assert(ids@.to_set().contains(ids@[j]));
                            assert(index.terms()[term@].contains(ids@[j]));
                        }
                    }
                    let matches = materialize(&ids, documents, contents);
                    results.push(SearchResults { term, matches });
                },
                None => {},
            }
        }
        proof {
            assert(words.take(words.len() as int) =~= words);
            assert(inputs.take(i + 1).drop_last() =~= inputs.take(i as int));
            assert(inputs.take(i + 1).last() == inputs[i as int]);
        }
        i = i + 1;
    }
    proof {
        assert(inputs.take(all_terms@.len() as int) =~= inputs);
    }
    results
}

} // verus!
