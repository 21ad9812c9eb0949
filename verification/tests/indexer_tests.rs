use fulltext::codec::{decode_documents, decode_entries};
use fulltext::documents::{Document, DocumentRaw, SearchResults};
use fulltext::index::{InvertedIndex, Postings};
use fulltext::indexers::threadpool_indexer::IndexType;
use fulltext::indexers::{DocumentIndexer, RayonIndexer, SerializedIndex, ThreadPoolIndexer};
use fulltext::shared::SharedIndex;
use std::collections::{BTreeMap, BTreeSet};

fn corpus(count: usize) -> String {
    let mut text = String::new();
    for i in 0..count {
        text.push_str(&format!(
            "<doc><title>Title {}</title><url>http://x/{}</url><abstract>word{} common item{} running</abstract></doc>\n",
            i,
            i,
            i,
            i % 7
        ));
    }
    text
}

fn index_of(indexer: &dyn Fn() -> Vec<u8>) -> BTreeMap<String, BTreeSet<i32>> {
    let entries = decode_entries(&indexer()).expect("the stored index is read back");
    let mut map = BTreeMap::new();
    for (term, ids) in entries {
        let set: &mut BTreeSet<i32> = map.entry(term).or_default();
        set.extend(ids);
    }
    map
}

fn hits(results: &[SearchResults]) -> Vec<(String, BTreeSet<(String, String)>)> {
    results
        .iter()
        .map(|r| {
            (
                r.term.clone(),
                r.matches.iter().map(|d| (d.title.clone(), d.url.clone())).collect(),
            )
        })
        .collect()
}

#[test]
fn single_document() {
    let corpus = "<doc><title>Cats</title><url>u1</url><abstract>The quick brown fox</abstract></doc>";
    let mut indexer = RayonIndexer::new();
    indexer.build_from_file_contents(String::from(corpus));
    assert_eq!(indexer.num_documents(), 1);
    assert_eq!(indexer.num_tokens(), 3);
    let results = indexer.search(vec!["fox"]);
    assert_eq!(results.len(), 1);
    assert_eq!(results[0].term, "fox");
    assert_eq!(results[0].matches.len(), 1);
    assert_eq!(results[0].matches[0].title, "Cats");
    assert_eq!(results[0].matches[0].url, "u1");
    assert_eq!(results[0].matches[0].text, "The quick brown fox");
    assert_eq!(results[0].matches[0].id, 0);
    let index = index_of(&|| indexer.get_serialized_inverted_index());
    let terms: Vec<&str> = index.keys().map(|t| t.as_str()).collect();
    assert_eq!(terms, vec!["brown", "fox", "quick"]);
}

#[test]
fn stemming() {
    let corpus = "<doc><title>a</title><url>u0</url><abstract>running runs runner</abstract></doc>\
                  <doc><title>b</title><url>u1</url><abstract>unrelated</abstract></doc>";
    let mut indexer = ThreadPoolIndexer::new_hashmap(2, 2);
    indexer.build_from_file_contents(String::from(corpus));
    assert_eq!(indexer.num_documents(), 2);
    let results = indexer.search(vec!["run"]);
    assert_eq!(results.len(), 1);
    assert_eq!(results[0].term, "run");
    let ids: Vec<i32> = results[0].matches.iter().map(|d| d.id).collect();
    assert_eq!(ids, vec![0]);
    let index = index_of(&|| indexer.get_serialized_inverted_index());
    assert!(index["run"].contains(&0));
    assert!(!index["run"].contains(&1));
    assert_eq!(index["unrel"].iter().copied().collect::<Vec<i32>>(), vec![1]);
}

#[test]
fn stopwords() {
    let corpus = "<doc><abstract>the a of</abstract></doc>";
    for mut indexer in [
        ThreadPoolIndexer::new_hashmap(1, 1),
        ThreadPoolIndexer::new_dashmap(3, 2),
    ] {
        indexer.build_from_file_contents(String::from(corpus));
        assert_eq!(indexer.num_tokens(), 0);
        assert_eq!(indexer.num_documents(), 1);
        assert_eq!(indexer.search(vec!["the", "of"]).len(), 0);
    }
}

#[test]
fn multiple_chunks() {
    let text = corpus(1000);
    let mut indexer = ThreadPoolIndexer::new_hashmap(8, 4);
    indexer.build_from_file_contents(text.clone());
    assert_eq!(indexer.num_documents(), 1000);
    let table = decode_documents(&indexer.get_serialized_documents()).expect("a stored table");
    assert_eq!(table.len(), 1000);
    for (k, record) in table.iter().enumerate() {
        assert_eq!(record.id, k as i32);
    }
    let results = indexer.search(vec!["word999"]);
    assert_eq!(results.len(), 1);
    assert_eq!(results[0].matches.len(), 1);
    assert_eq!(results[0].matches[0].id, 999);
    assert_eq!(results[0].matches[0].title, "Title 999");
    assert_eq!(indexer.search(vec!["common"])[0].matches.len(), 1000);
}

#[test]
fn cache_round_trip() {
    let text = corpus(300);
    let mut built = RayonIndexer::new();
    built.build_with(text.clone(), 5);
    let stored = SerializedIndex {
        inverted_index: built.get_serialized_inverted_index(),
        documents: built.get_serialized_documents(),
        file_contents: text.clone(),
    };
    let mut loaded = ThreadPoolIndexer::new_dashmap(2, 2);
    assert!(loaded.build_from_serialized(stored));
    assert_eq!(loaded.num_documents(), 300);
    assert_eq!(loaded.num_tokens(), built.num_tokens());
    for q in 0..50 {
        let first = format!("word{}", q * 7);
        let second = format!("Item{}", q % 9);
        let query = vec![first.as_str(), "common", second.as_str(), "missing", "RUNS the"];
        let a = built.search(query.clone());
        let b = loaded.search(query);
        assert_eq!(hits(&a), hits(&b));
        assert!(a.len() >= 2);
    }
}

#[test]
fn backend_equivalence() {
    let text = corpus(520);
    let mut mapreduce = RayonIndexer::new();
    mapreduce.build_with(text.clone(), 6);
    let mut partitioned = ThreadPoolIndexer::new_hashmap(6, 3);
    partitioned.build_from_file_contents(text.clone());
    let mut shared = ThreadPoolIndexer::new_dashmap(6, 5);
    shared.build_from_file_contents(text.clone());
    let a = index_of(&|| mapreduce.get_serialized_inverted_index());
    let b = index_of(&|| partitioned.get_serialized_inverted_index());
    let c = index_of(&|| shared.get_serialized_inverted_index());
    assert_eq!(a.len(), 520 + 1 + 7 + 1);
    assert_eq!(a, b);
    assert_eq!(a, c);
    assert_eq!(mapreduce.get_serialized_documents(), partitioned.get_serialized_documents());
    assert_eq!(mapreduce.get_serialized_documents(), shared.get_serialized_documents());
    assert_eq!(mapreduce.num_tokens(), shared.num_tokens());
}

#[test]
fn results_follow_the_order_of_the_query() {
    let mut indexer = RayonIndexer::new();
    indexer.build_with(corpus(20), 2);
    let results = indexer.search(vec!["word3 missing word1", "", "the", "word1 Running"]);
    let terms: Vec<&str> = results.iter().map(|r| r.term.as_str()).collect();
    assert_eq!(terms, vec!["word3", "word1", "word1", "run"]);
    assert_eq!(results[3].matches.len(), 20);
    let ids: BTreeSet<i32> = results[3].matches.iter().map(|d| d.id).collect();
    assert_eq!(ids.len(), 20);
    assert_eq!(indexer.search(Vec::new()).len(), 0);
}

#[test]
fn an_empty_corpus_gives_an_empty_indexer() {
    let mut indexer = RayonIndexer::new();
    assert_eq!(indexer.num_documents(), 0);
    assert_eq!(indexer.num_tokens(), 0);
    indexer.build_from_file_contents(String::new());
    assert_eq!(indexer.num_documents(), 0);
    assert_eq!(indexer.num_tokens(), 0);
    assert_eq!(indexer.search(vec!["fox"]).len(), 0);
}

#[test]
fn artifacts_that_do_not_belong_together_are_not_loaded() {
    let text = corpus(10);
    let mut built = RayonIndexer::new();
    built.build_with(text.clone(), 2);
    let index = built.get_serialized_inverted_index();
    let documents = built.get_serialized_documents();
    let mut other = RayonIndexer::new();
    other.build_with(corpus(3), 1);
    // a corrupt index
    assert!(!other.build_from_serialized(SerializedIndex {
        inverted_index: index[..index.len() - 1].to_vec(),
        documents: documents.clone(),
        file_contents: text.clone(),
    }));
    // a corrupt table
    assert!(!other.build_from_serialized(SerializedIndex {
        inverted_index: index.clone(),
        documents: vec![9, 9, 9],
        file_contents: text.clone(),
    }));
    // a corpus that is too short for the records
    assert!(!other.build_from_serialized(SerializedIndex {
        inverted_index: index.clone(),
        documents: documents.clone(),
        file_contents: String::from("short"),
    }));
    // a table with fewer records than the index has ids
    let mut small = RayonIndexer::new();
    small.build_with(corpus(3), 1);
    assert!(!other.build_from_serialized(SerializedIndex {
        inverted_index: index.clone(),
        documents: small.get_serialized_documents(),
        file_contents: text.clone(),
    }));
    assert_eq!(other.num_documents(), 3);
    assert_eq!(other.search(vec!["word2"]).len(), 1);
    assert!(other.build_from_serialized(SerializedIndex {
        inverted_index: index,
        documents,
        file_contents: text,
    }));
    assert_eq!(other.num_documents(), 10);
}

#[test]
fn parts_that_were_built_elsewhere_are_checked() {
    let text = corpus(4);
    let table = fulltext::table::parse_corpus(&text, 2);
    let analyzer = fulltext::analyzer::Analyzer::new_english();
    let index = fulltext::indexing::index_docs_index_only(&text, &table, &analyzer);
    let indexer = RayonIndexer::from_parts(index, table, text.clone()).expect("the parts fit");
    assert_eq!(indexer.num_documents(), 4);
    assert_eq!(indexer.search(vec!["word3"])[0].matches[0].title, "Title 3");

    let mut wrong = InvertedIndex::new();
    wrong.add(String::from("fox"), 4);
    let table = fulltext::table::parse_corpus(&text, 2);
    assert!(RayonIndexer::from_parts(wrong, table, text.clone()).is_none());

    let mut swapped = fulltext::table::parse_corpus(&text, 2);
    swapped.swap(0, 1);
    assert!(RayonIndexer::from_parts(InvertedIndex::new(), swapped, text.clone()).is_none());

    let mut shared = SharedIndex::new();
    shared.add(String::from("fox"), 3);
    let table = fulltext::table::parse_corpus(&text, 2);
    let indexer = ThreadPoolIndexer::from_parts(IndexType::MultiThread(shared), table, text.clone(), 2, 2)
        .expect("the parts fit");
    assert_eq!(indexer.search(vec!["foxes"])[0].matches[0].id, 3);
    let table = fulltext::table::parse_corpus(&text, 2);
    assert!(ThreadPoolIndexer::from_parts(
        IndexType::SingleThread(InvertedIndex::new()),
        table,
        String::from("x"),
        1,
        1
    )
    .is_none());
}

#[test]
fn a_record_is_materialized_from_the_corpus() {
    let text = "xx€Title€url€body";
    let record = DocumentRaw { title: 5..10, url: 13..16, text: 19..23, id: 4 };
    assert!(record.fits_text(text));
    let document: Document = record.to_document(text);
    assert_eq!(document.title, "Title");
    assert_eq!(document.url, "url");
    assert_eq!(document.text, "body");
    assert_eq!(document.id, 4);
    let copy = record.duplicate();
    assert_eq!((copy.title.start, copy.title.end, copy.id), (5, 10, 4));
    let blank = DocumentRaw::default();
    assert_eq!((blank.title.start, blank.title.end, blank.url.end, blank.text.end, blank.id), (0, 0, 0, 0, 0));
    assert!(blank.fits_text(text));
    assert_eq!(blank.to_document(text).title, "");
}

#[test]
fn a_record_that_cuts_a_character_does_not_fit() {
    let text = "xx€Title";
    assert!(!DocumentRaw { title: 3..10, url: 0..0, text: 0..0, id: 0 }.fits_text(text));
    assert!(!DocumentRaw { title: 0..0, url: 5..4, text: 0..0, id: 0 }.fits_text(text));
    assert!(!DocumentRaw { title: 0..0, url: 0..0, text: 5..11, id: 0 }.fits_text(text));
    assert!(DocumentRaw { title: 0..0, url: 0..0, text: 5..10, id: 0 }.fits_text(text));
}

#[test]
fn a_corpus_in_other_scripts_is_cut_at_characters() {
    let mut text = String::new();
    for i in 0..200 {
        text.push_str(&format!(
            "<doc><title>Überschrift {} 猫</title><url>http://x/ü{}</url><abstract>größer 東京 naïve wort{} 😀</abstract></doc>",
            i, i, i
        ));
    }
    for pieces in [1usize, 3, 7, 16] {
        let mut indexer = ThreadPoolIndexer::new_dashmap(pieces, 2);
        indexer.build_from_file_contents(text.clone());
        assert_eq!(indexer.num_documents(), 200);
        let results = indexer.search(vec!["WORT150", "東京"]);
        assert_eq!(results.len(), 2);
        assert_eq!(results[0].term, "wort150");
        assert_eq!(results[0].matches.len(), 1);
        assert_eq!(results[0].matches[0].title, "Überschrift 150 猫");
        assert_eq!(results[0].matches[0].url, "http://x/ü150");
        assert_eq!(results[0].matches[0].text, "größer 東京 naïve wort150 😀");
        assert_eq!(results[1].term, "東京");
        assert_eq!(results[1].matches.len(), 200);
        let table = decode_documents(&indexer.get_serialized_documents()).expect("a stored table");
        for record in &table {
            assert!(record.fits_text(&text));
        }
    }
}

#[test]
fn records_and_documents_compare_by_id() {
    let a = DocumentRaw { title: 1..2, url: 0..0, text: 0..0, id: 3 };
    let b = DocumentRaw { title: 7..9, url: 1..1, text: 2..2, id: 3 };
    let c = DocumentRaw { title: 1..2, url: 0..0, text: 0..0, id: 4 };
    assert!(a == b);
    assert!(a != c);
    assert!(a < c);
    assert!(c > b);
    assert!(a <= b && a >= b);
    assert_eq!(a.partial_cmp(&c), Some(std::cmp::Ordering::Less));
    let copy = c.clone();
    assert_eq!((copy.title.start, copy.title.end, copy.id), (1, 2, 4));
    let first = Document { title: String::from("x"), url: String::new(), text: String::new(), id: 1 };
    let second = Document { title: String::from("y"), url: String::new(), text: String::new(), id: 1 };
    let third = Document::default();
    assert!(first == second);
    assert!(third < first);
    assert_eq!(third.id, 0);
    assert_eq!(third.title, "");
    let copied = first.clone();
    assert_eq!(copied.title, "x");
    assert_eq!(copied.id, 1);
}
