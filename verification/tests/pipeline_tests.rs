use fulltext::analyzer::Analyzer;
use fulltext::chunker::ContentsSplit;
use fulltext::index::{InvertedIndex, Postings};
use fulltext::indexing::{add_documents, index_all_docs, index_docs_index_only};
use fulltext::pipeline::{
    dashmap_index_task, feed_batches, index_task, parse_documents, parse_task, reduce_indices, BATCH,
};
use fulltext::shared::SharedIndex;
use fulltext::table::{collect_documents, number_by_place, parse_corpus, split_corpus};
use std::collections::BTreeSet;

fn corpus(count: usize) -> String {
    let mut text = String::new();
    for i in 0..count {
        text.push_str(&format!(
            "<doc><title>Title {}</title><url>http://x/{}</url><abstract>word{} common item{}</abstract></doc>\n",
            i,
            i,
            i,
            i % 7
        ));
    }
    text
}

fn as_sets(mut entries: Vec<(String, Vec<i32>)>) -> Vec<(String, BTreeSet<i32>)> {
    entries.sort();
    entries.into_iter().map(|(term, ids)| (term, ids.into_iter().collect())).collect()
}

#[test]
fn a_parser_cuts_its_documents_into_batches() {
    assert_eq!(BATCH, 100);
    let text = corpus(250);
    let (batches, all) = parse_task(&ContentsSplit { base_offset: 0, data: &text }, 0);
    assert_eq!(all.len(), 250);
    assert_eq!(batches.len(), 3);
    assert_eq!(batches[0].len(), 100);
    assert_eq!(batches[1].len(), 100);
    assert_eq!(batches[2].len(), 50);
    let mut k = 0;
    for batch in &batches {
        for record in batch {
            assert_eq!(record.id, all[k].id);
            assert_eq!(record.text.start, all[k].text.start);
            assert_eq!(record.text.end, all[k].text.end);
            k += 1;
        }
    }
    assert_eq!(k, 250);
}

#[test]
fn the_last_batch_is_empty_after_full_batches() {
    let text = corpus(200);
    let (batches, all) = parse_task(&ContentsSplit { base_offset: 0, data: &text }, 40);
    assert_eq!(all.len(), 200);
    assert_eq!(all[0].id, 40);
    assert_eq!(all[199].id, 239);
    assert_eq!(batches.len(), 3);
    assert_eq!(batches[2].len(), 0);
    let (batches, all) = parse_task(&ContentsSplit { base_offset: 0, data: "" }, 0);
    assert_eq!(all.len(), 0);
    assert_eq!(batches.len(), 1);
    assert_eq!(batches[0].len(), 0);
}

#[test]
fn the_table_numbers_the_documents_of_all_pieces() {
    let text = corpus(1000);
    for n in [1usize, 2, 3, 8, 13] {
        let table = parse_corpus(&text, n);
        assert_eq!(table.len(), 1000);
        for (k, record) in table.iter().enumerate() {
            assert_eq!(record.id, k as i32);
            assert_eq!(&text[record.title.start..record.title.end], format!("Title {}", k));
            assert!(record.fits_text(&text));
        }
    }
}

#[test]
fn parsers_fill_one_queue_and_one_table() {
    let text = corpus(430);
    let chunks = split_corpus(&text, 4);
    let (queue, table) = parse_documents(&text, &chunks);
    let collected = collect_documents(&text, &chunks);
    assert_eq!(table.len(), 430);
    assert_eq!(collected.len(), 430);
    let mut k = 0;
    for batch in &queue {
        assert!(batch.len() <= BATCH);
        for record in batch {
            assert_eq!(record.id, k as i32);
            assert_eq!(record.id, table[k].id);
            assert_eq!(record.text.start, collected[k].text.start);
            k += 1;
        }
    }
    assert_eq!(k, 430);
    assert!(queue.len() >= chunks.len());
}

#[test]
fn every_way_of_indexing_gives_the_same_index() {
    let text = corpus(230);
    let analyzer = Analyzer::new_english();
    let chunks = split_corpus(&text, 3);
    let (queue, table) = parse_documents(&text, &chunks);
    let whole = index_docs_index_only(&text, &table, &analyzer);
    let expected = as_sets(whole.entries());
    assert_eq!(whole.len(), 230 + 1 + 7);
    for n in [1usize, 2, 7, 500] {
        assert_eq!(as_sets(index_all_docs(&text, &table, n, &analyzer).entries()), expected);
    }
    assert_eq!(as_sets(index_task(&queue, &analyzer, &text).entries()), expected);
    let mut shared = SharedIndex::new();
    dashmap_index_task(&queue, &mut shared, &analyzer, &text);
    assert_eq!(as_sets(shared.entries()), expected);
    let mut fed = InvertedIndex::new();
    feed_batches(&mut fed, &text, &queue, &analyzer);
    assert_eq!(as_sets(fed.entries()), expected);
    let mut halves = Vec::new();
    halves.push(index_docs_index_only(&text, &table[..100], &analyzer));
    halves.push(index_docs_index_only(&text, &table[100..], &analyzer));
    halves.push(InvertedIndex::new());
    assert_eq!(as_sets(reduce_indices(halves).entries()), expected);
    let mut step = InvertedIndex::new();
    add_documents(&mut step, &text, &table[..10], &analyzer);
    add_documents(&mut step, &text, &table[10..], &analyzer);
    assert_eq!(as_sets(step.entries()), expected);
}

#[test]
fn numbering_by_place_overwrites_the_ids() {
    let text = corpus(5);
    let mut table = parse_corpus(&text, 1);
    table.swap(0, 4);
    table[2].id = -7;
    number_by_place(&mut table);
    assert_eq!(table.len(), 5);
    for (k, record) in table.iter().enumerate() {
        assert_eq!(record.id, k as i32);
    }
    assert_eq!(&text[table[0].title.start..table[0].title.end], "Title 4");
}
