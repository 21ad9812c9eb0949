use fulltext::index::{fill, InvertedIndex, Postings};
use fulltext::shared::SharedIndex;
use std::collections::BTreeSet;

fn sorted(ids: Option<Vec<i32>>) -> Option<Vec<i32>> {
    ids.map(|mut v| {
        v.sort();
        v
    })
}

fn as_sets(mut entries: Vec<(String, Vec<i32>)>) -> Vec<(String, BTreeSet<i32>)> {
    entries.sort();
    entries.into_iter().map(|(term, ids)| (term, ids.into_iter().collect())).collect()
}

#[test]
fn a_new_index_has_no_terms() {
    let index = InvertedIndex::new();
    assert_eq!(index.len(), 0);
    assert!(index.get("fox").is_none());
    assert_eq!(index.ids("fox"), None);
    assert_eq!(index.entries().len(), 0);
}

#[test]
fn add_collects_ids_under_terms() {
    let mut index = InvertedIndex::new();
    index.add(String::from("fox"), 3);
    index.add(String::from("dog"), 1);
    index.add(String::from("fox"), 1);
    index.add(String::from("fox"), 3);
    assert_eq!(index.len(), 2);
    assert_eq!(sorted(index.ids("fox")), Some(vec![1, 3]));
    assert_eq!(sorted(index.ids("dog")), Some(vec![1]));
    assert_eq!(index.ids("cat"), None);
    let set = index.get("fox").expect("fox is held");
    assert_eq!(set.len(), 2);
    assert!(set.contains(&1) && set.contains(&3));
}

#[test]
fn merge_unites_the_sets_of_common_terms() {
    let mut left = InvertedIndex::new();
    left.add(String::from("fox"), 1);
    left.add(String::from("dog"), 2);
    let mut right = InvertedIndex::new();
    right.add(String::from("fox"), 5);
    right.add(String::from("fox"), 1);
    right.add(String::from("cat"), 9);
    left.merge(right);
    assert_eq!(left.len(), 3);
    assert_eq!(sorted(left.ids("fox")), Some(vec![1, 5]));
    assert_eq!(sorted(left.ids("dog")), Some(vec![2]));
    assert_eq!(sorted(left.ids("cat")), Some(vec![9]));
}

#[test]
fn merge_with_an_empty_index_changes_nothing() {
    let mut left = InvertedIndex::new();
    left.add(String::from("fox"), 1);
    left.merge(InvertedIndex::new());
    assert_eq!(left.len(), 1);
    let mut empty = InvertedIndex::new();
    empty.merge(left);
    assert_eq!(sorted(empty.ids("fox")), Some(vec![1]));
}

#[test]
fn entries_and_fill_give_the_index_back() {
    let mut index = InvertedIndex::new();
    index.add(String::from("fox"), 3);
    index.add(String::from("dog"), 1);
    index.add(String::from("fox"), 7);
    let entries = index.entries();
    assert_eq!(
        as_sets(entries.clone()),
        vec![
            (String::from("dog"), [1].into_iter().collect()),
            (String::from("fox"), [3, 7].into_iter().collect()),
        ]
    );
    let mut copy = InvertedIndex::new();
    fill(&mut copy, entries);
    assert_eq!(as_sets(copy.entries()), as_sets(index.entries()));
}

#[test]
fn fill_unites_entries_of_one_term() {
    let mut index = InvertedIndex::new();
    fill(
        &mut index,
        vec![
            (String::from("fox"), vec![1, 2]),
            (String::from("dog"), vec![]),
            (String::from("fox"), vec![2, 3, 3]),
        ],
    );
    assert_eq!(index.len(), 2);
    assert_eq!(sorted(index.ids("fox")), Some(vec![1, 2, 3]));
    assert_eq!(index.ids("dog"), Some(vec![]));
}

#[test]
fn the_shared_index_collects_ids_under_terms() {
    let mut index = SharedIndex::new();
    assert_eq!(index.count(), 0);
    assert_eq!(index.ids("fox"), None);
    index.add(String::from("fox"), 3);
    index.add(String::from("dog"), 1);
    index.add(String::from("fox"), 1);
    index.add(String::from("fox"), 3);
    assert_eq!(index.count(), 2);
    assert_eq!(sorted(index.ids("fox")), Some(vec![1, 3]));
    assert_eq!(sorted(index.ids("dog")), Some(vec![1]));
    assert_eq!(index.ids("cat"), None);
    assert_eq!(
        as_sets(index.entries()),
        vec![
            (String::from("dog"), [1].into_iter().collect()),
            (String::from("fox"), [1, 3].into_iter().collect()),
        ]
    );
}

#[test]
fn the_shared_index_absorbs_entries() {
    let mut index = SharedIndex::new();
    fill(
        &mut index,
        vec![
            (String::from("fox"), vec![1, 2]),
            (String::from("dog"), vec![]),
            (String::from("fox"), vec![2, 3]),
        ],
    );
    assert_eq!(index.count(), 2);
    assert_eq!(sorted(index.ids("fox")), Some(vec![1, 2, 3]));
    assert_eq!(index.ids("dog"), Some(vec![]));
}

#[test]
fn a_map_that_was_filled_elsewhere_is_adopted() {
    let map: dashmap::DashMap<String, dashmap::DashSet<i32>> = dashmap::DashMap::new();
    let set = dashmap::DashSet::new();
    set.insert(4);
    set.insert(2);
    map.insert(String::from("fox"), set);
    let index = SharedIndex::adopt(map);
    assert_eq!(index.count(), 1);
    assert_eq!(sorted(index.ids("fox")), Some(vec![2, 4]));
}
