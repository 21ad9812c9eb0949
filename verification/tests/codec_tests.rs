use fulltext::codec::{
    decode_documents, decode_entries, encode_documents, encode_entries, FORMAT_VERSION,
};
use fulltext::documents::DocumentRaw;

fn record(numbers: [usize; 6], id: i32) -> DocumentRaw {
    DocumentRaw {
        title: numbers[0]..numbers[1],
        url: numbers[2]..numbers[3],
        text: numbers[4]..numbers[5],
        id,
    }
}

fn numbers(record: &DocumentRaw) -> ([usize; 6], i32) {
    (
        [
            record.title.start,
            record.title.end,
            record.url.start,
            record.url.end,
            record.text.start,
            record.text.end,
        ],
        record.id,
    )
}

fn word(x: u64) -> Vec<u8> {
    x.to_le_bytes().to_vec()
}

#[test]
fn a_table_is_stored_as_version_count_and_records() {
    let table = vec![record([1, 2, 3, 4, 5, 6], 7)];
    let mut expected = vec![1u8];
    expected.extend(word(1));
    for x in 1..7 {
        expected.extend(word(x));
    }
    expected.extend(vec![0x07, 0, 0, 0x80, 0, 0, 0, 0]);
    assert_eq!(FORMAT_VERSION, 1);
    assert_eq!(encode_documents(&table), expected);
    assert_eq!(expected.len(), 65);
}

#[test]
fn an_empty_table_is_nine_bytes() {
    assert_eq!(encode_documents(&Vec::new()), vec![1, 0, 0, 0, 0, 0, 0, 0, 0]);
    assert_eq!(decode_documents(&[1, 0, 0, 0, 0, 0, 0, 0, 0]).map(|t| t.len()), Some(0));
}

#[test]
fn a_stored_table_is_read_back() {
    let table = vec![
        record([0, 0, 0, 0, 0, 0], 0),
        record([10, 20, 30, 40, 50, 60], 1),
        record([usize::MAX, 0, 7, 7, 1 << 40, 3], -5),
        record([1, 1, 1, 1, 1, 1], i32::MAX),
        record([2, 2, 2, 2, 2, 2], i32::MIN),
    ];
    let back = decode_documents(&encode_documents(&table)).expect("the stored form is read back");
    assert_eq!(back.len(), table.len());
    for k in 0..table.len() {
        assert_eq!(numbers(&back[k]), numbers(&table[k]));
    }
}

#[test]
fn bytes_that_are_no_table_are_refused() {
    let good = encode_documents(&vec![record([1, 2, 3, 4, 5, 6], 7)]);
    assert!(decode_documents(&good).is_some());
    assert!(decode_documents(&[]).is_none());
    assert!(decode_documents(&[1]).is_none());
    let mut stale = good.clone();
    stale[0] = 2;
    assert!(decode_documents(&stale).is_none());
    assert!(decode_documents(&good[..good.len() - 1]).is_none());
    let mut longer = good.clone();
    longer.push(0);
    assert!(decode_documents(&longer).is_none());
    let mut count = good.clone();
    count[1] = 2;
    assert!(decode_documents(&count).is_none());
    let mut id = good.clone();
    id[9 + 48 + 4] = 1;
    assert!(decode_documents(&id).is_none());
}

#[test]
fn entries_are_stored_with_their_lengths() {
    let entries = vec![(String::from("ab"), vec![0, -1])];
    let mut expected = vec![1u8];
    expected.extend(word(1));
    expected.extend(word(2));
    expected.extend(vec![b'a', b'b']);
    expected.extend(word(2));
    expected.extend(word(0x8000_0000));
    expected.extend(word(0x7fff_ffff));
    assert_eq!(encode_entries(&entries), expected);
}

#[test]
fn stored_entries_are_read_back() {
    let entries = vec![
        (String::from("fox"), vec![1, 2, 3]),
        (String::from(""), vec![]),
        (String::from("über€😀"), vec![i32::MAX, i32::MIN, 0]),
        (String::from("fox"), vec![3]),
    ];
    let back = decode_entries(&encode_entries(&entries));
    assert_eq!(back, Some(entries));
    assert_eq!(decode_entries(&encode_entries(&Vec::new())), Some(Vec::new()));
}

#[test]
fn bytes_that_are_no_entries_are_refused() {
    let good = encode_entries(&vec![(String::from("fox"), vec![1, 2])]);
    assert!(decode_entries(&good).is_some());
    assert!(decode_entries(&[]).is_none());
    let mut stale = good.clone();
    stale[0] = 0;
    assert!(decode_entries(&stale).is_none());
    assert!(decode_entries(&good[..good.len() - 1]).is_none());
    let mut longer = good.clone();
    longer.push(0);
    assert!(decode_entries(&longer).is_none());
    let mut count = good.clone();
    count[1] = 2;
    assert!(decode_entries(&count).is_none());
    let mut term = good.clone();
    term[9 + 8] = 0xff;
    assert!(decode_entries(&term).is_none());
    let mut length = good.clone();
    length[9] = 200;
    assert!(decode_entries(&length).is_none());
    let mut id = good.clone();
    id[9 + 8 + 3 + 8 + 5] = 1;
    assert!(decode_entries(&id).is_none());
    let mut many = good.clone();
    many[9 + 8 + 3 + 7] = 0xff;
    assert!(decode_entries(&many).is_none());
}
