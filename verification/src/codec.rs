//! The stored form of a document table and of an inverted index: a version
//! byte, a count, and length-prefixed fields of little-endian 64-bit words.
use crate::documents::DocumentRaw;
use crate::index::entry_views;
use core::ops::Range;
use vstd::bytes::{
    lemma_auto_spec_u64_to_from_le_bytes, spec_u64_from_le_bytes, spec_u64_to_le_bytes,
    u64_from_le_bytes, u64_to_le_bytes,
};
use vstd::prelude::*;
use vstd::slice::slice_subrange;
use vstd::string::StringSliceAdditionalSpecFns;
use vstd::utf8::*;

verus! {

/// The first byte of every stored artifact. An artifact that begins with
/// another byte is stale.
pub const FORMAT_VERSION: u8 = 1;

/// The bytes of a word.
pub open spec fn word(x: u64) -> Seq<u8> {
    spec_u64_to_le_bytes(x)
}

/// The word that stands at `at`.
pub open spec fn word_at(bytes: Seq<u8>, at: int) -> u64 {
    spec_u64_from_le_bytes(bytes.subrange(at, at + 8))
}

/// A word has eight bytes, and reading them gives the word back.
pub proof fn lemma_word(x: u64)
    ensures
        word(x).len() == 8,
        spec_u64_from_le_bytes(word(x)) == x,
{
    lemma_auto_spec_u64_to_from_le_bytes();
}

/// The word that was written behind `before` is read there.
pub proof fn lemma_word_at(before: Seq<u8>, x: u64, after: Seq<u8>)
    ensures
        word_at(before + word(x) + after, before.len() as int) == x,
{
    lemma_word(x);
    assert((before + word(x) + after).subrange(before.len() as int, before.len() as int + 8) =~= word(x));
}

/// The word that stands for an id.
pub open spec fn id_word(id: i32) -> u64 {
    (id + 0x8000_0000) as u64
}

/// Whether the word stands for an id.
pub open spec fn is_id_word(w: u64) -> bool {
    w <= 0xffff_ffff
}

/// The id that the word stands for.
pub open spec fn word_id(w: u64) -> i32 {
    (w - 0x8000_0000) as i32
}

/// Whether the word fits an offset on this machine.
pub open spec fn is_offset_word(w: u64) -> bool {
    w <= usize::MAX
}

fn put_word(out: &mut Vec<u8>, x: u64)
    ensures
        final(out)@ == old(out)@ + word(x),
{
    let mut bytes = u64_to_le_bytes(x);
    out.append(&mut bytes);
}

fn put_id(out: &mut Vec<u8>, id: i32)
    ensures
        final(out)@ == old(out)@ + word(id_word(id)),
{
    let shifted: i64 = id as i64 + 0x8000_0000;
    put_word(out, shifted as u64);
}

fn put_offset(out: &mut Vec<u8>, offset: usize)
    ensures
        final(out)@ == old(out)@ + word(offset as u64),
{
    put_word(out, offset as u64);
}

fn get_word(bytes: &[u8], at: usize) -> (x: u64)
    requires
        at + 8 <= bytes@.len(),
    ensures
        x == word_at(bytes@, at as int),
{
    assert(bytes@.len() == bytes.len());
    u64_from_le_bytes(slice_subrange(bytes, at, at + 8))
}

fn get_offset(bytes: &[u8], at: usize) -> (offset: Option<usize>)
    requires
        at + 8 <= bytes@.len(),
    ensures
        match offset {
            Some(o) => is_offset_word(word_at(bytes@, at as int)) && o == word_at(bytes@, at as int),
            None => !is_offset_word(word_at(bytes@, at as int)),
        },
{
    let w = get_word(bytes, at);
    if w <= usize::MAX as u64 {
        Some(w as usize)
    } else {
        None
    }
}

fn get_id(bytes: &[u8], at: usize) -> (id: Option<i32>)
    requires
        at + 8 <= bytes@.len(),
    ensures
        match id {
            Some(i) => is_id_word(word_at(bytes@, at as int)) && i == word_id(
                word_at(bytes@, at as int),
            ),
            None => !is_id_word(word_at(bytes@, at as int)),
        },
{
    let w = get_word(bytes, at);
    if w <= 0xffff_ffff {
        Some((w as i64 - 0x8000_0000) as i32)
    } else {
        None
    }
}

/// The number of bytes of a stored record: six offsets and an id.
pub const RECORD_BYTES: usize = 56;

/// The stored form of a record.
pub open spec fn record_bytes(record: DocumentRaw) -> Seq<u8> {
    word(record.title.start as u64) + word(record.title.end as u64) + word(
        record.url.start as u64,
    ) + word(record.url.end as u64) + word(record.text.start as u64) + word(
        record.text.end as u64,
    ) + word(id_word(record.id))
}

/// The stored form of records, one behind the other.
pub open spec fn records_bytes(table: Seq<DocumentRaw>) -> Seq<u8>
    decreases table.len(),
{
    if table.len() == 0 {
        Seq::empty()
    } else {
        records_bytes(table.drop_last()) + record_bytes(table.last())
    }
}

/// The stored form of a document table: the version, the number of
/// records, and the records in the order of the table.
pub open spec fn table_bytes(table: Seq<DocumentRaw>) -> Seq<u8> {
    seq![FORMAT_VERSION] + word(table.len() as u64) + records_bytes(table)
}

/// Whether a record can be read at `at`.
pub open spec fn is_record_at(bytes: Seq<u8>, at: int) -> bool {
    &&& is_offset_word(word_at(bytes, at))
    &&& is_offset_word(word_at(bytes, at + 8))
    &&& is_offset_word(word_at(bytes, at + 16))
    &&& is_offset_word(word_at(bytes, at + 24))
    &&& is_offset_word(word_at(bytes, at + 32))
    &&& is_offset_word(word_at(bytes, at + 40))
    &&& is_id_word(word_at(bytes, at + 48))
}

/// The record that is read at `at`.
pub open spec fn record_at(bytes: Seq<u8>, at: int) -> DocumentRaw {
    DocumentRaw {
        title: Range {
            start: word_at(bytes, at) as usize,
            end: word_at(bytes, at + 8) as usize,
        },
        url: Range {
            start: word_at(bytes, at + 16) as usize,
            end: word_at(bytes, at + 24) as usize,
        },
        text: Range {
            start: word_at(bytes, at + 32) as usize,
            end: word_at(bytes, at + 40) as usize,
        },
        id: word_id(word_at(bytes, at + 48)),
    }
}

/// Where record `k` of a stored table begins.
pub open spec fn record_start(k: int) -> int {
    9 + k * RECORD_BYTES
}

/// The table that the bytes are the stored form of, if they are one: they
/// begin with the version and a count, and hold exactly that many records.
pub open spec fn stored_table(bytes: Seq<u8>) -> Option<Seq<DocumentRaw>> {
    if bytes.len() < 9 || bytes[0] != FORMAT_VERSION {
        None
    } else {
        let count = word_at(bytes, 1) as int;
        if bytes.len() - 9 != count * RECORD_BYTES || !(forall|k: int|
            0 <= k < count ==> #[trigger] is_record_at(bytes, record_start(k))) {
            None
        } else {
            Some(Seq::new(count as nat, |k: int| record_at(bytes, record_start(k))))
        }
    }
}

/// A record that is written behind `before` is read there.
pub proof fn lemma_record_at(before: Seq<u8>, record: DocumentRaw, after: Seq<u8>)
    ensures
        record_bytes(record).len() == RECORD_BYTES,
        is_record_at(before + record_bytes(record) + after, before.len() as int),
        record_at(before + record_bytes(record) + after, before.len() as int) == record,
{
    let w0 = word(record.title.start as u64);
    let w1 = word(record.title.end as u64);
    let w2 = word(record.url.start as u64);
    let w3 = word(record.url.end as u64);
    let w4 = word(record.text.start as u64);
    let w5 = word(record.text.end as u64);
    let w6 = word(id_word(record.id));
    lemma_word(record.title.start as u64);
    lemma_word(record.title.end as u64);
    lemma_word(record.url.start as u64);
    lemma_word(record.url.end as u64);
    lemma_word(record.text.start as u64);
    lemma_word(record.text.end as u64);
    lemma_word(id_word(record.id));
    let all = before + record_bytes(record) + after;
    let at = before.len() as int;
    assert(all.subrange(at, at + 8) =~= w0);
    assert(all.subrange(at + 8, at + 16) =~= w1);
    assert(all.subrange(at + 16, at + 24) =~= w2);
    assert(all.subrange(at + 24, at + 32) =~= w3);
    assert(all.subrange(at + 32, at + 40) =~= w4);
    assert(all.subrange(at + 40, at + 48) =~= w5);
    assert(all.subrange(at + 48, at + 56) =~= w6);
}

/// Records that are written behind `before` are read there, each at its
/// place.
pub proof fn lemma_records_at(before: Seq<u8>, table: Seq<DocumentRaw>, after: Seq<u8>)
    ensures
        records_bytes(table).len() == table.len() * RECORD_BYTES,
        forall|k: int|
            0 <= k < table.len() ==> {
                &&& #[trigger] is_record_at(
                    before + records_bytes(table) + after,
                    before.len() + k * RECORD_BYTES,
                )
                &&& record_at(
                    before + records_bytes(table) + after,
                    before.len() + k * RECORD_BYTES,
                ) == table[k]
            },
    decreases table.len(),
{
    if table.len() > 0 {
        let front = table.drop_last();
        let last = table.last();
        let all = before + records_bytes(table) + after;
        lemma_records_at(before, front, record_bytes(last) + after);
        lemma_record_at(before + records_bytes(front), last, after);
        assert(before + records_bytes(front) + (record_bytes(last) + after) =~= all);
        assert(before + records_bytes(front) + record_bytes(last) + after =~= all);
        assert forall|k: int| 0 <= k < table.len() implies {
            &&& #[trigger] is_record_at(all, before.len() + k * RECORD_BYTES)
            &&& record_at(all, before.len() + k * RECORD_BYTES) == table[k]
        } by {
            if k < front.len() {
                assert(is_record_at(
                    before + records_bytes(front) + (record_bytes(last) + after),
                    before.len() + k * RECORD_BYTES,
                ));
                assert(front[k] == table[k]);
            }
        }
    }
}

/// Reading the stored form of a table gives the table back.
pub proof fn lemma_table_round_trip(table: Seq<DocumentRaw>)
    requires
        table.len() <= u64::MAX,
    ensures
        stored_table(table_bytes(table)) == Some(table),
{
    let bytes = table_bytes(table);
    let head = seq![FORMAT_VERSION];
    let count = table.len() as u64;
    lemma_word(count);
    lemma_word_at(head, count, records_bytes(table));
    lemma_records_at(head + word(count), table, Seq::empty());
    assert(head + word(count) + records_bytes(table) + Seq::<u8>::empty() =~= bytes);
    assert(bytes[0] == FORMAT_VERSION);
    assert forall|k: int| 0 <= k < count implies #[trigger] is_record_at(
        bytes,
        record_start(k),
    ) by {
        assert(is_record_at(bytes, (head + word(count)).len() + k * RECORD_BYTES));
    }
    assert(stored_table(bytes).unwrap() =~= table) by {
        assert forall|k: int| 0 <= k < count implies record_at(bytes, record_start(k))
            == table[k] by {
            assert(is_record_at(bytes, (head + word(count)).len() + k * RECORD_BYTES));
        }
    }
}

/// Writes a document table in its stored form.
pub fn encode_documents(table: &Vec<DocumentRaw>) -> (bytes: Vec<u8>)
    ensures
        bytes@ == table_bytes(table@),
        stored_table(bytes@) == Some(table@),
{
    let mut bytes: Vec<u8> = Vec::new();
    bytes.push(FORMAT_VERSION);
    put_offset(&mut bytes, table.len());
    let ghost head = bytes@;
    let mut k: usize = 0;
    proof {
        assert(table@.take(0) =~= Seq::<DocumentRaw>::empty());
        assert(head + records_bytes(Seq::<DocumentRaw>::empty()) =~= head);
    }
    while k < table.len()
        invariant
            k <= table@.len(),
            head == seq![FORMAT_VERSION] + word(table@.len() as u64),
            bytes@ == head + records_bytes(table@.take(k as int)),
        decreases table@.len() - k,
    {
        let record = &table[k];
        let ghost before = bytes@;
        put_offset(&mut bytes, record.title.start);
        put_offset(&mut bytes, record.title.end);
        put_offset(&mut bytes, record.url.start);
        put_offset(&mut bytes, record.url.end);
        put_offset(&mut bytes, record.text.start);
        put_offset(&mut bytes, record.text.end);
        put_id(&mut bytes, record.id);
        proof {
            assert(bytes@ =~= before + record_bytes(*record));
            assert(table@.take(k + 1).drop_last() =~= table@.take(k as int));
            assert(table@.take(k + 1).last() == *record);
            assert(bytes@ =~= head + records_bytes(table@.take(k + 1)));
        }
        k = k + 1;
    }
    proof {
        assert(table@.take(table@.len() as int) =~= table@);
        lemma_table_round_trip(table@);
    }
    bytes
}

/// Reads a document table from its stored form. Bytes that are no stored
/// table give `None`.
pub fn decode_documents(bytes: &[u8]) -> (table: Option<Vec<DocumentRaw>>)
    ensures
        match table {
            Some(t) => stored_table(bytes@) == Some(t@),
            None => stored_table(bytes@).is_none(),
        },
{
    if bytes.len() < 9 || bytes[0] != FORMAT_VERSION {
        return None;
    }
    let count = get_word(bytes, 1);
    let body = bytes.len() - 9;
    if body % RECORD_BYTES != 0 || (body / RECORD_BYTES) as u64 != count {
        return None;
    }
    let count = body / RECORD_BYTES;
    let mut table: Vec<DocumentRaw> = Vec::new();
    let mut k: usize = 0;
    while k < count
        invariant
            k <= count,
            bytes@.len() == bytes.len(),
            bytes@.len() == 9 + count * RECORD_BYTES,
            count == word_at(bytes@, 1),
            bytes@[0] == FORMAT_VERSION,
            table@.len() == k,
            forall|j: int| 0 <= j < k ==> #[trigger] is_record_at(bytes@, record_start(j)),
            forall|j: int| 0 <= j < k ==> table@[j] == record_at(bytes@, record_start(j)),
        decreases count - k,
    {
        let at = 9 + k * RECORD_BYTES;
        assert(at == record_start(k as int));
        let title_start = get_offset(bytes, at);
        let title_end = get_offset(bytes, at + 8);
        let url_start = get_offset(bytes, at + 16);
        let url_end = get_offset(bytes, at + 24);
        let text_start = get_offset(bytes, at + 32);
        let text_end = get_offset(bytes, at + 40);
        let id = get_id(bytes, at + 48);
        match (title_start, title_end, url_start, url_end, text_start, text_end, id) {
            (Some(a), Some(b), Some(c), Some(d), Some(e), Some(f), Some(g)) => {
                table.push(
                    DocumentRaw {
                        title: Range { start: a, end: b },
                        url: Range { start: c, end: d },
                        text: Range { start: e, end: f },
                        id: g,
                    },
                );
            },
            _ => {
                assert(!is_record_at(bytes@, record_start(k as int)));
                return None;
            },
        }
        k = k + 1;
    }
    assert(table@ =~= stored_table(bytes@).unwrap());
    Some(table)
}

/// An index entry: a term and the ids of its documents.
pub type EntryView = (Seq<char>, Seq<i32>);

/// The stored form of ids, one behind the other.
pub open spec fn ids_bytes(ids: Seq<i32>) -> Seq<u8>
    decreases ids.len(),
{
    if ids.len() == 0 {
        Seq::empty()
    } else {
        ids_bytes(ids.drop_last()) + word(id_word(ids.last()))
    }
}

/// The stored form of an entry: the length of the term in bytes, the bytes
/// of the term, the number of ids, and the ids.
pub open spec fn entry_bytes(entry: EntryView) -> Seq<u8> {
    word(encode_utf8(entry.0).len() as u64) + encode_utf8(entry.0) + word(entry.1.len() as u64)
        + ids_bytes(entry.1)
}

/// The stored form of entries, one behind the other.
pub open spec fn entries_bytes(entries: Seq<EntryView>) -> Seq<u8>
    decreases entries.len(),
{
    if entries.len() == 0 {
        Seq::empty()
    } else {
        entries_bytes(entries.drop_last()) + entry_bytes(entries.last())
    }
}

/// The stored form of an inverted index: the version, the number of
/// entries, and the entries.
pub open spec fn index_bytes(entries: Seq<EntryView>) -> Seq<u8> {
    seq![FORMAT_VERSION] + word(entries.len() as u64) + entries_bytes(entries)
}

/// Where id `j` of ids that begin at `at` stands.
pub open spec fn id_start(at: int, j: int) -> int {
    at + 8 * j
}

/// Whether `count` ids can be read from `at` on.
pub open spec fn are_ids_at(bytes: Seq<u8>, at: int, count: int) -> bool {
    forall|j: int| 0 <= j < count ==> is_id_word(word_at(bytes, #[trigger] id_start(at, j)))
}

/// The ids that are read from `at` on.
pub open spec fn ids_at(bytes: Seq<u8>, at: int, count: int) -> Seq<i32> {
    Seq::new(count as nat, |j: int| word_id(word_at(bytes, id_start(at, j))))
}

/// The entry that is read at `at`, with the offset behind it; none where
/// the bytes end too early, the term is not UTF-8, or a word is no id.
pub open spec fn entry_at(bytes: Seq<u8>, at: int) -> Option<(EntryView, int)> {
    if at < 0 || at + 8 > bytes.len() {
        None
    } else {
        let term_end = at + 8 + word_at(bytes, at);
        if term_end + 8 > bytes.len() {
            None
        } else {
            let term = bytes.subrange(at + 8, term_end);
            let count = word_at(bytes, term_end) as int;
            let ids_start = term_end + 8;
            if !valid_utf8(term) || ids_start + 8 * count > bytes.len() || !are_ids_at(
                bytes,
                ids_start,
                count,
            ) {
                None
            } else {
                Some(((decode_utf8(term), ids_at(bytes, ids_start, count)), ids_start + 8 * count))
            }
        }
    }
}

/// The `count` entries that are read from `at` on, if they end where the
/// bytes end.
pub open spec fn entries_at(bytes: Seq<u8>, at: int, count: nat) -> Option<Seq<EntryView>>
    decreases count,
{
    if count == 0 {
        if at == bytes.len() {
            Some(Seq::empty())
        } else {
            None
        }
    } else {
        match entry_at(bytes, at) {
            None => None,
            Some((entry, next)) => match entries_at(bytes, next, (count - 1) as nat) {
                None => None,
                Some(rest) => Some(seq![entry] + rest),
            },
        }
    }
}

/// The entries that the bytes are the stored form of, if they are one.
pub open spec fn stored_entries(bytes: Seq<u8>) -> Option<Seq<EntryView>> {
    if bytes.len() < 9 || bytes[0] != FORMAT_VERSION {
        None
    } else {
        entries_at(bytes, 9, word_at(bytes, 1) as nat)
    }
}

/// Whether the entry can be stored: its lengths fit a word.
pub open spec fn storable(entry: EntryView) -> bool {
    encode_utf8(entry.0).len() <= u64::MAX && entry.1.len() <= u64::MAX
}

/// Ids that are written behind `before` are read there.
pub proof fn lemma_ids_at(before: Seq<u8>, ids: Seq<i32>, after: Seq<u8>)
    ensures
        ids_bytes(ids).len() == 8 * ids.len(),
        are_ids_at(before + ids_bytes(ids) + after, before.len() as int, ids.len() as int),
        ids_at(before + ids_bytes(ids) + after, before.len() as int, ids.len() as int) == ids,
    decreases ids.len(),
{
    let all = before + ids_bytes(ids) + after;
    let at = before.len() as int;
    if ids.len() > 0 {
        let front = ids.drop_last();
        let last = ids.last();
        lemma_ids_at(before, front, word(id_word(last)) + after);
        lemma_word(id_word(last));
        lemma_word_at(before + ids_bytes(front), id_word(last), after);
        assert(before + ids_bytes(front) + (word(id_word(last)) + after) =~= all);
        assert(before + ids_bytes(front) + word(id_word(last)) + after =~= all);
        assert forall|j: int| 0 <= j < ids.len() implies is_id_word(
            word_at(all, #[trigger] id_start(at, j)),
        ) && word_id(word_at(all, id_start(at, j))) == ids[j] by {
            if j < front.len() {
                assert(is_id_word(word_at(all, id_start(at, j))));
                assert(ids_at(all, at, front.len() as int)[j] == front[j]);
            }
        }
        assert(ids_at(all, at, ids.len() as int) =~= ids);
    } else {
        assert(ids_at(all, at, 0) =~= ids);
    }
}

/// An entry that is written behind `before` is read there.
pub proof fn lemma_entry_at(before: Seq<u8>, entry: EntryView, after: Seq<u8>)
    requires
        storable(entry),
    ensures
        entry_at(before + entry_bytes(entry) + after, before.len() as int) == Some(
            (entry, (before.len() + entry_bytes(entry).len()) as int),
        ),
{
    let term = encode_utf8(entry.0);
    let all = before + entry_bytes(entry) + after;
    let at = before.len() as int;
    let w_term = word(term.len() as u64);
    let w_ids = word(entry.1.len() as u64);
    lemma_word(term.len() as u64);
    lemma_word(entry.1.len() as u64);
    lemma_word_at(before, term.len() as u64, term + w_ids + ids_bytes(entry.1) + after);
    assert(before + w_term + (term + w_ids + ids_bytes(entry.1) + after) =~= all);
    lemma_word_at(before + w_term + term, entry.1.len() as u64, ids_bytes(entry.1) + after);
    assert(before + w_term + term + w_ids + (ids_bytes(entry.1) + after) =~= all);
    lemma_ids_at(before + w_term + term + w_ids, entry.1, after);
    assert(before + w_term + term + w_ids + ids_bytes(entry.1) + after =~= all);
    assert(all.subrange(at + 8, at + 8 + term.len()) =~= term);
    encode_utf8_valid_utf8(entry.0);
    encode_utf8_decode_utf8(entry.0);
}

/// The stored form of entries behind one more entry.
pub proof fn lemma_entries_bytes_front(entry: EntryView, rest: Seq<EntryView>)
    ensures
        entries_bytes(seq![entry] + rest) == entry_bytes(entry) + entries_bytes(rest),
    decreases rest.len(),
{
    let all = seq![entry] + rest;
    if rest.len() == 0 {
        assert(all.drop_last() =~= Seq::<EntryView>::empty());
        assert(all.last() == entry);
        assert(entries_bytes(all.drop_last()) =~= Seq::<u8>::empty());
        assert(entries_bytes(rest) =~= Seq::<u8>::empty());
        assert(entries_bytes(all) =~= entry_bytes(entry) + entries_bytes(rest));
    } else {
        lemma_entries_bytes_front(entry, rest.drop_last());
        assert(all.drop_last() =~= seq![entry] + rest.drop_last());
        assert(all.last() == rest.last());
        assert(entries_bytes(all) =~= entry_bytes(entry) + entries_bytes(rest));
    }
}

/// Entries that are written behind `before`, up to the end, are read there.
pub proof fn lemma_entries_at(before: Seq<u8>, entries: Seq<EntryView>)
    requires
        forall|k: int| 0 <= k < entries.len() ==> storable(#[trigger] entries[k]),
    ensures
        entries_at(before + entries_bytes(entries), before.len() as int, entries.len()) == Some(
            entries,
        ),
    decreases entries.len(),
{
    let all = before + entries_bytes(entries);
    if entries.len() == 0 {
        assert(all =~= before);
    } else {
        let first = entries[0];
        let rest = entries.drop_first();
        assert(entries =~= seq![first] + rest);
        lemma_entries_bytes_front(first, rest);
        lemma_entry_at(before, first, entries_bytes(rest));
        assert(before + entry_bytes(first) + entries_bytes(rest) =~= all);
        assert forall|k: int| 0 <= k < rest.len() implies storable(#[trigger] rest[k]) by {
            assert(rest[k] == entries[k + 1]);
        }
        lemma_entries_at(before + entry_bytes(first), rest);
    }
}

/// Reading the stored form of entries gives the entries back.
pub proof fn lemma_entries_round_trip(entries: Seq<EntryView>)
    requires
        entries.len() <= u64::MAX,
        forall|k: int| 0 <= k < entries.len() ==> storable(#[trigger] entries[k]),
    ensures
        stored_entries(index_bytes(entries)) == Some(entries),
{
    let head = seq![FORMAT_VERSION];
    let count = entries.len() as u64;
    lemma_word(count);
    lemma_word_at(head, count, entries_bytes(entries));
    lemma_entries_at(head + word(count), entries);
    assert(index_bytes(entries)[0] == FORMAT_VERSION);
}

/// `core::str::from_utf8`.
///
/// Trusted: the bytes come back as a string slice exactly when they are
/// well-formed UTF-8, and the slice has those bytes.
#[verifier::external_body]
fn text_of(bytes: &[u8]) -> (text: Option<&str>)
    ensures
        match text {
            Some(t) => valid_utf8(bytes@) && t.spec_bytes() == bytes@,
            None => !valid_utf8(bytes@),
        },
{
    core::str::from_utf8(bytes).ok()
}

fn put_bytes(out: &mut Vec<u8>, bytes: &[u8])
    ensures
        final(out)@ == old(out)@ + bytes@,
{
    let ghost before = out@;
    let mut k: usize = 0;
    while k < bytes.len()
        invariant
            k <= bytes@.len(),
            out@ == before + bytes@.take(k as int),
        decreases bytes@.len() - k,
    {
        out.push(bytes[k]);
        assert(out@ =~= before + bytes@.take(k + 1));
        k = k + 1;
    }
    assert(bytes@.take(bytes@.len() as int) =~= bytes@);
}

fn put_ids(out: &mut Vec<u8>, ids: &Vec<i32>)
    ensures
        final(out)@ == old(out)@ + ids_bytes(ids@),
{
    let ghost before = out@;
    let mut j: usize = 0;
    proof {
        assert(ids@.take(0) =~= Seq::<i32>::empty());
        assert(before + ids_bytes(Seq::<i32>::empty()) =~= before);
    }
    while j < ids.len()
        invariant
            j <= ids@.len(),
            out@ == before + ids_bytes(ids@.take(j as int)),
        decreases ids@.len() - j,
    {
        put_id(out, ids[j]);
        proof {
            assert(ids@.take(j + 1).drop_last() =~= ids@.take(j as int));
            assert(ids@.take(j + 1).last() == ids@[j as int]);
            assert(out@ =~= before + ids_bytes(ids@.take(j + 1)));
        }
        j = j + 1;
    }
    assert(ids@.take(ids@.len() as int) =~= ids@);
}

/// Writes index entries in their stored form.
pub fn encode_entries(entries: &Vec<(String, Vec<i32>)>) -> (bytes: Vec<u8>)
    ensures
        bytes@ == index_bytes(entry_views(entries@)),
        stored_entries(bytes@) == Some(entry_views(entries@)),
{
    let ghost views = entry_views(entries@);
    let mut bytes: Vec<u8> = Vec::new();
    bytes.push(FORMAT_VERSION);
    put_offset(&mut bytes, entries.len());
    let ghost head = bytes@;
    let mut k: usize = 0;
    proof {
        assert(views.take(0) =~= Seq::<EntryView>::empty());
        assert(head + entries_bytes(Seq::<EntryView>::empty()) =~= head);
    }
    while k < entries.len()
        invariant
            k <= entries@.len(),
            views == entry_views(entries@),
            head == seq![FORMAT_VERSION] + word(entries@.len() as u64),
            bytes@ == head + entries_bytes(views.take(k as int)),
            forall|j: int| 0 <= j < k ==> storable(#[trigger] views[j]),
        decreases entries@.len() - k,
    {
        let entry = &entries[k];
        let term = entry.0.as_str().as_bytes();
        let ghost before = bytes@;
        put_offset(&mut bytes, term.len());
        put_bytes(&mut bytes, term);
        put_offset(&mut bytes, entry.1.len());
        put_ids(&mut bytes, &entry.1);
        proof {
            assert(term@ == encode_utf8(views[k as int].0));
            assert(bytes@ =~= before + entry_bytes(views[k as int]));
            assert(views.take(k + 1).drop_last() =~= views.take(k as int));
            assert(views.take(k + 1).last() == views[k as int]);
            assert(bytes@ =~= head + entries_bytes(views.take(k + 1)));
        }
        k = k + 1;
    }
    proof {
        assert(views.take(views.len() as int) =~= views);
        lemma_entries_round_trip(views);
    }
    bytes
}

/// Reads one entry at `at`.
#[verifier::loop_isolation(false)]
fn decode_entry(bytes: &[u8], at: usize) -> (found: Option<((String, Vec<i32>), usize)>)
    requires
        at <= bytes@.len(),
    ensures
        match found {
            Some((entry, next)) => entry_at(bytes@, at as int) == Some(
                ((entry.0@, entry.1@), next as int),
            ) && at < next <= bytes@.len(),
            None => entry_at(bytes@, at as int).is_none(),
        },
{
    let len = bytes.len();
    if len - at < 8 {
        return None;
    }
    let term_len = get_word(bytes, at);
    if term_len > (len - at - 8) as u64 {
        return None;
    }
    let term_end = at + 8 + term_len as usize;
    if len - term_end < 8 {
        return None;
    }
    let term = match text_of(slice_subrange(bytes, at + 8, term_end)) {
        Some(text) => text.to_owned(),
        None => {
            return None;
        },
    };
    let count = get_word(bytes, term_end);
    let ids_start = term_end + 8;
    if count > ((len - ids_start) / 8) as u64 {
        return None;
    }
    let count = count as usize;
    let mut ids: Vec<i32> = Vec::new();
    let mut j: usize = 0;
    while j < count
        invariant
            j <= count,
            len == bytes@.len(),
            ids_start + 8 * count <= len,
            ids@.len() == j,
            forall|i: int|
                0 <= i < j ==> is_id_word(word_at(bytes@, #[trigger] id_start(ids_start as int, i))),
            forall|i: int|
                0 <= i < j ==> ids@[i] == word_id(word_at(bytes@, id_start(ids_start as int, i))),
        decreases count - j,
    {
        match get_id(bytes, ids_start + 8 * j) {
            Some(id) => {
                ids.push(id);
            },
            None => {
                assert(!is_id_word(word_at(bytes@, id_start(ids_start as int, j as int))));
                return None;
            },
        }
        j = j + 1;
    }
    proof {
        assert(ids@ =~= ids_at(bytes@, ids_start as int, count as int));
        encode_utf8_decode_utf8(term@);
    }
    Some(((term, ids), ids_start + 8 * count))
}

/// The entries behind `parsed`, where there are any.
pub open spec fn behind(parsed: Seq<EntryView>, rest: Option<Seq<EntryView>>) -> Option<
    Seq<EntryView>,
> {
    match rest {
        Some(entries) => Some(parsed + entries),
        None => None,
    }
}

/// Reads index entries from their stored form. Bytes that are no stored
/// entries give `None`.
pub fn decode_entries(bytes: &[u8]) -> (entries: Option<Vec<(String, Vec<i32>)>>)
    ensures
        match entries {
            Some(e) => stored_entries(bytes@) == Some(entry_views(e@)),
            None => stored_entries(bytes@).is_none(),
        },
{
    if bytes.len() < 9 || bytes[0] != FORMAT_VERSION {
        return None;
    }
    let count = get_word(bytes, 1);
    let mut entries: Vec<(String, Vec<i32>)> = Vec::new();
    let mut at: usize = 9;
    let mut k: u64 = 0;
    proof {
        assert(entry_views(entries@) =~= Seq::<EntryView>::empty());
        let rest = entries_at(bytes@, 9, count as nat);
        if rest.is_some() {
            assert(Seq::<EntryView>::empty() + rest.unwrap() =~= rest.unwrap());
        }
    }
    while k < count
        invariant
            k <= count,
            9 <= at <= bytes@.len(),
            bytes@.len() >= 9,
            bytes@[0] == FORMAT_VERSION,
            count == word_at(bytes@, 1),
            stored_entries(bytes@) == behind(
                entry_views(entries@),
                entries_at(bytes@, at as int, (count - k) as nat),
            ),
        decreases count - k,
    {
        let ghost parsed = entry_views(entries@);
        match decode_entry(bytes, at) {
            Some((entry, next)) => {
                let ghost view = (entry.0@, entry.1@);
                entries.push(entry);
                proof {
                    assert(entry_views(entries@) =~= parsed.push(view));
                    let rest = entries_at(bytes@, next as int, (count - k - 1) as nat);
                    if rest.is_some() {
                        assert(parsed + (seq![view] + rest.unwrap()) =~= parsed.push(view)
                            + rest.unwrap());
                    }
                }
                at = next;
            },
            None => {
                return None;
            },
        }
        k = k + 1;
    }
    if at != bytes.len() {
        return None;
    }
    proof {
        assert(entry_views(entries@) + Seq::<EntryView>::empty() =~= entry_views(entries@));
    }
    Some(entries)
}

} // verus!
