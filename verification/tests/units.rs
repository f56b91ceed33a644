//! Component-level behaviour: the codec, the in-memory index and the
//! merge, exercised directly.
use btree_kv::codec::{decode_record, encode_record};
use btree_kv::merge::merge_records;
use btree_kv::{Datum, DatumKind, KvError, MultiMap, Record};

fn byte(b: u8) -> Datum {
    Datum::Byte(b)
}

fn text(s: &str) -> Datum {
    Datum::Text(s.as_bytes().to_vec())
}

fn pair(k: Datum, v: Datum) -> Record {
    Record { key: k, value: v }
}

#[test]
fn codec_round_trip_bytes() {
    let rec = pair(byte(2), byte(3));
    let bytes = encode_record(&rec, 1, 1).unwrap();
    assert_eq!(bytes, [2u8, 3u8]);
    let back = decode_record(&bytes, DatumKind::Byte, DatumKind::Byte, 1, 1).unwrap();
    assert_eq!(back, rec);
}

#[test]
fn codec_round_trip_text() {
    let rec = pair(text("Hello"), text("World"));
    let bytes = encode_record(&rec, 15, 15).unwrap();
    let expected = [
        5, 0, 0, 0, b'H', b'e', b'l', b'l', b'o', 0, 0, 0, 0, 0, 0, // key region
        5, 0, 0, 0, b'W', b'o', b'r', b'l', b'd', 0, 0, 0, 0, 0, 0, // value region
    ];
    assert_eq!(bytes, expected);
    let back = decode_record(&bytes, DatumKind::Text, DatumKind::Text, 15, 15).unwrap();
    assert_eq!(back, rec);
}

#[test]
fn codec_rejects_oversized_text() {
    let rec = pair(text("Hello"), text("AValueFarTooWide"));
    assert_eq!(encode_record(&rec, 15, 15).err(), Some(KvError::Encoding));
}

#[test]
fn codec_rejects_truncated_buffer() {
    let bytes = vec![0u8; 7];
    let r = decode_record(&bytes, DatumKind::Byte, DatumKind::Byte, 1, 1);
    assert_eq!(r.err(), Some(KvError::Decoding));
}

#[test]
fn index_counts_operations_not_associations() {
    let mut map = MultiMap::new();
    assert_eq!(map.insert(text("Hello"), text("World")), 1);
    // the same association again: no new pair, but the count still grows
    assert_eq!(map.insert(text("Hello"), text("World")), 2);
    assert_eq!(map.insert(text("Hello"), text("Everyone")), 3);

    let values = map.get(&text("Hello")).unwrap();
    assert_eq!(values, [text("Everyone"), text("World")]);
}

#[test]
fn index_entries_come_out_sorted() {
    let mut map = MultiMap::new();
    map.insert(byte(5), byte(1));
    map.insert(byte(1), byte(9));
    map.insert(byte(5), byte(0));
    map.insert(byte(3), byte(4));

    let entries = map.entries();
    let flat: Vec<(Datum, Datum)> = entries
        .iter()
        .map(|r| (r.key.duplicate(), r.value.duplicate()))
        .collect();
    assert_eq!(
        flat,
        [
            (byte(1), byte(9)),
            (byte(3), byte(4)),
            (byte(5), byte(0)),
            (byte(5), byte(1)),
        ]
    );
}

#[test]
fn merge_is_stable_and_keeps_both_copies() {
    let left = vec![pair(byte(2), byte(5)), pair(byte(4), byte(0))];
    let right = vec![pair(byte(2), byte(5)), pair(byte(2), byte(7)), pair(byte(3), byte(0))];

    let merged = merge_records(&left, &right);
    let keys_and_values: Vec<(Datum, Datum)> = merged
        .iter()
        .map(|r| (r.key.duplicate(), r.value.duplicate()))
        .collect();
    // the full tie at (2, 5) keeps both copies; order is non-decreasing
    assert_eq!(
        keys_and_values,
        [
            (byte(2), byte(5)),
            (byte(2), byte(5)),
            (byte(2), byte(7)),
            (byte(3), byte(0)),
            (byte(4), byte(0)),
        ]
    );
}

#[test]
fn text_ordering_is_lexicographic() {
    let mut map = MultiMap::new();
    map.insert(text("b"), byte(0));
    map.insert(text("ab"), byte(0));
    map.insert(text("a"), byte(0));
    map.insert(text(""), byte(0));

    let entries = map.entries();
    let keys: Vec<Datum> = entries.iter().map(|r| r.key.duplicate()).collect();
    assert_eq!(keys, [text(""), text("a"), text("ab"), text("b")]);
}
