use mapreduce::codec::{decode_records_str, encode_records_str, CodecError};
use mapreduce::KeyValue;

fn kv(k: &str, v: &str) -> KeyValue {
    KeyValue { key: k.to_string(), value: v.to_string() }
}

#[test]
fn encode_simple_records() {
    let records = vec![kv("x", "1"), kv("y", "22")];
    let text = encode_records_str(&records);
    assert_eq!(text, "1 1 x1\n1 2 y22\n");
}

#[test]
fn encode_empty_array() {
    let records: Vec<KeyValue> = Vec::new();
    assert_eq!(encode_records_str(&records), "");
}

#[test]
fn round_trip_plain() {
    let records = vec![kv("apple", "1"), kv("banana", "2"), kv("apple", "3")];
    let text = encode_records_str(&records);
    let back = decode_records_str(&text).unwrap();
    assert_eq!(back, records);
}

#[test]
fn round_trip_awkward_contents() {
    let records = vec![
        kv("", ""),
        kv("key with spaces", "line\nbreak"),
        kv("7 13", "digits 9 and\nnewlines"),
        kv("naïve café", "ünïcödé"),
    ];
    let text = encode_records_str(&records);
    let back = decode_records_str(&text).unwrap();
    assert_eq!(back, records);
}

#[test]
fn round_trip_empty() {
    let back = decode_records_str("").unwrap();
    assert!(back.is_empty());
}

#[test]
fn decode_rejects_garbage() {
    assert_eq!(decode_records_str("hello"), Err(CodecError));
    assert_eq!(decode_records_str("3"), Err(CodecError));
    assert_eq!(decode_records_str("1 1 x1"), Err(CodecError));
    assert_eq!(decode_records_str("9 9 x1\n"), Err(CodecError));
}

#[test]
fn decode_counts_are_characters_not_bytes() {
    let records = vec![kv("é", "ß")];
    let text = encode_records_str(&records);
    assert_eq!(text, "1 1 éß\n");
    assert_eq!(decode_records_str(&text).unwrap(), records);
}
