use perds::codec::{decode, encode, encode_delete, encode_insert, DELETE_TAG, INSERT_TAG};
use perds::replay::replay;
use perds::wire::text_fits;
use perds::{PerdsError, Record};

fn insert(k: &str, v: &str) -> Record {
    Record::Insert { key: k.to_string(), value: v.to_string() }
}

fn delete(k: &str) -> Record {
    Record::Delete { key: k.to_string() }
}

#[test]
fn tags_are_zero_and_one() {
    assert_eq!(INSERT_TAG, 0);
    assert_eq!(DELETE_TAG, 1);
}

#[test]
fn encode_gives_tag_key_value() {
    assert_eq!(encode(&insert("abc", "fed")).unwrap(), vec![0, 3, b'a', b'b', b'c', 3, b'f', b'e', b'd']);
    assert_eq!(encode(&delete("abc")).unwrap(), vec![1, 3, b'a', b'b', b'c']);
    assert_eq!(encode(&insert("", "")).unwrap(), vec![0, 0, 0]);
    assert_eq!(encode_insert("hello", "world").unwrap(), encode(&insert("hello", "world")).unwrap());
    assert_eq!(encode_delete("hello").unwrap(), encode(&delete("hello")).unwrap());
}

#[test]
fn encode_counts_bytes_not_chars() {
    assert_eq!(encode(&delete("é")).unwrap(), vec![1, 2, 0xc3, 0xa9]);
}

#[test]
fn encode_writes_long_lengths_in_base_128() {
    let key = "k".repeat(300);
    let bytes = encode(&delete(&key)).unwrap();
    assert_eq!(&bytes[..3], &[1, 0xac, 0x02]);
    assert_eq!(bytes.len(), 303);
    let key = "k".repeat(128);
    let bytes = encode(&delete(&key)).unwrap();
    assert_eq!(&bytes[..3], &[1, 0x80, 0x01]);
    let key = "k".repeat(127);
    let bytes = encode(&delete(&key)).unwrap();
    assert_eq!(&bytes[..3], &[1, 0x7f, b'k']);
    let key = "k".repeat(16384);
    let bytes = encode(&delete(&key)).unwrap();
    assert_eq!(&bytes[..4], &[1, 0x80, 0x80, 0x01]);
}

#[test]
fn decode_undoes_encode_and_leaves_the_rest() {
    for record in [insert("abc", "fed"), delete("abc"), insert("", ""), insert(&"k".repeat(300), "日本語")] {
        let mut bytes = encode(&record).unwrap();
        let len = bytes.len();
        bytes.extend_from_slice(&[9, 9, 9]);
        let (back, rest) = decode(&bytes).unwrap();
        assert_eq!(back, record);
        assert_eq!(rest, &[9, 9, 9]);
        assert_eq!(bytes.len() - rest.len(), len);
    }
}

#[test]
fn decode_reads_a_tag_with_idle_high_digits() {
    let (record, rest) = decode(&[0x80, 0x00, 1, b'k', 1, b'v', 7]).unwrap();
    assert_eq!(record, insert("k", "v"));
    assert_eq!(rest, &[7]);
    let (record, rest) = decode(&[0x81, 0x80, 0x80, 0x80, 0x00, 1, b'k']).unwrap();
    assert_eq!(record, delete("k"));
    assert!(rest.is_empty());
}

#[test]
fn decode_reads_a_length_with_idle_high_digits() {
    let (record, rest) = decode(&[1, 0x81, 0x00, b'k']).unwrap();
    assert_eq!(record, delete("k"));
    assert!(rest.is_empty());
    let (record, _) = decode(&[1, 0x81, 0x80, 0x80, 0x80, 0x80, 0x80, 0x80, 0x80, 0x80, 0x00, b'k']).unwrap();
    assert_eq!(record, delete("k"));
}

fn failure(bytes: &[u8]) -> postcard::Error {
    match decode(bytes) {
        Err(PerdsError::SerError(e)) => e,
        _ => panic!("an encoding failure was expected"),
    }
}

#[test]
fn decode_fails_on_what_is_no_record() {
    assert_eq!(failure(&[]), postcard::Error::DeserializeUnexpectedEnd);
    assert_eq!(failure(&[0]), postcard::Error::DeserializeUnexpectedEnd);
    assert_eq!(failure(&[0x80]), postcard::Error::DeserializeUnexpectedEnd);
    assert_eq!(failure(&[0, 3, b'a']), postcard::Error::DeserializeUnexpectedEnd);
    assert_eq!(failure(&[0, 1, b'a']), postcard::Error::DeserializeUnexpectedEnd);
    assert_eq!(failure(&[0, 1, b'a', 2, b'b']), postcard::Error::DeserializeUnexpectedEnd);
    assert_eq!(failure(&[2, 0]), postcard::Error::SerdeDeCustom);
    assert_eq!(failure(&[0xff, 0xff, 0xff, 0xff, 0x0f, 0]), postcard::Error::SerdeDeCustom);
    assert_eq!(failure(&[1, 1, 0x80]), postcard::Error::DeserializeBadUtf8);
    assert_eq!(failure(&[0, 1, b'a', 2, 0xc3, 0x28]), postcard::Error::DeserializeBadUtf8);
}

#[test]
fn decode_fails_on_a_tag_too_large_for_its_width() {
    assert_eq!(failure(&[0x80, 0x80, 0x80, 0x80, 0x10, 0]), postcard::Error::DeserializeBadVarint);
    assert_eq!(failure(&[0x80, 0x80, 0x80, 0x80, 0x80, 0]), postcard::Error::DeserializeBadVarint);
    assert_eq!(failure(&[0x80, 0x80, 0x80, 0x80]), postcard::Error::DeserializeUnexpectedEnd);
}

#[test]
fn decode_fails_on_a_length_too_large_for_its_width() {
    let mut bytes = vec![1u8];
    bytes.extend_from_slice(&[0x80; 9]);
    bytes.push(0x02);
    assert_eq!(failure(&bytes), postcard::Error::DeserializeBadVarint);
    let mut bytes = vec![1u8];
    bytes.extend_from_slice(&[0x80; 10]);
    bytes.push(0x00);
    assert_eq!(failure(&bytes), postcard::Error::DeserializeBadVarint);
    let mut bytes = vec![1u8];
    bytes.extend_from_slice(&[0xff; 9]);
    bytes.push(0x01);
    assert_eq!(failure(&bytes), postcard::Error::DeserializeUnexpectedEnd);
}

#[test]
fn replay_applies_records_in_order() {
    let mut log = Vec::new();
    for record in [insert("a", "1"), insert("b", "2"), insert("a", "3"), delete("b"), delete("zz")] {
        log.extend(encode(&record).unwrap());
    }
    let map = replay(&log).unwrap();
    assert_eq!(map.len(), 1);
    assert_eq!(map.get("a"), Some(&"3".to_string()));
    assert_eq!(map.get("b"), None);
    assert!(replay(&[]).unwrap().is_empty());
}

#[test]
fn replay_fails_on_a_broken_tail() {
    let mut log = encode(&insert("a", "1")).unwrap();
    log.push(0);
    assert!(matches!(
        replay(&log),
        Err(PerdsError::SerError(postcard::Error::DeserializeUnexpectedEnd))
    ));
}

#[test]
fn any_text_in_memory_fits() {
    text_fits("");
    text_fits(&"x".repeat(70000));
}
