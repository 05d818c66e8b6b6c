use kvstore::codec::{encode_delete, encode_set, WALOperation};
use kvstore::decoder::WALDecoder;

fn set_bytes(timestamp: u128, key: &[u8], value: &[u8]) -> Vec<u8> {
    let mut out: Vec<u8> = vec![b'S'];
    out.extend_from_slice(&timestamp.to_le_bytes());
    out.extend_from_slice(&(key.len() as u32).to_le_bytes());
    out.extend_from_slice(key);
    out.extend_from_slice(&(value.len() as u32).to_le_bytes());
    out.extend_from_slice(value);
    out.push(b'\n');
    out
}

#[test]
fn set_record_has_the_documented_layout() {
    let bytes = encode_set(1, "a", "1");
    let mut expected: Vec<u8> = vec![0x53];
    expected.extend_from_slice(&[1, 0, 0, 0, 0, 0, 0, 0, 0, 0, 0, 0, 0, 0, 0, 0]);
    expected.extend_from_slice(&[1, 0, 0, 0]);
    expected.push(b'a');
    expected.extend_from_slice(&[1, 0, 0, 0]);
    expected.push(b'1');
    expected.push(0x0a);
    assert_eq!(bytes, expected);
    assert_eq!(bytes.len(), 28);
}

#[test]
fn delete_record_has_the_documented_layout() {
    let bytes = encode_delete(0x0102_0304_0506_0708_090a_0b0c_0d0e_0f10, "key");
    let mut expected: Vec<u8> = vec![0x44];
    expected.extend_from_slice(&[
        0x10, 0x0f, 0x0e, 0x0d, 0x0c, 0x0b, 0x0a, 0x09, 0x08, 0x07, 0x06, 0x05, 0x04, 0x03, 0x02,
        0x01,
    ]);
    expected.extend_from_slice(&[3, 0, 0, 0]);
    expected.extend_from_slice(b"key");
    expected.push(0x0a);
    assert_eq!(bytes, expected);
}

#[test]
fn lengths_count_bytes_not_characters() {
    let bytes = encode_set(7, "é", "日本");
    assert_eq!(&bytes[17..21], &[2, 0, 0, 0]);
    assert_eq!(&bytes[21..23], "é".as_bytes());
    assert_eq!(&bytes[23..27], &[6, 0, 0, 0]);
    assert_eq!(&bytes[27..33], "日本".as_bytes());
    assert_eq!(bytes[33], b'\n');
    assert_eq!(bytes.len(), 34);
}

#[test]
fn empty_texts_are_encoded_with_zero_lengths() {
    let bytes = encode_set(0, "", "");
    assert_eq!(bytes.len(), 1 + 16 + 4 + 4 + 1);
    assert_eq!(bytes, set_bytes(0, b"", b""));
}

#[test]
fn largest_timestamp_is_kept() {
    let bytes = encode_delete(u128::MAX, "k");
    assert_eq!(&bytes[1..17], &[0xff; 16]);
    let mut decoder = WALDecoder::new();
    decoder.feed(&bytes);
    assert_eq!(
        decoder.next_operation(),
        Some(Ok(WALOperation::Delete { timestamp: u128::MAX, key: "k".to_string() }))
    );
}

#[test]
fn decode_undoes_encode() {
    let mut decoder = WALDecoder::new();
    decoder.feed(&encode_set(42, "héllo", "wörld"));
    decoder.feed(&encode_delete(43, "héllo"));
    assert_eq!(
        decoder.next_operation(),
        Some(Ok(WALOperation::Put {
            timestamp: 42,
            key: "héllo".to_string(),
            value: "wörld".to_string()
        }))
    );
    assert_eq!(
        decoder.next_operation(),
        Some(Ok(WALOperation::Delete { timestamp: 43, key: "héllo".to_string() }))
    );
    assert_eq!(decoder.next_operation(), None);
}

#[test]
fn ill_formed_text_is_repaired_not_returned_as_it_is() {
    let mut decoder = WALDecoder::new();
    decoder.feed(&set_bytes(5, &[b'a', 0xff, b'b'], &[0xc3]));
    assert_eq!(
        decoder.next_operation(),
        Some(Ok(WALOperation::Put {
            timestamp: 5,
            key: "a\u{fffd}b".to_string(),
            value: "\u{fffd}".to_string()
        }))
    );
}

#[test]
fn value_may_hold_opcodes_and_line_feeds() {
    let mut decoder = WALDecoder::new();
    decoder.feed(&encode_set(9, "S\nD", "\n\nS"));
    decoder.feed(&encode_set(10, "k", "v"));
    assert_eq!(
        decoder.next_operation(),
        Some(Ok(WALOperation::Put {
            timestamp: 9,
            key: "S\nD".to_string(),
            value: "\n\nS".to_string()
        }))
    );
    assert_eq!(
        decoder.next_operation(),
        Some(Ok(WALOperation::Put { timestamp: 10, key: "k".to_string(), value: "v".to_string() }))
    );
    assert_eq!(decoder.next_operation(), None);
}

#[test]
fn operation_encodes_itself() {
    let set = WALOperation::Put { timestamp: 11, key: "k".to_string(), value: "v".to_string() };
    assert_eq!(set.encode(), encode_set(11, "k", "v"));
    let delete = WALOperation::Delete { timestamp: 12, key: "k".to_string() };
    assert_eq!(delete.encode(), encode_delete(12, "k"));
}
