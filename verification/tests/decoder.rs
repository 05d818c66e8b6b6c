use kvstore::codec::{encode_delete, encode_set, WALOperation};
use kvstore::decoder::WALDecoder;

fn put(timestamp: u128, key: &str, value: &str) -> WALOperation {
    WALOperation::Put { timestamp, key: key.to_string(), value: value.to_string() }
}

fn del(timestamp: u128, key: &str) -> WALOperation {
    WALOperation::Delete { timestamp, key: key.to_string() }
}

fn drain(decoder: &mut WALDecoder) -> Vec<Result<WALOperation, String>> {
    let mut out = Vec::new();
    while let Some(item) = decoder.next_operation() {
        out.push(item);
    }
    out
}

fn sample_log() -> (Vec<u8>, Vec<WALOperation>) {
    let mut bytes = Vec::new();
    let mut records = Vec::new();
    for i in 0..40u128 {
        let key = format!("key-{}", i % 7);
        if i % 3 == 2 {
            bytes.extend_from_slice(&encode_delete(1000 + i, &key));
            records.push(del(1000 + i, &key));
        } else {
            let value = format!("value-{}\n{}", i, "x".repeat((i % 5) as usize));
            bytes.extend_from_slice(&encode_set(1000 + i, &key, &value));
            records.push(put(1000 + i, &key, &value));
        }
    }
    (bytes, records)
}

#[test]
fn new_decoder_yields_nothing() {
    let mut decoder = WALDecoder::new();
    assert_eq!(decoder.buffered_len(), 0);
    assert_eq!(decoder.next_operation(), None);
    assert_eq!(decoder.buffered_len(), 0);
}

#[test]
fn every_prefix_short_of_the_record_yields_nothing_and_the_rest_completes_it() {
    let encoded = encode_set(77, "alpha", "beta");
    for cut in 0..encoded.len() - 1 {
        let mut decoder = WALDecoder::new();
        decoder.feed(&encoded[..cut]);
        assert_eq!(decoder.next_operation(), None, "prefix of {} bytes", cut);
        assert_eq!(decoder.next_operation(), None);
        decoder.feed(&encoded[cut..]);
        assert_eq!(decoder.next_operation(), Some(Ok(put(77, "alpha", "beta"))));
        assert_eq!(decoder.next_operation(), None);
    }
}

#[test]
fn every_prefix_of_a_delete_short_of_the_record_yields_nothing() {
    let encoded = encode_delete(78, "gamma");
    for cut in 0..encoded.len() - 1 {
        let mut decoder = WALDecoder::new();
        decoder.feed(&encoded[..cut]);
        assert_eq!(decoder.next_operation(), None, "prefix of {} bytes", cut);
        decoder.feed(&encoded[cut..]);
        assert_eq!(decoder.next_operation(), Some(Ok(del(78, "gamma"))));
        assert_eq!(decoder.next_operation(), None);
    }
}

#[test]
fn record_without_its_line_feed_is_whole() {
    let encoded = encode_set(3, "k", "v");
    let mut decoder = WALDecoder::new();
    decoder.feed(&encoded[..encoded.len() - 1]);
    assert_eq!(decoder.next_operation(), Some(Ok(put(3, "k", "v"))));
    decoder.feed(&encoded[encoded.len() - 1..]);
    assert_eq!(decoder.next_operation(), None);
    decoder.feed(&encode_delete(4, "k"));
    assert_eq!(decoder.next_operation(), Some(Ok(del(4, "k"))));
}

#[test]
fn byte_by_byte_yields_what_all_at_once_yields() {
    let (bytes, records) = sample_log();
    let expected: Vec<Result<WALOperation, String>> = records.into_iter().map(Ok).collect();

    let mut whole = WALDecoder::new();
    whole.feed(&bytes);
    assert_eq!(drain(&mut whole), expected);

    let mut single = WALDecoder::new();
    let mut seen = Vec::new();
    for byte in &bytes {
        single.feed(&[*byte]);
        seen.extend(drain(&mut single));
    }
    assert_eq!(seen, expected);
}

#[test]
fn any_chunk_size_yields_the_same_records() {
    let (bytes, records) = sample_log();
    let expected: Vec<Result<WALOperation, String>> = records.into_iter().map(Ok).collect();
    for size in [2usize, 3, 5, 16, 17, 21, 64, 1000] {
        let mut decoder = WALDecoder::new();
        let mut seen = Vec::new();
        for chunk in bytes.chunks(size) {
            decoder.feed(chunk);
            seen.extend(drain(&mut decoder));
            decoder.compact();
        }
        assert_eq!(seen, expected, "chunks of {} bytes", size);
    }
}

#[test]
fn empty_lines_between_records_are_skipped() {
    let mut bytes = vec![b'\n', b'\n'];
    bytes.extend_from_slice(&encode_set(1, "a", "1"));
    bytes.extend_from_slice(b"\n\n\n");
    bytes.extend_from_slice(&encode_delete(2, "a"));
    bytes.push(b'\n');
    let mut decoder = WALDecoder::new();
    decoder.feed(&bytes);
    assert_eq!(drain(&mut decoder), vec![Ok(put(1, "a", "1")), Ok(del(2, "a"))]);
}

#[test]
fn invalid_opcode_is_reported_once_and_nothing_follows() {
    let mut bytes = encode_set(1, "a", "1");
    bytes.push(b'X');
    bytes.extend_from_slice(&encode_set(2, "b", "2"));
    let mut decoder = WALDecoder::new();
    decoder.feed(&bytes);
    assert_eq!(decoder.next_operation(), Some(Ok(put(1, "a", "1"))));
    assert_eq!(decoder.next_operation(), Some(Err("invalid opcode".to_string())));
    assert_eq!(decoder.next_operation(), None);
    decoder.feed(&encode_set(3, "c", "3"));
    assert_eq!(decoder.next_operation(), None);
}

#[test]
fn invalid_opcode_at_the_start_is_reported() {
    let mut decoder = WALDecoder::new();
    decoder.feed(&[0x00]);
    assert_eq!(decoder.next_operation(), Some(Err("invalid opcode".to_string())));
    assert_eq!(decoder.next_operation(), None);
}

#[test]
fn compact_drops_consumed_bytes_and_keeps_the_rest() {
    let first = encode_set(1, "a", "1");
    let second = encode_set(2, "b", "22");
    let mut decoder = WALDecoder::new();
    decoder.feed(&first);
    decoder.feed(&second[..10]);
    assert_eq!(decoder.buffered_len(), first.len() + 10);
    assert_eq!(decoder.next_operation(), Some(Ok(put(1, "a", "1"))));
    assert_eq!(decoder.buffered_len(), first.len() + 10);
    decoder.compact();
    assert_eq!(decoder.buffered_len(), 10);
    assert_eq!(decoder.next_operation(), None);
    decoder.compact();
    assert_eq!(decoder.buffered_len(), 10);
    decoder.feed(&second[10..]);
    assert_eq!(decoder.next_operation(), Some(Ok(put(2, "b", "22"))));
    decoder.compact();
    assert_eq!(decoder.buffered_len(), 0);
}

#[test]
fn length_that_runs_past_the_buffer_is_incomplete() {
    let mut bytes = vec![b'D'];
    bytes.extend_from_slice(&5u128.to_le_bytes());
    bytes.extend_from_slice(&u32::MAX.to_le_bytes());
    bytes.extend_from_slice(b"short");
    let mut decoder = WALDecoder::new();
    decoder.feed(&bytes);
    assert_eq!(decoder.next_operation(), None);
    assert_eq!(decoder.buffered_len(), bytes.len());
}
