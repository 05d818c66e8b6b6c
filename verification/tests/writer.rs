use kvstore::codec::{encode_set, WALOperation};
use kvstore::decoder::WALDecoder;
use kvstore::writer::{BatchWriter, FLUSH_THRESHOLD, FLUSH_TIMEOUT_MS};

#[test]
fn flush_policy_constants() {
    assert_eq!(FLUSH_THRESHOLD, 64 * 1024);
    assert_eq!(FLUSH_TIMEOUT_MS, 10);
}

#[test]
fn small_records_wait_in_the_buffer() {
    let mut writer = BatchWriter::new();
    assert_eq!(writer.pending_len(), 0);
    assert_eq!(writer.on_data(&[1, 2, 3]), None);
    assert_eq!(writer.on_data(&[4]), None);
    assert_eq!(writer.pending_len(), 4);
}

#[test]
fn tick_hands_out_what_waits() {
    let mut writer = BatchWriter::new();
    assert_eq!(writer.on_tick(), None);
    writer.on_data(&[1, 2, 3]);
    writer.on_data(&[4, 5]);
    assert_eq!(writer.on_tick(), Some(vec![1, 2, 3, 4, 5]));
    assert_eq!(writer.pending_len(), 0);
    assert_eq!(writer.on_tick(), None);
}

#[test]
fn buffer_is_handed_out_when_it_reaches_the_threshold() {
    let mut writer = BatchWriter::new();
    assert_eq!(writer.on_data(&vec![7u8; FLUSH_THRESHOLD - 1]), None);
    assert_eq!(writer.pending_len(), FLUSH_THRESHOLD - 1);
    let batch = writer.on_data(&[8]).expect("threshold reached");
    assert_eq!(batch.len(), FLUSH_THRESHOLD);
    assert_eq!(batch[FLUSH_THRESHOLD - 2], 7);
    assert_eq!(batch[FLUSH_THRESHOLD - 1], 8);
    assert_eq!(writer.pending_len(), 0);
}

#[test]
fn record_larger_than_the_threshold_is_handed_out_whole() {
    let mut writer = BatchWriter::new();
    writer.on_data(&[1]);
    let big = vec![9u8; 3 * FLUSH_THRESHOLD];
    let batch = writer.on_data(&big).expect("over the threshold");
    assert_eq!(batch.len(), 3 * FLUSH_THRESHOLD + 1);
    assert_eq!(batch[0], 1);
    assert_eq!(writer.pending_len(), 0);
}

#[test]
fn close_hands_out_the_rest() {
    let mut writer = BatchWriter::new();
    writer.on_data(&[1, 2]);
    assert_eq!(writer.on_close(), Some(vec![1, 2]));
    assert_eq!(BatchWriter::new().on_close(), None);
}

#[test]
fn every_record_is_written_once_whatever_triggers_the_flush() {
    let mut writer = BatchWriter::new();
    let mut written: Vec<u8> = Vec::new();
    let mut expected = Vec::new();
    for i in 0..100u128 {
        let value = "v".repeat(2000 + (i as usize % 7) * 300);
        let key = format!("key-{}", i);
        expected.push(WALOperation::Put { timestamp: i, key: key.clone(), value: value.clone() });
        if let Some(batch) = writer.on_data(&encode_set(i, &key, &value)) {
            assert!(batch.len() >= FLUSH_THRESHOLD);
            written.extend_from_slice(&batch);
        }
        assert!(writer.pending_len() < FLUSH_THRESHOLD);
        if i % 13 == 0 {
            if let Some(batch) = writer.on_tick() {
                written.extend_from_slice(&batch);
            }
            assert_eq!(writer.pending_len(), 0);
        }
    }
    if let Some(batch) = writer.on_close() {
        written.extend_from_slice(&batch);
    }
    let mut decoder = WALDecoder::new();
    decoder.feed(&written);
    let mut seen = Vec::new();
    while let Some(item) = decoder.next_operation() {
        seen.push(item.expect("a record"));
    }
    assert_eq!(seen, expected);
}
