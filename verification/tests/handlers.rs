use kvstore::cache::Cache;
use kvstore::codec::WALOperation;
use kvstore::config::get_default_config;
use kvstore::decoder::WALDecoder;
use kvstore::error::KVStoreError;
use kvstore::handlers::{delete_key, finish_delete, finish_set, get_key, set_key, AppState, Reply};
use kvstore::wal::WAL;

fn state() -> AppState {
    AppState {
        cache: Cache::new(),
        wal: std::sync::Arc::new(WAL::new("./logs")),
        config: get_default_config(),
    }
}

fn state_with_receiver() -> (AppState, tokio::sync::mpsc::UnboundedReceiver<Vec<u8>>) {
    let mut wal = WAL::new("./logs");
    let rx = wal.take_receiver().expect("the receiver");
    let state = AppState {
        cache: Cache::new(),
        wal: std::sync::Arc::new(wal),
        config: get_default_config(),
    };
    (state, rx)
}

fn decode_one(bytes: &[u8]) -> WALOperation {
    let mut decoder = WALDecoder::new();
    decoder.feed(bytes);
    let op = decoder.next_operation().expect("a record").expect("a valid record");
    assert_eq!(decoder.next_operation(), None);
    op
}

#[test]
fn simple_write_read_delete() {
    let mut state = state();
    let reply = set_key(&mut state, "a".to_string(), "1".to_string());
    assert_eq!(reply, Reply::Done);
    assert_eq!(reply.status(), 200);
    let reply = get_key(&state, "a");
    assert_eq!(reply, Reply::Found { value: "1".to_string() });
    assert_eq!(reply.status(), 200);
    let reply = delete_key(&mut state, "a");
    assert_eq!(reply, Reply::Done);
    assert_eq!(reply.status(), 200);
    let reply = get_key(&state, "a");
    assert_eq!(reply, Reply::NotFound);
    assert_eq!(reply.status(), 404);
    let reply = delete_key(&mut state, "a");
    assert_eq!(reply, Reply::NotFound);
    assert_eq!(reply.status(), 404);
}

#[test]
fn write_is_read_back_until_the_key_is_written_again() {
    let mut state = state();
    assert_eq!(set_key(&mut state, "k".to_string(), "v1".to_string()), Reply::Done);
    assert_eq!(set_key(&mut state, "other".to_string(), "x".to_string()), Reply::Done);
    assert_eq!(delete_key(&mut state, "other"), Reply::Done);
    assert_eq!(delete_key(&mut state, "missing"), Reply::NotFound);
    assert_eq!(get_key(&state, "k"), Reply::Found { value: "v1".to_string() });
    assert_eq!(set_key(&mut state, "k".to_string(), "v2".to_string()), Reply::Done);
    assert_eq!(get_key(&state, "k"), Reply::Found { value: "v2".to_string() });
}

#[test]
fn mutations_are_put_on_the_queue_in_order() {
    let (mut state, mut rx) = state_with_receiver();
    let before = std::time::SystemTime::now()
        .duration_since(std::time::UNIX_EPOCH)
        .unwrap()
        .as_nanos();
    assert_eq!(set_key(&mut state, "k".to_string(), "v".to_string()), Reply::Done);
    assert_eq!(delete_key(&mut state, "k"), Reply::Done);
    assert_eq!(delete_key(&mut state, "k"), Reply::NotFound);
    let after = std::time::SystemTime::now()
        .duration_since(std::time::UNIX_EPOCH)
        .unwrap()
        .as_nanos();

    match decode_one(&rx.try_recv().expect("the SET")) {
        WALOperation::Put { timestamp, key, value } => {
            assert!(before <= timestamp && timestamp <= after);
            assert_eq!(key, "k");
            assert_eq!(value, "v");
        }
        other => panic!("unexpected: {:?}", other),
    }
    match decode_one(&rx.try_recv().expect("the DELETE")) {
        WALOperation::Delete { timestamp, key } => {
            assert!(before <= timestamp && timestamp <= after);
            assert_eq!(key, "k");
        }
        other => panic!("unexpected: {:?}", other),
    }
    assert!(rx.try_recv().is_err());
}

#[test]
fn closed_queue_fails_the_set_and_leaves_the_cache() {
    let (mut state, rx) = state_with_receiver();
    assert_eq!(set_key(&mut state, "a".to_string(), "1".to_string()), Reply::Done);
    drop(rx);
    let reply = set_key(&mut state, "a".to_string(), "2".to_string());
    assert_eq!(reply, Reply::Failed { error: KVStoreError::QueueClosed });
    assert_eq!(reply.status(), 500);
    assert_eq!(get_key(&state, "a"), Reply::Found { value: "1".to_string() });
    let reply = set_key(&mut state, "b".to_string(), "2".to_string());
    assert_eq!(reply.status(), 500);
    assert_eq!(get_key(&state, "b"), Reply::NotFound);
}

#[test]
fn closed_queue_fails_the_delete_and_leaves_the_cache() {
    let (mut state, rx) = state_with_receiver();
    assert_eq!(set_key(&mut state, "a".to_string(), "1".to_string()), Reply::Done);
    drop(rx);
    let reply = delete_key(&mut state, "a");
    assert_eq!(reply, Reply::Failed { error: KVStoreError::QueueClosed });
    assert_eq!(reply.status(), 500);
    assert_eq!(get_key(&state, "a"), Reply::Found { value: "1".to_string() });
    assert_eq!(delete_key(&mut state, "missing"), Reply::NotFound);
}

#[test]
fn finishing_a_mutation_follows_the_log() {
    let mut cache = Cache::new();
    assert_eq!(finish_set(&mut cache, Ok(()), "a".to_string(), "1".to_string()), Reply::Done);
    assert_eq!(cache.get("a"), Some("1".to_string()));
    assert_eq!(
        finish_set(&mut cache, Err(KVStoreError::ClockError), "a".to_string(), "2".to_string()),
        Reply::Failed { error: KVStoreError::ClockError }
    );
    assert_eq!(cache.get("a"), Some("1".to_string()));
    assert_eq!(
        finish_delete(&mut cache, Err(KVStoreError::QueueClosed), "a"),
        Reply::Failed { error: KVStoreError::QueueClosed }
    );
    assert_eq!(cache.get("a"), Some("1".to_string()));
    assert_eq!(finish_delete(&mut cache, Ok(()), "a"), Reply::Done);
    assert_eq!(cache.get("a"), None);
}

#[test]
fn cache_operations() {
    let mut cache = Cache::new();
    assert!(!cache.contains_key("a"));
    assert_eq!(cache.get("a"), None);
    assert!(!cache.remove("a"));
    cache.insert("a".to_string(), "1".to_string());
    cache.insert("b".to_string(), "2".to_string());
    cache.insert("a".to_string(), "3".to_string());
    assert!(cache.contains_key("a"));
    assert_eq!(cache.get("a"), Some("3".to_string()));
    assert_eq!(cache.get("b"), Some("2".to_string()));
    assert!(cache.remove("a"));
    assert!(!cache.contains_key("a"));
    assert_eq!(cache.get("b"), Some("2".to_string()));
}

#[test]
fn cache_is_filled_from_rows() {
    let mut cache = Cache::new();
    cache.insert("old".to_string(), "kept".to_string());
    cache.insert("a".to_string(), "replaced".to_string());
    cache.load(vec![
        ("a".to_string(), "1".to_string()),
        ("b".to_string(), "2".to_string()),
        ("a".to_string(), "3".to_string()),
    ]);
    assert_eq!(cache.get("a"), Some("3".to_string()));
    assert_eq!(cache.get("b"), Some("2".to_string()));
    assert_eq!(cache.get("old"), Some("kept".to_string()));
    cache.load(vec![]);
    assert_eq!(cache.get("a"), Some("3".to_string()));
}
