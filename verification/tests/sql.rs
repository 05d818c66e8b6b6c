use kvstore::sql::{
    apply_deletes_query, apply_sets_query, clear_staging_query, decimal_text, delete_batch_query,
    load_query, set_batch_query, time_parameter, TIME_LIMIT,
};

#[test]
fn timestamps_as_parameters() {
    assert_eq!(time_parameter(0).unwrap().to_string(), "0");
    assert_eq!(
        time_parameter(1_763_871_523_000_000_001).unwrap().to_string(),
        "1763871523000000001"
    );
    assert_eq!(TIME_LIMIT, 1u128 << 96);
    assert_eq!(
        time_parameter(TIME_LIMIT - 1).unwrap().to_string(),
        "79228162514264337593543950335"
    );
    assert!(time_parameter(TIME_LIMIT).is_none());
    assert!(time_parameter(u128::MAX).is_none());
}

#[test]
fn numbers_in_decimal() {
    assert_eq!(decimal_text(0), "0");
    assert_eq!(decimal_text(7), "7");
    assert_eq!(decimal_text(10), "10");
    assert_eq!(decimal_text(60_000), "60000");
    assert_eq!(decimal_text(1234567890), "1234567890");
    assert_eq!(decimal_text(u128::MAX), u128::MAX.to_string());
}

#[test]
fn empty_batches_have_no_statement() {
    assert_eq!(set_batch_query(0), None);
    assert_eq!(delete_batch_query(0), None);
}

#[test]
fn statement_for_one_set() {
    assert_eq!(
        set_batch_query(1).unwrap(),
        "INSERT INTO wal_sync (key, time, value, operation) VALUES ($1, $2, $3, 'SET') \
         ON CONFLICT (key) DO UPDATE SET time = EXCLUDED.time, value = EXCLUDED.value, \
         operation = EXCLUDED.operation WHERE wal_sync.time < EXCLUDED.time"
    );
}

#[test]
fn statement_for_three_sets() {
    assert_eq!(
        set_batch_query(3).unwrap(),
        "INSERT INTO wal_sync (key, time, value, operation) VALUES \
         ($1, $2, $3, 'SET'),($4, $5, $6, 'SET'),($7, $8, $9, 'SET') \
         ON CONFLICT (key) DO UPDATE SET time = EXCLUDED.time, value = EXCLUDED.value, \
         operation = EXCLUDED.operation WHERE wal_sync.time < EXCLUDED.time"
    );
}

#[test]
fn statement_for_two_deletes() {
    assert_eq!(
        delete_batch_query(2).unwrap(),
        "INSERT INTO wal_sync (key, time, operation) VALUES \
         ($1, $2, 'DELETE'),($3, $4, 'DELETE') \
         ON CONFLICT (key) DO UPDATE SET time = EXCLUDED.time, operation = EXCLUDED.operation \
         WHERE wal_sync.time < EXCLUDED.time"
    );
}

#[test]
fn placeholders_of_a_full_batch_run_to_sixty_thousand() {
    let text = set_batch_query(20_000).unwrap();
    assert!(text.contains(",($59998, $59999, $60000, 'SET') ON CONFLICT"));
    assert_eq!(text.matches("'SET')").count(), 20_000);
    let text = delete_batch_query(20_000).unwrap();
    assert!(text.contains(",($39999, $40000, 'DELETE') ON CONFLICT"));
}

#[test]
fn statements_of_reconciliation() {
    assert_eq!(
        apply_sets_query(),
        "INSERT INTO kv_store (key, value) SELECT key, value FROM wal_sync \
         WHERE operation = 'SET' ON CONFLICT (key) DO UPDATE SET value = EXCLUDED.value"
    );
    assert_eq!(
        apply_deletes_query(),
        "DELETE FROM kv_store WHERE key IN (SELECT key FROM wal_sync WHERE operation = 'DELETE')"
    );
    assert_eq!(clear_staging_query(), "DELETE FROM wal_sync");
    assert_eq!(load_query(), "SELECT key, value FROM kv_store");
}
