use kvstore::bootstrap::{exit_code, first_step, next_step, BootStep, CACHE_LOAD_CHUNK};
use kvstore::config::{get_default_config, Config};
use kvstore::error::KVStoreError;
use kvstore::models::{KVValue, SetValueRequest};

#[test]
fn default_options() {
    assert_eq!(
        get_default_config(),
        Config { logs_dir: "./logs".to_string(), port: 4000, wal_pool_size: 2 }
    );
}

#[test]
fn models_hold_a_value() {
    assert_eq!(KVValue { value: "v".to_string() }.value, "v");
    assert_eq!(SetValueRequest { value: "w".to_string() }.value, "w");
}

#[test]
fn errors_in_words() {
    assert_eq!(
        KVStoreError::PoolError.message(),
        "write-ahead-logger has 0 file writers in the pool"
    );
    assert_eq!(
        KVStoreError::QueueClosed.message(),
        "Failed to send to WAL channel: channel closed"
    );
    assert_eq!(KVStoreError::ClockError.message(), "system clock is before the Unix epoch");
}

#[test]
fn start_up_takes_the_steps_in_order() {
    let order = [
        BootStep::Migrate,
        BootStep::OpenLog,
        BootStep::Recover,
        BootStep::Reconcile,
        BootStep::LoadCache,
        BootStep::InitializePool,
        BootStep::StartWriter,
        BootStep::Listen,
        BootStep::Serving,
    ];
    assert_eq!(first_step(), order[0]);
    for pair in order.windows(2) {
        assert_eq!(next_step(pair[0], true), pair[1]);
    }
    assert_eq!(next_step(BootStep::Serving, true), BootStep::Serving);
    assert_eq!(next_step(BootStep::Serving, false), BootStep::Serving);
}

#[test]
fn failed_step_is_fatal() {
    for step in [
        BootStep::Migrate,
        BootStep::OpenLog,
        BootStep::Recover,
        BootStep::Reconcile,
        BootStep::LoadCache,
        BootStep::InitializePool,
        BootStep::StartWriter,
        BootStep::Listen,
    ] {
        assert_eq!(next_step(step, false), BootStep::Fatal);
    }
    assert_eq!(next_step(BootStep::Fatal, true), BootStep::Fatal);
}

#[test]
fn exit_codes() {
    assert_eq!(exit_code(BootStep::Serving), 0);
    assert_ne!(exit_code(BootStep::Fatal), 0);
    assert_eq!(CACHE_LOAD_CHUNK, 5000);
}
