use kvstore::cache::Cache;
use kvstore::codec::{encode_delete, encode_set};
use kvstore::recovery::{
    decide_lock, lock_result, next_stage, CreateOutcome, LockDecision, LockProbe, Stage,
    StepResult,
};
use kvstore::replay::{DeleteRow, ReplayStep, SegmentReplay, SetRow, CHUNK_SIZE};
use kvstore::segments::{lock_path, recovery_order};
use kvstore::tables::MemoryStore;
use kvstore::writer::BatchWriter;
use tokio::io::AsyncReadExt;

fn scratch_dir(name: &str) -> String {
    format!("/tmp/kvstore-{}-{}", name, fastrand::u64(..))
}

async fn probe_lock(lock_file: &str) -> LockProbe {
    match tokio::fs::metadata(lock_file).await {
        Err(_) => LockProbe::Absent,
        Ok(metadata) => match metadata.modified().unwrap().elapsed() {
            Ok(elapsed) => {
                LockProbe::Aged { secs: elapsed.as_secs(), nanos: elapsed.subsec_nanos() }
            }
            Err(_) => LockProbe::Undated,
        },
    }
}

async fn create_lock(lock_file: &str) -> CreateOutcome {
    match tokio::fs::OpenOptions::new().write(true).create_new(true).open(lock_file).await {
        Ok(_) => CreateOutcome::Created,
        Err(e) if e.kind() == std::io::ErrorKind::AlreadyExists => CreateOutcome::AlreadyExists,
        Err(_) => CreateOutcome::Failed,
    }
}

async fn acquire_lock(lock_file: &str) -> StepResult {
    let mut first_try = true;
    loop {
        let created = create_lock(lock_file).await;
        let probe = match created {
            CreateOutcome::AlreadyExists => probe_lock(lock_file).await,
            _ => LockProbe::Absent,
        };
        let decision = decide_lock(created, probe, first_try);
        match lock_result(decision) {
            Some(result) => return result,
            None => {
                assert_eq!(decision, LockDecision::Reclaim);
                let _ = tokio::fs::remove_file(lock_file).await;
                first_try = false;
            }
        }
    }
}

async fn replay_file(file: &mut tokio::fs::File) -> Vec<(Vec<SetRow>, Vec<DeleteRow>)> {
    let mut batches = Vec::new();
    let mut replay = SegmentReplay::new();
    let mut buffer = vec![0u8; CHUNK_SIZE];
    loop {
        let n = file.read(&mut buffer).await.unwrap();
        if n == 0 {
            break;
        }
        replay.feed(&buffer[..n]);
        loop {
            match replay.advance() {
                ReplayStep::Flush { sets, deletes } => batches.push((sets, deletes)),
                ReplayStep::Rejected { .. } => {}
                ReplayStep::Starved => break,
            }
        }
    }
    batches.push(replay.finish());
    batches
}

fn done(ok: bool) -> StepResult {
    if ok {
        StepResult::Done
    } else {
        StepResult::Error
    }
}

/// Recovers one segment into the staging table, as the server does at
/// start-up, and says where recovery of the segment ended. The step at
/// `fail_at`, if any, is made to fail. Rows reach the store at the commit.
async fn recover_file_with(store: &mut MemoryStore, segment: &str, fail_at: Option<Stage>) -> Stage {
    let lock_file = lock_path(segment);
    let mut stage = Stage::Lock;
    let mut file: Option<tokio::fs::File> = None;
    let mut batches: Vec<(Vec<SetRow>, Vec<DeleteRow>)> = Vec::new();
    loop {
        let result = match stage {
            Stage::Recovered | Stage::Skipped | Stage::Failed => return stage,
            Stage::Lock => acquire_lock(&lock_file).await,
            Stage::ReleaseLock => {
                file = None;
                batches.clear();
                done(tokio::fs::remove_file(&lock_file).await.is_ok())
            }
            _ if fail_at == Some(stage) => StepResult::Error,
            Stage::Open => {
                file = tokio::fs::File::open(segment).await.ok();
                done(file.is_some())
            }
            Stage::Replay => {
                batches = replay_file(file.as_mut().unwrap()).await;
                StepResult::Done
            }
            Stage::Commit => {
                for (mut sets, mut deletes) in batches.drain(..) {
                    store.execute_set_batch(&mut sets);
                    store.execute_delete_batch(&mut deletes);
                }
                StepResult::Done
            }
            Stage::RemoveSegment => done(tokio::fs::remove_file(segment).await.is_ok()),
            Stage::RemoveLock => done(tokio::fs::remove_file(&lock_file).await.is_ok()),
        };
        stage = next_stage(stage, result);
    }
}

async fn recover_file(store: &mut MemoryStore, segment: &str) -> Stage {
    recover_file_with(store, segment, None).await
}

/// Recovers every segment of the directory, reconciles, and fills a cache.
async fn start_up(store: &mut MemoryStore, dir: &str) -> (Cache, Vec<(String, Stage)>) {
    let mut files = Vec::new();
    let mut entries = tokio::fs::read_dir(dir).await.unwrap();
    while let Some(entry) = entries.next_entry().await.unwrap() {
        if entry.file_type().await.unwrap().is_file() {
            files.push(entry.path().to_str().unwrap().to_string());
        }
    }
    let mut stages = Vec::new();
    for segment in recovery_order(&files) {
        let stage = recover_file(store, &segment).await;
        stages.push((segment, stage));
    }
    store.sync_db_tables();
    let mut cache = Cache::new();
    cache.load(store.rows());
    (cache, stages)
}

fn run<F: std::future::Future>(future: F) -> F::Output {
    tokio::runtime::Builder::new_current_thread().enable_all().build().unwrap().block_on(future)
}

async fn is_there(path: &str) -> bool {
    tokio::fs::metadata(path).await.is_ok()
}

#[test]
fn out_of_order_replay() {
    run(async {
        let dir = scratch_dir("out-of-order");
        tokio::fs::create_dir_all(&dir).await.unwrap();
        let older = format!("{}/wal_20250101_000000_000000000.log", dir);
        let newer = format!("{}/wal_20250202_000000_000000000.log", dir);
        tokio::fs::write(&older, encode_set(200, "k", "new")).await.unwrap();
        tokio::fs::write(&newer, encode_set(100, "k", "old")).await.unwrap();

        let mut store = MemoryStore::new();
        let (cache, stages) = start_up(&mut store, &dir).await;
        assert_eq!(
            stages,
            vec![(newer.clone(), Stage::Recovered), (older.clone(), Stage::Recovered)]
        );
        assert_eq!(cache.get("k"), Some("new".to_string()));
        assert_eq!(store.get("k"), Some("new".to_string()));
        assert!(!is_there(&older).await);
        assert!(!is_there(&newer).await);
        tokio::fs::remove_dir_all(&dir).await.unwrap();
    });
}

#[test]
fn incomplete_tail() {
    run(async {
        let dir = scratch_dir("incomplete-tail");
        tokio::fs::create_dir_all(&dir).await.unwrap();
        let segment = format!("{}/wal_20250101_000000_000000000.log", dir);
        let mut bytes = encode_set(1, "a", "1");
        bytes.extend_from_slice(&encode_set(2, "a", "2")[..10]);
        tokio::fs::write(&segment, &bytes).await.unwrap();

        let mut store = MemoryStore::new();
        let (cache, stages) = start_up(&mut store, &dir).await;
        assert_eq!(stages, vec![(segment.clone(), Stage::Recovered)]);
        assert_eq!(cache.get("a"), Some("1".to_string()));
        assert!(!is_there(&segment).await);
        assert!(!is_there(&lock_path(&segment)).await);
        tokio::fs::remove_dir_all(&dir).await.unwrap();
    });
}

#[test]
fn stale_lock_reclamation() {
    run(async {
        let dir = scratch_dir("stale-lock");
        tokio::fs::create_dir_all(&dir).await.unwrap();
        let segment = format!("{}/wal_20250101_000000_000000000.log", dir);
        tokio::fs::write(&segment, encode_set(1, "a", "1")).await.unwrap();
        let lock = tokio::fs::File::create(lock_path(&segment)).await.unwrap().into_std().await;
        lock.set_modified(std::time::SystemTime::now() - std::time::Duration::from_secs(20 * 60))
            .unwrap();
        drop(lock);
        match probe_lock(&lock_path(&segment)).await {
            LockProbe::Aged { secs, .. } => assert!(secs >= 1199),
            other => panic!("unexpected: {:?}", other),
        }

        let mut store = MemoryStore::new();
        let (cache, stages) = start_up(&mut store, &dir).await;
        assert_eq!(stages, vec![(segment.clone(), Stage::Recovered)]);
        assert_eq!(cache.get("a"), Some("1".to_string()));
        assert!(!is_there(&segment).await);
        assert!(!is_there(&lock_path(&segment)).await);
        tokio::fs::remove_dir_all(&dir).await.unwrap();
    });
}

#[test]
fn fresh_lock_keeps_the_segment_for_its_holder() {
    run(async {
        let dir = scratch_dir("fresh-lock");
        tokio::fs::create_dir_all(&dir).await.unwrap();
        let segment = format!("{}/wal_20250101_000000_000000000.log", dir);
        tokio::fs::write(&segment, encode_set(1, "a", "1")).await.unwrap();
        tokio::fs::write(lock_path(&segment), b"").await.unwrap();

        let mut store = MemoryStore::new();
        let (cache, stages) = start_up(&mut store, &dir).await;
        assert_eq!(stages, vec![(segment.clone(), Stage::Skipped)]);
        assert_eq!(cache.get("a"), None);
        assert_eq!(tokio::fs::read(&segment).await.unwrap(), encode_set(1, "a", "1"));
        assert!(is_there(&lock_path(&segment)).await);
        tokio::fs::remove_dir_all(&dir).await.unwrap();
    });
}

#[test]
fn crash_mid_flush() {
    // Two SETs of one key reach the writer; the process dies at any point:
    // the segment holds any prefix of the bytes that were to be written.
    let first = encode_set(1, "x", "1");
    let second = encode_set(2, "x", "2");
    let mut writer = BatchWriter::new();
    assert_eq!(writer.on_data(&first), None);
    assert_eq!(writer.on_data(&second), None);
    let batch = writer.on_tick().expect("a batch");
    for cut in 0..=batch.len() {
        let mut store = MemoryStore::new();
        let mut replay = SegmentReplay::new();
        replay.feed(&batch[..cut]);
        assert_eq!(replay.advance(), ReplayStep::Starved);
        let (mut sets, mut deletes) = replay.finish();
        store.execute_set_batch(&mut sets);
        store.execute_delete_batch(&mut deletes);
        store.sync_db_tables();
        let mut cache = Cache::new();
        cache.load(store.rows());
        let expected = if cut + 1 >= batch.len() {
            Some("2".to_string())
        } else if cut + 1 >= first.len() {
            Some("1".to_string())
        } else {
            None
        };
        assert_eq!(cache.get("x"), expected, "cut at {}", cut);
        assert_eq!(store.get("x"), cache.get("x"));
    }
}

#[test]
fn recovery_run_twice_ends_where_one_run_ends() {
    run(async {
        let dir = scratch_dir("twice");
        tokio::fs::create_dir_all(&dir).await.unwrap();
        let segment = format!("{}/wal_20250101_000000_000000000.log", dir);
        let mut bytes = encode_set(1, "a", "1");
        bytes.extend_from_slice(&encode_set(5, "b", "5"));
        bytes.extend_from_slice(&encode_delete(6, "b"));
        bytes.extend_from_slice(&encode_set(3, "a", "3"));
        bytes.extend_from_slice(&encode_set(2, "a", "2"));

        // The first run commits and dies before it deletes the segment.
        let mut store = MemoryStore::new();
        tokio::fs::write(&segment, &bytes).await.unwrap();
        let stage = recover_file(&mut store, &segment).await;
        assert_eq!(stage, Stage::Recovered);
        tokio::fs::write(&segment, &bytes).await.unwrap();
        let (cache, _) = start_up(&mut store, &dir).await;

        let mut once = MemoryStore::new();
        tokio::fs::write(&segment, &bytes).await.unwrap();
        let (expected, _) = start_up(&mut once, &dir).await;

        assert_eq!(cache.get("a"), Some("3".to_string()));
        assert_eq!(cache.get("b"), None);
        assert_eq!(cache.get("a"), expected.get("a"));
        assert_eq!(cache.get("b"), expected.get("b"));
        let mut left = store.rows();
        left.sort();
        let mut right = once.rows();
        right.sort();
        assert_eq!(left, right);
        tokio::fs::remove_dir_all(&dir).await.unwrap();
    });
}

#[test]
fn segment_with_an_invalid_byte_gives_what_stands_before_it() {
    run(async {
        let dir = scratch_dir("invalid");
        tokio::fs::create_dir_all(&dir).await.unwrap();
        let segment = format!("{}/wal_20250101_000000_000000000.log", dir);
        let mut bytes = encode_set(1, "a", "1");
        bytes.push(0xee);
        bytes.extend_from_slice(&encode_set(2, "b", "2"));
        tokio::fs::write(&segment, &bytes).await.unwrap();

        let mut store = MemoryStore::new();
        let (cache, stages) = start_up(&mut store, &dir).await;
        assert_eq!(stages, vec![(segment.clone(), Stage::Recovered)]);
        assert_eq!(cache.get("a"), Some("1".to_string()));
        assert_eq!(cache.get("b"), None);
        tokio::fs::remove_dir_all(&dir).await.unwrap();
    });
}

#[test]
fn failed_recovery_releases_the_lock_and_keeps_the_segment() {
    run(async {
        for fail_at in [Stage::Open, Stage::Replay, Stage::Commit] {
            let dir = scratch_dir("failed");
            tokio::fs::create_dir_all(&dir).await.unwrap();
            let segment = format!("{}/wal_20250101_000000_000000000.log", dir);
            let bytes = encode_set(1, "a", "1");
            tokio::fs::write(&segment, &bytes).await.unwrap();

            let mut store = MemoryStore::new();
            let stage = recover_file_with(&mut store, &segment, Some(fail_at)).await;
            assert_eq!(stage, Stage::Failed, "failure at {:?}", fail_at);
            assert_eq!(tokio::fs::read(&segment).await.unwrap(), bytes);
            assert!(!is_there(&lock_path(&segment)).await, "failure at {:?}", fail_at);
            store.sync_db_tables();
            assert_eq!(store.get("a"), None);

            // The next start finds no lock in its way and recovers the segment.
            let (cache, stages) = start_up(&mut store, &dir).await;
            assert_eq!(stages, vec![(segment.clone(), Stage::Recovered)]);
            assert_eq!(cache.get("a"), Some("1".to_string()));
            tokio::fs::remove_dir_all(&dir).await.unwrap();
        }
    });
}

#[test]
fn segment_that_could_not_be_deleted_is_replayed_again_to_the_same_end() {
    run(async {
        let dir = scratch_dir("undeleted");
        tokio::fs::create_dir_all(&dir).await.unwrap();
        let segment = format!("{}/wal_20250101_000000_000000000.log", dir);
        let mut bytes = encode_set(1, "a", "1");
        bytes.extend_from_slice(&encode_delete(2, "a"));
        bytes.extend_from_slice(&encode_set(3, "b", "3"));
        tokio::fs::write(&segment, &bytes).await.unwrap();

        let mut store = MemoryStore::new();
        let stage = recover_file_with(&mut store, &segment, Some(Stage::RemoveSegment)).await;
        assert_eq!(stage, Stage::Failed);
        assert!(is_there(&segment).await);
        assert!(!is_there(&lock_path(&segment)).await);

        let (cache, stages) = start_up(&mut store, &dir).await;
        assert_eq!(stages, vec![(segment.clone(), Stage::Recovered)]);
        assert_eq!(cache.get("a"), None);
        assert_eq!(cache.get("b"), Some("3".to_string()));
        assert!(!is_there(&segment).await);
        tokio::fs::remove_dir_all(&dir).await.unwrap();
    });
}
