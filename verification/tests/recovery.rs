use kvstore::recovery::{
    decide_lock, lock_result, next_stage, CreateOutcome, LockDecision, LockProbe, Stage,
    StepResult, HEARTBEAT_SECS, LOCK_STALE_TIMEOUT_SECS,
};

#[test]
fn lock_constants() {
    assert_eq!(LOCK_STALE_TIMEOUT_SECS, 600);
    assert_eq!(HEARTBEAT_SECS, 30);
}

fn aged(secs: u64, nanos: u32) -> LockProbe {
    LockProbe::Aged { secs, nanos }
}

#[test]
fn created_lock_is_acquired() {
    for probe in [LockProbe::Absent, LockProbe::Undated, aged(5, 0)] {
        for first_try in [true, false] {
            assert_eq!(
                decide_lock(CreateOutcome::Created, probe, first_try),
                LockDecision::Acquired
            );
        }
    }
}

#[test]
fn fresh_lock_is_left_alone() {
    for probe in [aged(0, 0), aged(29, 999_999_999), aged(599, 999_999_999), aged(600, 0)] {
        for first_try in [true, false] {
            assert_eq!(
                decide_lock(CreateOutcome::AlreadyExists, probe, first_try),
                LockDecision::Skip,
                "{:?}",
                probe
            );
        }
    }
}

#[test]
fn stale_lock_is_reclaimed_once() {
    for probe in [
        aged(600, 1),
        aged(600, 500_000_000),
        aged(601, 0),
        aged(20 * 60, 0),
        aged(u64::MAX, u32::MAX),
    ] {
        assert_eq!(
            decide_lock(CreateOutcome::AlreadyExists, probe, true),
            LockDecision::Reclaim,
            "{:?}",
            probe
        );
        assert_eq!(decide_lock(CreateOutcome::AlreadyExists, probe, false), LockDecision::Skip);
    }
}

#[test]
fn lock_of_unknown_age_is_left_alone() {
    assert_eq!(
        decide_lock(CreateOutcome::AlreadyExists, LockProbe::Undated, true),
        LockDecision::Skip
    );
    assert_eq!(
        decide_lock(CreateOutcome::AlreadyExists, LockProbe::Absent, true),
        LockDecision::Skip
    );
}

#[test]
fn failed_creation_is_an_error() {
    assert_eq!(decide_lock(CreateOutcome::Failed, aged(9999, 0), true), LockDecision::Error);
}

#[test]
fn outcome_of_acquiring_the_lock() {
    assert_eq!(lock_result(LockDecision::Acquired), Some(StepResult::Done));
    assert_eq!(lock_result(LockDecision::Skip), Some(StepResult::Contended));
    assert_eq!(lock_result(LockDecision::Error), Some(StepResult::Error));
    assert_eq!(lock_result(LockDecision::Reclaim), None);
    assert_eq!(next_stage(Stage::Lock, StepResult::Contended), Stage::Skipped);
}

#[test]
fn stages_follow_each_other_in_order() {
    let order = [
        Stage::Lock,
        Stage::Open,
        Stage::Replay,
        Stage::Commit,
        Stage::RemoveSegment,
        Stage::RemoveLock,
        Stage::Recovered,
    ];
    for pair in order.windows(2) {
        assert_eq!(next_stage(pair[0], StepResult::Done), pair[1]);
    }
    assert_eq!(next_stage(Stage::Recovered, StepResult::Done), Stage::Recovered);
}

#[test]
fn failure_under_the_lock_leads_to_its_release() {
    for stage in [Stage::Open, Stage::Replay, Stage::Commit, Stage::RemoveSegment] {
        for result in [StepResult::Error, StepResult::Contended] {
            assert_eq!(next_stage(stage, result), Stage::ReleaseLock);
        }
    }
    for result in [StepResult::Done, StepResult::Contended, StepResult::Error] {
        assert_eq!(next_stage(Stage::ReleaseLock, result), Stage::Failed);
    }
}

#[test]
fn failure_without_the_lock_ends_at_once() {
    assert_eq!(next_stage(Stage::Lock, StepResult::Error), Stage::Failed);
    assert_eq!(next_stage(Stage::RemoveLock, StepResult::Error), Stage::Failed);
    assert_eq!(next_stage(Stage::RemoveLock, StepResult::Contended), Stage::Failed);
}

#[test]
fn final_stages_stay() {
    for stage in [Stage::Recovered, Stage::Skipped, Stage::Failed] {
        for result in [StepResult::Done, StepResult::Contended, StepResult::Error] {
            assert_eq!(next_stage(stage, result), stage);
        }
    }
}

#[test]
fn segment_whose_lock_is_contended_is_never_touched() {
    let decision = decide_lock(CreateOutcome::AlreadyExists, aged(1, 0), true);
    let mut stage = next_stage(Stage::Lock, lock_result(decision).unwrap());
    for _ in 0..10 {
        assert_eq!(stage, Stage::Skipped);
        stage = next_stage(stage, StepResult::Done);
    }
}
