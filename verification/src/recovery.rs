//! The decisions of crash recovery: who may recover a segment, and what is
//! done to it in which order.
//!
//! A segment is guarded by a lock file beside it. The lock file's time of
//! modification is a heartbeat: a lock that has not been touched for more
//! than ten minutes is taken to be left over by a process that died, and is
//! reclaimed. A segment is deleted only when its records are committed to
//! the staging table. The lock is deleted when recovery of the segment
//! ends, whether the segment is gone or a step has failed, so that a later
//! start can try the segment again.

use vstd::prelude::*;

verus! {

/// Seconds after which an untouched lock counts as stale.
pub const LOCK_STALE_TIMEOUT_SECS: u64 = 600;

/// Seconds between two touches of a lock that is held.
pub const HEARTBEAT_SECS: u64 = 30;

/// How the attempt to create the lock file, failing if it exists, ended.
#[derive(Debug, Clone, Copy, PartialEq, Eq, Structural)]
pub enum CreateOutcome {
    Created,
    AlreadyExists,
    Failed,
}

/// What the file system says about a lock file that exists already.
#[derive(Debug, Clone, Copy, PartialEq, Eq, Structural)]
pub enum LockProbe {
    /// The lock file is gone again, or cannot be looked at.
    Absent,
    /// It was last modified `secs` seconds and `nanos` nanoseconds ago.
    Aged { secs: u64, nanos: u32 },
    /// Its age cannot be told: it is dated in the future.
    Undated,
}

/// What to do once the attempt to create the lock file has ended.
#[derive(Debug, Clone, Copy, PartialEq, Eq, Structural)]
pub enum LockDecision {
    /// The lock is held: go on to the segment.
    Acquired,
    /// The lock that is there is stale: delete it and try once more.
    Reclaim,
    /// Leave the segment alone: the lock belongs to another process.
    Skip,
    /// The lock file could not be created.
    Error,
}

/// The age of a lock in nanoseconds.
pub open spec fn age_nanos(secs: u64, nanos: u32) -> int {
    secs * 1_000_000_000 + nanos
}

/// Whether a lock of this age is stale: it is older than the timeout, by
/// however little, and its holder is taken to have died.
pub open spec fn is_stale(probe: LockProbe) -> bool {
    probe matches LockProbe::Aged { secs, nanos } && age_nanos(secs, nanos)
        > LOCK_STALE_TIMEOUT_SECS * 1_000_000_000
}

/// Whether a lock of this age is fresh: its holder may be alive.
pub open spec fn is_fresh(probe: LockProbe) -> bool {
    probe matches LockProbe::Aged { secs, nanos } && age_nanos(secs, nanos)
        <= LOCK_STALE_TIMEOUT_SECS * 1_000_000_000
}

/// The decision that an attempt calls for. `first_try` says whether this
/// was the first attempt on the segment; `probe` is looked at only where
/// the lock file exists already.
pub open spec fn decided(created: CreateOutcome, probe: LockProbe, first_try: bool)
    -> LockDecision {
    match created {
        CreateOutcome::Created => LockDecision::Acquired,
        CreateOutcome::Failed => LockDecision::Error,
        CreateOutcome::AlreadyExists => if first_try && is_stale(probe) {
            LockDecision::Reclaim
        } else {
            LockDecision::Skip
        },
    }
}

/// Decides what to do about the lock of a segment. The lock is acquired
/// only by creating the lock file; a lock that exists is reclaimed only
/// where it is stale, and only once; a fresh lock is never reclaimed.
pub fn decide_lock(created: CreateOutcome, probe: LockProbe, first_try: bool) -> (decision:
    LockDecision)
    ensures
        decision == decided(created, probe, first_try),
        decision is Acquired <==> created is Created,
        created is AlreadyExists && is_fresh(probe) ==> decision is Skip,
        !first_try ==> !(decision is Reclaim),
{
    match created {
        CreateOutcome::Created => LockDecision::Acquired,
        CreateOutcome::Failed => LockDecision::Error,
        CreateOutcome::AlreadyExists => match probe {
            LockProbe::Aged { secs, nanos } => {
                let age: u128 = (secs as u128) * 1_000_000_000 + (nanos as u128);
                let older = age > (LOCK_STALE_TIMEOUT_SECS as u128) * 1_000_000_000;
                if first_try && older {
                    LockDecision::Reclaim
                } else {
                    LockDecision::Skip
                }
            },
            _ => LockDecision::Skip,
        },
    }
}

/// The steps of recovering one segment, and the ways it can end.
#[derive(Debug, Clone, Copy, PartialEq, Eq, Structural)]
pub enum Stage {
    /// Acquire the lock file.
    Lock,
    /// Open the segment and begin a transaction on the store.
    Open,
    /// Read the segment and write its rows to the staging table.
    Replay,
    /// Commit the transaction.
    Commit,
    /// Delete the segment file.
    RemoveSegment,
    /// Delete the lock file of the segment that is gone.
    RemoveLock,
    /// A step failed while the lock was held: roll the transaction back and
    /// delete the lock file. The segment file stays.
    ReleaseLock,
    /// The segment is recovered and gone.
    Recovered,
    /// The segment was left alone for the process that holds its lock.
    Skipped,
    /// A step failed. Unless it was the deletion of the segment or of its
    /// lock, the segment file is kept for the next start.
    Failed,
}

/// How a step ended.
#[derive(Debug, Clone, Copy, PartialEq, Eq, Structural)]
pub enum StepResult {
    /// The step was done.
    Done,
    /// The lock is held by another process. Only acquiring the lock ends so.
    Contended,
    /// The step failed.
    Error,
}

/// Whether recovery of the segment is over.
pub open spec fn is_final(stage: Stage) -> bool {
    stage is Recovered || stage is Skipped || stage is Failed
}

/// The stages at which the lock file is deleted.
pub open spec fn deletes_lock(stage: Stage) -> bool {
    stage is RemoveLock || stage is ReleaseLock
}

/// The stage that follows `stage` after a step that ended with `result`.
///
/// Steps that are done follow each other in order. A step that is not done
/// ends the work on the segment: where the lock is not held, at once; where
/// it is held, by way of the stage that releases it.
pub open spec fn following(stage: Stage, result: StepResult) -> Stage {
    if is_final(stage) {
        stage
    } else if stage is ReleaseLock {
        Stage::Failed
    } else if result is Done {
        match stage {
            Stage::Lock => Stage::Open,
            Stage::Open => Stage::Replay,
            Stage::Replay => Stage::Commit,
            Stage::Commit => Stage::RemoveSegment,
            Stage::RemoveSegment => Stage::RemoveLock,
            _ => Stage::Recovered,
        }
    } else if stage is Lock {
        if result is Contended {
            Stage::Skipped
        } else {
            Stage::Failed
        }
    } else if stage is RemoveLock {
        Stage::Failed
    } else {
        Stage::ReleaseLock
    }
}

/// Moves on from `stage` after a step that ended with `result`.
pub fn next_stage(stage: Stage, result: StepResult) -> (next: Stage)
    ensures
        next == following(stage, result),
{
    match stage {
        Stage::Recovered => Stage::Recovered,
        Stage::Skipped => Stage::Skipped,
        Stage::Failed => Stage::Failed,
        Stage::ReleaseLock => Stage::Failed,
        _ => match result {
            StepResult::Done => match stage {
                Stage::Lock => Stage::Open,
                Stage::Open => Stage::Replay,
                Stage::Replay => Stage::Commit,
                Stage::Commit => Stage::RemoveSegment,
                Stage::RemoveSegment => Stage::RemoveLock,
                _ => Stage::Recovered,
            },
            StepResult::Contended => match stage {
                Stage::Lock => Stage::Skipped,
                Stage::RemoveLock => Stage::Failed,
                _ => Stage::ReleaseLock,
            },
            StepResult::Error => match stage {
                Stage::Lock => Stage::Failed,
                Stage::RemoveLock => Stage::Failed,
                _ => Stage::ReleaseLock,
            },
        },
    }
}

/// How the step of acquiring the lock ended, given the last decision about
/// the lock. A lock that is yet to be reclaimed has not ended the step.
pub fn lock_result(decision: LockDecision) -> (result: Option<StepResult>)
    ensures
        result == (match decision {
            LockDecision::Acquired => Some(StepResult::Done),
            LockDecision::Skip => Some(StepResult::Contended),
            LockDecision::Error => Some(StepResult::Error),
            LockDecision::Reclaim => None::<StepResult>,
        }),
{
    match decision {
        LockDecision::Acquired => Some(StepResult::Done),
        LockDecision::Skip => Some(StepResult::Contended),
        LockDecision::Error => Some(StepResult::Error),
        LockDecision::Reclaim => None,
    }
}

/// The stage reached from `stage` by the steps that ended as `results` say.
pub open spec fn run(stage: Stage, results: Seq<StepResult>) -> Stage
    decreases results.len(),
{
    if results.len() == 0 {
        stage
    } else {
        following(run(stage, results.drop_last()), results.last())
    }
}

/// The stages at which the segment file is read or deleted.
pub open spec fn touches_segment(stage: Stage) -> bool {
    stage is Open || stage is Replay || stage is Commit || stage is RemoveSegment
}

/// A segment whose lock was not acquired is never read and never deleted:
/// whatever steps are reported afterwards, recovery stays where the failed
/// attempt left it.
pub proof fn lemma_unlocked_segment_is_left_alone(results: Seq<StepResult>)
    requires
        results.len() > 0,
        !(results[0] is Done),
    ensures
        !touches_segment(run(Stage::Lock, results)),
        run(Stage::Lock, results) == following(Stage::Lock, results[0]),
    decreases results.len(),
{
    if results.len() == 1 {
        assert(results.drop_last().len() == 0);
    } else {
        let front = results.drop_last();
        assert(front[0] == results[0]);
        lemma_unlocked_segment_is_left_alone(front);
    }
}

/// The segment file is deleted only behind a commit: recovery that has come
/// to delete the segment, or further, has seen every step before it done.
pub proof fn lemma_segment_outlives_commit(results: Seq<StepResult>)
    requires
        ({
            let stage = run(Stage::Lock, results);
            stage is RemoveSegment || stage is RemoveLock || stage is Recovered
        }),
    ensures
        results.len() >= 4,
        forall|i: int| 0 <= i < 4 ==> results[i] is Done,
        run(Stage::Lock, results.subrange(0, 4)) == Stage::RemoveSegment,
{
    lemma_progress(results);
    let r0 = results.subrange(0, 0);
    let r1 = results.subrange(0, 1);
    let r2 = results.subrange(0, 2);
    let r3 = results.subrange(0, 3);
    let r4 = results.subrange(0, 4);
    assert(run(Stage::Lock, r0) == Stage::Lock);
    assert(r1.drop_last() =~= r0 && r1.last() == results[0]);
    assert(run(Stage::Lock, r1) == Stage::Open);
    assert(r2.drop_last() =~= r1 && r2.last() == results[1]);
    assert(run(Stage::Lock, r2) == Stage::Replay);
    assert(r3.drop_last() =~= r2 && r3.last() == results[2]);
    assert(run(Stage::Lock, r3) == Stage::Commit);
    assert(r4.drop_last() =~= r3 && r4.last() == results[3]);
}

/// The number of steps that lead to `stage` when all are done.
pub open spec fn depth(stage: Stage) -> nat {
    match stage {
        Stage::Lock => 0,
        Stage::Open => 1,
        Stage::Replay => 2,
        Stage::Commit => 3,
        Stage::RemoveSegment => 4,
        Stage::RemoveLock => 5,
        Stage::Recovered => 6,
        _ => 0,
    }
}

/// A stage other than a skip, a failure or the release after a failure is
/// reached by done steps alone, as many as its depth says, or more once
/// recovery is over.
proof fn lemma_progress(results: Seq<StepResult>)
    ensures
        ({
            let stage = run(Stage::Lock, results);
            !(stage is Skipped) && !(stage is Failed) && !(stage is ReleaseLock) ==> {
                &&& results.len() >= depth(stage)
                &&& (!(stage is Recovered) ==> results.len() == depth(stage))
                &&& forall|i: int| 0 <= i < depth(stage) ==> results[i] is Done
            }
        }),
    decreases results.len(),
{
    if results.len() > 0 {
        let front = results.drop_last();
        lemma_progress(front);
        let before = run(Stage::Lock, front);
        let stage = run(Stage::Lock, results);
        if !(stage is Skipped) && !(stage is Failed) && !(stage is ReleaseLock) {
            assert forall|i: int| 0 <= i < depth(stage) implies results[i] is Done by {
                if i < front.len() {
                    assert(results[i] == front[i]);
                }
            }
        }
    }
}

/// Whether the lock file that this run made is in place after the steps:
/// it is made by the first step, where that is done, and it is gone once a
/// step that deletes it is done.
pub open spec fn lock_in_place(results: Seq<StepResult>) -> bool
    decreases results.len(),
{
    if results.len() == 0 {
        false
    } else {
        let front = results.drop_last();
        let at = run(Stage::Lock, front);
        if at is Lock {
            results.last() is Done
        } else if deletes_lock(at) {
            lock_in_place(front) && !(results.last() is Done)
        } else {
            lock_in_place(front)
        }
    }
}

/// The lock is held while the segment is worked on and released when the
/// work ends. A run that has acquired the lock does not end, in success or
/// in failure, without a step that deletes the lock file; the lock is left
/// in place only where that very step has failed.
pub proof fn lemma_lock_is_released(results: Seq<StepResult>)
    ensures
        ({
            let stage = run(Stage::Lock, results);
            &&& !is_final(stage) && !(stage is Lock) ==> lock_in_place(results)
            &&& stage is Lock ==> results.len() == 0
            &&& is_final(stage) && lock_in_place(results) ==> stage is Failed && exists|i: int|
                0 <= i < results.len() && deletes_lock(
                    run(Stage::Lock, results.subrange(0, i)),
                ) && !(#[trigger] results[i] is Done)
        }),
    decreases results.len(),
{
    if results.len() > 0 {
        let front = results.drop_last();
        let at = run(Stage::Lock, front);
        let stage = run(Stage::Lock, results);
        lemma_lock_is_released(front);
        assert(front =~= results.subrange(0, results.len() - 1));
        if is_final(stage) && lock_in_place(results) {
            if is_final(at) {
                let i = choose|i: int|
                    0 <= i < front.len() && deletes_lock(run(Stage::Lock, front.subrange(0, i)))
                        && !(#[trigger] front[i] is Done);
                assert(front.subrange(0, i) =~= results.subrange(0, i));
                assert(results[i] == front[i]);
            } else {
                let i = results.len() - 1;
                assert(deletes_lock(run(Stage::Lock, results.subrange(0, i))));
                assert(!(results[i] is Done));
            }
        }
    }
}

/// A step that fails while the lock is held leads to the release of the
/// lock, and the segment file is not touched again.
pub proof fn lemma_failure_releases_the_lock(stage: Stage, result: StepResult)
    requires
        touches_segment(stage),
        !(result is Done),
    ensures
        following(stage, result) == Stage::ReleaseLock,
        forall|after: StepResult| following(Stage::ReleaseLock, after) == Stage::Failed,
{
}

} // verus!
