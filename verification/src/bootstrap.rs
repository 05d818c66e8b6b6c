//! The order of start-up.
//!
//! The steps are taken one after the other. A step that fails ends the
//! process: nothing behind it is tried.

use vstd::prelude::*;

verus! {

/// The steps of start-up in their order, and the two ways it ends.
#[derive(Debug, Clone, Copy, PartialEq, Eq, Structural)]
pub enum BootStep {
    /// Open the persistent store and bring its schema up to date.
    Migrate,
    /// Make the handle of the log.
    OpenLog,
    /// Replay the segments that a former process left behind.
    Recover,
    /// Apply the staged rows to the canonical table.
    Reconcile,
    /// Fill the cache from the canonical table.
    LoadCache,
    /// Open the segments of the pool.
    InitializePool,
    /// Start the background writer.
    StartWriter,
    /// Bind the listener.
    Listen,
    /// Every step is done: requests are served.
    Serving,
    /// A step failed: the process exits.
    Fatal,
}

/// Rows of the canonical table that are put into the cache at a time.
pub const CACHE_LOAD_CHUNK: usize = 5000;

/// The place of a step in the order of start-up.
pub open spec fn rank(step: BootStep) -> nat {
    match step {
        BootStep::Migrate => 0,
        BootStep::OpenLog => 1,
        BootStep::Recover => 2,
        BootStep::Reconcile => 3,
        BootStep::LoadCache => 4,
        BootStep::InitializePool => 5,
        BootStep::StartWriter => 6,
        BootStep::Listen => 7,
        BootStep::Serving => 8,
        BootStep::Fatal => 9,
    }
}

/// What follows `step`, given whether it was done.
pub open spec fn following(step: BootStep, done: bool) -> BootStep {
    if step is Serving || step is Fatal {
        step
    } else if !done {
        BootStep::Fatal
    } else {
        match step {
            BootStep::Migrate => BootStep::OpenLog,
            BootStep::OpenLog => BootStep::Recover,
            BootStep::Recover => BootStep::Reconcile,
            BootStep::Reconcile => BootStep::LoadCache,
            BootStep::LoadCache => BootStep::InitializePool,
            BootStep::InitializePool => BootStep::StartWriter,
            BootStep::StartWriter => BootStep::Listen,
            _ => BootStep::Serving,
        }
    }
}

/// The step that start-up begins with.
pub fn first_step() -> (step: BootStep)
    ensures
        step == BootStep::Migrate,
{
    BootStep::Migrate
}

/// Moves on from `step`, given whether it was done. Steps are never skipped
/// and never taken twice: a step that was done is followed by the step of
/// the next rank.
pub fn next_step(step: BootStep, done: bool) -> (next: BootStep)
    ensures
        next == following(step, done),
        done && rank(step) < 8 ==> rank(next) == rank(step) + 1,
        !done && rank(step) < 8 ==> next == BootStep::Fatal,
{
    match step {
        BootStep::Serving => BootStep::Serving,
        BootStep::Fatal => BootStep::Fatal,
        _ => if !done {
            BootStep::Fatal
        } else {
            match step {
                BootStep::Migrate => BootStep::OpenLog,
                BootStep::OpenLog => BootStep::Recover,
                BootStep::Recover => BootStep::Reconcile,
                BootStep::Reconcile => BootStep::LoadCache,
                BootStep::LoadCache => BootStep::InitializePool,
                BootStep::InitializePool => BootStep::StartWriter,
                BootStep::StartWriter => BootStep::Listen,
                _ => BootStep::Serving,
            }
        },
    }
}

/// The exit code of a process that ends at `step`: zero after a clean run,
/// and not zero where start-up failed.
pub fn exit_code(step: BootStep) -> (code: i32)
    ensures
        code == (if step is Fatal { 1i32 } else { 0i32 }),
{
    match step {
        BootStep::Fatal => 1,
        _ => 0,
    }
}

} // verus!
