use vstd::prelude::*;

verus! {

/// Seconds between two sweeps.
pub const SWEEP_INTERVAL_SECONDS: u64 = 10;

/// Where the periodic sweeping task stands.
#[derive(PartialEq, Eq, Structural, Clone, Copy, Debug)]
pub enum ReaperState {
    /// Waiting for the timer.
    Waiting,
    /// A sweep is running.
    Sweeping,
}

/// What the driver of the task reports back.
#[derive(PartialEq, Eq, Structural, Clone, Copy, Debug)]
pub enum ReaperEvent {
    /// The timer set by the last `Wait` went off.
    TimerFired,
    /// The sweep asked for by the last `Sweep` has finished.
    SweepDone,
}

/// What the driver of the task is asked to do next.
#[derive(PartialEq, Eq, Structural, Clone, Copy, Debug)]
pub enum ReaperAction {
    /// Sweep the table, then report `SweepDone`.
    Sweep,
    /// Wait this many seconds, then report `TimerFired`.
    Wait(u64),
    /// Nothing: the event did not belong to the current state.
    Ignore,
}

/// The transition of the task on one event.
pub open spec fn step_spec(state: ReaperState, event: ReaperEvent) -> (ReaperState, ReaperAction) {
    match (state, event) {
        (ReaperState::Waiting, ReaperEvent::TimerFired) => (ReaperState::Sweeping, ReaperAction::Sweep),
        (ReaperState::Sweeping, ReaperEvent::SweepDone) => (
            ReaperState::Waiting,
            ReaperAction::Wait(SWEEP_INTERVAL_SECONDS),
        ),
        _ => (state, ReaperAction::Ignore),
    }
}

/// The task starts by sweeping at once.
pub fn start() -> (r: (ReaperState, ReaperAction))
    ensures
        r == (ReaperState::Sweeping, ReaperAction::Sweep),
{
    (ReaperState::Sweeping, ReaperAction::Sweep)
}

/// Moves the task on by one event: a fired timer starts a sweep, a finished
/// sweep sets the timer again; an event that does not fit the state changes
/// nothing.
pub fn step(state: ReaperState, event: ReaperEvent) -> (r: (ReaperState, ReaperAction))
    ensures
        r == step_spec(state, event),
{
    match (state, event) {
        (ReaperState::Waiting, ReaperEvent::TimerFired) => (ReaperState::Sweeping, ReaperAction::Sweep),
        (ReaperState::Sweeping, ReaperEvent::SweepDone) => (
            ReaperState::Waiting,
            ReaperAction::Wait(SWEEP_INTERVAL_SECONDS),
        ),
        _ => (state, ReaperAction::Ignore),
    }
}

} // verus!
