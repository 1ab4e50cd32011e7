use dupharvest::reaper::{start, step, ReaperAction, ReaperEvent, ReaperState, SWEEP_INTERVAL_SECONDS};

#[test]
fn reaper_sweeps_first() {
    assert_eq!(start(), (ReaperState::Sweeping, ReaperAction::Sweep));
}

#[test]
fn reaper_cycles_between_waiting_and_sweeping() {
    assert_eq!(
        step(ReaperState::Sweeping, ReaperEvent::SweepDone),
        (ReaperState::Waiting, ReaperAction::Wait(10))
    );
    assert_eq!(
        step(ReaperState::Waiting, ReaperEvent::TimerFired),
        (ReaperState::Sweeping, ReaperAction::Sweep)
    );
    assert_eq!(SWEEP_INTERVAL_SECONDS, 10);
}

#[test]
fn reaper_ignores_events_out_of_turn() {
    assert_eq!(
        step(ReaperState::Waiting, ReaperEvent::SweepDone),
        (ReaperState::Waiting, ReaperAction::Ignore)
    );
    assert_eq!(
        step(ReaperState::Sweeping, ReaperEvent::TimerFired),
        (ReaperState::Sweeping, ReaperAction::Ignore)
    );
}
