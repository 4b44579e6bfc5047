use soliscloud::client::ApiError;
use soliscloud::poll::{
    device_pause_secs, initial_state, step, sweep_pause_secs, PollAction, PollEvent, PollState,
};

fn two_ids() -> Vec<String> {
    vec!["dev1".to_string(), "dev2".to_string()]
}

#[test]
fn test_listing_to_polling() {
    let s = initial_state();
    let (s, a) = step(s, PollEvent::Listed(two_ids()));
    assert!(matches!(a, PollAction::PollDevice(id) if id == "dev1"));
    assert!(matches!(s, PollState::Polling { next: 0, .. }));
}

#[test]
fn test_sweep_in_order_then_pause() {
    let s = initial_state();
    let (s, _) = step(s, PollEvent::Listed(two_ids()));
    let (s, a) = step(s, PollEvent::StepDone);
    assert!(matches!(a, PollAction::PollDevice(id) if id == "dev2"));
    let (s, a) = step(s, PollEvent::StepDone);
    assert!(matches!(a, PollAction::SweepPause));
    let (_, a) = step(s, PollEvent::SweepDone);
    assert!(matches!(a, PollAction::PollDevice(id) if id == "dev1"));
}

#[test]
fn test_empty_list_only_pauses() {
    let s = initial_state();
    let (s, a) = step(s, PollEvent::Listed(Vec::new()));
    assert!(matches!(a, PollAction::SweepPause));
    let (_, a) = step(s, PollEvent::SweepDone);
    assert!(matches!(a, PollAction::SweepPause));
}

#[test]
fn test_failure_is_terminal() {
    let s = initial_state();
    let (s, _) = step(s, PollEvent::Listed(two_ids()));
    let (s, a) = step(s, PollEvent::Failure(ApiError::Publish));
    assert!(matches!(s, PollState::Failed));
    assert!(matches!(a, PollAction::Stop));
    let (s, a) = step(s, PollEvent::StepDone);
    assert!(matches!(s, PollState::Failed));
    assert!(matches!(a, PollAction::Stop));
}

#[test]
fn test_mismatched_event_fails() {
    let s = initial_state();
    let (s, _) = step(s, PollEvent::Listed(two_ids()));
    let (s, a) = step(s, PollEvent::Listed(two_ids()));
    assert!(matches!(s, PollState::Failed));
    assert!(matches!(a, PollAction::Stop));
}

#[test]
fn test_pause_lengths() {
    assert_eq!(device_pause_secs(), 1);
    assert_eq!(sweep_pause_secs(), 60);
}
