//! The decision rules of the poll loop, as an explicit state machine: list
//! the monitored devices once, then sweep them forever, fetching and
//! publishing one device at a time; the first failure is terminal for the
//! process, restart being left to outside supervision.
//!
//! The caller performs each returned action (fetch, publish, pause), then
//! reports what happened as the next event. A mismatched event (one the
//! current state cannot have asked for) is a protocol breach and fails the
//! machine, which only ever answers `Stop` from then on.

use vstd::prelude::*;

use crate::client::ApiError;

verus! {

/// The state of the loop: waiting for the device list, sweeping the listed
/// devices (`next` is the device being handled), or failed for good.
pub enum PollState {
    Listing,
    Polling { ids: Vec<String>, next: usize },
    Failed,
}

/// What the caller reports back: the device list arrived, one device was
/// fetched and published, a pause ended, or something failed.
pub enum PollEvent {
    Listed(Vec<String>),
    StepDone,
    SweepDone,
    Failure(ApiError),
}

/// What the caller must do next: fetch the device list, fetch and publish
/// one device (then pause briefly), pause before the next sweep, or stop.
pub enum PollAction {
    FetchList,
    PollDevice(String),
    SweepPause,
    Stop,
}

/// Validity of a state: while sweeping, the cursor stays within the list.
pub open spec fn state_wf(s: PollState) -> bool {
    match s {
        PollState::Polling { ids, next } => next < ids@.len() || (ids@.len() == 0 && next == 0),
        _ => true,
    }
}

/// The transition function of the loop.
pub open spec fn step_spec(s: PollState, e: PollEvent) -> (PollState, PollAction) {
    match e {
        PollEvent::Failure(_) => (PollState::Failed, PollAction::Stop),
        PollEvent::Listed(ids) => match s {
            PollState::Listing => if ids@.len() > 0 {
                (
                    PollState::Polling { ids, next: 0 },
                    PollAction::PollDevice(ids@[0]),
                )
            } else {
                (PollState::Polling { ids, next: 0 }, PollAction::SweepPause)
            },
            _ => (PollState::Failed, PollAction::Stop),
        },
        PollEvent::StepDone => match s {
            PollState::Polling { ids, next } => if next + 1 < ids@.len() {
                (
                    PollState::Polling { ids, next: (next + 1) as usize },
                    PollAction::PollDevice(ids@[next + 1]),
                )
            } else {
                (PollState::Polling { ids, next: 0 }, PollAction::SweepPause)
            },
            _ => (PollState::Failed, PollAction::Stop),
        },
        PollEvent::SweepDone => match s {
            PollState::Polling { ids, next } => if ids@.len() > 0 {
                (
                    PollState::Polling { ids, next: 0 },
                    PollAction::PollDevice(ids@[0]),
                )
            } else {
                (PollState::Polling { ids, next: 0 }, PollAction::SweepPause)
            },
            _ => (PollState::Failed, PollAction::Stop),
        },
    }
}

/// The state the loop starts in; the caller's first action is `FetchList`.
pub fn initial_state() -> (s: PollState)
    ensures
        s == PollState::Listing,
        state_wf(s),
{
    PollState::Listing
}

/// Performs one transition of the loop.
pub fn step(s: PollState, e: PollEvent) -> (r: (PollState, PollAction))
    requires
        state_wf(s),
    ensures
        r == step_spec(s, e),
        state_wf(r.0),
{
    match e {
        PollEvent::Failure(_) => (PollState::Failed, PollAction::Stop),
        PollEvent::Listed(ids) => match s {
            PollState::Listing => {
                if ids.len() > 0 {
                    let first = ids[0].clone();
                    (PollState::Polling { ids, next: 0 }, PollAction::PollDevice(first))
                } else {
                    (PollState::Polling { ids, next: 0 }, PollAction::SweepPause)
                }
            },
            _ => (PollState::Failed, PollAction::Stop),
        },
        PollEvent::StepDone => match s {
            PollState::Polling { ids, next } => {
                if next < ids.len() && next + 1 < ids.len() {
                    let id = ids[next + 1].clone();
                    (
                        PollState::Polling { ids, next: next + 1 },
                        PollAction::PollDevice(id),
                    )
                } else {
                    (PollState::Polling { ids, next: 0 }, PollAction::SweepPause)
                }
            },
            _ => (PollState::Failed, PollAction::Stop),
        },
        PollEvent::SweepDone => match s {
            PollState::Polling { ids, next } => {
                if ids.len() > 0 {
                    let first = ids[0].clone();
                    (PollState::Polling { ids, next: 0 }, PollAction::PollDevice(first))
                } else {
                    (PollState::Polling { ids, next: 0 }, PollAction::SweepPause)
                }
            },
            _ => (PollState::Failed, PollAction::Stop),
        },
    }
}

/// The pause between two devices of one sweep, in seconds.
pub fn device_pause_secs() -> (r: u64)
    ensures
        r == 1,
{
    1
}

/// The pause between two sweeps, in seconds.
pub fn sweep_pause_secs() -> (r: u64)
    ensures
        r == 60,
{
    60
}

/// Once failed, the machine stays failed and only ever asks to stop.
pub proof fn lemma_failed_is_terminal(e: PollEvent)
    ensures
        step_spec(PollState::Failed, e).0 == PollState::Failed,
        step_spec(PollState::Failed, e).1 == PollAction::Stop,
{
}

} // verus!
