//! The steps of watching a path for changes.

use crate::error::FsError;
use vstd::prelude::*;

verus! {

/// The seconds over which the notification source gathers changes before
/// it reports them.
pub const COALESCE_SECS: u64 = 2;

/// Why a watch ended without success.
#[derive(Debug, Clone, Copy, PartialEq, Eq, Structural)]
pub enum WatchError {
    /// The path could not be registered with the notification source.
    Setup,
    /// A refresh of the tree failed.
    Refresh(FsError),
    /// An event was reported that the watcher was not waiting for.
    OutOfOrder,
}

/// Where a watch stands.
#[derive(Debug, Clone, Copy, PartialEq, Eq)]
pub enum WatchState {
    /// Nothing was asked of the watcher yet.
    Idle,
    /// The path is being registered with the notification source.
    Registering,
    /// The next notification is awaited.
    Waiting,
    /// The tree is being refreshed after a change.
    Refreshing,
    /// The watch has ended, with this outcome.
    Stopped(Result<(), WatchError>),
}

/// What happened outside, as it is reported to the watcher.
#[derive(Debug, Clone, Copy, PartialEq, Eq, Structural)]
pub enum WatchEvent {
    /// The caller wants the watch to begin.
    Start,
    /// The path was registered for recursive notification.
    Registered,
    /// Registering the path failed.
    RegisterFailed,
    /// The source reported a change somewhere below the path.
    Changed,
    /// The source reported an error of its own.
    SourceError,
    /// The channel of notifications was closed.
    Closed,
    /// The refresh of the tree is complete.
    Refreshed,
    /// The refresh of the tree failed.
    RefreshFailed(FsError),
    /// The caller wants the watch to end.
    Cancelled,
}

/// What is to be done next for the watcher.
#[derive(Debug, Clone, Copy, PartialEq, Eq)]
pub enum WatchAction {
    /// Register the path for recursive notification, then report
    /// `Registered` or `RegisterFailed`.
    Register,
    /// Take the next notification off the channel, then report `Changed`,
    /// `SourceError` or `Closed`.
    Receive,
    /// Refresh the whole tree, then report `Refreshed` or `RefreshFailed`.
    Refresh,
    /// Return to the caller with this outcome.
    Stop(Result<(), WatchError>),
}

/// The state that follows `state` when `event` is reported.
///
/// A change leads to a refresh of the whole tree, and no further
/// notification is taken before that refresh is complete. An error of the
/// source is passed over. A closed channel ends the watch with success, a
/// failed refresh or registration with that failure. An event that the state
/// does not await ends the watch as `OutOfOrder`; a watch that has ended
/// stays as it ended.
pub open spec fn next_state(state: WatchState, event: WatchEvent) -> WatchState {
    match (state, event) {
        (WatchState::Stopped(outcome), _) => WatchState::Stopped(outcome),
        (_, WatchEvent::Cancelled) => WatchState::Stopped(Ok(())),
        (WatchState::Idle, WatchEvent::Start) => WatchState::Registering,
        (WatchState::Registering, WatchEvent::Registered) => WatchState::Waiting,
        (WatchState::Registering, WatchEvent::RegisterFailed) => WatchState::Stopped(
            Err(WatchError::Setup),
        ),
        (WatchState::Waiting, WatchEvent::Changed) => WatchState::Refreshing,
        (WatchState::Waiting, WatchEvent::SourceError) => WatchState::Waiting,
        (WatchState::Waiting, WatchEvent::Closed) => WatchState::Stopped(Ok(())),
        (WatchState::Refreshing, WatchEvent::Refreshed) => WatchState::Waiting,
        (WatchState::Refreshing, WatchEvent::RefreshFailed(e)) => WatchState::Stopped(
            Err(WatchError::Refresh(e)),
        ),
        _ => WatchState::Stopped(Err(WatchError::OutOfOrder)),
    }
}

/// What a state asks to be done.
pub open spec fn action_of(state: WatchState) -> WatchAction {
    match state {
        WatchState::Idle => WatchAction::Stop(Err(WatchError::OutOfOrder)),
        WatchState::Registering => WatchAction::Register,
        WatchState::Waiting => WatchAction::Receive,
        WatchState::Refreshing => WatchAction::Refresh,
        WatchState::Stopped(outcome) => WatchAction::Stop(outcome),
    }
}

/// The state after the events of `events` were reported in order.
pub open spec fn state_after(state: WatchState, events: Seq<WatchEvent>) -> WatchState
    decreases events.len(),
{
    if events.len() == 0 {
        state
    } else {
        next_state(state_after(state, events.drop_last()), events.last())
    }
}

/// Couples the notifications of a filesystem to the refresh of a tree: it
/// is told what happened and says what to do next.
#[derive(Debug)]
pub struct FsWatcher {
    state: WatchState,
}

impl FsWatcher {
    /// A watcher of which nothing was asked yet.
    pub fn new() -> (watcher: Self)
        ensures
            watcher.state() == WatchState::Idle,
    {
        FsWatcher { state: WatchState::Idle }
    }

    /// Where the watch stands.
    pub closed spec fn state(&self) -> WatchState {
        self.state
    }

    /// Where the watch stands.
    pub fn current(&self) -> (state: WatchState)
        ensures
            state == self.state(),
    {
        self.state
    }

    /// Takes `event` as reported and returns what to do next.
    pub fn watch(&mut self, event: WatchEvent) -> (action: WatchAction)
        ensures
            final(self).state() == next_state(old(self).state(), event),
            action == action_of(final(self).state()),
    {
        let next = match (self.state, event) {
            (WatchState::Stopped(outcome), _) => WatchState::Stopped(outcome),
            (_, WatchEvent::Cancelled) => WatchState::Stopped(Ok(())),
            (WatchState::Idle, WatchEvent::Start) => WatchState::Registering,
            (WatchState::Registering, WatchEvent::Registered) => WatchState::Waiting,
            (WatchState::Registering, WatchEvent::RegisterFailed) => WatchState::Stopped(
                Err(WatchError::Setup),
            ),
            (WatchState::Waiting, WatchEvent::Changed) => WatchState::Refreshing,
            (WatchState::Waiting, WatchEvent::SourceError) => WatchState::Waiting,
            (WatchState::Waiting, WatchEvent::Closed) => WatchState::Stopped(Ok(())),
            (WatchState::Refreshing, WatchEvent::Refreshed) => WatchState::Waiting,
            (WatchState::Refreshing, WatchEvent::RefreshFailed(e)) => WatchState::Stopped(
                Err(WatchError::Refresh(e)),
            ),
            _ => WatchState::Stopped(Err(WatchError::OutOfOrder)),
        };
        self.state = next;
        match next {
            WatchState::Idle => WatchAction::Stop(Err(WatchError::OutOfOrder)),
            WatchState::Registering => WatchAction::Register,
            WatchState::Waiting => WatchAction::Receive,
            WatchState::Refreshing => WatchAction::Refresh,
            WatchState::Stopped(outcome) => WatchAction::Stop(outcome),
        }
    }
}

/// A watch that has ended stays as it ended, whatever is reported.
pub proof fn lemma_stopped_is_final(outcome: Result<(), WatchError>, events: Seq<WatchEvent>)
    ensures
        state_after(WatchState::Stopped(outcome), events) == WatchState::Stopped(outcome),
    decreases events.len(),
{
    if events.len() > 0 {
        lemma_stopped_is_final(outcome, events.drop_last());
    }
}

/// Refreshes never overlap: a refresh is asked for only on a change that
/// arrives while a notification is awaited, and whatever is reported while
/// it runs, the next thing asked for is no refresh.
pub proof fn lemma_refreshes_are_sequential(state: WatchState, event: WatchEvent)
    ensures
        action_of(next_state(state, event)) == WatchAction::Refresh <==> state
            == WatchState::Waiting && event == WatchEvent::Changed,
        state == WatchState::Refreshing ==> action_of(next_state(state, event))
            != WatchAction::Refresh,
{
}

} // verus!
