use fstree::watcher::COALESCE_SECS;
use fstree::{FsError, FsWatcher, WatchAction, WatchError, WatchEvent, WatchState};

fn watching() -> FsWatcher {
    let mut w = FsWatcher::new();
    assert_eq!(w.watch(WatchEvent::Start), WatchAction::Register);
    assert_eq!(w.watch(WatchEvent::Registered), WatchAction::Receive);
    w
}

#[test]
fn a_new_watcher_is_idle() {
    assert_eq!(FsWatcher::new().current(), WatchState::Idle);
}

#[test]
fn changes_are_gathered_over_two_seconds() {
    assert_eq!(COALESCE_SECS, 2);
}

#[test]
fn start_registers_then_receives() {
    let mut w = FsWatcher::new();
    assert_eq!(w.watch(WatchEvent::Start), WatchAction::Register);
    assert_eq!(w.current(), WatchState::Registering);
    assert_eq!(w.watch(WatchEvent::Registered), WatchAction::Receive);
    assert_eq!(w.current(), WatchState::Waiting);
}

#[test]
fn a_failed_registration_ends_the_watch() {
    let mut w = FsWatcher::new();
    w.watch(WatchEvent::Start);
    assert_eq!(w.watch(WatchEvent::RegisterFailed), WatchAction::Stop(Err(WatchError::Setup)));
    assert_eq!(w.current(), WatchState::Stopped(Err(WatchError::Setup)));
}

#[test]
fn every_change_leads_to_one_refresh() {
    let mut w = watching();
    for _ in 0..3 {
        assert_eq!(w.watch(WatchEvent::Changed), WatchAction::Refresh);
        assert_eq!(w.current(), WatchState::Refreshing);
        assert_eq!(w.watch(WatchEvent::Refreshed), WatchAction::Receive);
        assert_eq!(w.current(), WatchState::Waiting);
    }
}

#[test]
fn an_error_of_the_source_is_passed_over() {
    let mut w = watching();
    assert_eq!(w.watch(WatchEvent::SourceError), WatchAction::Receive);
    assert_eq!(w.current(), WatchState::Waiting);
    assert_eq!(w.watch(WatchEvent::Changed), WatchAction::Refresh);
}

#[test]
fn a_closed_channel_ends_the_watch_with_success() {
    let mut w = watching();
    assert_eq!(w.watch(WatchEvent::Closed), WatchAction::Stop(Ok(())));
    assert_eq!(w.current(), WatchState::Stopped(Ok(())));
}

#[test]
fn a_failed_refresh_ends_the_watch_with_its_failure() {
    let mut w = watching();
    w.watch(WatchEvent::Changed);
    assert_eq!(
        w.watch(WatchEvent::RefreshFailed(FsError::PermissionDenied)),
        WatchAction::Stop(Err(WatchError::Refresh(FsError::PermissionDenied)))
    );
}

#[test]
fn a_watch_that_ended_stays_as_it_ended() {
    let mut w = watching();
    w.watch(WatchEvent::Closed);
    for event in [
        WatchEvent::Start,
        WatchEvent::Registered,
        WatchEvent::Changed,
        WatchEvent::Refreshed,
        WatchEvent::Cancelled,
        WatchEvent::RefreshFailed(FsError::Other),
    ] {
        assert_eq!(w.watch(event), WatchAction::Stop(Ok(())));
    }
}

#[test]
fn cancelling_ends_the_watch_with_success() {
    let mut w = watching();
    assert_eq!(w.watch(WatchEvent::Cancelled), WatchAction::Stop(Ok(())));
    let mut busy = watching();
    busy.watch(WatchEvent::Changed);
    assert_eq!(busy.watch(WatchEvent::Cancelled), WatchAction::Stop(Ok(())));
    let mut idle = FsWatcher::new();
    assert_eq!(idle.watch(WatchEvent::Cancelled), WatchAction::Stop(Ok(())));
}

#[test]
fn an_event_out_of_turn_ends_the_watch() {
    let out_of_order = WatchAction::Stop(Err(WatchError::OutOfOrder));
    let mut idle = FsWatcher::new();
    assert_eq!(idle.watch(WatchEvent::Changed), out_of_order);
    let mut w = watching();
    assert_eq!(w.watch(WatchEvent::Refreshed), out_of_order);
    let mut busy = watching();
    busy.watch(WatchEvent::Changed);
    assert_eq!(busy.watch(WatchEvent::Changed), out_of_order);
    let mut registering = FsWatcher::new();
    registering.watch(WatchEvent::Start);
    assert_eq!(registering.watch(WatchEvent::Closed), out_of_order);
}
