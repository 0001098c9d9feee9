use feather_fences::refresh::{RefreshSignal, RefreshState, RefreshTimerAction, REFRESH_DEBOUNCE_MS};

fn ms(v: u64) -> u64 {
    v * 1_000_000
}

#[test]
fn refresh_state_coalesces_events_until_the_quiet_period() {
    let mut state = RefreshState::default();
    let start = ms(1_000_000);
    let delay = ms(REFRESH_DEBOUNCE_MS as u64);

    assert!(state.record_event(start));
    assert!(!state.record_event(start + ms(50)));
    assert_eq!(state.timer_action(start + ms(150), delay), RefreshTimerAction::Wait(50));
    assert_eq!(state.timer_action(start + ms(200), delay), RefreshTimerAction::Refresh);
    assert_eq!(state.timer_action(start + ms(201), delay), RefreshTimerAction::Idle);
    assert!(state.record_event(start + ms(202)));
}

#[test]
fn a_wait_is_at_least_one_millisecond() {
    let mut state = RefreshState::default();
    state.record_event(0);
    assert_eq!(state.timer_action(ms(150) - 1, ms(150)), RefreshTimerAction::Wait(1));
    assert_eq!(state.timer_action(ms(148) + 1, ms(150)), RefreshTimerAction::Wait(1));
    assert_eq!(state.timer_action(0, u64::MAX), RefreshTimerAction::Wait(u32::MAX));
}

#[test]
fn a_clock_that_stands_behind_the_event_counts_as_no_time() {
    let mut state = RefreshState::default();
    state.record_event(ms(10));
    assert_eq!(state.timer_action(0, ms(150)), RefreshTimerAction::Wait(150));
}

#[test]
fn one_message_is_under_way_at_a_time() {
    let mut signal = RefreshSignal::default();
    let posted = (0..100).filter(|&i| signal.post(i)).count();
    assert_eq!(posted, 1);
    signal.posted(true);
    assert!(!signal.post(200));
    signal.posted(false);
    assert!(signal.post(300));
    signal.cancel();
    assert!(signal.post(400));
    assert_eq!(signal.timer_action(400 + ms(149)), RefreshTimerAction::Wait(1));
    assert_eq!(signal.timer_action(400 + ms(150)), RefreshTimerAction::Refresh);
    assert_eq!(signal.timer_action(400 + ms(151)), RefreshTimerAction::Idle);
}
