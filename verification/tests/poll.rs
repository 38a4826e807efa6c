use aselect::{PollResult, PollState, RoundOutcome};

#[test]
fn all_arms_disabled_yields_without_wake() {
    let mut s = PollState::new(2);
    assert_eq!(s.n_arms(), 2);
    assert_eq!(s.next_arm(), Some(0));
    assert!(s.record(0, PollResult::<u32>::Disabled).is_none());
    assert_eq!(s.next_arm(), Some(1));
    assert!(s.record(1, PollResult::<u32>::Disabled).is_none());
    assert_eq!(s.next_arm(), None);
    let end = s.end_round();
    assert_eq!(end.outcome, RoundOutcome::Yield);
    assert!(end.canceled.is_empty());
    assert_eq!(s.iterations(), 1);
}

#[test]
fn always_ready_without_value_wakes_after_limit() {
    let mut s = PollState::new(1);
    for round in 1..=11u32 {
        assert_eq!(s.next_arm(), Some(0));
        assert!(s.record(0, PollResult::<u32>::Inhibited).is_none());
        assert_eq!(s.next_arm(), None);
        let end = s.end_round();
        assert_eq!(s.iterations(), round);
        if round <= 10 {
            assert_eq!(end.outcome, RoundOutcome::Repeat);
        } else {
            assert_eq!(end.outcome, RoundOutcome::WakeAndYield);
        }
    }
}

#[test]
fn new_future_repeats_then_pending_arm_is_skipped() {
    let mut s = PollState::new(2);
    assert_eq!(s.next_arm(), Some(0));
    assert!(s.record(0, PollResult::<u32>::Pending(true)).is_none());
    assert_eq!(s.next_arm(), Some(1));
    assert!(s.record(1, PollResult::<u32>::Pending(false)).is_none());
    assert_eq!(s.next_arm(), None);
    assert_eq!(s.end_round().outcome, RoundOutcome::Repeat);
    assert_eq!(s.next_arm(), None);
    assert_eq!(s.end_round().outcome, RoundOutcome::Yield);
    assert_eq!(s.iterations(), 2);
}

#[test]
fn value_and_end_of_stream_return_ready() {
    let mut s = PollState::new(3);
    assert_eq!(s.next_arm(), Some(0));
    assert_eq!(s.record(0, PollResult::Result(42u32)), Some(Some(42)));
    let mut s = PollState::new(3);
    assert_eq!(s.next_arm(), Some(0));
    assert_eq!(s.record(0, PollResult::<u32>::Pending(false)), None);
    assert_eq!(s.next_arm(), Some(1));
    assert_eq!(s.record(1, PollResult::<u32>::EndStream), Some(None));
}

#[test]
fn cancelled_pending_arm_runs_again() {
    let mut s = PollState::new(2);
    assert_eq!(s.next_arm(), Some(0));
    s.record(0, PollResult::<u32>::Pending(false));
    assert_eq!(s.next_arm(), Some(1));
    s.canceler_mut().cancel(0);
    s.record(1, PollResult::<u32>::Pending(false));
    assert_eq!(s.next_arm(), None);
    let end = s.end_round();
    assert_eq!(end.canceled, vec![0usize]);
    assert_eq!(end.outcome, RoundOutcome::Repeat);
    assert_eq!(s.next_arm(), Some(0));
    assert_eq!(s.next_arm(), None);
}

#[test]
fn cancel_of_missing_arm_still_repeats() {
    let mut s = PollState::new(1);
    assert_eq!(s.next_arm(), Some(0));
    s.canceler_mut().cancel(7);
    s.record(0, PollResult::<u32>::Disabled);
    assert_eq!(s.next_arm(), None);
    let end = s.end_round();
    assert!(end.canceled.is_empty());
    assert_eq!(end.outcome, RoundOutcome::Repeat);
}

#[test]
fn arms_cancelling_each_other_stop_at_limit() {
    let mut s = PollState::new(2);
    let mut last = RoundOutcome::Repeat;
    let mut rounds = 0u32;
    while last == RoundOutcome::Repeat {
        while let Some(i) = s.next_arm() {
            s.canceler_mut().cancel((1 - i) as u32);
            s.record(i, PollResult::<u32>::Pending(true));
        }
        let end = s.end_round();
        assert_eq!(end.canceled, vec![0usize, 1]);
        last = end.outcome;
        rounds += 1;
    }
    assert_eq!(rounds, 11);
    assert_eq!(last, RoundOutcome::WakeAndYield);
}

#[test]
fn round_visits_runnable_arms_in_order() {
    let mut s = PollState::new(4);
    let mut seen = Vec::new();
    while let Some(i) = s.next_arm() {
        seen.push(i);
        let r = if i % 2 == 0 { PollResult::<u32>::Pending(false) } else { PollResult::Disabled };
        s.record(i, r);
    }
    assert_eq!(seen, vec![0, 1, 2, 3]);
    assert_eq!(s.end_round().outcome, RoundOutcome::Yield);
}
