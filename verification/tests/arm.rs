use aselect::{Arm, Canceler, Output, PollResult, SelectArm};

fn countdown_poll(f: u32, _cx: &u32) -> Result<u32, u32> {
    if f == 0 {
        Ok(100)
    } else {
        Err(f - 1)
    }
}

#[test]
fn declined_setup_disables_arm() {
    let mut arm = Arm::new(
        |mut c: Canceler| {
            c.cancel(1);
            (None::<u32>, c)
        },
        countdown_poll,
        |d: u32, c: Canceler| (Some(Output::Value(d)), c),
    );
    let mut c = Canceler::new();
    assert!(matches!(arm.do_poll(&0u32, &mut c), PollResult::Disabled));
    assert!(c.canceled(1));
}

#[test]
fn future_is_kept_until_ready() {
    let mut setups = 0u32;
    let mut arm = Arm::new(
        |c: Canceler| {
            setups += 1;
            (Some(2u32), c)
        },
        countdown_poll,
        |d: u32, c: Canceler| (Some(Output::Value(d + 1)), c),
    );
    let mut c = Canceler::new();
    assert!(matches!(arm.do_poll(&0u32, &mut c), PollResult::Pending(true)));
    assert!(matches!(arm.do_poll(&0u32, &mut c), PollResult::Pending(false)));
    assert!(matches!(arm.do_poll(&0u32, &mut c), PollResult::Result(101)));
    // the next poll creates a new future
    assert!(matches!(arm.do_poll(&0u32, &mut c), PollResult::Pending(true)));
    drop(arm);
    assert_eq!(setups, 2);
}

#[test]
fn handler_decides_what_arm_reports() {
    let mut c = Canceler::new();
    let mut arm = Arm::new(
        |c: Canceler| (Some(0u32), c),
        countdown_poll,
        |_d: u32, c: Canceler| (None::<Output<u32>>, c),
    );
    assert!(matches!(arm.do_poll(&0u32, &mut c), PollResult::Inhibited));
    let mut arm = Arm::new(
        |c: Canceler| (Some(0u32), c),
        countdown_poll,
        |_d: u32, c: Canceler| (Some(Output::<u32>::Terminate), c),
    );
    assert!(matches!(arm.do_poll(&0u32, &mut c), PollResult::EndStream));
}

#[test]
fn handler_sees_canceler() {
    let mut c = Canceler::new();
    let mut arm = Arm::new(
        |c: Canceler| (Some(0u32), c),
        countdown_poll,
        |_d: u32, mut c: Canceler| {
            c.cancel(4);
            (None::<Output<u32>>, c)
        },
    );
    assert!(matches!(arm.do_poll(&0u32, &mut c), PollResult::Inhibited));
    assert_eq!(c.canceled, 16);
}

#[test]
fn cancel_drops_running_future() {
    let mut arm = Arm::new(
        |c: Canceler| (Some(5u32), c),
        countdown_poll,
        |d: u32, c: Canceler| (Some(Output::Value(d)), c),
    );
    let mut c = Canceler::new();
    assert!(matches!(arm.do_poll(&0u32, &mut c), PollResult::Pending(true)));
    arm.cancel();
    assert!(matches!(arm.do_poll(&0u32, &mut c), PollResult::Pending(true)));
}
