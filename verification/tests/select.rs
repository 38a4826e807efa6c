use aselect::{poll_arms, Arm, Canceler, Output, SelectArm, SelectPoll};

type Arms<'a> = Vec<Box<dyn SelectArm<u32, &'static str> + 'a>>;

fn countdown_poll(f: u32, _cx: &u32) -> Result<u32, u32> {
    if f == 0 {
        Ok(f)
    } else {
        Err(f - 1)
    }
}

#[test]
fn all_arms_disabled_is_pending() {
    let mut arms: Arms = Vec::new();
    arms.push(Box::new(Arm::new(
        |c: Canceler| (None::<u32>, c),
        countdown_poll,
        |_d: u32, c: Canceler| (Some(Output::Value("x")), c),
    )));
    assert!(matches!(poll_arms(&mut arms, &0), SelectPoll::Pending));
    assert!(matches!(poll_arms(&mut arms, &0), SelectPoll::Pending));
}

#[test]
fn counter_then_finished() {
    let mut counter = 0u32;
    let mut arms: Arms = Vec::new();
    arms.push(Box::new(Arm::new(
        |c: Canceler| {
            counter += 1;
            (Some(1u32), c)
        },
        countdown_poll,
        |_d: u32, c: Canceler| (None, c),
    )));
    arms.push(Box::new(Arm::new(
        |c: Canceler| (Some(3u32), c),
        countdown_poll,
        |_d: u32, c: Canceler| (Some(Output::Value("finished")), c),
    )));
    let mut polls = 0;
    let result = loop {
        polls += 1;
        match poll_arms(&mut arms, &0) {
            SelectPoll::Ready(Some(v)) => break v,
            SelectPoll::Pending => {},
            other => panic!("unexpected {}", matches!(other, SelectPoll::Ready(None))),
        }
    };
    drop(arms);
    assert_eq!(result, "finished");
    assert_eq!(polls, 4);
    assert!(counter >= 2);
}

#[test]
fn always_ready_without_value_wakes() {
    let mut arms: Arms = Vec::new();
    arms.push(Box::new(Arm::new(
        |c: Canceler| (Some(0u32), c),
        countdown_poll,
        |_d: u32, c: Canceler| (None, c),
    )));
    assert!(matches!(poll_arms(&mut arms, &0), SelectPoll::WakeAndPending));
}

#[test]
fn terminate_ends_stream() {
    let mut arms: Arms = Vec::new();
    arms.push(Box::new(Arm::new(
        |c: Canceler| (Some(1u32), c),
        countdown_poll,
        |_d: u32, c: Canceler| (Some(Output::Terminate), c),
    )));
    assert!(matches!(poll_arms(&mut arms, &0), SelectPoll::Pending));
    assert!(matches!(poll_arms(&mut arms, &0), SelectPoll::Ready(None)));
}

#[test]
fn arms_cancelling_each_other_wake() {
    let mut arms: Arms = Vec::new();
    arms.push(Box::new(Arm::new(
        |mut c: Canceler| {
            c.cancel(1);
            (Some(5u32), c)
        },
        countdown_poll,
        |_d: u32, c: Canceler| (None, c),
    )));
    arms.push(Box::new(Arm::new(
        |mut c: Canceler| {
            c.cancel(0);
            (Some(5u32), c)
        },
        countdown_poll,
        |_d: u32, c: Canceler| (Some(Output::Value("finished")), c),
    )));
    for _ in 0..10 {
        assert!(matches!(poll_arms(&mut arms, &0), SelectPoll::WakeAndPending));
    }
}

#[test]
fn cancel_among_many_arms() {
    let mut setups = vec![0u32; 65];
    {
        let mut arms: Arms = Vec::new();
        for (i, count) in setups.iter_mut().enumerate() {
            arms.push(Box::new(Arm::new(
                move |mut c: Canceler| {
                    *count += 1;
                    if i == 64 && *count == 1 {
                        c.cancel(3);
                    }
                    (Some(5u32), c)
                },
                countdown_poll,
                |_d: u32, c: Canceler| (None, c),
            )));
        }
        assert!(matches!(poll_arms(&mut arms, &0), SelectPoll::Pending));
    }
    // arm 3 was cancelled once and set up again; the others were set up once
    assert_eq!(setups[3], 2);
    assert_eq!(setups[0], 1);
    assert_eq!(setups[64], 1);
}

#[test]
fn pending_arms_keep_their_future() {
    let mut setups = 0u32;
    let mut arms: Arms = Vec::new();
    arms.push(Box::new(Arm::new(
        |c: Canceler| {
            setups += 1;
            (Some(2u32), c)
        },
        countdown_poll,
        |_d: u32, c: Canceler| (Some(Output::Value("done")), c),
    )));
    assert!(matches!(poll_arms(&mut arms, &0), SelectPoll::Pending));
    assert!(matches!(poll_arms(&mut arms, &0), SelectPoll::Pending));
    assert!(matches!(poll_arms(&mut arms, &0), SelectPoll::Ready(Some("done"))));
    drop(arms);
    assert_eq!(setups, 1);
}
