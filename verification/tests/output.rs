use aselect::{decision_result, result, terminate, Output, PollResult, SafeResult};

#[test]
fn terminate_is_terminate() {
    assert!(matches!(terminate::<u32>(), Output::Terminate));
}

#[test]
fn option_handler_values() {
    assert!(matches!(result(Some(Some(3u32))), Some(Output::Value(3))));
    assert!(result(Some(None::<u32>)).is_none());
    assert!(result(None::<Option<u32>>).is_none());
    assert!(matches!(Some(7u8).result(), Some(Output::Value(7))));
}

#[test]
fn output_handler_values() {
    assert!(matches!(result(Some(Output::Value("x"))), Some(Output::Value("x"))));
    assert!(matches!(result(Some(Output::<u32>::Terminate)), Some(Output::Terminate)));
    assert!(result(None::<Output<u32>>).is_none());
}

#[test]
fn unit_handler_produces_nothing() {
    assert!(result(Some(())).is_none());
    assert!(().result().is_none());
}

#[test]
fn decisions_map_to_poll_results() {
    assert!(matches!(decision_result(Some(Output::Value(9u32))), PollResult::Result(9)));
    assert!(matches!(decision_result(Some(Output::<u32>::Terminate)), PollResult::EndStream));
    assert!(matches!(decision_result(None::<Output<u32>>), PollResult::Inhibited));
}
