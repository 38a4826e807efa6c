//! Wait on several asynchronous branches without cancelling or starving any of them.
//!
//! The crate holds the decision logic of a select loop that never drops a running
//! future on its own:
//!
//! * `output`: what an arm's handler may evaluate to, and what that produces;
//! * `canceler`: the set of cancellation requests that arms make during a round;
//! * `arm`: one arm, which creates its future through its setup, polls it, and hands
//!   what it produced to its handler;
//! * `poll`: the rounds of one poll of a select object, which visit every runnable arm in
//!   order, cancel only the arms whose cancellation was requested, and stop after a
//!   bounded number of rounds;
//! * `select`: one whole poll of a select object over its arms, built from the two
//!   state machines above;
//! * `capture`: the cells through which arms share captured variables.

pub mod output;
pub mod canceler;
pub mod poll;
pub mod arm;
pub mod capture;
pub mod select;

pub use output::{Output, SafeResult, terminate, result};
pub use canceler::{Canceler, CancelerWrapper};
pub use poll::{PollResult, PollState, RoundEnd, RoundOutcome};
pub use arm::{Arm, SelectArm, decision_result};
pub use select::{poll_arms, SelectPoll};
pub use arm::ArmEvent;
pub use capture::{
    CaptureAccess, CaptureGuard, ConstantCapture, LockedCapture, UnsafeCapture,
    UnsafeCaptureAccess, UnsafeCaptureAccessCell,
};
