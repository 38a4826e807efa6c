use vstd::prelude::*;
use crate::canceler::Canceler;
use crate::output::Output;
use crate::poll::PollResult;

verus! {

broadcast use vstd::function::group_function_axioms;

/// One arm of a select object, as the poll sees it.
pub trait SelectArm<CX, TOut> {
    /// Whether the arm holds a running future.
    spec fn has_future(&self) -> bool;

    /// Whether the arm can be polled.
    spec fn ready_to_poll(&self) -> bool;

    /// What happened to the arm so far, oldest first.
    spec fn history(&self) -> Seq<ArmEvent<TOut>>;

    /// Poll the arm once: create its future if it has none (or report `Disabled` when
    /// its setup declines), then poll the future and, once it is ready, run the handler.
    fn do_poll(&mut self, cx: &CX, canceler: &mut Canceler) -> (r: PollResult<TOut>)
        requires
            old(self).ready_to_poll(),
        ensures
            final(self).ready_to_poll(),
            final(self).history() == old(self).history().push(
                ArmEvent::Polled { report: r, before: *old(canceler), after: *final(canceler) },
            ),
            r is Disabled ==> !old(self).has_future() && !final(self).has_future(),
            r matches PollResult::Pending(created) ==> final(self).has_future() && created
                == !old(self).has_future(),
            (r is Result || r is EndStream || r is Inhibited) ==> !final(self).has_future(),
    ;

    /// Drop the arm's running future, if any.
    fn cancel(&mut self)
        requires
            old(self).ready_to_poll(),
        ensures
            final(self).ready_to_poll(),
            !final(self).has_future(),
            final(self).history() == old(self).history().push(ArmEvent::Cancelled),
    ;
}

/// Something that happened to an arm.
pub enum ArmEvent<T> {
    /// The arm was polled with cancellation requests `before`, reported `report`, and
    /// left the requests `after`.
    Polled { report: PollResult<T>, before: Canceler, after: Canceler },
    /// The arm's future was dropped.
    Cancelled,
}

/// What an arm reports once its future is ready and its handler decided: a value, the
/// end of the stream, or nothing.
pub open spec fn decision_spec<T>(decision: Option<Output<T>>) -> PollResult<T> {
    match decision {
        Some(Output::Value(c)) => PollResult::Result(c),
        Some(Output::Terminate) => PollResult::EndStream,
        None => PollResult::Inhibited,
    }
}

/// Turn a handler's decision into what the arm reports.
pub fn decision_result<T>(decision: Option<Output<T>>) -> (r: PollResult<T>)
    ensures
        r == decision_spec(decision),
{
    match decision {
        Some(Output::Value(c)) => PollResult::Result(c),
        Some(Output::Terminate) => PollResult::EndStream,
        None => PollResult::Inhibited,
    }
}

/// Every cancellation request of `c0` is still in `c1`.
pub open spec fn keeps_requests(c0: Canceler, c1: Canceler) -> bool {
    forall|i: int| #[trigger] c0.is_canceled(i) ==> c1.is_canceled(i)
}

/// The setup `s`, the poll `p` and the handler `h` may be called on any input.
pub open spec fn hooks_callable<CX, TOut, F, D, S, P, H>(s: S, p: P, h: H) -> bool where
    S: FnMut(Canceler) -> (Option<F>, Canceler),
    P: FnMut(F, &CX) -> Result<D, F>,
    H: FnMut(D, Canceler) -> (Option<Output<TOut>>, Canceler),
 {
    &&& forall|c: Canceler| #[trigger] call_requires(s, (c,))
    &&& forall|f: F, cx: &CX| #[trigger] call_requires(p, (f, cx))
    &&& forall|d: D, c: Canceler| #[trigger] call_requires(h, (d, c))
}

/// An arm built from its user code: a setup that creates the arm's future (or declines),
/// a poll that drives the future once (giving back either what it produced or the
/// future itself), and a handler that decides what the output of the future produces.
/// The arm holds the future its setup created until the future is ready or the arm is
/// cancelled.
#[verifier::reject_recursive_types(CX)]
#[verifier::reject_recursive_types(TOut)]
#[verifier::reject_recursive_types(F)]
#[verifier::reject_recursive_types(D)]
pub struct Arm<CX, TOut, F, D, S, P, H> where
    S: FnMut(Canceler) -> (Option<F>, Canceler),
    P: FnMut(F, &CX) -> Result<D, F>,
    H: FnMut(D, Canceler) -> (Option<Output<TOut>>, Canceler),
 {
    setup: S,
    poll: P,
    handler: H,
    fut: Option<F>,
    events: Ghost<Seq<ArmEvent<TOut>>>,
    phantom: core::marker::PhantomData<(CX, TOut, D)>,
}

impl<CX, TOut, F, D, S, P, H> Arm<CX, TOut, F, D, S, P, H> where
    S: FnMut(Canceler) -> (Option<F>, Canceler),
    P: FnMut(F, &CX) -> Result<D, F>,
    H: FnMut(D, Canceler) -> (Option<Output<TOut>>, Canceler),
 {
    /// The setup.
    pub closed spec fn setup_fn(self) -> S {
        self.setup
    }

    /// The poll of the future.
    pub closed spec fn poll_fn(self) -> P {
        self.poll
    }

    /// The handler.
    pub closed spec fn handler_fn(self) -> H {
        self.handler
    }

    /// The running future, if any.
    pub closed spec fn future(self) -> Option<F> {
        self.fut
    }

    /// The user code of the arm may be called on any input.
    pub open spec fn callable(self) -> bool {
        hooks_callable::<CX, TOut, F, D, S, P, H>(self.setup_fn(), self.poll_fn(), self.handler_fn())
    }

    /// Polling future `f` (created by this poll when `created`) with cancellation
    /// requests `c0` reports `r`, leaves `after` as the arm's future and `c1` as the
    /// requests: when the future is not ready, the arm keeps it and reports
    /// `Pending(created)`; when it is ready, the arm drops it, hands its output to the
    /// handler and reports what the handler decided.
    pub open spec fn polled_to(
        self,
        f: F,
        created: bool,
        cx: &CX,
        c0: Canceler,
        r: PollResult<TOut>,
        after: Option<F>,
        c1: Canceler,
    ) -> bool {
        exists|res: Result<D, F>|
            #[trigger] call_ensures(self.poll_fn(), (f, cx), res) && match res {
                Err(f2) => r == PollResult::<TOut>::Pending(created) && after == Some(f2) && c1
                    == c0,
                Ok(d) => after is None && exists|dec: Option<Output<TOut>>|
                    #[trigger] call_ensures(self.handler_fn(), (d, c0), (dec, c1)) && r
                        == decision_spec(dec),
            }
    }

    /// One poll of the arm with cancellation requests `c0` reports `r`, leaves `after` as
    /// the arm's future and `c1` as the requests: an arm holding a future polls that
    /// future and runs no setup; an arm holding none runs its setup, reports `Disabled`
    /// when the setup declines, and otherwise polls the new future.
    pub open spec fn step(
        self,
        cx: &CX,
        c0: Canceler,
        r: PollResult<TOut>,
        after: Option<F>,
        c1: Canceler,
    ) -> bool {
        match self.future() {
            Some(f) => self.polled_to(f, false, cx, c0, r, after, c1),
            None => exists|made: Option<F>, cs: Canceler|
                #[trigger] call_ensures(self.setup_fn(), (c0,), (made, cs)) && match made {
                    None => r is Disabled && after is None && c1 == cs,
                    Some(f) => self.polled_to(f, true, cx, cs, r, after, c1),
                },
        }
    }

    /// The setup never withdraws a cancellation request it is handed.
    pub open spec fn setup_keeps_requests(self) -> bool {
        forall|c: Canceler, made: Option<F>, c2: Canceler|
            #[trigger] call_ensures(self.setup_fn(), (c,), (made, c2)) ==> keeps_requests(c, c2)
    }

    /// The handler never withdraws a cancellation request it is handed.
    pub open spec fn handler_keeps_requests(self) -> bool {
        forall|d: D, c: Canceler, dec: Option<Output<TOut>>, c2: Canceler|
            #[trigger] call_ensures(self.handler_fn(), (d, c), (dec, c2)) ==> keeps_requests(c, c2)
    }

    /// The setup hands back the requests it is given.
    pub open spec fn setup_passes_requests(self) -> bool {
        forall|c: Canceler, made: Option<F>, c2: Canceler|
            #[trigger] call_ensures(self.setup_fn(), (c,), (made, c2)) ==> c2 == c
    }

    /// The handler hands back the requests it is given.
    pub open spec fn handler_passes_requests(self) -> bool {
        forall|d: D, c: Canceler, dec: Option<Output<TOut>>, c2: Canceler|
            #[trigger] call_ensures(self.handler_fn(), (d, c), (dec, c2)) ==> c2 == c
    }

    /// Polling a future never withdraws a cancellation request by itself: every request
    /// the poll starts with survives unless the handler withdraws it, and a handler that
    /// hands back its requests leaves them exactly as they were.
    pub proof fn lemma_polled_keeps_requests(
        self,
        f: F,
        created: bool,
        cx: &CX,
        c0: Canceler,
        r: PollResult<TOut>,
        after: Option<F>,
        c1: Canceler,
    )
        requires
            self.polled_to(f, created, cx, c0, r, after, c1),
        ensures
            self.handler_keeps_requests() ==> keeps_requests(c0, c1),
            self.handler_passes_requests() ==> c1 == c0,
            r is Pending ==> c1 == c0,
    {
        let res = choose|res: Result<D, F>|
            #[trigger] call_ensures(self.poll_fn(), (f, cx), res) && match res {
                Err(f2) => r == PollResult::<TOut>::Pending(created) && after == Some(f2) && c1
                    == c0,
                Ok(d) => after is None && exists|dec: Option<Output<TOut>>|
                    #[trigger] call_ensures(self.handler_fn(), (d, c0), (dec, c1)) && r
                        == decision_spec(dec),
            };
        match res {
            Err(f2) => {},
            Ok(d) => {
                let dec = choose|dec: Option<Output<TOut>>|
                    #[trigger] call_ensures(self.handler_fn(), (d, c0), (dec, c1)) && r
                        == decision_spec(dec);
                assert(call_ensures(self.handler_fn(), (d, c0), (dec, c1)));
                assert(!(r is Pending));
            },
        }
    }

    /// One poll of an arm never withdraws a cancellation request that an earlier arm of
    /// the round made, unless the arm's own setup or handler withdraws it: the setup is
    /// handed the requests the arm is polled with, the handler those the setup handed back
    /// (or those the arm is polled with when it held a future), and polling a future that
    /// stays pending leaves them untouched. In particular an arm whose setup and handler
    /// hand back their requests leaves the round's requests exactly as they were, and an
    /// arm that holds a future which stays pending runs no user code on them.
    pub proof fn lemma_step_keeps_requests(
        self,
        cx: &CX,
        c0: Canceler,
        r: PollResult<TOut>,
        after: Option<F>,
        c1: Canceler,
    )
        requires
            self.step(cx, c0, r, after, c1),
        ensures
            self.setup_keeps_requests() && self.handler_keeps_requests() ==> keeps_requests(
                c0,
                c1,
            ),
            self.setup_passes_requests() && self.handler_passes_requests() ==> c1 == c0,
            self.future() is Some && r is Pending ==> c1 == c0,
            self.future() is Some && self.handler_passes_requests() ==> c1 == c0,
            self.future() is None && r is Disabled && self.setup_passes_requests() ==> c1 == c0,
    {
        match self.future() {
            Some(f) => {
                self.lemma_polled_keeps_requests(f, false, cx, c0, r, after, c1);
            },
            None => {
                let (made, cs) = choose|made: Option<F>, cs: Canceler|
                    #[trigger] call_ensures(self.setup_fn(), (c0,), (made, cs)) && match made {
                        None => r is Disabled && after is None && c1 == cs,
                        Some(f) => self.polled_to(f, true, cx, cs, r, after, c1),
                    };
                assert(call_ensures(self.setup_fn(), (c0,), (made, cs)));
                match made {
                    None => {},
                    Some(f) => {
                        self.lemma_polled_keeps_requests(f, true, cx, cs, r, after, c1);
                        assert(!(r is Disabled)) by {
                            if r is Disabled {
                                let res = choose|res: Result<D, F>|
                                    #[trigger] call_ensures(self.poll_fn(), (f, cx), res) && match res {
                                        Err(f2) => r == PollResult::<TOut>::Pending(true) && after
                                            == Some(f2) && c1 == cs,
                                        Ok(d) => after is None && exists|dec: Option<Output<TOut>>|
                                            #[trigger] call_ensures(self.handler_fn(), (d, cs), (dec, c1))
                                                && r == decision_spec(dec),
                                    };
                                match res {
                                    Err(f2) => {},
                                    Ok(d) => {
                                        let dec = choose|dec: Option<Output<TOut>>|
                                            #[trigger] call_ensures(self.handler_fn(), (d, cs), (dec, c1))
                                                && r == decision_spec(dec);
                                    },
                                }
                            }
                        }
                    },
                }
            },
        }
    }

    /// An arm with no future yet.
    pub fn new(setup: S, poll: P, handler: H) -> (r: Self)
        requires
            forall|c: Canceler| #[trigger] call_requires(setup, (c,)),
            forall|f: F, cx: &CX| #[trigger] call_requires(poll, (f, cx)),
            forall|d: D, c: Canceler| #[trigger] call_requires(handler, (d, c)),
        ensures
            r.future() is None,
            r.callable(),
            r.history() == Seq::<ArmEvent<TOut>>::empty(),
            r.setup_fn() == setup,
            r.poll_fn() == poll,
            r.handler_fn() == handler,
    {
        Arm {
            setup,
            poll,
            handler,
            fut: None,
            events: Ghost(Seq::empty()),
            phantom: core::marker::PhantomData,
        }
    }

    /// Poll future `f`, created by this poll when `created`.
    fn poll_future(&mut self, f: F, created: bool, cx: &CX, canceler: &mut Canceler) -> (r:
        PollResult<TOut>)
        requires
            old(self).future() is None,
            old(self).callable(),
        ensures
            old(self).polled_to(f, created, cx, *old(canceler), r, final(self).future(), *final(canceler)),
            final(self).events == old(self).events,
            final(self).setup_fn() == old(self).setup_fn(),
            final(self).poll_fn() == old(self).poll_fn(),
            final(self).handler_fn() == old(self).handler_fn(),
    {
        let res = (self.poll)(f, cx);
        match res {
            Err(f2) => {
                self.fut = Some(f2);
                PollResult::Pending(created)
            },
            Ok(d) => {
                let c0 = *canceler;
                let (dec, c1) = (self.handler)(d, c0);
                *canceler = c1;
                decision_result(dec)
            },
        }
    }
}

impl<CX, TOut, F, D, S, P, H> SelectArm<CX, TOut> for Arm<CX, TOut, F, D, S, P, H> where
    S: FnMut(Canceler) -> (Option<F>, Canceler),
    P: FnMut(F, &CX) -> Result<D, F>,
    H: FnMut(D, Canceler) -> (Option<Output<TOut>>, Canceler),
 {
    closed spec fn has_future(&self) -> bool {
        self.fut is Some
    }

    open spec fn ready_to_poll(&self) -> bool {
        self.callable()
    }

    closed spec fn history(&self) -> Seq<ArmEvent<TOut>> {
        self.events@
    }

    fn do_poll(&mut self, cx: &CX, canceler: &mut Canceler) -> (r: PollResult<TOut>)
        ensures
            old(self).step(cx, *old(canceler), r, final(self).future(), *final(canceler)),
            final(self).setup_fn() == old(self).setup_fn(),
            final(self).poll_fn() == old(self).poll_fn(),
            final(self).handler_fn() == old(self).handler_fn(),
    {
        let ghost c_in = *canceler;
        let r = match self.fut.take() {
            Some(f) => self.poll_future(f, false, cx, canceler),
            None => {
                let c0 = *canceler;
                let (made, cs) = (self.setup)(c0);
                *canceler = cs;
                match made {
                    Some(f) => self.poll_future(f, true, cx, canceler),
                    None => PollResult::Disabled,
                }
            },
        };
        proof {
            self.events = Ghost(
                self.events@.push(ArmEvent::Polled { report: r, before: c_in, after: *canceler }),
            );
        }
        r
    }

    fn cancel(&mut self)
        ensures
            final(self).future() is None,
            final(self).setup_fn() == old(self).setup_fn(),
            final(self).poll_fn() == old(self).poll_fn(),
            final(self).handler_fn() == old(self).handler_fn(),
    {
        self.fut = None;
        proof {
            self.events = Ghost(self.events@.push(ArmEvent::Cancelled));
        }
    }
}

/// A boxed arm of any type: what its content does.
impl<'a, CX, TOut> SelectArm<CX, TOut> for Box<dyn SelectArm<CX, TOut> + 'a> {
    open spec fn has_future(&self) -> bool {
        (**self).has_future()
    }

    open spec fn ready_to_poll(&self) -> bool {
        (**self).ready_to_poll()
    }

    open spec fn history(&self) -> Seq<ArmEvent<TOut>> {
        (**self).history()
    }

    fn do_poll(&mut self, cx: &CX, canceler: &mut Canceler) -> (r: PollResult<TOut>) {
        (**self).do_poll(cx, canceler)
    }

    fn cancel(&mut self) {
        (**self).cancel()
    }
}

} // verus!
