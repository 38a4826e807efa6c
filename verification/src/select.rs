use vstd::prelude::*;
use crate::arm::{ArmEvent, SelectArm};
use crate::canceler::Canceler;
use crate::poll::{
    after_round, canceled_indices, lemma_only_requested_cancels, lemma_pending_visits,
    record_view, round_outcome, PollResult, PollState, PollView, RoundOutcome, ROUND_LIMIT,
};

verus! {

/// What one poll of a select object returns.
pub enum SelectPoll<T> {
    /// An arm produced a value (`Some`) or ended the stream (`None`).
    Ready(Option<T>),
    /// A round ended with nothing new: return `Pending` without waking the task.
    Pending,
    /// The round limit was reached: wake the task, then return `Pending`.
    WakeAndPending,
}

/// The state of a poll before its first round, over `n` arms.
pub open spec fn start_view(n: nat) -> PollView {
    PollView {
        runnable: Seq::new(n, |i: int| true),
        next: 0,
        can_yield: true,
        iterations: 0,
        canceler: Canceler { canceled: 0 },
    }
}

/// No arm has an event left.
pub open spec fn all_empty<T>(ev: Seq<Seq<ArmEvent<T>>>) -> bool {
    forall|j: int| 0 <= j < ev.len() ==> #[trigger] ev[j].len() == 0
}

/// Every arm listed in `cl` has a cancellation as its next event.
pub open spec fn takes_cancels<T>(ev: Seq<Seq<ArmEvent<T>>>, cl: Seq<int>) -> bool {
    forall|a: int| #[trigger] cl.contains(a) ==> 0 <= a < ev.len() && ev[a].len() > 0
        && ev[a][0] is Cancelled
}

/// The events left once the arms listed in `cl` have been cancelled.
pub open spec fn drop_cancels<T>(ev: Seq<Seq<ArmEvent<T>>>, cl: Seq<int>) -> Seq<Seq<ArmEvent<T>>> {
    Seq::new(ev.len(), |j: int| if cl.contains(j) { ev[j].drop_first() } else { ev[j] })
}

/// What a poll in state `v` returns when, from now on, each arm `j` goes through the
/// events `ev[j]` (`None` when these events are not those of a poll).
///
/// In each round the runnable arms are polled in order: each poll is one `Polled` event
/// of that arm, made with the round's cancellation requests, which it may change. A value
/// or the end of the stream ends the poll. Once the round's runnable arms are visited,
/// exactly the arms whose cancellation was requested are cancelled (one `Cancelled`
/// event each), and `round_outcome` decides between another round (from `after_round`),
/// `Pending`, or waking the task and `Pending`.
pub open spec fn run<T>(v: PollView, ev: Seq<Seq<ArmEvent<T>>>) -> Option<SelectPoll<T>>
    decreases ROUND_LIMIT + 1 - v.iterations, v.runnable.len() - v.next,
{
    if !(v.wf() && v.iterations <= ROUND_LIMIT && ev.len() == v.runnable.len()) {
        None
    } else if v.pending_visits().len() > 0 {
        let i = v.pending_visits()[0];
        proof {
            lemma_pending_visits(v);
            assert(v.pending_visits().contains(i));
        }
        if ev[i].len() == 0 {
            None
        } else {
            match ev[i][0] {
                ArmEvent::Polled { report, before, after } => {
                    if before != v.canceler {
                        None
                    } else {
                        let ev2 = ev.update(i, ev[i].drop_first());
                        let v1 = PollView { next: (i + 1) as nat, canceler: after, ..v };
                        match report {
                            PollResult::Result(x) => if all_empty(ev2) {
                                Some(SelectPoll::Ready(Some(x)))
                            } else {
                                None
                            },
                            PollResult::EndStream => if all_empty(ev2) {
                                Some(SelectPoll::Ready(None))
                            } else {
                                None
                            },
                            _ => run(record_view(v1, i, report), ev2),
                        }
                    }
                },
                ArmEvent::Cancelled => None,
            }
        }
    } else {
        let cl = canceled_indices(v.canceler, v.runnable.len());
        if !takes_cancels(ev, cl) {
            None
        } else {
            let ev2 = drop_cancels(ev, cl);
            match round_outcome(v) {
                RoundOutcome::Yield => if all_empty(ev2) {
                    Some(SelectPoll::Pending)
                } else {
                    None
                },
                RoundOutcome::WakeAndYield => if all_empty(ev2) {
                    Some(SelectPoll::WakeAndPending)
                } else {
                    None
                },
                RoundOutcome::Repeat => run(after_round(v), ev2),
            }
        }
    }
}

/// The events of each arm, `a[j]` followed by `b[j]`.
pub open spec fn join<T>(a: Seq<Seq<ArmEvent<T>>>, b: Seq<Seq<ArmEvent<T>>>) -> Seq<Seq<ArmEvent<T>>> {
    Seq::new(a.len(), |j: int| a[j] + b[j])
}

/// The events of each arm of `after` since it was `before`.
pub open spec fn new_events<CX, T, A: SelectArm<CX, T>>(before: Seq<A>, after: Seq<A>) -> Seq<
    Seq<ArmEvent<T>>,
> {
    Seq::new(before.len(), |j: int| after[j].history().skip(before[j].history().len() as int))
}

/// Arm `after` went through everything `before` did, then perhaps more.
pub open spec fn extends<CX, T, A: SelectArm<CX, T>>(before: A, after: A) -> bool {
    &&& before.history().len() <= after.history().len()
    &&& after.history().subrange(0, before.history().len() as int) == before.history()
}

/// `ev` with event `e` put first for arm `i`.
pub open spec fn prepend<T>(ev: Seq<Seq<ArmEvent<T>>>, i: int, e: ArmEvent<T>) -> Seq<Seq<ArmEvent<T>>> {
    ev.update(i, seq![e] + ev[i])
}

/// `ev` with a cancellation put first for each arm listed in `cl`.
pub open spec fn prepend_cancels<T>(ev: Seq<Seq<ArmEvent<T>>>, cl: Seq<int>) -> Seq<Seq<ArmEvent<T>>> {
    Seq::new(
        ev.len(),
        |j: int| if cl.contains(j) { seq![ArmEvent::Cancelled] + ev[j] } else { ev[j] },
    )
}

proof fn lemma_push_event<T>(e0: Seq<Seq<ArmEvent<T>>>, i: int, e: ArmEvent<T>, f: Seq<Seq<ArmEvent<T>>>)
    requires
        0 <= i < e0.len(),
        f.len() == e0.len(),
    ensures
        join(e0.update(i, e0[i].push(e)), f) == join(e0, prepend(f, i, e)),
{
    assert forall|j: int| 0 <= j < e0.len() implies #[trigger] join(e0.update(i, e0[i].push(e)), f)[j]
        == join(e0, prepend(f, i, e))[j] by {
        if j == i {
            assert(e0[i].push(e) + f[i] =~= e0[i] + (seq![e] + f[i]));
        }
    }
    assert(join(e0.update(i, e0[i].push(e)), f) =~= join(e0, prepend(f, i, e)));
}

proof fn lemma_new_events_push<CX, T, A: SelectArm<CX, T>>(a0: Seq<A>, before: Seq<A>, after: Seq<A>, i: int, e: ArmEvent<T>)
    requires
        a0.len() == before.len(),
        before.len() == after.len(),
        0 <= i < before.len(),
        forall|j: int| 0 <= j < before.len() && j != i ==> after[j] == before[j],
        after[i].history() == before[i].history().push(e),
        forall|j: int| 0 <= j < before.len() ==> #[trigger] extends(a0[j], before[j]),
    ensures
        new_events(a0, after) == new_events(a0, before).update(i, new_events(a0, before)[i].push(e)),
        forall|j: int| 0 <= j < after.len() ==> #[trigger] extends(a0[j], after[j]),
{
    let lhs = new_events(a0, after);
    let rhs = new_events(a0, before).update(i, new_events(a0, before)[i].push(e));
    assert forall|j: int| 0 <= j < lhs.len() implies #[trigger] lhs[j] == rhs[j] by {
        if j == i {
            assert(extends(a0[i], before[i]));
            assert(after[i].history().skip(a0[i].history().len() as int) =~= before[i].history().skip(
                a0[i].history().len() as int,
            ).push(e));
        }
    }
    assert(lhs =~= rhs);
    assert forall|j: int| 0 <= j < after.len() implies #[trigger] extends(a0[j], after[j]) by {
        assert(extends(a0[j], before[j]));
        if j == i {
            assert(after[i].history().subrange(0, a0[i].history().len() as int) =~= before[i].history().subrange(
                0,
                a0[i].history().len() as int,
            ));
        }
    }
}

/// Unfolding `run` at a visit: arm `i`, the first still to visit, reported `r`.
proof fn lemma_run_visit<T>(v: PollView, f: Seq<Seq<ArmEvent<T>>>, i: int, r: PollResult<T>, after: Canceler)
    requires
        v.wf(),
        v.iterations <= ROUND_LIMIT,
        f.len() == v.runnable.len(),
        v.pending_visits().len() > 0,
        i == v.pending_visits()[0],
    ensures
        ({
            let g = prepend(f, i, ArmEvent::Polled { report: r, before: v.canceler, after });
            let v1 = PollView { next: (i + 1) as nat, canceler: after, ..v };
            match r {
                PollResult::Result(x) => all_empty(f) ==> run(v, g) == Some(SelectPoll::Ready(Some(x))),
                PollResult::EndStream => all_empty(f) ==> run(v, g) == Some(SelectPoll::<T>::Ready(None)),
                _ => run(v, g) == run(record_view(v1, i, r), f),
            }
        }),
{
    lemma_pending_visits(v);
    assert(v.pending_visits().contains(i));
    let e = ArmEvent::Polled { report: r, before: v.canceler, after };
    let g = prepend(f, i, e);
    assert(g[i][0] == e);
    assert(g.update(i, g[i].drop_first()) =~= f) by {
        assert((seq![e] + f[i]).drop_first() =~= f[i]);
    }
}

/// Unfolding `run` at the end of a round.
proof fn lemma_run_end<T>(v: PollView, f: Seq<Seq<ArmEvent<T>>>)
    requires
        v.wf(),
        v.iterations <= ROUND_LIMIT,
        f.len() == v.runnable.len(),
        v.next == v.runnable.len(),
    ensures
        ({
            let g = prepend_cancels(f, canceled_indices(v.canceler, v.runnable.len()));
            match round_outcome(v) {
                RoundOutcome::Yield => all_empty(f) ==> run(v, g) == Some(SelectPoll::<T>::Pending),
                RoundOutcome::WakeAndYield => all_empty(f) ==> run(v, g) == Some(
                    SelectPoll::<T>::WakeAndPending,
                ),
                RoundOutcome::Repeat => run(v, g) == run(after_round(v), f),
            }
        }),
{
    lemma_pending_visits(v);
    lemma_only_requested_cancels(v);
    let cl = canceled_indices(v.canceler, v.runnable.len());
    let g = prepend_cancels(f, cl);
    assert(v.pending_visits().len() == 0) by {
        if v.pending_visits().len() > 0 {
            assert(v.pending_visits().contains(v.pending_visits()[0]));
        }
    }
    assert forall|a: int| #[trigger] cl.contains(a) implies 0 <= a < g.len() && g[a].len() > 0
        && g[a][0] is Cancelled by {
        assert(cl.contains(a) ==> 0 <= a < v.runnable.len());
    }
    assert(drop_cancels(g, cl) =~= f) by {
        assert forall|j: int| 0 <= j < f.len() implies #[trigger] drop_cancels(g, cl)[j] == f[j] by {
            if cl.contains(j) {
                assert((seq![ArmEvent::<T>::Cancelled] + f[j]).drop_first() =~= f[j]);
            }
        }
    }
}

/// One poll of a select object whose arms are `arms`: rounds over the runnable arms, in
/// order, until an arm produces a value or ends the stream, or a round decides to
/// return `Pending`. The arms go through exactly the events `run` allows from the start
/// of a poll, and the result is the one it gives.
pub fn poll_arms<CX, T, A: SelectArm<CX, T>>(arms: &mut Vec<A>, cx: &CX) -> (r: SelectPoll<T>)
    requires
        forall|i: int| 0 <= i < old(arms)@.len() ==> #[trigger] old(arms)@[i].ready_to_poll(),
    ensures
        final(arms)@.len() == old(arms)@.len(),
        forall|i: int| 0 <= i < final(arms)@.len() ==> #[trigger] final(arms)@[i].ready_to_poll(),
        forall|i: int| 0 <= i < final(arms)@.len() ==> #[trigger] extends(old(arms)@[i], final(arms)@[i]),
        run(start_view(old(arms)@.len()), new_events(old(arms)@, final(arms)@)) == Some(r),
{
    let n = arms.len();
    let ghost a0 = arms@;
    let ghost start = start_view(n as nat);
    let mut state = PollState::new(n);
    proof {
        assert(state@ == start);
        assert forall|j: int| 0 <= j < n implies #[trigger] extends(a0[j], arms@[j]) by {
            assert(arms@[j].history().subrange(0, a0[j].history().len() as int) =~= a0[j].history());
        }
        assert forall|f: Seq<Seq<ArmEvent<T>>>| f.len() == n implies #[trigger] run(start, join(new_events(a0, arms@), f)) == run(state@, f) by {
            assert forall|j: int| 0 <= j < n implies #[trigger] join(new_events(a0, arms@), f)[j] == f[j] by {
                assert(arms@[j].history().skip(a0[j].history().len() as int) =~= Seq::<ArmEvent<T>>::empty());
                assert(Seq::<ArmEvent<T>>::empty() + f[j] =~= f[j]);
            }
            assert(join(new_events(a0, arms@), f) =~= f);
        }
    }
    loop
        invariant
            a0 == old(arms)@,
            n == arms@.len(),
            n == a0.len(),
            start == start_view(n as nat),
            state@.wf(),
            state@.runnable.len() == n,
            state@.next == 0,
            state@.iterations <= ROUND_LIMIT,
            forall|j: int| 0 <= j < n ==> #[trigger] arms@[j].ready_to_poll(),
            forall|j: int| 0 <= j < n ==> #[trigger] extends(a0[j], arms@[j]),
            forall|f: Seq<Seq<ArmEvent<T>>>| f.len() == n ==> #[trigger] run(start, join(new_events(a0, arms@), f)) == run(state@, f),
        decreases ROUND_LIMIT - state@.iterations,
    {
        let ghost it0 = state@.iterations;
        loop
            invariant
                a0 == old(arms)@,
                n == arms@.len(),
                n == a0.len(),
                start == start_view(n as nat),
                state@.wf(),
                state@.runnable.len() == n,
                state@.iterations == it0,
                it0 <= ROUND_LIMIT,
                forall|j: int| 0 <= j < n ==> #[trigger] arms@[j].ready_to_poll(),
                forall|j: int| 0 <= j < n ==> #[trigger] extends(a0[j], arms@[j]),
                forall|f: Seq<Seq<ArmEvent<T>>>| f.len() == n ==> #[trigger] run(start, join(new_events(a0, arms@), f)) == run(state@, f),
            ensures
                n == arms@.len(),
                state@.wf(),
                state@.runnable.len() == n,
                state@.next == n,
                state@.iterations == it0,
                forall|j: int| 0 <= j < n ==> #[trigger] arms@[j].ready_to_poll(),
                forall|j: int| 0 <= j < n ==> #[trigger] extends(a0[j], arms@[j]),
                forall|f: Seq<Seq<ArmEvent<T>>>| f.len() == n ==> #[trigger] run(start, join(new_events(a0, arms@), f)) == run(state@, f),
            decreases n - state@.next,
        {
            let ghost before = state@;
            let ghost arms_before = arms@;
            proof {
                lemma_pending_visits(before);
            }
            match state.next_arm() {
                Some(i) => {
                    proof {
                        assert(before.pending_visits().contains(i as int));
                    }
                    let ghost c_in = state@.canceler;
                    let polled = arms[i].do_poll(cx, state.canceler_mut());
                    let ghost rep = polled;
                    let ghost c_out = state@.canceler;
                    let ghost e = ArmEvent::Polled { report: rep, before: c_in, after: c_out };
                    proof {
                        lemma_new_events_push(a0, arms_before, arms@, i as int, e);
                        assert forall|f: Seq<Seq<ArmEvent<T>>>| f.len() == n implies #[trigger] run(start, join(new_events(a0, arms@), f))
                            == run(before, prepend(f, i as int, e)) by {
                            lemma_push_event(new_events(a0, arms_before), i as int, e, f);
                            assert(prepend(f, i as int, e).len() == n);
                            assert(run(start, join(new_events(a0, arms_before), prepend(f, i as int, e))) == run(before, prepend(f, i as int, e)));
                        }
                    }
                    let ghost mid = state@;
                    match state.record(i, polled) {
                        Some(out) => {
                            proof {
                                let empty = Seq::new(n as nat, |j: int| Seq::<ArmEvent<T>>::empty());
                                lemma_run_visit(before, empty, i as int, rep, c_out);
                                assert(join(new_events(a0, arms@), empty) =~= new_events(a0, arms@)) by {
                                    assert forall|j: int| 0 <= j < n implies #[trigger] join(new_events(a0, arms@), empty)[j] == new_events(a0, arms@)[j] by {
                                        assert(new_events(a0, arms@)[j] + Seq::<ArmEvent<T>>::empty() =~= new_events(a0, arms@)[j]);
                                    }
                                }
                                assert(run(start, join(new_events(a0, arms@), empty)) == run(before, prepend(empty, i as int, e)));
                            }
                            return SelectPoll::Ready(out);
                        },
                        None => {
                            proof {
                                assert forall|f: Seq<Seq<ArmEvent<T>>>| f.len() == n implies #[trigger] run(start, join(new_events(a0, arms@), f))
                                    == run(state@, f) by {
                                    lemma_run_visit(before, f, i as int, rep, c_out);
                                    assert(run(start, join(new_events(a0, arms@), f)) == run(before, prepend(f, i as int, e)));
                                }
                            }
                        },
                    }
                },
                None => {
                    break;
                },
            }
        }
        let ghost before_end = state@;
        let ghost arms_end = arms@;
        let ghost cl = canceled_indices(before_end.canceler, n as nat);
        let end = state.end_round();
        proof {
            lemma_only_requested_cancels(before_end);
            assert forall|f: Seq<Seq<ArmEvent<T>>>| f.len() == n implies #[trigger] run(start, join(new_events(a0, arms@), f))
                == run(before_end, prepend_cancels(f, cl.take(0))) by {
                assert(prepend_cancels(f, cl.take(0)) =~= f);
            }
        }
        let mut k: usize = 0;
        while k < end.canceled.len()
            invariant
                a0 == old(arms)@,
                n == arms@.len(),
                n == a0.len(),
                start == start_view(n as nat),
                before_end.wf(),
                before_end.runnable.len() == n,
                before_end.iterations == it0,
                it0 <= ROUND_LIMIT,
                state@ == after_round(before_end),
                end.outcome == round_outcome(before_end),
                cl == canceled_indices(before_end.canceler, n as nat),
                end.canceled@.map_values(|x: usize| x as int) == cl,
                k <= end.canceled.len(),
                forall|a: int| #[trigger] cl.contains(a) ==> 0 <= a < n,
                forall|x: int, y: int| 0 <= x < y < cl.len() ==> #[trigger] cl[x] < #[trigger] cl[y],
                forall|j: int| 0 <= j < n ==> #[trigger] arms@[j].ready_to_poll(),
                forall|j: int| 0 <= j < n ==> #[trigger] extends(a0[j], arms@[j]),
                forall|f: Seq<Seq<ArmEvent<T>>>| f.len() == n ==> #[trigger] run(start, join(new_events(a0, arms@), f))
                    == run(before_end, prepend_cancels(f, cl.take(k as int))),
            decreases end.canceled.len() - k,
        {
            let i = end.canceled[k];
            let ghost arms_before = arms@;
            proof {
                let m = end.canceled@.map_values(|x: usize| x as int);
                assert(m[k as int] == i as int);
                assert(cl.contains(i as int));
            }
            arms[i].cancel();
            proof {
                let e = ArmEvent::<T>::Cancelled;
                lemma_new_events_push(a0, arms_before, arms@, i as int, e);
                assert forall|f: Seq<Seq<ArmEvent<T>>>| f.len() == n implies #[trigger] run(start, join(new_events(a0, arms@), f))
                    == run(before_end, prepend_cancels(f, cl.take(k + 1))) by {
                    lemma_push_event(new_events(a0, arms_before), i as int, e, f);
                    assert(prepend(f, i as int, e).len() == n);
                    assert(run(start, join(new_events(a0, arms_before), prepend(f, i as int, e))) == run(before_end, prepend_cancels(prepend(f, i as int, e), cl.take(k as int))));
                    assert(prepend_cancels(prepend(f, i as int, e), cl.take(k as int)) =~= prepend_cancels(f, cl.take(k + 1))) by {
                        assert(cl.take(k + 1) =~= cl.take(k as int).push(i as int));
                        assert(!cl.take(k as int).contains(i as int)) by {
                            if cl.take(k as int).contains(i as int) {
                                let x = choose|x: int| 0 <= x < k && cl.take(k as int)[x] == i as int;
                                assert(cl[x] < cl[k as int]);
                            }
                        }
                        assert forall|j: int| 0 <= j < n implies #[trigger] prepend_cancels(prepend(f, i as int, e), cl.take(k as int))[j]
                            == prepend_cancels(f, cl.take(k + 1))[j] by {
                            let t = cl.take(k as int);
                            let t1 = cl.take(k + 1);
                            if t1.contains(j) {
                                let x = choose|x: int| 0 <= x < t1.len() && t1[x] == j;
                                if x < k {
                                    assert(t[x] == j);
                                }
                            }
                            if t.contains(j) {
                                let x = choose|x: int| 0 <= x < t.len() && t[x] == j;
                                assert(t1[x] == j);
                            }
                            if j == i {
                                assert(t1[k as int] == j);
                            }
                            assert(t1.contains(j) == (t.contains(j) || j == i));
                        }
                    }
                }
            }
            k = k + 1;
        }
        proof {
            assert(cl.take(k as int) =~= cl) by {
                assert(cl.len() == end.canceled.len());
            }
        }
        match end.outcome {
            RoundOutcome::Repeat => {
                proof {
                    assert forall|f: Seq<Seq<ArmEvent<T>>>| f.len() == n implies #[trigger] run(start, join(new_events(a0, arms@), f))
                        == run(state@, f) by {
                        lemma_run_end(before_end, f);
                    }
                }
            },
            RoundOutcome::Yield => {
                proof {
                    let empty = Seq::new(n as nat, |j: int| Seq::<ArmEvent<T>>::empty());
                    lemma_run_end(before_end, empty);
                    assert(join(new_events(a0, arms@), empty) =~= new_events(a0, arms@)) by {
                        assert forall|j: int| 0 <= j < n implies #[trigger] join(new_events(a0, arms@), empty)[j] == new_events(a0, arms@)[j] by {
                            assert(new_events(a0, arms@)[j] + Seq::<ArmEvent<T>>::empty() =~= new_events(a0, arms@)[j]);
                        }
                    }
                    assert(run(start, join(new_events(a0, arms@), empty)) == run(before_end, prepend_cancels(empty, cl)));
                }
                return SelectPoll::Pending;
            },
            RoundOutcome::WakeAndYield => {
                proof {
                    let empty = Seq::new(n as nat, |j: int| Seq::<ArmEvent<T>>::empty());
                    lemma_run_end(before_end, empty);
                    assert(join(new_events(a0, arms@), empty) =~= new_events(a0, arms@)) by {
                        assert forall|j: int| 0 <= j < n implies #[trigger] join(new_events(a0, arms@), empty)[j] == new_events(a0, arms@)[j] by {
                            assert(new_events(a0, arms@)[j] + Seq::<ArmEvent<T>>::empty() =~= new_events(a0, arms@)[j]);
                        }
                    }
                    assert(run(start, join(new_events(a0, arms@), empty)) == run(before_end, prepend_cancels(empty, cl)));
                }
                return SelectPoll::WakeAndPending;
            },
        }
    }
}

} // verus!
