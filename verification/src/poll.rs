use vstd::prelude::*;
use crate::canceler::Canceler;

verus! {

/// What polling one arm did.
pub enum PollResult<T> {
    /// The arm's future completed and its handler produced a value.
    Result(T),
    /// The arm's future is still running; `true` when the future was created by this poll.
    Pending(bool),
    /// The arm's future completed, but its handler produced no value.
    Inhibited,
    /// The arm's setup declined to create a future.
    Disabled,
    /// The arm's handler asked to end the stream.
    EndStream,
}

/// What the poll does once every runnable arm of a round has been visited.
#[derive(PartialEq, Eq, Structural, Debug, Clone, Copy)]
pub enum RoundOutcome {
    /// Run another round.
    Repeat,
    /// Return `Pending`: nothing new happened in the round.
    Yield,
    /// The round limit was reached: wake the task, then return `Pending`.
    WakeAndYield,
}

/// The end of a round: the arms whose futures must be dropped, in increasing order,
/// and what happens next.
pub struct RoundEnd {
    /// Arms to cancel before anything else.
    pub canceled: Vec<usize>,
    /// What the poll does next.
    pub outcome: RoundOutcome,
}

/// The number of rounds after which a poll gives up and wakes its task.
pub const ROUND_LIMIT: u32 = 10;

/// The state of one call of `poll` on a select object with a fixed number of arms.
///
/// A poll runs in rounds. In each round the runnable arms are visited in order
/// (`next_arm`), and what each reported is recorded (`record`); `end_round` then cancels
/// the arms whose cancellation was requested and decides whether to return.
pub struct PollState {
    runnable: Vec<bool>,
    next: usize,
    can_yield: bool,
    iterations: u32,
    canceler: Canceler,
}

/// The mathematical state of a poll.
pub struct PollView {
    /// Whether each arm may still be polled during this call of `poll`.
    pub runnable: Seq<bool>,
    /// The first arm not yet visited in the current round.
    pub next: nat,
    /// Whether the round so far allows returning `Pending`.
    pub can_yield: bool,
    /// The number of finished rounds.
    pub iterations: nat,
    /// The cancellation requests of the current round.
    pub canceler: Canceler,
}

impl View for PollState {
    type V = PollView;

    closed spec fn view(&self) -> PollView {
        PollView {
            runnable: self.runnable@,
            next: self.next as nat,
            can_yield: self.can_yield,
            iterations: self.iterations as nat,
            canceler: self.canceler,
        }
    }
}

/// The state after arm `index` reported `result`: an arm whose future is still running
/// is not polled again in this call, and a new future or a completed one means the round
/// must be followed by another.
pub open spec fn record_view<T>(v: PollView, index: int, result: PollResult<T>) -> PollView {
    match result {
        PollResult::Pending(created) => PollView {
            runnable: v.runnable.update(index, false),
            can_yield: v.can_yield && !created,
            ..v
        },
        PollResult::Inhibited => PollView { can_yield: false, ..v },
        _ => v,
    }
}

/// The arms of `runnable` at index `from` or later that are still runnable, in order.
pub open spec fn visits_from(runnable: Seq<bool>, from: int) -> Seq<int>
    decreases runnable.len() - from,
{
    if from < 0 || from >= runnable.len() {
        Seq::empty()
    } else if runnable[from] {
        seq![from] + visits_from(runnable, from + 1)
    } else {
        visits_from(runnable, from + 1)
    }
}

/// The arms below `n` whose cancellation `c` requests, in increasing order.
pub open spec fn canceled_indices(c: Canceler, n: nat) -> Seq<int>
    decreases n,
{
    if n == 0 {
        Seq::empty()
    } else if c.is_canceled(n - 1) {
        canceled_indices(c, (n - 1) as nat).push(n - 1)
    } else {
        canceled_indices(c, (n - 1) as nat)
    }
}

/// What the poll does after a round that ended in state `v`.
pub open spec fn round_outcome(v: PollView) -> RoundOutcome {
    if v.can_yield && v.canceler.canceled == 0 {
        RoundOutcome::Yield
    } else if v.iterations + 1 > ROUND_LIMIT {
        RoundOutcome::WakeAndYield
    } else {
        RoundOutcome::Repeat
    }
}

/// The state after a round that ended in state `v`: cancelled arms may run again, and a
/// fresh round begins.
pub open spec fn after_round(v: PollView) -> PollView {
    PollView {
        runnable: Seq::new(v.runnable.len(), |i: int| v.runnable[i] || v.canceler.is_canceled(i)),
        next: 0,
        can_yield: true,
        iterations: v.iterations + 1,
        canceler: Canceler { canceled: 0 },
    }
}

impl PollView {
    /// Internal consistency of a poll.
    pub open spec fn wf(self) -> bool {
        &&& self.next <= self.runnable.len()
        &&& self.iterations <= ROUND_LIMIT + 1
    }

    /// The arms still to visit in the current round, in order.
    pub open spec fn pending_visits(self) -> Seq<int> {
        visits_from(self.runnable, self.next as int)
    }
}

proof fn lemma_visits_skip(runnable: Seq<bool>, k: int)
    requires
        0 <= k < runnable.len(),
        !runnable[k],
    ensures
        visits_from(runnable, k) == visits_from(runnable, k + 1),
{
}

proof fn lemma_visits_take(runnable: Seq<bool>, k: int)
    requires
        0 <= k < runnable.len(),
        runnable[k],
    ensures
        visits_from(runnable, k).len() > 0,
        visits_from(runnable, k)[0] == k,
        visits_from(runnable, k).drop_first() == visits_from(runnable, k + 1),
{
    assert((seq![k] + visits_from(runnable, k + 1)).drop_first() =~= visits_from(
        runnable,
        k + 1,
    ));
}

proof fn lemma_visits_members(runnable: Seq<bool>, from: int)
    requires
        0 <= from,
    ensures
        forall|a: int| #[trigger] visits_from(runnable, from).contains(a) <==> (from <= a
            < runnable.len() && runnable[a]),
        forall|j: int, k: int| 0 <= j < k < visits_from(runnable, from).len() ==>
            #[trigger] visits_from(runnable, from)[j] < #[trigger] visits_from(runnable, from)[k],
    decreases runnable.len() - from,
{
    let cur = visits_from(runnable, from);
    if from < runnable.len() {
        lemma_visits_members(runnable, from + 1);
        let rest = visits_from(runnable, from + 1);
        if runnable[from] {
            assert(cur == seq![from] + rest);
            assert(cur.len() == rest.len() + 1);
            assert(cur[0] == from);
            assert forall|j: int| 1 <= j < cur.len() implies #[trigger] cur[j] == rest[j - 1] by {
            }
            assert forall|a: int| #[trigger] cur.contains(a) <==> (from <= a < runnable.len()
                && runnable[a]) by {
                if cur.contains(a) {
                    let j = choose|j: int| 0 <= j < cur.len() && cur[j] == a;
                    if j > 0 {
                        assert(rest[j - 1] == a);
                        assert(rest.contains(a));
                    }
                }
                if from <= a < runnable.len() && runnable[a] {
                    if a == from {
                        assert(cur[0] == a);
                    } else {
                        assert(rest.contains(a));
                        let j = choose|j: int| 0 <= j < rest.len() && rest[j] == a;
                        assert(cur[j + 1] == a);
                    }
                }
            }
            assert forall|j: int, k: int| 0 <= j < k < cur.len() implies #[trigger] cur[j]
                < #[trigger] cur[k] by {
                assert(cur[k] == rest[k - 1]);
                assert(rest.contains(rest[k - 1]));
                if j > 0 {
                    assert(cur[j] == rest[j - 1]);
                }
            }
        } else {
            assert(cur == rest);
            assert forall|a: int| #[trigger] cur.contains(a) <==> (from <= a < runnable.len()
                && runnable[a]) by {
                assert(rest.contains(a) <==> (from + 1 <= a < runnable.len() && runnable[a]));
            }
        }
    } else {
        assert(cur.len() == 0);
        assert forall|a: int| #[trigger] cur.contains(a) <==> (from <= a < runnable.len()
            && runnable[a]) by {
        }
    }
}

/// Changing whether an already visited arm is runnable does not change which arms are
/// still to be visited.
proof fn lemma_visits_update_before(runnable: Seq<bool>, from: int, index: int, b: bool)
    requires
        0 <= index < from,
        index < runnable.len(),
    ensures
        visits_from(runnable.update(index, b), from) == visits_from(runnable, from),
    decreases runnable.len() - from,
{
    if from < runnable.len() {
        lemma_visits_update_before(runnable, from + 1, index, b);
    }
}

/// Arms from 64 on are never cancelled: listing the requests below `n` gives the same as
/// listing them below `m` when both are at least 64.
proof fn lemma_indices_beyond_limit(c: Canceler, n: nat, m: nat)
    requires
        m <= n,
        m == n || m == 64,
    ensures
        canceled_indices(c, n) == canceled_indices(c, m),
    decreases n,
{
    if n > m {
        lemma_indices_beyond_limit(c, (n - 1) as nat, m);
        assert(!c.is_canceled(n - 1));
    }
}

proof fn lemma_no_request_no_indices(c: Canceler, n: nat)
    requires
        forall|i: int| !c.is_canceled(i),
    ensures
        canceled_indices(c, n) == Seq::<int>::empty(),
    decreases n,
{
    if n > 0 {
        lemma_no_request_no_indices(c, (n - 1) as nat);
    }
}

proof fn lemma_canceled_indices_members(c: Canceler, n: nat)
    ensures
        forall|a: int| #[trigger] canceled_indices(c, n).contains(a) <==> (0 <= a < n
            && c.is_canceled(a)),
        forall|j: int| 0 <= j < canceled_indices(c, n).len() ==> {
            let a = #[trigger] canceled_indices(c, n)[j];
            a < n && c.is_canceled(a as int)
        },
        forall|j: int, k: int| 0 <= j < k < canceled_indices(c, n).len() ==>
            #[trigger] canceled_indices(c, n)[j] < #[trigger] canceled_indices(c, n)[k],
    decreases n,
{
    if n > 0 {
        lemma_canceled_indices_members(c, (n - 1) as nat);
        let prev = canceled_indices(c, (n - 1) as nat);
        if c.is_canceled(n - 1) {
            let cur = prev.push(n - 1);
            assert forall|a: int| #[trigger] cur.contains(a) <==> (0 <= a < n && c.is_canceled(a))
                by {
                if cur.contains(a) {
                    let j = choose|j: int| 0 <= j < cur.len() && cur[j] == a;
                    if j < prev.len() {
                        assert(prev[j] == a);
                        assert(prev.contains(a));
                    }
                }
                if 0 <= a < n && c.is_canceled(a) {
                    if a == n - 1 {
                        assert(cur[prev.len() as int] == a);
                    } else {
                        assert(prev.contains(a));
                        let j = choose|j: int| 0 <= j < prev.len() && prev[j] == a;
                        assert(cur[j] == a);
                    }
                }
            }
            assert forall|j: int| 0 <= j < cur.len() implies {
                let a = #[trigger] cur[j];
                a < n && c.is_canceled(a as int)
            } by {
                if j < prev.len() {
                    assert(cur[j] == prev[j]);
                }
            }
            assert forall|j: int, k: int| 0 <= j < k < cur.len() implies #[trigger] cur[j]
                < #[trigger] cur[k] by {
                assert(cur[j] == prev[j]);
                if k < prev.len() {
                    assert(cur[k] == prev[k]);
                }
            }
        }
    }
}

/// A poll runs at most `ROUND_LIMIT + 1` rounds: every round counts exactly one, and a
/// round that ends with `ROUND_LIMIT` rounds or more already finished never repeats.
pub proof fn lemma_round_limit(v: PollView)
    ensures
        after_round(v).iterations == v.iterations + 1,
        v.iterations >= ROUND_LIMIT ==> round_outcome(v) != RoundOutcome::Repeat,
        round_outcome(v) == RoundOutcome::Repeat ==> after_round(v).iterations <= ROUND_LIMIT,
{
}

/// A round returns `Pending` without waking exactly when no arm created a future, no
/// future completed and no cancellation was requested; otherwise it repeats, until the
/// round limit is reached, where it wakes the task and returns `Pending`.
pub proof fn lemma_round_outcome(v: PollView)
    ensures
        (round_outcome(v) == RoundOutcome::Yield) <==> (v.can_yield && v.canceler.canceled == 0),
        (round_outcome(v) == RoundOutcome::WakeAndYield) <==> (!(v.can_yield
            && v.canceler.canceled == 0) && v.iterations + 1 > ROUND_LIMIT),
{
}

/// The arms still to visit in a round are exactly the runnable arms from `next` on,
/// each once, in increasing order.
pub proof fn lemma_pending_visits(v: PollView)
    ensures
        forall|j: int, k: int| 0 <= j < k < v.pending_visits().len() ==>
            #[trigger] v.pending_visits()[j] < #[trigger] v.pending_visits()[k],
        forall|a: int| #[trigger] v.pending_visits().contains(a) <==> (v.next <= a < v.runnable.len()
            && v.runnable[a]),
{
    lemma_visits_members(v.runnable, v.next as int);
}

/// Recording what an already visited arm reported does not change which arms remain to be
/// visited in the round.
pub proof fn lemma_record_keeps_visits(v: PollView, index: int, b: bool)
    requires
        0 <= index < v.next,
        index < v.runnable.len(),
    ensures
        (PollView { runnable: v.runnable.update(index, b), ..v }).pending_visits()
            == v.pending_visits(),
{
    lemma_visits_update_before(v.runnable, v.next as int, index, b);
}

/// A round never drops a future on its own: the arms cancelled at the end of a round are
/// exactly those below the arm count whose cancellation was requested, each once, in
/// increasing order, and each of them may run again in the next round, while every
/// other arm keeps its status.
pub proof fn lemma_only_requested_cancels(v: PollView)
    ensures
        forall|a: int| #[trigger] canceled_indices(v.canceler, v.runnable.len()).contains(a) <==> (0 <= a
            < v.runnable.len() && v.canceler.is_canceled(a)),
        forall|j: int, k: int| 0 <= j < k < canceled_indices(v.canceler, v.runnable.len()).len()
            ==> #[trigger] canceled_indices(v.canceler, v.runnable.len())[j]
            < #[trigger] canceled_indices(v.canceler, v.runnable.len())[k],
        forall|i: int| 0 <= i < v.runnable.len() ==> #[trigger] after_round(v).runnable[i] == (
        v.runnable[i] || v.canceler.is_canceled(i)),
{
    lemma_canceled_indices_members(v.canceler, v.runnable.len());
}

impl PollState {
    /// The state at the start of a poll of a select object with `n_arms` arms: every arm
    /// is runnable, no round has run.
    pub fn new(n_arms: usize) -> (r: PollState)
        ensures
            r@.runnable == Seq::new(n_arms as nat, |i: int| true),
            r@.next == 0,
            r@.can_yield,
            r@.iterations == 0,
            r@.canceler.canceled == 0,
            r@.wf(),
    {
        let mut runnable: Vec<bool> = Vec::new();
        let mut k: usize = 0;
        while k < n_arms
            invariant
                k <= n_arms,
                runnable@ == Seq::new(k as nat, |i: int| true),
            decreases n_arms - k,
        {
            runnable.push(true);
            k = k + 1;
        }
        PollState { runnable, next: 0, can_yield: true, iterations: 0, canceler: Canceler::new() }
    }

    /// The number of arms.
    pub fn n_arms(&self) -> (r: usize)
        ensures
            r == self@.runnable.len(),
    {
        self.runnable.len()
    }

    /// The number of finished rounds.
    pub fn iterations(&self) -> (r: u32)
        ensures
            r == self@.iterations,
    {
        self.iterations
    }

    /// The cancellation requests of the current round.
    pub fn canceler(&self) -> (r: &Canceler)
        ensures
            *r == self@.canceler,
    {
        &self.canceler
    }

    /// The cancellation requests of the current round, to be handed to the arm being
    /// polled.
    pub fn canceler_mut(&mut self) -> (r: &mut Canceler)
        ensures
            *r == old(self)@.canceler,
            final(self)@ == (PollView { canceler: *final(r), ..old(self)@ }),
    {
        &mut self.canceler
    }

    /// The next arm to poll in the current round: the first runnable arm not yet visited.
    /// `None` when every runnable arm of the round has been visited.
    pub fn next_arm(&mut self) -> (r: Option<usize>)
        requires
            old(self)@.wf(),
        ensures
            final(self)@.wf(),
            match r {
                Some(i) => {
                    &&& old(self)@.pending_visits().len() > 0
                    &&& i == old(self)@.pending_visits()[0]
                    &&& final(self)@ == (PollView { next: (i + 1) as nat, ..old(self)@ })
                },
                None => {
                    &&& old(self)@.pending_visits().len() == 0
                    &&& final(self)@ == (PollView {
                        next: old(self)@.runnable.len(),
                        ..old(self)@
                    })
                },
            },
            final(self)@.pending_visits() == old(self)@.pending_visits().drop_first()
                || (r is None && final(self)@.pending_visits().len() == 0),
    {
        let n = self.runnable.len();
        let ghost start = self@;
        while self.next < n && !self.runnable[self.next]
            invariant
                n == self.runnable@.len(),
                start.next <= self.next <= n,
                self@ == (PollView { next: self.next as nat, ..start }),
                visits_from(self.runnable@, self.next as int) == start.pending_visits(),
            decreases n - self.next,
        {
            proof {
                lemma_visits_skip(self.runnable@, self.next as int);
            }
            self.next = self.next + 1;
        }
        if self.next < n {
            let i = self.next;
            proof {
                lemma_visits_take(self.runnable@, i as int);
            }
            self.next = i + 1;
            Some(i)
        } else {
            None
        }
    }

    /// Record what polling arm `index` reported. Returns `Some(v)` when the poll must
    /// return `Ready(v)`: `Some(Some(x))` for a produced value, `Some(None)` for the end
    /// of the stream; `None` when the round goes on.
    pub fn record<T>(&mut self, index: usize, result: PollResult<T>) -> (r: Option<Option<T>>)
        requires
            old(self)@.wf(),
            index < old(self)@.runnable.len(),
        ensures
            final(self)@.wf(),
            final(self)@ == record_view(old(self)@, index as int, result),
            match result {
                PollResult::Result(v) => r == Some(Some(v)) && final(self)@ == old(self)@,
                PollResult::EndStream => r == Some(None::<T>) && final(self)@ == old(self)@,
                PollResult::Pending(created) => r is None && final(self)@ == (PollView {
                    runnable: old(self)@.runnable.update(index as int, false),
                    can_yield: old(self)@.can_yield && !created,
                    ..old(self)@
                }),
                PollResult::Disabled => r is None && final(self)@ == old(self)@,
                PollResult::Inhibited => r is None && final(self)@ == (PollView {
                    can_yield: false,
                    ..old(self)@
                }),
            },
    {
        match result {
            PollResult::Result(v) => Some(Some(v)),
            PollResult::EndStream => Some(None),
            PollResult::Pending(created) => {
                if created {
                    self.can_yield = false;
                }
                self.runnable.set(index, false);
                None
            },
            PollResult::Disabled => None,
            PollResult::Inhibited => {
                self.can_yield = false;
                None
            },
        }
    }

    /// Finish the current round: list the arms to cancel (they may run again), count the
    /// round, and decide whether to return `Pending` (after waking the task when the
    /// round limit was reached) or to run another round.
    pub fn end_round(&mut self) -> (r: RoundEnd)
        requires
            old(self)@.wf(),
            old(self)@.next == old(self)@.runnable.len(),
            old(self)@.iterations <= ROUND_LIMIT,
        ensures
            final(self)@ == after_round(old(self)@),
            final(self)@.wf(),
            r.canceled@.map_values(|x: usize| x as int) == canceled_indices(
                old(self)@.canceler,
                old(self)@.runnable.len(),
            ),
            r.outcome == round_outcome(old(self)@),
    {
        let ghost start = self@;
        let n = self.runnable.len();
        let mut canceled: Vec<usize> = Vec::new();
        let any = self.canceler.any();
        if any {
            self.can_yield = false;
            let m: usize = if n < 64 {
                n
            } else {
                64
            };
            let mut i: usize = 0;
            while i < m
                invariant
                    n == self.runnable@.len(),
                    n == start.runnable.len(),
                    m <= n,
                    m <= 64,
                    m == n || m == 64,
                    i <= m,
                    self.canceler == start.canceler,
                    canceled@.map_values(|x: usize| x as int) == canceled_indices(
                        start.canceler,
                        i as nat,
                    ),
                    self.iterations == start.iterations,
                    self.next == start.next,
                    !self.can_yield,
                    forall|j: int| 0 <= j < n ==> #[trigger] self.runnable@[j] == if j < i {
                        start.runnable[j] || start.canceler.is_canceled(j)
                    } else {
                        start.runnable[j]
                    },
                decreases m - i,
            {
                let ghost before = canceled@;
                if self.canceler.canceled(i as u32) {
                    canceled.push(i);
                    self.runnable.set(i, true);
                    proof {
                        assert(canceled@.map_values(|x: usize| x as int) =~= before.map_values(
                            |x: usize| x as int,
                        ).push(i as int));
                    }
                }
                i = i + 1;
            }
            proof {
                lemma_indices_beyond_limit(start.canceler, n as nat, m as nat);
            }
        } else {
            proof {
                lemma_no_request_no_indices(start.canceler, n as nat);
                assert(canceled@.map_values(|x: usize| x as int) =~= Seq::<int>::empty());
            }
        }
        self.iterations = self.iterations + 1;
        let outcome = if self.can_yield {
            RoundOutcome::Yield
        } else if self.iterations > ROUND_LIMIT {
            RoundOutcome::WakeAndYield
        } else {
            RoundOutcome::Repeat
        };
        self.next = 0;
        self.can_yield = true;
        self.canceler = Canceler::new();
        proof {
            assert(self@.runnable =~= after_round(start).runnable);
        }
        RoundEnd { canceled, outcome }
    }
}

} // verus!
