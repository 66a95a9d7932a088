//! The slot pool: which items of a round may start now, and what has come
//! back.
//!
//! The pool starts nothing itself.  Its owner asks it which items to start,
//! starts them, and reports each one's end.  The pool answers so that never
//! more operations are under way than it has slots, that every item is handed
//! out once, and that every report is kept with the item it belongs to.

use crate::text::texts;
use vstd::prelude::*;

verus! {

/// When pending items are let into free slots.
#[derive(Clone, Copy, Debug, PartialEq, Eq, Structural)]
pub enum DispatchPolicy {
    /// A pending item starts as soon as a slot is free.
    StrictSemaphore,
    /// Pending items start together, and only once more than half of the
    /// slots are free.
    WatermarkRefill,
}

/// How an operation ended.
#[derive(Debug)]
pub enum TaskEvent<V> {
    /// It returned, with a value or with the reason of its failure.
    Returned(Result<V, String>),
    /// It broke off; the text says how.
    Faulted(String),
}

/// An outcome with its failure text read as characters.
pub open spec fn outcome_view<V>(outcome: Result<V, String>) -> Result<V, Seq<char>> {
    match outcome {
        Ok(value) => Ok(value),
        Err(reason) => Err(reason@),
    }
}

impl<V> TaskEvent<V> {
    /// What is recorded for the item: a fault counts as a failure of that
    /// item, with the fault's text as the reason.
    pub open spec fn outcome(self) -> Result<V, Seq<char>> {
        match self {
            TaskEvent::Returned(outcome) => outcome_view(outcome),
            TaskEvent::Faulted(message) => Err(message@),
        }
    }

    /// The outcome to record for the item.
    pub fn into_outcome(self) -> (outcome: Result<V, String>)
        ensures
            outcome_view(outcome) == self.outcome(),
    {
        match self {
            TaskEvent::Returned(outcome) => outcome,
            TaskEvent::Faulted(message) => Err(message),
        }
    }
}

/// Permission to run the operation on one item.  `index` names the item
/// when its end is reported.
#[derive(Clone, Debug, PartialEq, Eq)]
pub struct Ticket {
    pub index: usize,
    pub item: String,
}

/// What tickets say, as plain values: position and item key.
pub open spec fn tickets_view(tickets: Seq<Ticket>) -> Seq<(int, Seq<char>)> {
    Seq::new(tickets.len(), |k: int| (tickets[k].index as int, tickets[k].item@))
}

/// One finished operation: the item's position in the round, its key, and
/// the outcome.
pub struct Completed<V> {
    pub ticket: int,
    pub item: Seq<char>,
    pub outcome: Result<V, Seq<char>>,
}

/// The outcome on record for `ticket`, if it has one.
pub open spec fn outcome_in<V>(completions: Seq<Completed<V>>, ticket: int) -> Option<
    Result<V, Seq<char>>,
>
    decreases completions.len(),
{
    if completions.len() == 0 {
        None
    } else if completions.last().ticket == ticket {
        Some(completions.last().outcome)
    } else {
        outcome_in(completions.drop_last(), ticket)
    }
}

/// A pool as a mathematical value.
pub struct PoolState<V> {
    pub policy: DispatchPolicy,
    /// The number of slots.
    pub capacity: nat,
    /// The items of the round, in the order given.
    pub items: Seq<Seq<char>>,
    /// How many items have been handed out: those at positions below this.
    pub dispatched: nat,
    /// What has been reported, in the order of the reports.
    pub completions: Seq<Completed<V>>,
}

/// What can happen to a pool.
pub enum PoolStep<V> {
    /// The owner asks for the items to start.
    Dispatch,
    /// The owner reports that the operation on the item at `ticket` ended.
    Complete { ticket: int, outcome: Result<V, Seq<char>> },
}

impl<V> PoolState<V> {
    /// A pool over `items` before anything was handed out.
    pub open spec fn start(policy: DispatchPolicy, capacity: nat, items: Seq<Seq<char>>) -> Self {
        PoolState { policy, capacity, items, dispatched: 0, completions: Seq::empty() }
    }

    /// The number of operations under way: handed out and not yet reported.
    pub open spec fn in_flight(self) -> int {
        self.dispatched - self.completions.len()
    }

    /// The number of slots not in use.
    pub open spec fn free_slots(self) -> int {
        self.capacity - self.in_flight()
    }

    /// The number of items not yet handed out.
    pub open spec fn backlog(self) -> int {
        self.items.len() - self.dispatched
    }

    /// Whether the end of the operation at `ticket` has been reported.
    pub open spec fn is_completed(self, ticket: int) -> bool {
        exists|k: int|
            0 <= k < self.completions.len() && (#[trigger] self.completions[k]).ticket == ticket
    }

    /// Whether the operation at `ticket` is under way.
    pub open spec fn is_in_flight(self, ticket: int) -> bool {
        0 <= ticket < self.dispatched && !self.is_completed(ticket)
    }

    /// The outcome on record for `ticket`, if it has one.
    pub open spec fn outcome_of(self, ticket: int) -> Option<Result<V, Seq<char>>> {
        outcome_in(self.completions, ticket)
    }

    /// The round is over: every item was handed out and reported.
    pub open spec fn finished(self) -> bool {
        self.dispatched == self.items.len() && self.completions.len() == self.dispatched
    }

    /// How many items the next dispatch hands out.  Never more than there
    /// are free slots or pending items; under the watermark policy none
    /// unless more than half of the slots are free.
    pub open spec fn refill(self) -> nat {
        let fill = if self.backlog() < self.free_slots() {
            self.backlog()
        } else {
            self.free_slots()
        };
        if fill <= 0 {
            0
        } else {
            match self.policy {
                DispatchPolicy::StrictSemaphore => fill as nat,
                DispatchPolicy::WatermarkRefill => if self.free_slots() > self.capacity / 2 {
                    fill as nat
                } else {
                    0
                },
            }
        }
    }

    /// The tickets that the next dispatch hands out: the next pending items,
    /// in order.
    pub open spec fn tickets(self) -> Seq<(int, Seq<char>)> {
        Seq::new(self.refill(), |k: int| (self.dispatched + k, self.items[self.dispatched + k]))
    }

    /// The pool after a dispatch.
    pub open spec fn dispatch(self) -> Self {
        PoolState { dispatched: self.dispatched + self.refill(), ..self }
    }

    /// The pool after a report.  A report for an operation that is not under
    /// way changes nothing.
    pub open spec fn complete(self, ticket: int, outcome: Result<V, Seq<char>>) -> Self {
        if self.is_in_flight(ticket) {
            PoolState {
                completions: self.completions.push(
                    Completed { ticket, item: self.items[ticket], outcome },
                ),
                ..self
            }
        } else {
            self
        }
    }

    /// The pool after one step.
    pub open spec fn step(self, step: PoolStep<V>) -> Self {
        match step {
            PoolStep::Dispatch => self.dispatch(),
            PoolStep::Complete { ticket, outcome } => self.complete(ticket, outcome),
        }
    }

    /// The pool after a sequence of steps.
    pub open spec fn run(self, steps: Seq<PoolStep<V>>) -> Self
        decreases steps.len(),
    {
        if steps.len() == 0 {
            self
        } else {
            self.run(steps.drop_last()).step(steps.last())
        }
    }

    /// What holds of every pool: no more operations under way than slots,
    /// every report for an item that was handed out, and no item reported
    /// twice.
    pub open spec fn inv(self) -> bool {
        &&& self.dispatched <= self.items.len()
        &&& self.completions.len() <= self.dispatched
        &&& self.in_flight() <= self.capacity
        &&& forall|k: int|
            0 <= k < self.completions.len() ==> {
                &&& 0 <= (#[trigger] self.completions[k]).ticket < self.dispatched
                &&& self.completions[k].item == self.items[self.completions[k].ticket]
            }
        &&& forall|j: int, k: int|
            0 <= j < k < self.completions.len() ==> (#[trigger] self.completions[j]).ticket != (
            #[trigger] self.completions[k]).ticket
    }

    /// The keys of the reported items, in the order of the reports.
    pub open spec fn reported_items(self) -> Seq<Seq<char>> {
        Seq::new(self.completions.len(), |k: int| self.completions[k].item)
    }

    /// The reports as pairs of item key and outcome, in the order of the
    /// reports.
    pub open spec fn results(self) -> Seq<(Seq<char>, Result<V, Seq<char>>)> {
        Seq::new(
            self.completions.len(),
            |k: int| (self.completions[k].item, self.completions[k].outcome),
        )
    }
}

/// Distinct numbers below `bound` are at most `bound` many.
pub proof fn lemma_distinct_below(numbers: Seq<int>, bound: int)
    requires
        0 <= bound,
        forall|k: int| 0 <= k < numbers.len() ==> 0 <= #[trigger] numbers[k] < bound,
        forall|j: int, k: int| 0 <= j < k < numbers.len() ==> numbers[j] != numbers[k],
    ensures
        numbers.len() <= bound,
    decreases bound,
{
    if numbers.len() == 0 {
    } else if bound == 0 {
        assert(0 <= numbers[0] < bound);
    } else if exists|p: int| 0 <= p < numbers.len() && numbers[p] == bound - 1 {
        let p = choose|p: int| 0 <= p < numbers.len() && numbers[p] == bound - 1;
        let rest = numbers.remove(p);
        assert forall|k: int| 0 <= k < rest.len() implies 0 <= #[trigger] rest[k] < bound - 1 by {
            if k < p {
                assert(rest[k] == numbers[k]);
            } else {
                assert(rest[k] == numbers[k + 1]);
            }
        }
        assert forall|j: int, k: int| 0 <= j < k < rest.len() implies rest[j] != rest[k] by {
            let jj = if j < p { j } else { j + 1 };
            let kk = if k < p { k } else { k + 1 };
            assert(rest[j] == numbers[jj]);
            assert(rest[k] == numbers[kk]);
        }
        lemma_distinct_below(rest, bound - 1);
        assert(rest.len() == numbers.len() - 1);
    } else {
        assert forall|k: int| 0 <= k < numbers.len() implies 0 <= #[trigger] numbers[k] < bound
            - 1 by {
            assert(numbers[k] != bound - 1);
        }
        lemma_distinct_below(numbers, bound - 1);
    }
}

/// Picking every position of `items` once, in any order, gives the elements
/// of `items`, each as often as it occurs there.
pub proof fn lemma_permutation_multiset<A>(picks: Seq<int>, items: Seq<A>)
    requires
        picks.len() == items.len(),
        forall|k: int| 0 <= k < picks.len() ==> 0 <= #[trigger] picks[k] < items.len(),
        forall|j: int, k: int| 0 <= j < k < picks.len() ==> picks[j] != picks[k],
    ensures
        Seq::new(picks.len(), |k: int| items[picks[k]]).to_multiset() == items.to_multiset(),
    decreases items.len(),
{
    broadcast use vstd::seq_lib::group_to_multiset_ensures;

    let n = items.len() as int;
    let picked = Seq::new(picks.len(), |k: int| items[picks[k]]);
    if n == 0 {
        assert(picked =~= items);
    } else {
        if !exists|p: int| 0 <= p < picks.len() && picks[p] == n - 1 {
            lemma_distinct_below(picks, n - 1);
        }
        let p = choose|p: int| 0 <= p < picks.len() && picks[p] == n - 1;
        let rest = picks.remove(p);
        let shorter = items.drop_last();
        assert forall|k: int| 0 <= k < rest.len() implies 0 <= #[trigger] rest[k] < shorter.len() by {
            if k < p {
                assert(rest[k] == picks[k]);
            } else {
                assert(rest[k] == picks[k + 1]);
            }
        }
        assert forall|j: int, k: int| 0 <= j < k < rest.len() implies rest[j] != rest[k] by {
            let jj = if j < p { j } else { j + 1 };
            let kk = if k < p { k } else { k + 1 };
            assert(rest[j] == picks[jj]);
            assert(rest[k] == picks[kk]);
        }
        lemma_permutation_multiset(rest, shorter);
        let picked_rest = Seq::new(rest.len(), |k: int| shorter[rest[k]]);
        assert(picked.remove(p) =~= picked_rest) by {
            assert forall|k: int| 0 <= k < picked_rest.len() implies picked.remove(p)[k]
                == picked_rest[k] by {
                if k < p {
                    assert(rest[k] == picks[k]);
                } else {
                    assert(rest[k] == picks[k + 1]);
                }
            }
        }
        assert(picked[p] == items[n - 1]);
        assert(picked.remove(p).to_multiset() =~= picked.to_multiset().remove(picked[p]));
        assert(items =~= shorter.push(items[n - 1]));
        assert(items.to_multiset() =~= shorter.to_multiset().insert(items[n - 1]));
        assert(picked.contains(picked[p]));
        assert(picked.to_multiset().count(items[n - 1]) > 0);
        assert(picked.to_multiset() =~= picked.to_multiset().remove(items[n - 1]).insert(
            items[n - 1],
        ));
    }
}

/// A dispatch keeps the pool in order.
pub proof fn lemma_dispatch_inv<V>(pool: PoolState<V>)
    requires
        pool.inv(),
    ensures
        pool.dispatch().inv(),
        pool.dispatch().in_flight() == pool.in_flight() + pool.refill(),
        pool.refill() <= pool.free_slots(),
        pool.refill() <= pool.backlog(),
{
}

/// A report keeps the pool in order.
pub proof fn lemma_complete_inv<V>(pool: PoolState<V>, ticket: int, outcome: Result<V, Seq<char>>)
    requires
        pool.inv(),
    ensures
        pool.complete(ticket, outcome).inv(),
        pool.is_in_flight(ticket) ==> pool.completions.len() < pool.dispatched,
{
    if pool.is_in_flight(ticket) {
        let after = pool.complete(ticket, outcome);
        let numbers = Seq::new(after.completions.len(), |k: int| after.completions[k].ticket);
        assert forall|j: int, k: int| 0 <= j < k < after.completions.len() implies (
        #[trigger] after.completions[j]).ticket != (#[trigger] after.completions[k]).ticket by {
            assert(after.completions[j] == pool.completions[j]);
            if k < pool.completions.len() {
                assert(after.completions[k] == pool.completions[k]);
            }
        }
        assert forall|k: int| 0 <= k < after.completions.len() implies {
            &&& 0 <= (#[trigger] after.completions[k]).ticket < after.dispatched
            &&& after.completions[k].item == after.items[after.completions[k].ticket]
        } by {
            if k < pool.completions.len() {
                assert(after.completions[k] == pool.completions[k]);
            }
        }
        lemma_distinct_below(numbers, pool.dispatched as int);
    }
}

/// A pool that was well-ordered stays so whatever happens to it, and keeps
/// its items, its slots and its policy.
pub proof fn lemma_run_inv<V>(pool: PoolState<V>, steps: Seq<PoolStep<V>>)
    requires
        pool.inv(),
    ensures
        pool.run(steps).inv(),
        pool.run(steps).capacity == pool.capacity,
        pool.run(steps).items == pool.items,
        pool.run(steps).policy == pool.policy,
    decreases steps.len(),
{
    if steps.len() > 0 {
        lemma_run_inv(pool, steps.drop_last());
        let before = pool.run(steps.drop_last());
        match steps.last() {
            PoolStep::Dispatch => {
                lemma_dispatch_inv(before);
            },
            PoolStep::Complete { ticket, outcome } => {
                lemma_complete_inv(before, ticket, outcome);
            },
        }
    }
}

/// Bounded concurrency.  Start a pool with any number of slots over any
/// items, and let anything happen to it in any order: at no moment are more
/// operations under way than the pool has slots.
pub proof fn lemma_bounded_concurrency<V>(
    policy: DispatchPolicy,
    capacity: nat,
    items: Seq<Seq<char>>,
    steps: Seq<PoolStep<V>>,
)
    ensures
        0 <= PoolState::<V>::start(policy, capacity, items).run(steps).in_flight() <= capacity,
{
    let pool = PoolState::<V>::start(policy, capacity, items);
    assert(pool.inv());
    lemma_run_inv(pool, steps);
}

/// Completeness.  When a round is over, the reported items are the items of
/// the round, each as often as it was given: none is missing and none is
/// reported twice.
pub proof fn lemma_finished_reports_each_item_once<V>(pool: PoolState<V>)
    requires
        pool.inv(),
        pool.finished(),
    ensures
        pool.results().len() == pool.items.len(),
        pool.reported_items().to_multiset() == pool.items.to_multiset(),
{
    let picks = Seq::new(pool.completions.len(), |k: int| pool.completions[k].ticket);
    lemma_permutation_multiset(picks, pool.items);
    assert(pool.reported_items() =~= Seq::new(picks.len(), |k: int| pool.items[picks[k]]));
}

/// A report is kept for its own item and touches no other item's record.
pub proof fn lemma_complete_records<V>(
    pool: PoolState<V>,
    ticket: int,
    outcome: Result<V, Seq<char>>,
    other: int,
)
    ensures
        pool.is_in_flight(ticket) ==> pool.complete(ticket, outcome).outcome_of(ticket) == Some(
            outcome,
        ),
        other != ticket ==> pool.complete(ticket, outcome).outcome_of(other) == pool.outcome_of(
            other,
        ),
{
    if pool.is_in_flight(ticket) {
        let after = pool.complete(ticket, outcome);
        assert(after.completions.drop_last() == pool.completions);
    }
}

/// The steps with `outcome` put in place of whatever was reported for the
/// item at `ticket`.
pub open spec fn with_outcome<V>(
    steps: Seq<PoolStep<V>>,
    ticket: int,
    outcome: Result<V, Seq<char>>,
) -> Seq<PoolStep<V>> {
    Seq::new(
        steps.len(),
        |k: int|
            match steps[k] {
                PoolStep::Dispatch => steps[k],
                PoolStep::Complete { ticket: reported, outcome: _ } => if reported == ticket {
                    PoolStep::Complete { ticket, outcome }
                } else {
                    steps[k]
                },
            },
    )
}

/// Two pools that differ at most in the outcome recorded for `ticket`.
pub open spec fn same_but_for<V>(a: PoolState<V>, b: PoolState<V>, ticket: int) -> bool {
    &&& a.policy == b.policy
    &&& a.capacity == b.capacity
    &&& a.items == b.items
    &&& a.dispatched == b.dispatched
    &&& a.completions.len() == b.completions.len()
    &&& forall|k: int|
        0 <= k < a.completions.len() ==> {
            &&& (#[trigger] a.completions[k]).ticket == b.completions[k].ticket
            &&& a.completions[k].item == b.completions[k].item
            &&& a.completions[k].ticket != ticket ==> a.completions[k].outcome
                == b.completions[k].outcome
        }
}

proof fn lemma_same_but_for_outcomes<V>(a: PoolState<V>, b: PoolState<V>, ticket: int, other: int)
    requires
        same_but_for(a, b, ticket),
        other != ticket,
    ensures
        a.outcome_of(other) == b.outcome_of(other),
    decreases a.completions.len(),
{
    if a.completions.len() > 0 {
        let shorter_a = PoolState { completions: a.completions.drop_last(), ..a };
        let shorter_b = PoolState { completions: b.completions.drop_last(), ..b };
        assert(same_but_for(shorter_a, shorter_b, ticket)) by {
            assert forall|k: int| 0 <= k < shorter_a.completions.len() implies {
                &&& (#[trigger] shorter_a.completions[k]).ticket == shorter_b.completions[k].ticket
                &&& shorter_a.completions[k].item == shorter_b.completions[k].item
                &&& shorter_a.completions[k].ticket != ticket ==> shorter_a.completions[k].outcome
                    == shorter_b.completions[k].outcome
            } by {
                assert(shorter_a.completions[k] == a.completions[k]);
                assert(shorter_b.completions[k] == b.completions[k]);
            }
        }
        lemma_same_but_for_outcomes(shorter_a, shorter_b, ticket, other);
        let last = a.completions.len() - 1;
        assert(a.completions.last() == a.completions[last]);
        assert(b.completions.last() == b.completions[last]);
    }
}

proof fn lemma_same_but_for_step<V>(
    a: PoolState<V>,
    b: PoolState<V>,
    ticket: int,
    step_a: PoolStep<V>,
    step_b: PoolStep<V>,
)
    requires
        same_but_for(a, b, ticket),
        match step_a {
            PoolStep::Dispatch => step_b == step_a,
            PoolStep::Complete { ticket: reported, outcome: _ } => if reported == ticket {
                step_b matches PoolStep::Complete { ticket: t, outcome: _ } && t == ticket
            } else {
                step_b == step_a
            },
        },
    ensures
        same_but_for(a.step(step_a), b.step(step_b), ticket),
{
    match step_a {
        PoolStep::Dispatch => {
            assert(a.refill() == b.refill());
        },
        PoolStep::Complete { ticket: reported, outcome } => {
            assert(a.is_completed(reported) == b.is_completed(reported)) by {
                if a.is_completed(reported) {
                    let k = choose|k: int|
                        0 <= k < a.completions.len() && (#[trigger] a.completions[k]).ticket
                            == reported;
                    assert(b.completions[k].ticket == reported);
                }
                if b.is_completed(reported) {
                    let k = choose|k: int|
                        0 <= k < b.completions.len() && (#[trigger] b.completions[k]).ticket
                            == reported;
                    assert(a.completions[k].ticket == reported);
                }
            }
            let after_a = a.step(step_a);
            let after_b = b.step(step_b);
            if a.is_in_flight(reported) {
                assert forall|k: int| 0 <= k < after_a.completions.len() implies {
                    &&& (#[trigger] after_a.completions[k]).ticket == after_b.completions[k].ticket
                    &&& after_a.completions[k].item == after_b.completions[k].item
                    &&& after_a.completions[k].ticket != ticket ==> after_a.completions[k].outcome
                        == after_b.completions[k].outcome
                } by {
                    if k < a.completions.len() {
                        assert(after_a.completions[k] == a.completions[k]);
                        assert(after_b.completions[k] == b.completions[k]);
                    }
                }
            }
        },
    }
}

/// Fault isolation.  Whatever is reported for one item, a fault or anything
/// else, the other items of the round are handed out at the same moments and
/// end with the same record: an item's outcome is what was reported for that
/// item.
pub proof fn lemma_fault_isolation<V>(
    pool: PoolState<V>,
    steps: Seq<PoolStep<V>>,
    faulty: int,
    fault: Result<V, Seq<char>>,
    other: int,
)
    requires
        other != faulty,
    ensures
        pool.run(with_outcome(steps, faulty, fault)).outcome_of(other) == pool.run(
            steps,
        ).outcome_of(other),
        pool.run(with_outcome(steps, faulty, fault)).dispatched == pool.run(steps).dispatched,
        pool.run(with_outcome(steps, faulty, fault)).completions.len() == pool.run(
            steps,
        ).completions.len(),
{
    lemma_same_but_for_run(pool, steps, faulty, fault);
    lemma_same_but_for_outcomes(
        pool.run(steps),
        pool.run(with_outcome(steps, faulty, fault)),
        faulty,
        other,
    );
}

proof fn lemma_same_but_for_run<V>(
    pool: PoolState<V>,
    steps: Seq<PoolStep<V>>,
    faulty: int,
    fault: Result<V, Seq<char>>,
)
    ensures
        same_but_for(pool.run(steps), pool.run(with_outcome(steps, faulty, fault)), faulty),
    decreases steps.len(),
{
    let changed = with_outcome(steps, faulty, fault);
    if steps.len() > 0 {
        lemma_same_but_for_run(pool, steps.drop_last(), faulty, fault);
        assert(changed.drop_last() =~= with_outcome(steps.drop_last(), faulty, fault));
        assert(changed.last() == changed[steps.len() - 1]);
        lemma_same_but_for_step(
            pool.run(steps.drop_last()),
            pool.run(changed.drop_last()),
            faulty,
            steps.last(),
            changed.last(),
        );
    }
}

/// No starvation.  A pool with at least one slot that has items left and
/// nothing under way hands out at least one item at the next dispatch.
pub proof fn lemma_idle_pool_refills<V>(pool: PoolState<V>)
    requires
        pool.inv(),
        pool.capacity >= 1,
        !pool.finished(),
        pool.in_flight() == 0,
    ensures
        pool.refill() >= 1,
{
}

/// What reports hold, as plain values.
pub open spec fn results_view<V>(results: Seq<(String, Result<V, String>)>) -> Seq<
    (Seq<char>, Result<V, Seq<char>>),
> {
    Seq::new(results.len(), |k: int| (results[k].0@, outcome_view(results[k].1)))
}

/// One report as the pool keeps it.
struct Completion<V> {
    ticket: usize,
    item: String,
    outcome: Result<V, String>,
}

/// The slot pool of one round.
pub struct TaskSlotPool<V> {
    policy: DispatchPolicy,
    capacity: usize,
    items: Vec<String>,
    /// The items before this position have been handed out.
    next: usize,
    /// For each item, whether its end has been reported.
    done: Vec<bool>,
    completions: Vec<Completion<V>>,
}

impl<V> View for TaskSlotPool<V> {
    type V = PoolState<V>;

    closed spec fn view(&self) -> PoolState<V> {
        PoolState {
            policy: self.policy,
            capacity: self.capacity as nat,
            items: texts(self.items@),
            dispatched: self.next as nat,
            completions: Seq::new(
                self.completions@.len(),
                |k: int|
                    Completed {
                        ticket: self.completions@[k].ticket as int,
                        item: self.completions@[k].item@,
                        outcome: outcome_view(self.completions@[k].outcome),
                    },
            ),
        }
    }
}

impl<V> TaskSlotPool<V> {
    /// The marks say of each item whether it has been reported.
    pub closed spec fn marks_agree(&self) -> bool {
        &&& self.done@.len() == self.items@.len()
        &&& forall|i: int|
            0 <= i < self.done@.len() ==> (#[trigger] self.done@[i] <==> self@.is_completed(i))
    }

    /// The pool is usable.
    pub open spec fn wf(&self) -> bool {
        self@.inv() && self.marks_agree()
    }

    /// A pool with `capacity` slots over the items of one round.
    pub fn new(items: Vec<String>, capacity: usize, policy: DispatchPolicy) -> (pool: Self)
        ensures
            pool.wf(),
            pool@ == PoolState::<V>::start(policy, capacity as nat, texts(items@)),
    {
        let mut done: Vec<bool> = Vec::new();
        let mut i: usize = 0;
        while i < items.len()
            invariant
                i <= items.len(),
                done@.len() == i,
                forall|j: int| 0 <= j < i ==> !(#[trigger] done@[j]),
            decreases items.len() - i,
        {
            done.push(false);
            i = i + 1;
        }
        let pool = TaskSlotPool { policy, capacity, items, next: 0, done, completions: Vec::new() };
        proof {
            assert(pool@.completions =~= Seq::empty());
        }
        pool
    }

    /// The number of slots.
    pub fn capacity(&self) -> (capacity: usize)
        ensures
            capacity == self@.capacity,
    {
        self.capacity
    }

    /// The number of items in the round.
    pub fn len(&self) -> (len: usize)
        ensures
            len == self@.items.len(),
    {
        self.items.len()
    }

    /// The number of operations under way.
    pub fn in_flight(&self) -> (count: usize)
        requires
            self.wf(),
        ensures
            count == self@.in_flight(),
            count <= self@.capacity,
    {
        self.next - self.completions.len()
    }

    /// The number of items not yet handed out.
    pub fn backlog(&self) -> (count: usize)
        requires
            self.wf(),
        ensures
            count == self@.backlog(),
    {
        self.items.len() - self.next
    }

    /// Whether every item was handed out and reported.
    pub fn is_finished(&self) -> (finished: bool)
        requires
            self.wf(),
        ensures
            finished == self@.finished(),
    {
        self.next == self.items.len() && self.completions.len() == self.next
    }

    /// Hands out the items that may start now, each with the position under
    /// which its end is to be reported.
    pub fn dispatch(&mut self) -> (tickets: Vec<Ticket>)
        requires
            old(self).wf(),
        ensures
            final(self).wf(),
            final(self)@ == old(self)@.dispatch(),
            tickets_view(tickets@) == old(self)@.tickets(),
    {
        let in_flight = self.next - self.completions.len();
        let free = self.capacity - in_flight;
        let backlog = self.items.len() - self.next;
        let fill = if backlog < free { backlog } else { free };
        let open = match self.policy {
            DispatchPolicy::StrictSemaphore => true,
            DispatchPolicy::WatermarkRefill => free > self.capacity / 2,
        };
        let mut tickets: Vec<Ticket> = Vec::new();
        let count = if open { fill } else { 0 };
        let start = self.next;
        let ghost before = self@;
        assert(count == before.refill());
        let total = self.items.len();
        let mut k: usize = 0;
        while k < count
            invariant
                k <= count,
                start + count <= total,
                total == self.items@.len(),
                tickets@.len() == k,
                forall|j: int|
                    0 <= j < k ==> (#[trigger] tickets@[j]).index == start + j && tickets@[j].item@
                        == self.items@[start + j]@,
            decreases count - k,
        {
            let item = self.items[start + k].clone();
            tickets.push(Ticket { index: start + k, item });
            k = k + 1;
        }
        self.next = start + count;
        proof {
            assert(self@.completions == before.completions);
            assert(self@ == before.dispatch());
            assert(tickets_view(tickets@) =~= before.tickets());
            lemma_dispatch_inv(before);
            assert forall|i: int| 0 <= i < self.done@.len() implies (#[trigger] self.done@[i]
                <==> self@.is_completed(i)) by {
                assert(self@.is_completed(i) == before.is_completed(i));
            }
        }
        tickets
    }

    /// Records the end of the operation on the item at `ticket`.  Returns
    /// whether the report was taken: it is not when no operation is under way
    /// for that position, and the pool then stays as it was.  A fault is
    /// recorded as a failure of this item.
    pub fn complete(&mut self, ticket: usize, event: TaskEvent<V>) -> (accepted: bool)
        requires
            old(self).wf(),
        ensures
            final(self).wf(),
            accepted == old(self)@.is_in_flight(ticket as int),
            final(self)@ == old(self)@.complete(ticket as int, event.outcome()),
    {
        let ghost before = self@;
        if ticket >= self.next {
            return false;
        }
        if self.done[ticket] {
            return false;
        }
        let item = self.items[ticket].clone();
        let outcome = event.into_outcome();
        self.done.set(ticket, true);
        self.completions.push(Completion { ticket, item, outcome });
        proof {
            let after = before.complete(ticket as int, event.outcome());
            assert(before.is_in_flight(ticket as int));
            assert(self@.completions =~= after.completions);
            assert(self@ == after);
            lemma_complete_inv(before, ticket as int, event.outcome());
            let last = before.completions.len() as int;
            assert(after.completions[last].ticket == ticket);
            assert forall|i: int| 0 <= i < self.done@.len() implies (#[trigger] self.done@[i]
                <==> self@.is_completed(i)) by {
                if i != ticket {
                    if before.is_completed(i) {
                        let k = choose|k: int|
                            0 <= k < before.completions.len() && (
                            #[trigger] before.completions[k]).ticket == i;
                        assert(after.completions[k].ticket == i);
                    }
                    if after.is_completed(i) {
                        let k = choose|k: int|
                            0 <= k < after.completions.len() && (
                            #[trigger] after.completions[k]).ticket == i;
                        assert(before.completions[k].ticket == i);
                    }
                }
            }
        }
        true
    }

    /// The reports, each as the item's key with its outcome, in the order in
    /// which they came in.
    pub fn into_results(self) -> (results: Vec<(String, Result<V, String>)>)
        ensures
            results_view(results@) == self@.results(),
    {
        let ghost state = self@;
        let ghost all = self.completions@;
        let mut results: Vec<(String, Result<V, String>)> = Vec::new();
        for completion in it: self.completions
            invariant
                it.seq() == all,
                state.completions.len() == all.len(),
                forall|k: int|
                    0 <= k < all.len() ==> (#[trigger] state.completions[k]).item == all[k].item@
                        && state.completions[k].outcome == outcome_view(all[k].outcome),
                results@.len() == it.index(),
                forall|k: int|
                    0 <= k < it.index() ==> (#[trigger] results@[k]).0 == all[k].item
                        && results@[k].1 == all[k].outcome,
        {
            results.push((completion.item, completion.outcome));
        }
        proof {
            assert(results_view(results@) =~= state.results());
        }
        results
    }
}

} // verus!
