//! The retry loop: rounds of a batch until a round succeeds entirely, the
//! retry budget is spent, or the operator calls it off.
//!
//! The first round attempts every item.  Each further round attempts the
//! items that failed in the round before it, as the failure cache names
//! them.  After every round the cache is replaced by that round's failures.

use crate::batch::outcome::{
    failures_of, failures_view, lemma_partition_complete, partition, successes_of, successes_view,
};
use crate::batch::pool::{
    lemma_complete_inv, lemma_dispatch_inv, outcome_view, tickets_view, DispatchPolicy, PoolState,
    TaskEvent, TaskSlotPool, Ticket,
};
use crate::commands::collections::migrate::{
    distinct_keys, entries_of_failures, entry_keys, errors_view, lemma_entries_of_failures,
    MigrateCache, MigrateError,
};
use crate::text::texts;
use vstd::prelude::*;

verus! {

/// Where a run stands.
#[derive(Clone, Copy, Debug, PartialEq, Eq, Structural)]
pub enum RunStatus {
    /// A round is under way.
    Running,
    /// The last round had no failure.
    Converged,
    /// The last round had failures and no retry was left.
    Exhausted,
    /// The last round had failures, and the operator had called off what was
    /// left of the run.
    Cancelled,
}

/// A run as a mathematical value.
pub struct RunState<V> {
    /// The pool of the round under way.
    pub pool: PoolState<V>,
    /// How many rounds may follow the first.
    pub retry_budget: nat,
    /// How many rounds have followed the first.
    pub rounds_attempted: nat,
    /// How many rounds have ended.
    pub rounds_finished: nat,
    pub status: RunStatus,
    /// Whether the operator has called the run off.
    pub cancel_requested: bool,
    /// The failure cache.
    pub cache: Seq<(Seq<char>, Option<Seq<char>>)>,
    /// The successes of all rounds so far.
    pub successes: Seq<(Seq<char>, V)>,
    /// The failures of the round that ended last.
    pub failures: Seq<(Seq<char>, Seq<char>)>,
}

/// What can happen to a run.
pub enum RunStep<V> {
    /// The owner asks for the items to start.
    Dispatch,
    /// The owner reports that the operation on the item at `ticket` ended.
    Complete { ticket: int, outcome: Result<V, Seq<char>> },
    /// The operator calls the run off.
    RequestCancel,
    /// The owner closes the round.
    FinishRound,
}

impl<V> RunState<V> {
    /// A run at the start of its first round.
    pub open spec fn start(
        policy: DispatchPolicy,
        capacity: nat,
        items: Seq<Seq<char>>,
        retry_budget: nat,
    ) -> Self {
        RunState {
            pool: PoolState::start(policy, capacity, items),
            retry_budget,
            rounds_attempted: 0,
            rounds_finished: 0,
            status: RunStatus::Running,
            cancel_requested: false,
            cache: Seq::empty(),
            successes: Seq::empty(),
            failures: Seq::empty(),
        }
    }

    /// The pool of a run between rounds: no items.
    pub open spec fn idle_pool(self) -> PoolState<V> {
        PoolState::start(self.pool.policy, self.pool.capacity, Seq::empty())
    }

    /// The round under way is over and can be closed.
    pub open spec fn round_over(self) -> bool {
        self.status == RunStatus::Running && self.pool.finished()
    }

    /// The tickets that the next dispatch hands out: those of the pool while
    /// a round is under way, none after that.
    pub open spec fn tickets(self) -> Seq<(int, Seq<char>)> {
        if self.status == RunStatus::Running {
            self.pool.tickets()
        } else {
            Seq::empty()
        }
    }

    /// The run after a dispatch.
    pub open spec fn dispatch(self) -> Self {
        if self.status == RunStatus::Running {
            RunState { pool: self.pool.dispatch(), ..self }
        } else {
            self
        }
    }

    /// The run after a report.
    pub open spec fn complete(self, ticket: int, outcome: Result<V, Seq<char>>) -> Self {
        if self.status == RunStatus::Running {
            RunState { pool: self.pool.complete(ticket, outcome), ..self }
        } else {
            self
        }
    }

    /// The run after the operator has called it off.  The round under way
    /// goes on to its end.
    pub open spec fn request_cancel(self) -> Self {
        RunState { cancel_requested: true, ..self }
    }

    /// The run after the round has been closed.  Nothing changes unless the
    /// round is over.  Its successes join those of the rounds before.  With
    /// no failure the run has converged, and the cache is emptied.  With
    /// failures the cache is replaced by them; the run is exhausted where no
    /// retry is left, cancelled where the operator has called it off, and
    /// else starts a round over the keys of the cache.
    pub open spec fn finish_round(self) -> Self {
        if !self.round_over() {
            self
        } else {
            let successes = self.successes + successes_of(self.pool.results());
            let failures = failures_of(self.pool.results());
            let rounds_finished = self.rounds_finished + 1;
            if failures.len() == 0 {
                RunState {
                    pool: self.idle_pool(),
                    rounds_finished,
                    status: RunStatus::Converged,
                    cache: Seq::empty(),
                    successes,
                    failures,
                    ..self
                }
            } else {
                let cache = entries_of_failures(failures);
                if self.rounds_attempted >= self.retry_budget {
                    RunState {
                        pool: self.idle_pool(),
                        rounds_finished,
                        status: RunStatus::Exhausted,
                        cache,
                        successes,
                        failures,
                        ..self
                    }
                } else if self.cancel_requested {
                    RunState {
                        pool: self.idle_pool(),
                        rounds_finished,
                        status: RunStatus::Cancelled,
                        cache,
                        successes,
                        failures,
                        ..self
                    }
                } else {
                    RunState {
                        pool: PoolState::start(
                            self.pool.policy,
                            self.pool.capacity,
                            entry_keys(cache),
                        ),
                        rounds_attempted: self.rounds_attempted + 1,
                        rounds_finished,
                        cache,
                        successes,
                        failures,
                        ..self
                    }
                }
            }
        }
    }

    /// The run after one step.
    pub open spec fn step(self, step: RunStep<V>) -> Self {
        match step {
            RunStep::Dispatch => self.dispatch(),
            RunStep::Complete { ticket, outcome } => self.complete(ticket, outcome),
            RunStep::RequestCancel => self.request_cancel(),
            RunStep::FinishRound => self.finish_round(),
        }
    }

    /// The run after a sequence of steps.
    pub open spec fn run(self, steps: Seq<RunStep<V>>) -> Self
        decreases steps.len(),
    {
        if steps.len() == 0 {
            self
        } else {
            self.run(steps.drop_last()).step(steps.last())
        }
    }

    /// What holds of every run.  The pool is in order.  No more retries
    /// were made than the budget allows.  A run that has ended has closed one
    /// round more than it made retries.  The cache holds the failures of the
    /// round closed last and nothing else.  An exhausted run has spent its
    /// budget and has failures to report; a converged run has none.
    pub open spec fn inv(self) -> bool {
        &&& self.pool.inv()
        &&& distinct_keys(self.cache)
        &&& self.rounds_attempted <= self.retry_budget
        &&& self.rounds_finished == self.rounds_attempted + if self.status == RunStatus::Running {
            0nat
        } else {
            1nat
        }
        &&& self.cache == entries_of_failures(self.failures)
        &&& self.status == RunStatus::Converged ==> self.failures.len() == 0
        &&& self.status == RunStatus::Exhausted ==> self.failures.len() > 0
            && self.rounds_attempted == self.retry_budget
        &&& self.status == RunStatus::Cancelled ==> self.failures.len() > 0
            && self.cancel_requested
        &&& self.status != RunStatus::Running ==> self.pool == self.idle_pool()
    }

    /// Every outcome reported in the round under way is a failure.
    pub open spec fn round_all_failed(self) -> bool {
        forall|k: int|
            0 <= k < self.pool.completions.len() ==> (#[trigger] self.pool.completions[k]).outcome
                is Err
    }
}

/// A step keeps a run in order.
pub proof fn lemma_step_inv<V>(run: RunState<V>, step: RunStep<V>)
    requires
        run.inv(),
    ensures
        run.step(step).inv(),
        run.step(step).retry_budget == run.retry_budget,
        run.step(step).pool.capacity == run.pool.capacity,
        run.step(step).pool.policy == run.pool.policy,
{
    match step {
        RunStep::Dispatch => {
            lemma_dispatch_inv(run.pool);
        },
        RunStep::Complete { ticket, outcome } => {
            lemma_complete_inv(run.pool, ticket, outcome);
        },
        RunStep::RequestCancel => {},
        RunStep::FinishRound => {
            if run.round_over() {
                let failures = failures_of(run.pool.results());
                lemma_entries_of_failures(failures);
                let after = run.finish_round();
                assert(run.idle_pool().inv());
                assert(after.pool.inv());
            }
        },
    }
}

/// A run stays in order whatever happens to it, and never closes more
/// rounds than its retry budget and one.
pub proof fn lemma_run_inv<V>(run: RunState<V>, steps: Seq<RunStep<V>>)
    requires
        run.inv(),
    ensures
        run.run(steps).inv(),
        run.run(steps).retry_budget == run.retry_budget,
        run.run(steps).pool.capacity == run.pool.capacity,
        run.run(steps).pool.policy == run.pool.policy,
        run.run(steps).rounds_finished <= run.retry_budget + 1,
    decreases steps.len(),
{
    if steps.len() > 0 {
        lemma_run_inv(run, steps.drop_last());
        lemma_step_inv(run.run(steps.drop_last()), steps.last());
    }
}

/// What holds at every moment of every run, whatever the items, the slots,
/// the budget and the order of events: no more operations are under way
/// than there are slots; the cache holds the failures of the round closed
/// last and nothing from the rounds before it; and no more rounds were
/// closed than the retry budget and one.
pub proof fn lemma_run_laws<V>(
    policy: DispatchPolicy,
    capacity: nat,
    items: Seq<Seq<char>>,
    retry_budget: nat,
    steps: Seq<RunStep<V>>,
)
    ensures
        ({
            let now = RunState::<V>::start(policy, capacity, items, retry_budget).run(steps);
            &&& 0 <= now.pool.in_flight() <= capacity
            &&& now.cache == entries_of_failures(now.failures)
            &&& now.rounds_finished <= retry_budget + 1
            &&& now.status == RunStatus::Converged ==> now.cache.len() == 0
        }),
{
    let begin = RunState::<V>::start(policy, capacity, items, retry_budget);
    assert(begin.inv());
    lemma_run_inv(begin, steps);
}

/// Where every outcome is a failure, there is no success and every result
/// is a failure.
pub proof fn lemma_all_failed<V>(results: Seq<(Seq<char>, Result<V, Seq<char>>)>)
    requires
        forall|k: int| 0 <= k < results.len() ==> (#[trigger] results[k]).1 is Err,
    ensures
        successes_of(results).len() == 0,
        failures_of(results).len() == results.len(),
    decreases results.len(),
{
    if results.len() > 0 {
        let shorter = results.drop_last();
        assert forall|k: int| 0 <= k < shorter.len() implies (#[trigger] shorter[k]).1 is Err by {
            assert(shorter[k] == results[k]);
        }
        lemma_all_failed(shorter);
        assert(results.last() == results[results.len() - 1]);
    }
}

/// The steps in which nobody calls the run off and every report is a
/// failure.
pub open spec fn always_failing<V>(steps: Seq<RunStep<V>>) -> bool {
    forall|k: int|
        0 <= k < steps.len() ==> match #[trigger] steps[k] {
            RunStep::Complete { ticket: _, outcome } => outcome is Err,
            RunStep::RequestCancel => false,
            _ => true,
        }
}

proof fn lemma_always_failing_inv<V>(
    policy: DispatchPolicy,
    capacity: nat,
    items: Seq<Seq<char>>,
    retry_budget: nat,
    steps: Seq<RunStep<V>>,
)
    requires
        items.len() > 0,
        always_failing(steps),
    ensures
        ({
            let end = RunState::<V>::start(policy, capacity, items, retry_budget).run(steps);
            &&& end.inv()
            &&& end.retry_budget == retry_budget
            &&& end.round_all_failed()
            &&& end.successes.len() == 0
            &&& !end.cancel_requested
            &&& end.status == RunStatus::Running ==> end.pool.items.len() > 0
            &&& end.status == RunStatus::Running || end.status == RunStatus::Exhausted
        }),
    decreases steps.len(),
{
    let begin = RunState::<V>::start(policy, capacity, items, retry_budget);
    if steps.len() == 0 {
        assert(begin.inv());
    } else {
        let shorter = steps.drop_last();
        assert(always_failing(shorter)) by {
            assert forall|k: int| 0 <= k < shorter.len() implies match #[trigger] shorter[k] {
                RunStep::Complete { ticket: _, outcome } => outcome is Err,
                RunStep::RequestCancel => false,
                _ => true,
            } by {
                assert(shorter[k] == steps[k]);
            }
        }
        lemma_always_failing_inv(policy, capacity, items, retry_budget, shorter);
        let before = begin.run(shorter);
        let last = steps.last();
        assert(last == steps[steps.len() - 1]);
        lemma_step_inv(before, last);
        let end = before.step(last);
        match last {
            RunStep::Dispatch => {},
            RunStep::Complete { ticket, outcome } => {
                if before.status == RunStatus::Running && before.pool.is_in_flight(ticket) {
                    assert forall|k: int| 0 <= k < end.pool.completions.len() implies (
                    #[trigger] end.pool.completions[k]).outcome is Err by {
                        if k < before.pool.completions.len() {
                            assert(end.pool.completions[k] == before.pool.completions[k]);
                        }
                    }
                }
            },
            RunStep::RequestCancel => {},
            RunStep::FinishRound => {
                if before.round_over() {
                    let results = before.pool.results();
                    assert forall|k: int| 0 <= k < results.len() implies (#[trigger] results[k]).1
                        is Err by {
                        assert(before.pool.completions[k].outcome is Err);
                    }
                    lemma_all_failed(results);
                    lemma_entries_of_failures(failures_of(results));
                    assert(end.successes =~= before.successes);
                }
            },
        }
    }
}

/// Convergence termination.  Let a run with a retry budget of `R` work on
/// at least one item with an operation that always fails.  Then the run
/// never converges; it closes no more than `R + 1` rounds; and once it has
/// closed `R + 1` rounds, the first and `R` retries, it is exhausted, with
/// failures to report and nothing counted as a success.
pub proof fn lemma_always_failing_run_exhausts<V>(
    policy: DispatchPolicy,
    capacity: nat,
    items: Seq<Seq<char>>,
    retry_budget: nat,
    steps: Seq<RunStep<V>>,
)
    requires
        items.len() > 0,
        always_failing(steps),
    ensures
        ({
            let end = RunState::<V>::start(policy, capacity, items, retry_budget).run(steps);
            &&& end.status != RunStatus::Converged
            &&& end.rounds_finished <= retry_budget + 1
            &&& end.rounds_finished == retry_budget + 1 <==> end.status == RunStatus::Exhausted
            &&& end.status == RunStatus::Exhausted ==> end.failures.len() > 0
            &&& end.successes.len() == 0
        }),
{
    lemma_always_failing_inv(policy, capacity, items, retry_budget, steps);
}

/// A round that is closed either ends the run or uses up one retry: a run
/// cannot go on for ever.
pub proof fn lemma_finish_round_progress<V>(run: RunState<V>)
    requires
        run.inv(),
        run.round_over(),
    ensures
        run.finish_round().rounds_finished == run.rounds_finished + 1,
        run.finish_round().status == RunStatus::Running ==> run.finish_round().rounds_attempted
            == run.rounds_attempted + 1 && run.finish_round().rounds_attempted
            <= run.retry_budget,
        failures_of(run.pool.results()).len() == 0 <==> run.finish_round().status
            == RunStatus::Converged,
{
    lemma_entries_of_failures(failures_of(run.pool.results()));
}

/// What a run has to show.
#[derive(Clone, Debug, PartialEq, Eq)]
pub struct BatchReport {
    /// The number of successes, all rounds together.
    pub succeeded_count: usize,
    /// The items that failed in the round closed last, each with the reason.
    pub failed_items: Vec<(String, String)>,
}

/// A batch run: the retry loop with the pool of its current round, its
/// failure cache and what it has gathered.
pub struct BatchRun<V> {
    pool: TaskSlotPool<V>,
    policy: DispatchPolicy,
    capacity: usize,
    retry_budget: u8,
    rounds_attempted: usize,
    rounds_finished: usize,
    status: RunStatus,
    cancel_requested: bool,
    cache: MigrateCache,
    successes: Vec<(String, V)>,
    failures: Vec<(String, String)>,
}

impl<V> View for BatchRun<V> {
    type V = RunState<V>;

    closed spec fn view(&self) -> RunState<V> {
        RunState {
            pool: self.pool@,
            retry_budget: self.retry_budget as nat,
            rounds_attempted: self.rounds_attempted as nat,
            rounds_finished: self.rounds_finished as nat,
            status: self.status,
            cancel_requested: self.cancel_requested,
            cache: self.cache@,
            successes: successes_view(self.successes@),
            failures: failures_view(self.failures@),
        }
    }
}

/// The failures as errors of the cache.
fn errors_of(failures: &Vec<(String, String)>) -> (errors: Vec<MigrateError>)
    ensures
        errors_view(errors@) == failures_view(failures@),
{
    let mut errors: Vec<MigrateError> = Vec::new();
    let mut i: usize = 0;
    while i < failures.len()
        invariant
            i <= failures.len(),
            errors@.len() == i,
            forall|k: int|
                0 <= k < i ==> (#[trigger] errors@[k]).key() == failures@[k].0@
                    && errors@[k].reason() == failures@[k].1@,
        decreases failures.len() - i,
    {
        let key = failures[i].0.clone();
        let reason = failures[i].1.clone();
        errors.push(MigrateError::MigrationFailed(key, reason));
        i = i + 1;
    }
    proof {
        assert(errors_view(errors@) =~= failures_view(failures@));
    }
    errors
}

impl<V> BatchRun<V> {
    /// The parts of the run fit together.
    pub closed spec fn parts_wf(&self) -> bool {
        &&& self.pool.wf()
        &&& self.cache.wf()
        &&& self.pool@.policy == self.policy
        &&& self.pool@.capacity == self.capacity
    }

    /// The run is usable.
    pub open spec fn wf(&self) -> bool {
        self@.inv() && self.parts_wf()
    }

    /// A run over `items` with `concurrency` slots, at the start of its
    /// first round.  `retry_budget` rounds may follow the first.
    pub fn new(items: Vec<String>, concurrency: usize, retry_budget: u8, policy: DispatchPolicy) -> (run:
        Self)
        ensures
            run.wf(),
            run@ == RunState::<V>::start(
                policy,
                concurrency as nat,
                texts(items@),
                retry_budget as nat,
            ),
    {
        let pool = TaskSlotPool::new(items, concurrency, policy);
        let run = BatchRun {
            pool,
            policy,
            capacity: concurrency,
            retry_budget,
            rounds_attempted: 0,
            rounds_finished: 0,
            status: RunStatus::Running,
            cancel_requested: false,
            cache: MigrateCache::new(),
            successes: Vec::new(),
            failures: Vec::new(),
        };
        proof {
            assert(run@.successes =~= Seq::empty());
            assert(run@.failures =~= Seq::empty());
        }
        run
    }

    /// Where the run stands.
    pub fn status(&self) -> (status: RunStatus)
        ensures
            status == self@.status,
    {
        self.status
    }

    /// The number of slots.
    pub fn capacity(&self) -> (capacity: usize)
        requires
            self.wf(),
        ensures
            capacity == self@.pool.capacity,
    {
        self.capacity
    }

    /// How many rounds have followed the first.
    pub fn rounds_attempted(&self) -> (rounds: usize)
        ensures
            rounds == self@.rounds_attempted,
    {
        self.rounds_attempted
    }

    /// How many rounds have ended.
    pub fn rounds_finished(&self) -> (rounds: usize)
        ensures
            rounds == self@.rounds_finished,
    {
        self.rounds_finished
    }

    /// The number of operations under way.
    pub fn in_flight(&self) -> (count: usize)
        requires
            self.wf(),
        ensures
            count == self@.pool.in_flight(),
            count <= self@.pool.capacity,
    {
        self.pool.in_flight()
    }

    /// Whether the round under way is over and can be closed.
    pub fn is_round_over(&self) -> (over: bool)
        requires
            self.wf(),
        ensures
            over == self@.round_over(),
    {
        self.status == RunStatus::Running && self.pool.is_finished()
    }

    /// The failure cache.
    pub fn cache(&self) -> (cache: &MigrateCache)
        ensures
            cache@ == self@.cache,
            self.wf() ==> cache.wf(),
    {
        &self.cache
    }

    /// Hands out the items that may start now.  None once the run has ended.
    pub fn dispatch(&mut self) -> (tickets: Vec<Ticket>)
        requires
            old(self).wf(),
        ensures
            final(self).wf(),
            final(self)@ == old(self)@.dispatch(),
            tickets_view(tickets@) == old(self)@.tickets(),
    {
        if self.status == RunStatus::Running {
            proof {
                lemma_dispatch_inv(self.pool@);
            }
            self.pool.dispatch()
        } else {
            let tickets: Vec<Ticket> = Vec::new();
            proof {
                assert(tickets_view(tickets@) =~= Seq::empty());
            }
            tickets
        }
    }

    /// Records the end of the operation on the item at `ticket`.  Returns
    /// whether the report was taken.
    pub fn complete(&mut self, ticket: usize, event: TaskEvent<V>) -> (accepted: bool)
        requires
            old(self).wf(),
        ensures
            final(self).wf(),
            final(self)@ == old(self)@.complete(ticket as int, event.outcome()),
            accepted == (old(self)@.status == RunStatus::Running && old(self)@.pool.is_in_flight(
                ticket as int,
            )),
    {
        if self.status == RunStatus::Running {
            proof {
                lemma_complete_inv(self.pool@, ticket as int, event.outcome());
            }
            self.pool.complete(ticket, event)
        } else {
            false
        }
    }

    /// Calls off what is left of the run.  The round under way goes on to
    /// its end; no round starts after it.
    pub fn request_cancel(&mut self)
        requires
            old(self).wf(),
        ensures
            final(self).wf(),
            final(self)@ == old(self)@.request_cancel(),
    {
        self.cancel_requested = true;
    }

    /// Closes the round and says where the run stands then.  Nothing changes
    /// unless the round is over.
    pub fn finish_round(&mut self) -> (status: RunStatus)
        requires
            old(self).wf(),
        ensures
            final(self).wf(),
            final(self)@ == old(self)@.finish_round(),
            status == final(self)@.status,
    {
        if !(self.status == RunStatus::Running) || !self.pool.is_finished() {
            return self.status;
        }
        let ghost before = self@;
        let mut finished: TaskSlotPool<V> = TaskSlotPool::new(
            Vec::new(),
            self.capacity,
            self.policy,
        );
        proof {
            assert(finished@.items =~= Seq::empty());
            assert(finished@ == before.idle_pool());
        }
        core::mem::swap(&mut self.pool, &mut finished);
        let results = finished.into_results();
        let (mut successes, failures) = partition(results);
        let ghost gathered = self.successes@;
        let ghost new_successes = successes@;
        self.successes.append(&mut successes);
        proof {
            assert(successes_view(self.successes@) =~= successes_view(gathered) + successes_view(
                new_successes,
            ));
            lemma_step_inv(before, RunStep::FinishRound);
            lemma_entries_of_failures(failures_view(failures@));
        }
        self.rounds_finished = self.rounds_finished + 1;
        if failures.len() == 0 {
            self.cache.clear();
            self.failures = failures;
            self.status = RunStatus::Converged;
        } else {
            let errors = errors_of(&failures);
            self.cache.update_errors(errors);
            self.failures = failures;
            if self.rounds_attempted >= self.retry_budget as usize {
                self.status = RunStatus::Exhausted;
            } else if self.cancel_requested {
                self.status = RunStatus::Cancelled;
            } else {
                let items = self.cache.keys();
                proof {
                    assert(texts(items@) =~= entry_keys(self.cache@));
                }
                self.pool = TaskSlotPool::new(items, self.capacity, self.policy);
                self.rounds_attempted = self.rounds_attempted + 1;
            }
        }
        self.status
    }

    /// What the run has to show: how many operations succeeded, all rounds
    /// together, and the items that failed in the round closed last, each
    /// with the reason.
    pub fn report(&self) -> (report: BatchReport)
        ensures
            report.succeeded_count == self@.successes.len(),
            failures_view(report.failed_items@) == self@.failures,
    {
        let mut failed_items: Vec<(String, String)> = Vec::new();
        let mut i: usize = 0;
        while i < self.failures.len()
            invariant
                i <= self.failures.len(),
                failed_items@.len() == i,
                forall|k: int|
                    0 <= k < i ==> (#[trigger] failed_items@[k]).0@ == self.failures@[k].0@
                        && failed_items@[k].1@ == self.failures@[k].1@,
            decreases self.failures.len() - i,
        {
            let key = self.failures[i].0.clone();
            let reason = self.failures[i].1.clone();
            failed_items.push((key, reason));
            i = i + 1;
        }
        proof {
            assert(failures_view(failed_items@) =~= failures_view(self.failures@));
        }
        BatchReport { succeeded_count: self.successes.len(), failed_items }
    }

    /// The successes of all rounds, each as the item's key with the value
    /// that its operation returned.
    pub fn into_successes(self) -> (successes: Vec<(String, V)>)
        ensures
            successes_view(successes@) == self@.successes,
    {
        self.successes
    }
}

/// Why a batch was not run.
#[derive(Clone, Copy, Debug, PartialEq, Eq, Structural)]
pub enum BatchError {
    /// With no slot no operation could ever start.
    NoSlots,
}

/// Every report among the steps is an answer of the operation for the item
/// it is reported for, nobody calls the run off, and nothing else happens
/// but dispatches and closed rounds.
pub open spec fn answered_by<V, F: Fn(&String) -> Result<V, String>>(
    operation: F,
    begin: RunState<V>,
    steps: Seq<RunStep<V>>,
) -> bool {
    forall|k: int|
        0 <= k < steps.len() ==> match #[trigger] steps[k] {
            RunStep::Complete { ticket, outcome } => exists|item: &String, result: Result<V, String>|
                {
                    &&& call_ensures(operation, (item,), result)
                    &&& outcome_view(result) == outcome
                    &&& 0 <= ticket < begin.run(steps.take(k)).pool.items.len()
                    &&& item@ == begin.run(steps.take(k)).pool.items[ticket]
                },
            RunStep::RequestCancel => false,
            _ => true,
        }
}

/// The steps lead from `begin` to `state`, and every report among them is
/// an answer of the operation.
pub open spec fn reached_by<V, F: Fn(&String) -> Result<V, String>>(
    state: RunState<V>,
    operation: F,
    begin: RunState<V>,
    steps: Seq<RunStep<V>>,
) -> bool {
    state == begin.run(steps) && answered_by(operation, begin, steps)
}

/// Steps that were answered stay so when one more step that is answered
/// follows.
proof fn lemma_answered_by_push<V, F: Fn(&String) -> Result<V, String>>(
    operation: F,
    begin: RunState<V>,
    steps: Seq<RunStep<V>>,
    next: RunStep<V>,
)
    requires
        answered_by(operation, begin, steps),
        match next {
            RunStep::Complete { ticket, outcome } => exists|item: &String, result: Result<V, String>|
                {
                    &&& call_ensures(operation, (item,), result)
                    &&& outcome_view(result) == outcome
                    &&& 0 <= ticket < begin.run(steps).pool.items.len()
                    &&& item@ == begin.run(steps).pool.items[ticket]
                },
            RunStep::RequestCancel => false,
            _ => true,
        },
    ensures
        answered_by(operation, begin, steps.push(next)),
        steps.push(next).drop_last() == steps,
        begin.run(steps.push(next)) == begin.run(steps).step(next),
{
    let longer = steps.push(next);
    assert(longer.drop_last() == steps);
    assert forall|k: int| 0 <= k < longer.len() implies match #[trigger] longer[k] {
        RunStep::Complete { ticket, outcome } => exists|item: &String, result: Result<V, String>|
            {
                &&& call_ensures(operation, (item,), result)
                &&& outcome_view(result) == outcome
                &&& 0 <= ticket < begin.run(longer.take(k)).pool.items.len()
                &&& item@ == begin.run(longer.take(k)).pool.items[ticket]
            },
        RunStep::RequestCancel => false,
        _ => true,
    } by {
        if k < steps.len() {
            assert(longer[k] == steps[k]);
            assert(longer.take(k) == steps.take(k));
        } else {
            assert(longer.take(k) == steps);
        }
    }
}

/// Runs a batch to its end with an operation that answers at once.  The
/// items that the pool hands out together are worked on one after another,
/// in the order handed out; rounds follow each other until one has no
/// failure or the retry budget is spent.  The run that comes back has
/// ended, converged or exhausted, and was reached from the start by
/// dispatches, reports and closed rounds alone, so that what holds of every
/// run holds of it.
pub fn run_batch<V, F: Fn(&String) -> Result<V, String>>(
    items: Vec<String>,
    operation: F,
    concurrency: usize,
    retry_budget: u8,
    policy: DispatchPolicy,
) -> (finished: Result<BatchRun<V>, BatchError>)
    requires
        forall|item: &String| call_requires(operation, (item,)),
    ensures
        finished is Err <==> concurrency == 0,
        finished matches Ok(run) ==> {
            &&& run.wf()
            &&& run@.status == RunStatus::Converged || run@.status == RunStatus::Exhausted
            &&& exists|steps: Seq<RunStep<V>>|
                #[trigger] reached_by(
                    run@,
                    operation,
                    RunState::<V>::start(
                        policy,
                        concurrency as nat,
                        texts(items@),
                        retry_budget as nat,
                    ),
                    steps,
                )
        },
{
    if concurrency == 0 {
        return Err(BatchError::NoSlots);
    }
    let ghost begin = RunState::<V>::start(
        policy,
        concurrency as nat,
        texts(items@),
        retry_budget as nat,
    );
    let mut run: BatchRun<V> = BatchRun::new(items, concurrency, retry_budget, policy);
    let ghost mut steps: Seq<RunStep<V>> = Seq::empty();
    while run.status() == RunStatus::Running
        invariant
            run.wf(),
            run@ == begin.run(steps),
            answered_by(operation, begin, steps),
            run@.retry_budget == retry_budget,
            run@.pool.capacity == concurrency,
            concurrency >= 1,
            run@.status == RunStatus::Running ==> run@.pool.in_flight() == 0,
            !run@.cancel_requested,
            forall|item: &String| call_requires(operation, (item,)),
        decreases
                retry_budget + 1 - run@.rounds_finished,
                run@.pool.items.len() + 1 - run@.pool.completions.len(),
    {
        if run.is_round_over() {
            proof {
                lemma_step_inv(run@, RunStep::FinishRound);
                lemma_finish_round_progress(run@);
                lemma_answered_by_push(operation, begin, steps, RunStep::FinishRound);
                steps = steps.push(RunStep::FinishRound);
            }
            run.finish_round();
        } else {
            let ghost idle = run@;
            proof {
                crate::batch::pool::lemma_idle_pool_refills(idle.pool);
                lemma_dispatch_inv(idle.pool);
                lemma_answered_by_push(operation, begin, steps, RunStep::Dispatch);
                steps = steps.push(RunStep::Dispatch);
            }
            let tickets = run.dispatch();
            let ghost first = idle.pool.dispatched as int;
            let ghost handed = idle.pool.tickets();
            proof {
                assert(tickets@.len() == tickets_view(tickets@).len());
                assert(handed.len() >= 1);
            }
            let mut j: usize = 0;
            while j < tickets.len()
                invariant
                    j <= tickets.len(),
                    run.wf(),
                    run@ == begin.run(steps),
                    answered_by(operation, begin, steps),
                    run@.status == RunStatus::Running,
                    run@.retry_budget == idle.retry_budget,
                    run@.rounds_finished == idle.rounds_finished,
                    run@.cancel_requested == idle.cancel_requested,
                    run@.pool.capacity == idle.pool.capacity,
                    run@.pool.items == idle.pool.items,
                    run@.pool.dispatched == first + tickets@.len(),
                    run@.pool.completions.len() == first + j,
                    forall|k: int|
                        0 <= k < run@.pool.completions.len() ==> (
                        #[trigger] run@.pool.completions[k]).ticket < first + j,
                    tickets_view(tickets@) == handed,
                    handed.len() == tickets@.len(),
                    forall|k: int|
                        0 <= k < handed.len() ==> (#[trigger] handed[k]).0 == first + k
                            && handed[k].1 == idle.pool.items[first + k],
                    first + handed.len() <= idle.pool.items.len(),
                    forall|item: &String| call_requires(operation, (item,)),
                decreases tickets.len() - j,
            {
                let ghost before = run@;
                proof {
                    assert(handed[j as int].0 == first + j);
                    assert(tickets_view(tickets@)[j as int].0 == tickets@[j as int].index);
                    assert(!before.pool.is_completed(first + j)) by {
                        if before.pool.is_completed(first + j) {
                            let k = choose|k: int|
                                0 <= k < before.pool.completions.len() && (
                                #[trigger] before.pool.completions[k]).ticket == first + j;
                            assert(before.pool.completions[k].ticket < first + j);
                        }
                    }
                    assert(before.pool.is_in_flight(first + j));
                }
                let outcome = operation(&tickets[j].item);
                let ghost answer = outcome;
                let event = TaskEvent::Returned(outcome);
                proof {
                    lemma_complete_inv(before.pool, first + j, event.outcome());
                    let next = RunStep::Complete { ticket: first + j, outcome: event.outcome() };
                    assert(call_ensures(operation, (&tickets@[j as int].item,), answer));
                    assert(tickets@[j as int].item@ == handed[j as int].1);
                    lemma_answered_by_push(operation, begin, steps, next);
                    steps = steps.push(next);
                }
                let taken = run.complete(tickets[j].index, event);
                proof {
                    assert(taken);
                    assert forall|k: int| 0 <= k < run@.pool.completions.len() implies (
                    #[trigger] run@.pool.completions[k]).ticket < first + j + 1 by {
                        if k < before.pool.completions.len() {
                            assert(run@.pool.completions[k] == before.pool.completions[k]);
                        }
                    }
                }
                j = j + 1;
            }
        }
    }
    proof {
        assert(reached_by(run@, operation, begin, steps));
    }
    Ok(run)
}

} // verus!
