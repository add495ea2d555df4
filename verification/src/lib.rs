pub mod cfg;
pub mod task;

use vstd::prelude::*;

use crate::cfg::Config;

verus! {

/// One unit of work: a single outbound request, carrying its own independent
/// copy of the target parameters, so no task shares state with another.
pub struct Job {
    pub addr: String,
    pub method: String,
    pub path: String,
}

impl Job {
    /// Build one task's work description from the configuration; the task
    /// owns its copy outright.
    pub fn from_config(cfg: &Config) -> (j: Job)
        ensures
            j.addr == cfg.addr,
            j.method == cfg.method,
            j.path == cfg.path,
    {
        Job { addr: cfg.addr.clone(), method: cfg.method.clone(), path: cfg.path.clone() }
    }
}

/// A worker's lifecycle: it sits idle between tasks, runs one task at a time,
/// and terminates for good once it observes the queue closed and empty.
#[derive(Clone, Copy, PartialEq, Eq, Structural, Debug)]
pub enum WorkerState {
    Idle,
    Running,
    Terminated,
}

/// What one dequeue attempt observed: the next task (by its submission
/// index), the terminal closed signal, or an empty queue that is still open
/// (a real worker would block and try again).
#[derive(Clone, Copy, PartialEq, Eq, Structural, Debug)]
pub enum DequeueResult {
    Task(usize),
    Closed,
    Pending,
}

/// Submitting against an engine whose queue is already closed fails loudly
/// instead of silently dropping the task.
#[derive(Clone, Copy, PartialEq, Eq, Structural, Debug)]
pub enum EngineError {
    QueueClosed,
}

/// Aggregate outcome of one engine lifecycle.
#[derive(Clone, Copy, PartialEq, Eq, Structural, Debug)]
pub struct Report {
    pub dequeued: usize,
    pub joined: usize,
    pub succeeded: usize,
    pub failed: usize,
}

/// Total of the workers' per-worker completed-task counters.
pub open spec fn sum_counts(s: Seq<usize>) -> int
    decreases s.len(),
{
    if s.len() == 0 {
        0
    } else {
        sum_counts(s.drop_last()) + s.last()
    }
}

pub open spec fn running_one(w: WorkerState) -> int {
    if w is Running {
        1
    } else {
        0
    }
}

pub open spec fn terminated_one(w: WorkerState) -> int {
    if w is Terminated {
        1
    } else {
        0
    }
}

/// How many workers are mid-task.
pub open spec fn count_running(s: Seq<WorkerState>) -> int
    decreases s.len(),
{
    if s.len() == 0 {
        0
    } else {
        count_running(s.drop_last()) + running_one(s.last())
    }
}

/// How many workers have exited their loop.
pub open spec fn count_terminated(s: Seq<WorkerState>) -> int
    decreases s.len(),
{
    if s.len() == 0 {
        0
    } else {
        count_terminated(s.drop_last()) + terminated_one(s.last())
    }
}

/// How many of the recorded dequeues went to worker `x`.
pub open spec fn count_in(s: Seq<usize>, x: int) -> int
    decreases s.len(),
{
    if s.len() == 0 {
        0
    } else {
        count_in(s.drop_last(), x) + (if s.last() == x {
            1int
        } else {
            0
        })
    }
}

/// How many of a run's task outcomes were successes.
pub open spec fn count_true(s: Seq<bool>) -> int
    decreases s.len(),
{
    if s.len() == 0 {
        0
    } else {
        count_true(s.drop_last()) + (if s.last() {
            1int
        } else {
            0
        })
    }
}

proof fn lemma_sum_nonneg(s: Seq<usize>)
    ensures
        sum_counts(s) >= 0,
    decreases s.len(),
{
    if s.len() > 0 {
        lemma_sum_nonneg(s.drop_last());
    }
}

proof fn lemma_sum_element(s: Seq<usize>, i: int)
    requires
        0 <= i < s.len(),
    ensures
        s[i] <= sum_counts(s),
    decreases s.len(),
{
    if i == s.len() - 1 {
        lemma_sum_nonneg(s.drop_last());
    } else {
        lemma_sum_element(s.drop_last(), i);
    }
}

proof fn lemma_sum_update(s: Seq<usize>, i: int, v: usize)
    requires
        0 <= i < s.len(),
    ensures
        sum_counts(s.update(i, v)) == sum_counts(s) - s[i] + v,
    decreases s.len(),
{
    let t = s.update(i, v);
    if i == s.len() - 1 {
        assert(t.drop_last() =~= s.drop_last());
    } else {
        assert(t.drop_last() =~= s.drop_last().update(i, v));
        lemma_sum_update(s.drop_last(), i, v);
    }
}

proof fn lemma_sum_zero(s: Seq<usize>)
    requires
        forall|i: int| 0 <= i < s.len() ==> s[i] == 0,
    ensures
        sum_counts(s) == 0,
    decreases s.len(),
{
    if s.len() > 0 {
        lemma_sum_zero(s.drop_last());
    }
}

proof fn lemma_count_running_update(s: Seq<WorkerState>, i: int, v: WorkerState)
    requires
        0 <= i < s.len(),
    ensures
        count_running(s.update(i, v)) == count_running(s) - running_one(s[i]) + running_one(v),
    decreases s.len(),
{
    let t = s.update(i, v);
    if i == s.len() - 1 {
        assert(t.drop_last() =~= s.drop_last());
    } else {
        assert(t.drop_last() =~= s.drop_last().update(i, v));
        lemma_count_running_update(s.drop_last(), i, v);
    }
}

proof fn lemma_count_running_element(s: Seq<WorkerState>, i: int)
    requires
        0 <= i < s.len(),
    ensures
        running_one(s[i]) <= count_running(s),
        count_running(s) >= 0,
    decreases s.len(),
{
    if i == s.len() - 1 {
        lemma_count_running_zero_or_more(s.drop_last());
    } else {
        lemma_count_running_element(s.drop_last(), i);
    }
}

proof fn lemma_count_running_zero_or_more(s: Seq<WorkerState>)
    ensures
        count_running(s) >= 0,
    decreases s.len(),
{
    if s.len() > 0 {
        lemma_count_running_zero_or_more(s.drop_last());
    }
}

proof fn lemma_count_running_none(s: Seq<WorkerState>)
    requires
        forall|i: int| 0 <= i < s.len() ==> !((#[trigger] s[i]) is Running),
    ensures
        count_running(s) == 0,
    decreases s.len(),
{
    if s.len() > 0 {
        lemma_count_running_none(s.drop_last());
    }
}

proof fn lemma_count_terminated_update(s: Seq<WorkerState>, i: int, v: WorkerState)
    requires
        0 <= i < s.len(),
    ensures
        count_terminated(s.update(i, v)) == count_terminated(s) - terminated_one(s[i])
            + terminated_one(v),
    decreases s.len(),
{
    let t = s.update(i, v);
    if i == s.len() - 1 {
        assert(t.drop_last() =~= s.drop_last());
    } else {
        assert(t.drop_last() =~= s.drop_last().update(i, v));
        lemma_count_terminated_update(s.drop_last(), i, v);
    }
}

proof fn lemma_count_terminated_bounds(s: Seq<WorkerState>)
    ensures
        0 <= count_terminated(s) <= s.len(),
    decreases s.len(),
{
    if s.len() > 0 {
        lemma_count_terminated_bounds(s.drop_last());
    }
}

/// The concurrent dispatch engine, as a state machine over plain values: a
/// log of every submitted task (the queue is the log's undequeued tail), the
/// closed flag that is the sole shutdown signal, one state per worker, the
/// per-worker completed-task counters, which worker took each task, and the
/// success/failure tallies. The caller drives it one decision at a time —
/// `execute`, `close`, `poll`, `complete` — so the dispatch rules are checked
/// here while the threads, the clock and the sockets stay outside.
pub struct AppEngine {
    /// Every task ever submitted, in submission order.
    pub jobs: Vec<Job>,
    /// Tasks `0 .. dequeued` have been handed out; the rest are the queue.
    pub dequeued: usize,
    /// Whether the sending half has been dropped; never reopened.
    pub closed: bool,
    /// One slot per worker.
    pub workers: Vec<WorkerState>,
    /// How many tasks each worker has finished running.
    pub processed: Vec<usize>,
    /// The worker that took each dequeued task, in dequeue order.
    pub assignments: Vec<usize>,
    /// Tasks whose request succeeded.
    pub succeeded: usize,
    /// Tasks whose request failed; counted, not fatal, so one refused
    /// connection cannot shrink the pool.
    pub failed: usize,
    /// The configured request count, kept for the final report.
    pub counts: usize,
}

impl AppEngine {
    /// Every reachable engine state satisfies this: the hand-out cursor stays
    /// inside the log, the bookkeeping vectors line up, every dequeued task is
    /// either finished (counted by exactly one worker) or mid-run on exactly
    /// one worker, each worker's own counter covers exactly the dequeues
    /// recorded to it, the tallies cover exactly the finished tasks, and a
    /// worker can only have terminated after the queue was closed and fully
    /// drained.
    pub open spec fn wf(self) -> bool {
        &&& self.dequeued <= self.jobs@.len()
        &&& self.processed@.len() == self.workers@.len()
        &&& self.assignments@.len() == self.dequeued
        &&& (forall|i: int|
            0 <= i < self.assignments@.len() ==> (#[trigger] self.assignments@[i])
                < self.workers@.len())
        &&& sum_counts(self.processed@) + count_running(self.workers@) == self.dequeued
        &&& (forall|x: int|
            0 <= x < self.workers@.len() ==> self.processed@[x] + running_one(self.workers@[x])
                == #[trigger] count_in(self.assignments@, x))
        &&& self.succeeded + self.failed == sum_counts(self.processed@)
        &&& ((exists|i: int|
            0 <= i < self.workers@.len() && (#[trigger] self.workers@[i]) is Terminated) ==> (
        self.closed && self.dequeued == self.jobs@.len()))
    }

    /// Set up the engine for a run: an empty, open queue and `cfg.worker`
    /// idle workers. (A zero-worker pool is the caller's responsibility: it
    /// terminates instantly and never drains a submitted task.)
    pub fn new(cfg: &Config) -> (e: AppEngine)
        ensures
            e.wf(),
            e.jobs@.len() == 0,
            e.dequeued == 0,
            !e.closed,
            e.workers@.len() == cfg.worker,
            forall|i: int| 0 <= i < e.workers@.len() ==> (#[trigger] e.workers@[i]) is Idle,
            e.processed@.len() == cfg.worker,
            forall|i: int| 0 <= i < e.processed@.len() ==> (#[trigger] e.processed@[i]) == 0,
            e.assignments@.len() == 0,
            e.succeeded == 0,
            e.failed == 0,
            e.counts == cfg.counts,
    {
        let mut workers: Vec<WorkerState> = Vec::new();
        let mut processed: Vec<usize> = Vec::new();
        let mut id: usize = 0;
        while id < cfg.worker
            invariant
                id <= cfg.worker,
                workers@.len() == id,
                processed@.len() == id,
                forall|i: int| 0 <= i < workers@.len() ==> (#[trigger] workers@[i]) is Idle,
                forall|i: int| 0 <= i < processed@.len() ==> (#[trigger] processed@[i]) == 0,
            decreases cfg.worker - id,
        {
            workers.push(WorkerState::Idle);
            processed.push(0);
            id += 1;
        }
        let e = AppEngine {
            jobs: Vec::new(),
            dequeued: 0,
            closed: false,
            workers,
            processed,
            assignments: Vec::new(),
            succeeded: 0,
            failed: 0,
            counts: cfg.counts,
        };
        proof {
            lemma_sum_zero(e.processed@);
            lemma_count_running_none(e.workers@);
        }
        e
    }

    /// Enqueue one task. Submission never blocks and succeeds exactly as long
    /// as shutdown has not begun; against a closed queue it fails loudly
    /// instead of dropping the task.
    pub fn execute(&mut self, job: Job) -> (r: Result<(), EngineError>)
        requires
            old(self).wf(),
            old(self).jobs@.len() < usize::MAX,
        ensures
            final(self).wf(),
            !old(self).closed ==> (r is Ok && final(self).jobs@ == old(self).jobs@.push(job)),
            old(self).closed ==> (r == Result::<(), EngineError>::Err(EngineError::QueueClosed)
                && final(self).jobs@ == old(self).jobs@),
            final(self).dequeued == old(self).dequeued,
            final(self).closed == old(self).closed,
            final(self).workers@ == old(self).workers@,
            final(self).processed@ == old(self).processed@,
            final(self).assignments@ == old(self).assignments@,
            final(self).succeeded == old(self).succeeded,
            final(self).failed == old(self).failed,
            final(self).counts == old(self).counts,
    {
        if self.closed {
            Err(EngineError::QueueClosed)
        } else {
            self.jobs.push(job);
            Ok(())
        }
    }

    /// Begin shutdown: close the queue. This is the sole termination signal;
    /// closing an already-closed queue changes nothing.
    pub fn close(&mut self)
        requires
            old(self).wf(),
        ensures
            final(self).wf(),
            final(self).closed,
            final(self).jobs@ == old(self).jobs@,
            final(self).dequeued == old(self).dequeued,
            final(self).workers@ == old(self).workers@,
            final(self).processed@ == old(self).processed@,
            final(self).assignments@ == old(self).assignments@,
            final(self).succeeded == old(self).succeeded,
            final(self).failed == old(self).failed,
            final(self).counts == old(self).counts,
    {
        self.closed = true;
    }

    /// One dequeue decision by idle worker `w` — the serialized moment at
    /// which workers contend for the queue. It hands out the next pending
    /// task, or tells the worker to terminate once the queue is closed and
    /// empty, or reports that the worker would block and should try again.
    pub fn poll(&mut self, w: usize) -> (r: DequeueResult)
        requires
            old(self).wf(),
            w < old(self).workers@.len(),
            old(self).workers@[w as int] is Idle,
        ensures
            final(self).wf(),
            final(self).jobs@ == old(self).jobs@,
            final(self).closed == old(self).closed,
            final(self).processed@ == old(self).processed@,
            final(self).succeeded == old(self).succeeded,
            final(self).failed == old(self).failed,
            final(self).counts == old(self).counts,
            final(self).workers@.len() == old(self).workers@.len(),
            old(self).dequeued < old(self).jobs@.len() ==> {
                &&& r == DequeueResult::Task(old(self).dequeued)
                &&& final(self).dequeued == old(self).dequeued + 1
                &&& final(self).workers@ == old(self).workers@.update(
                    w as int,
                    WorkerState::Running,
                )
                &&& final(self).assignments@ == old(self).assignments@.push(w)
            },
            (old(self).dequeued == old(self).jobs@.len() && old(self).closed) ==> {
                &&& r == DequeueResult::Closed
                &&& final(self).dequeued == old(self).dequeued
                &&& final(self).workers@ == old(self).workers@.update(
                    w as int,
                    WorkerState::Terminated,
                )
                &&& final(self).assignments@ == old(self).assignments@
            },
            (old(self).dequeued == old(self).jobs@.len() && !old(self).closed) ==> {
                &&& r == DequeueResult::Pending
                &&& final(self).dequeued == old(self).dequeued
                &&& final(self).workers@ == old(self).workers@
                &&& final(self).assignments@ == old(self).assignments@
            },
    {
        if self.dequeued < self.jobs.len() {
            let id = self.dequeued;
            self.dequeued = id + 1;
            self.workers[w] = WorkerState::Running;
            self.assignments.push(w);
            proof {
                lemma_count_running_update(
                    old(self).workers@,
                    w as int,
                    WorkerState::Running,
                );
                lemma_count_in_push(old(self).assignments@, w);
                assert(!(exists|i: int|
                    0 <= i < old(self).workers@.len() && (#[trigger] old(self).workers@[i])
                        is Terminated));
                assert(forall|i: int|
                    0 <= i < self.workers@.len() && i != w ==> self.workers@[i]
                        == old(self).workers@[i]);
            }
            DequeueResult::Task(id)
        } else if self.closed {
            self.workers[w] = WorkerState::Terminated;
            proof {
                lemma_count_running_update(
                    old(self).workers@,
                    w as int,
                    WorkerState::Terminated,
                );
            }
            DequeueResult::Closed
        } else {
            DequeueResult::Pending
        }
    }

    /// Worker `w` finished running its task: it returns to idle, its own
    /// completed count goes up by one, and the run's success or failure is
    /// tallied — a failed request is recorded, never fatal.
    pub fn complete(&mut self, w: usize, ok: bool)
        requires
            old(self).wf(),
            w < old(self).workers@.len(),
            old(self).workers@[w as int] is Running,
        ensures
            final(self).wf(),
            final(self).jobs@ == old(self).jobs@,
            final(self).dequeued == old(self).dequeued,
            final(self).closed == old(self).closed,
            final(self).assignments@ == old(self).assignments@,
            final(self).counts == old(self).counts,
            final(self).workers@ == old(self).workers@.update(w as int, WorkerState::Idle),
            final(self).processed@ == old(self).processed@.update(
                w as int,
                (old(self).processed@[w as int] + 1) as usize,
            ),
            ok ==> (final(self).succeeded == old(self).succeeded + 1 && final(self).failed == old(
                self,
            ).failed),
            !ok ==> (final(self).failed == old(self).failed + 1 && final(self).succeeded == old(
                self,
            ).succeeded),
    {
        proof {
            lemma_count_running_element(self.workers@, w as int);
            lemma_sum_element(self.processed@, w as int);
            lemma_sum_nonneg(self.processed@);
        }
        let done = self.processed[w];
        self.processed[w] = done + 1;
        self.workers[w] = WorkerState::Idle;
        if ok {
            self.succeeded = self.succeeded + 1;
        } else {
            self.failed = self.failed + 1;
        }
        proof {
            lemma_count_running_update(old(self).workers@, w as int, WorkerState::Idle);
            lemma_sum_update(
                old(self).processed@,
                w as int,
                (old(self).processed@[w as int] + 1) as usize,
            );
        }
    }

    /// Read back a submitted task's work description.
    pub fn job(&self, i: usize) -> (j: &Job)
        requires
            i < self.jobs@.len(),
        ensures
            *j == self.jobs@[i as int],
    {
        &self.jobs[i]
    }

    /// Whether every worker has terminated — the condition under which
    /// shutdown may return to its caller.
    pub fn all_done(&self) -> (r: bool)
        ensures
            r == (forall|i: int|
                0 <= i < self.workers@.len() ==> (#[trigger] self.workers@[i]) is Terminated),
    {
        let mut i: usize = 0;
        while i < self.workers.len()
            invariant
                i <= self.workers@.len(),
                forall|k: int| 0 <= k < i ==> (#[trigger] self.workers@[k]) is Terminated,
            decreases self.workers@.len() - i,
        {
            match self.workers[i] {
                WorkerState::Terminated => {
                    i += 1;
                },
                _ => {
                    return false;
                },
            }
        }
        true
    }

    /// Pick a worker that has not terminated, preferring the given hint; the
    /// hint is arbitrary, which is how an arbitrary thread interleaving is
    /// played back through the model.
    fn pick_live(&self, hint: usize) -> (r: Option<usize>)
        ensures
            match r {
                Some(w) => w < self.workers@.len() && !(self.workers@[w as int] is Terminated),
                None => forall|i: int|
                    0 <= i < self.workers@.len() ==> (#[trigger] self.workers@[i]) is Terminated,
            },
    {
        let n = self.workers.len();
        if n > 0 {
            let h = hint % n;
            match self.workers[h] {
                WorkerState::Terminated => {},
                _ => {
                    return Some(h);
                },
            }
        }
        let mut i: usize = 0;
        while i < self.workers.len()
            invariant
                i <= self.workers@.len(),
                forall|k: int| 0 <= k < i ==> (#[trigger] self.workers@[k]) is Terminated,
            decreases self.workers@.len() - i,
        {
            match self.workers[i] {
                WorkerState::Terminated => {
                    i += 1;
                },
                _ => {
                    return Some(i);
                },
            }
        }
        None
    }

    /// Run the pool to completion once the queue is closed: workers take
    /// turns — in the arbitrary order driven by `schedule` — dequeuing and
    /// running tasks until every worker has observed the closed, empty queue
    /// and terminated. Whether task `i`'s request succeeds is `outcomes[i]`,
    /// handed in by the surrounding program, since the engine only schedules
    /// the work. Nothing remains queued afterwards as long as the pool has at
    /// least one worker.
    pub fn drain(&mut self, outcomes: &Vec<bool>, schedule: &Vec<usize>)
        requires
            old(self).wf(),
            old(self).closed,
            outcomes@.len() == old(self).jobs@.len(),
            forall|i: int|
                0 <= i < old(self).workers@.len() ==> !((#[trigger] old(self).workers@[i])
                    is Running),
        ensures
            final(self).wf(),
            final(self).closed,
            forall|i: int|
                0 <= i < final(self).workers@.len() ==> (#[trigger] final(self).workers@[i])
                    is Terminated,
            final(self).workers@.len() == old(self).workers@.len(),
            final(self).jobs@ == old(self).jobs@,
            final(self).counts == old(self).counts,
            old(self).dequeued <= final(self).dequeued <= final(self).jobs@.len(),
            old(self).workers@.len() > 0 ==> final(self).dequeued == final(self).jobs@.len(),
            old(self).workers@.len() == 0 ==> final(self).dequeued == old(self).dequeued,
            final(self).succeeded == old(self).succeeded + count_true(
                outcomes@.subrange(old(self).dequeued as int, final(self).dequeued as int),
            ),
            final(self).failed == old(self).failed + (final(self).dequeued - old(
                self,
            ).dequeued) - count_true(
                outcomes@.subrange(old(self).dequeued as int, final(self).dequeued as int),
            ),
    {
        let ghost start = self.dequeued as int;
        proof {
            lemma_count_terminated_bounds(self.workers@);
        }
        let mut turn: usize = 0;
        while !self.all_done()
            invariant
                self.wf(),
                self.closed,
                self.workers@.len() == old(self).workers@.len(),
                self.jobs@ == old(self).jobs@,
                self.counts == old(self).counts,
                outcomes@.len() == self.jobs@.len(),
                forall|i: int|
                    0 <= i < self.workers@.len() ==> !((#[trigger] self.workers@[i]) is Running),
                0 <= start <= self.dequeued <= self.jobs@.len(),
                self.workers@.len() == 0 ==> self.dequeued == start,
                self.succeeded == old(self).succeeded + count_true(
                    outcomes@.subrange(start, self.dequeued as int),
                ),
                self.failed == old(self).failed + (self.dequeued - start) - count_true(
                    outcomes@.subrange(start, self.dequeued as int),
                ),
                count_terminated(self.workers@) <= self.workers@.len(),
            decreases (self.jobs@.len() - self.dequeued) + (self.workers@.len() - count_terminated(
                self.workers@,
            )),
        {
            let hint = if turn < schedule.len() {
                schedule[turn]
            } else {
                0
            };
            if turn < schedule.len() {
                turn += 1;
            }
            match self.pick_live(hint) {
                None => {
                    proof {
                        assert(false);
                    }
                },
                Some(w) => {
                    let ghost pre = *self;
                    match self.poll(w) {
                        DequeueResult::Task(id) => {
                            proof {
                                assert(pre.dequeued < pre.jobs@.len());
                                lemma_count_terminated_update(
                                    pre.workers@,
                                    w as int,
                                    WorkerState::Running,
                                );
                            }
                            let ghost mid = *self;
                            let ok = outcomes[id];
                            self.complete(w, ok);
                            proof {
                                lemma_count_terminated_update(
                                    mid.workers@,
                                    w as int,
                                    WorkerState::Idle,
                                );
                                lemma_count_true_extend(outcomes@, start, pre.dequeued as int);
                                lemma_count_terminated_bounds(self.workers@);
                            }
                        },
                        DequeueResult::Closed => {
                            proof {
                                lemma_count_terminated_update(
                                    pre.workers@,
                                    w as int,
                                    WorkerState::Terminated,
                                );
                                lemma_count_terminated_bounds(self.workers@);
                            }
                        },
                        DequeueResult::Pending => {
                            proof {
                                assert(false);
                            }
                        },
                    }
                },
            }
        }
        proof {
            if self.workers@.len() > 0 {
                assert(self.workers@[0] is Terminated);
            }
        }
    }

    /// Dispose of the engine: close the queue, block until every worker has
    /// observed the closed signal and terminated, and assemble the aggregate
    /// report. Shutdown is idempotent: a second call finds every worker
    /// already terminated and nothing left queued, and changes nothing.
    pub fn shutdown(&mut self, outcomes: &Vec<bool>, schedule: &Vec<usize>) -> (r: Report)
        requires
            old(self).wf(),
            outcomes@.len() == old(self).jobs@.len(),
            forall|i: int|
                0 <= i < old(self).workers@.len() ==> !((#[trigger] old(self).workers@[i])
                    is Running),
        ensures
            final(self).wf(),
            final(self).closed,
            forall|i: int|
                0 <= i < final(self).workers@.len() ==> (#[trigger] final(self).workers@[i])
                    is Terminated,
            final(self).workers@.len() == old(self).workers@.len(),
            final(self).jobs@ == old(self).jobs@,
            final(self).counts == old(self).counts,
            old(self).workers@.len() > 0 ==> final(self).dequeued == final(self).jobs@.len(),
            sum_counts(final(self).processed@) == final(self).dequeued,
            forall|x: int|
                0 <= x < final(self).workers@.len() ==> final(self).processed@[x]
                    == #[trigger] count_in(final(self).assignments@, x),
            r.dequeued == final(self).dequeued,
            r.joined == final(self).workers@.len(),
            r.succeeded == final(self).succeeded,
            r.failed == final(self).failed,
            r.succeeded == old(self).succeeded + count_true(
                outcomes@.subrange(old(self).dequeued as int, final(self).dequeued as int),
            ),
            r.failed == old(self).failed + (final(self).dequeued - old(self).dequeued)
                - count_true(
                outcomes@.subrange(old(self).dequeued as int, final(self).dequeued as int),
            ),
    {
        self.close();
        self.drain(outcomes, schedule);
        proof {
            lemma_count_running_none(self.workers@);
        }
        Report {
            dequeued: self.dequeued,
            joined: self.workers.len(),
            succeeded: self.succeeded,
            failed: self.failed,
        }
    }
}

/// Law: one full engine lifecycle — construct the pool, submit one task per
/// configured request, shut down — dequeues exactly `cfg.counts` tasks, each
/// handed to exactly one worker (the workers' completed counts sum to the
/// task count, and each worker's counter is exactly the dequeues recorded to
/// it), and joins exactly `cfg.worker` workers, whatever order the workers
/// take and however the individual requests fare. With `outcomes[i]`
/// telling whether task `i`'s request succeeds, exactly the failures are
/// tallied: every request refused still leaves the engine reporting rather
/// than aborting. Each submitted task carries its own copy of the
/// configuration.
pub fn run_batch(cfg: &Config, outcomes: &Vec<bool>, schedule: &Vec<usize>) -> (r: (
    AppEngine,
    Report,
))
    requires
        cfg.worker >= 1,
        outcomes@.len() == cfg.counts,
    ensures
        r.0.wf(),
        r.1.dequeued == cfg.counts,
        r.1.joined == cfg.worker,
        r.1.succeeded == count_true(outcomes@),
        r.1.failed == cfg.counts - count_true(outcomes@),
        r.0.workers@.len() == cfg.worker,
        forall|i: int|
            0 <= i < r.0.workers@.len() ==> (#[trigger] r.0.workers@[i]) is Terminated,
        sum_counts(r.0.processed@) == cfg.counts,
        forall|x: int|
            0 <= x < r.0.workers@.len() ==> r.0.processed@[x] == #[trigger] count_in(
                r.0.assignments@,
                x,
            ),
        r.0.jobs@.len() == cfg.counts,
        forall|i: int|
            0 <= i < r.0.jobs@.len() ==> (#[trigger] r.0.jobs@[i]).addr == cfg.addr
                && r.0.jobs@[i].method == cfg.method && r.0.jobs@[i].path == cfg.path,
        r.0.succeeded == r.1.succeeded,
        r.0.failed == r.1.failed,
{
    let mut e = AppEngine::new(cfg);
    let mut k: usize = 0;
    while k < cfg.counts
        invariant
            e.wf(),
            k <= cfg.counts,
            e.jobs@.len() == k,
            e.dequeued == 0,
            !e.closed,
            e.workers@.len() == cfg.worker,
            forall|i: int| 0 <= i < e.workers@.len() ==> (#[trigger] e.workers@[i]) is Idle,
            e.succeeded == 0,
            e.failed == 0,
            e.counts == cfg.counts,
            forall|i: int|
                0 <= i < e.jobs@.len() ==> (#[trigger] e.jobs@[i]).addr == cfg.addr
                    && e.jobs@[i].method == cfg.method && e.jobs@[i].path == cfg.path,
        decreases cfg.counts - k,
    {
        let j = Job::from_config(cfg);
        let sent = e.execute(j);
        proof {
            assert(sent is Ok);
        }
        k += 1;
    }
    let rep = e.shutdown(outcomes, schedule);
    proof {
        assert(outcomes@.subrange(0, e.dequeued as int) =~= outcomes@);
    }
    (e, rep)
}

/// Law: re-running the whole lifecycle with the same configuration — whatever
/// order the workers take in either run and however the individual requests
/// fare — delivers the same number of tasks and joins the same number of
/// workers.
pub fn rerun_delivers_same(
    cfg: &Config,
    outcomes_a: &Vec<bool>,
    schedule_a: &Vec<usize>,
    outcomes_b: &Vec<bool>,
    schedule_b: &Vec<usize>,
) -> (r: (Report, Report))
    requires
        cfg.worker >= 1,
        outcomes_a@.len() == cfg.counts,
        outcomes_b@.len() == cfg.counts,
    ensures
        r.0.dequeued == r.1.dequeued,
        r.0.dequeued == cfg.counts,
        r.0.joined == r.1.joined,
        r.0.joined == cfg.worker,
{
    let a = run_batch(cfg, outcomes_a, schedule_a);
    let b = run_batch(cfg, outcomes_b, schedule_b);
    (a.1, b.1)
}

/// Requests per second, from the total request count and the measured elapsed
/// wall-clock milliseconds. Defined for every input: an instantaneous run
/// (zero elapsed milliseconds) is counted as having taken one millisecond
/// rather than dividing by zero.
pub fn throughput(counts: usize, elapsed_ms: u128) -> (r: u128)
    ensures
        elapsed_ms == 0 ==> r == counts * 1000,
        elapsed_ms > 0 ==> r == (counts * 1000) as int / elapsed_ms as int,
{
    let total: u128 = (counts as u128) * 1000;
    if elapsed_ms == 0 {
        total
    } else {
        total / elapsed_ms
    }
}

proof fn lemma_count_in_push(s: Seq<usize>, v: usize)
    ensures
        forall|x: int|
            #[trigger] count_in(s.push(v), x) == count_in(s, x) + (if v == x {
                1int
            } else {
                0
            }),
{
    assert(s.push(v).drop_last() =~= s);
    assert(s.push(v).last() == v);
}

proof fn lemma_count_true_extend(s: Seq<bool>, a: int, d: int)
    requires
        0 <= a <= d < s.len(),
    ensures
        count_true(s.subrange(a, d + 1)) == count_true(s.subrange(a, d)) + (if s[d] {
            1int
        } else {
            0
        }),
{
    assert(s.subrange(a, d + 1).drop_last() =~= s.subrange(a, d));
    assert(s.subrange(a, d + 1).last() == s[d]);
}

} // verus!
