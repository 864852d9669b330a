use std::collections::VecDeque;
use vstd::prelude::*;

verus! {

/// What a worker is doing, as the pool tracks it.
#[derive(PartialEq, Eq, Structural, Clone, Copy, Debug)]
pub enum WorkerState {
    /// Waiting for the next unit of work.
    Idle,
    /// Running a unit of work that it claimed.
    Busy,
    /// Saw the queue closed and drained; its thread has ended.
    Stopped,
}

/// Why a pool could not be built.
#[derive(PartialEq, Eq, Structural, Clone, Copy, Debug)]
pub enum PoolError {
    /// A pool needs at least one worker.
    ZeroSize,
}

/// What a worker gets when it asks the queue for work.
#[derive(Debug)]
pub enum Claim<T> {
    /// The oldest unit of work not yet claimed, now owned by this worker.
    Job(T),
    /// Nothing is queued yet: wait until something is submitted or the pool closes.
    Wait,
    /// The pool is closed and its queue is empty: the worker ends.
    Stop,
}

/// A worker in the abstract model. Units of work are numbered by their
/// position in the order of submission (their ticket).
pub enum Activity {
    Idle,
    Running(nat),
    Stopped,
}

/// The state a worker reports for its place in the model.
pub open spec fn state_of(a: Activity) -> WorkerState {
    match a {
        Activity::Idle => WorkerState::Idle,
        Activity::Running(_) => WorkerState::Busy,
        Activity::Stopped => WorkerState::Stopped,
    }
}

/// The abstract state of a pool.
pub struct PoolView<T> {
    /// Every unit of work ever accepted, in submission order.
    pub history: Seq<T>,
    /// How many of them have been claimed; the rest wait in the queue.
    pub claimed: nat,
    /// One entry per worker, indexed by worker id.
    pub activity: Seq<Activity>,
    /// Tickets of the units whose run has returned.
    pub done: Set<nat>,
    /// No more submissions are accepted.
    pub closed: bool,
}

impl<T> PoolView<T> {
    /// The pool as built with `size` workers.
    pub open spec fn initial(size: nat) -> Self {
        PoolView {
            history: Seq::empty(),
            claimed: 0,
            activity: Seq::new(size, |i: int| Activity::Idle),
            done: Set::empty(),
            closed: false,
        }
    }

    pub open spec fn size(self) -> nat {
        self.activity.len()
    }

    /// The units waiting to be claimed, oldest first.
    pub open spec fn pending(self) -> Seq<T> {
        self.history.subrange(self.claimed as int, self.history.len() as int)
    }

    pub open spec fn is_worker(self, w: int) -> bool {
        0 <= w < self.activity.len()
    }

    pub open spec fn is_idle(self, w: int) -> bool {
        self.is_worker(w) && self.activity[w] is Idle
    }

    /// Worker `w` is running the unit with ticket `t`.
    pub open spec fn runs(self, w: int, t: nat) -> bool {
        self.is_worker(w) && self.activity[w] == Activity::Running(t)
    }

    /// A claimed unit has either finished or is running on some worker.
    pub open spec fn accounted(self, t: nat) -> bool {
        self.done.contains(t) || exists|w: int| #[trigger] self.runs(w, t)
    }

    /// What every reachable state satisfies.
    pub open spec fn consistent(self) -> bool {
        &&& self.claimed <= self.history.len()
        &&& self.activity.len() > 0
        &&& forall|t: nat| #[trigger] self.done.contains(t) ==> t < self.claimed
        &&& forall|w: int, t: nat| #[trigger]
            self.runs(w, t) ==> t < self.claimed && !self.done.contains(t)
        &&& forall|v: int, w: int, t: nat|
            #[trigger] self.runs(v, t) && #[trigger] self.runs(w, t) ==> v == w
        &&& forall|t: nat| t < self.claimed ==> #[trigger] self.accounted(t)
        &&& forall|w: int|
            self.is_worker(w) && #[trigger] self.activity[w] is Stopped ==> self.closed
                && self.claimed == self.history.len()
    }

    /// The state after `job` is accepted.
    pub open spec fn submitted(self, job: T) -> Self {
        PoolView {
            history: self.history.push(job),
            claimed: self.claimed,
            activity: self.activity,
            done: self.done,
            closed: self.closed,
        }
    }

    /// What an idle worker gets when it asks for work.
    pub open spec fn next_claim(self) -> Claim<T> {
        if self.claimed < self.history.len() {
            Claim::Job(self.history[self.claimed as int])
        } else if self.closed {
            Claim::Stop
        } else {
            Claim::Wait
        }
    }

    /// The state after idle worker `w` asks for work.
    pub open spec fn claimed_by(self, w: int) -> Self {
        if self.claimed < self.history.len() {
            PoolView {
                history: self.history,
                claimed: self.claimed + 1,
                activity: self.activity.update(w, Activity::Running(self.claimed)),
                done: self.done,
                closed: self.closed,
            }
        } else if self.closed {
            PoolView {
                history: self.history,
                claimed: self.claimed,
                activity: self.activity.update(w, Activity::Stopped),
                done: self.done,
                closed: self.closed,
            }
        } else {
            self
        }
    }

    /// The state after the unit that worker `w` runs has returned.
    pub open spec fn finished_by(self, w: int) -> Self {
        match self.activity[w] {
            Activity::Running(t) => PoolView {
                history: self.history,
                claimed: self.claimed,
                activity: self.activity.update(w, Activity::Idle),
                done: self.done.insert(t),
                closed: self.closed,
            },
            _ => self,
        }
    }

    /// The state after worker `w` claims and runs `n` units in a row, each to
    /// completion before it asks for the next.
    pub open spec fn served_by(self, w: int, n: nat) -> Self
        decreases n,
    {
        if n == 0 {
            self
        } else {
            self.claimed_by(w).finished_by(w).served_by(w, (n - 1) as nat)
        }
    }

    /// The units that worker `w` runs in those `n` rounds, in the order it runs them.
    pub open spec fn run_by(self, w: int, n: nat) -> Seq<T>
        decreases n,
    {
        if n == 0 {
            Seq::empty()
        } else {
            match self.next_claim() {
                Claim::Job(j) => seq![j] + self.claimed_by(w).finished_by(w).run_by(w, (n - 1) as nat),
                _ => Seq::empty(),
            }
        }
    }

    /// The state after the pool stops taking submissions.
    pub open spec fn closed_now(self) -> Self {
        PoolView {
            history: self.history,
            claimed: self.claimed,
            activity: self.activity,
            done: self.done,
            closed: true,
        }
    }
}

/// A new pool with at least one worker is consistent, and all its workers are idle.
pub proof fn lemma_initial_consistent<T>(size: nat)
    requires
        size > 0,
    ensures
        PoolView::<T>::initial(size).consistent(),
        PoolView::<T>::initial(size).size() == size,
        forall|w: int| 0 <= w < size ==> #[trigger] PoolView::<T>::initial(size).is_idle(w),
{
    let v = PoolView::<T>::initial(size);
    assert forall|w: int, t: nat| #[trigger] v.runs(w, t) implies false by {
        assert(v.activity[w] is Idle);
    }
}

/// Accepting a unit of work keeps a pool consistent.
pub proof fn lemma_submit_consistent<T>(v: PoolView<T>, job: T)
    requires
        v.consistent(),
        !v.closed,
    ensures
        v.submitted(job).consistent(),
{
    let n = v.submitted(job);
    assert forall|u: int, t: nat| #[trigger] n.runs(u, t) implies t < n.claimed
        && !n.done.contains(t) by {
        assert(v.runs(u, t));
    }
    assert forall|a: int, b: int, t: nat| #[trigger] n.runs(a, t) && #[trigger] n.runs(b, t)
        implies a == b by {
        assert(v.runs(a, t));
        assert(v.runs(b, t));
    }
    assert forall|t: nat| t < n.claimed implies #[trigger] n.accounted(t) by {
        assert(v.accounted(t));
        if !v.done.contains(t) {
            let w = choose|w: int| #[trigger] v.runs(w, t);
            assert(n.runs(w, t));
        }
    }
}

/// An idle worker's claim keeps a pool consistent; a claimed ticket was
/// neither finished nor running anywhere before.
pub proof fn lemma_claim_consistent<T>(v: PoolView<T>, w: int)
    requires
        v.consistent(),
        v.is_idle(w),
    ensures
        v.claimed_by(w).consistent(),
        v.claimed < v.history.len() ==> {
            &&& !v.done.contains(v.claimed)
            &&& forall|u: int| !#[trigger] v.runs(u, v.claimed)
        },
{
    let n = v.claimed_by(w);
    if v.claimed < v.history.len() {
        let c = v.claimed;
        assert forall|u: int| !#[trigger] v.runs(u, c) by {}
        assert forall|u: int, t: nat| #[trigger] n.runs(u, t) implies t < n.claimed
            && !n.done.contains(t) by {
            if u != w {
                assert(v.runs(u, t));
            }
        }
        assert forall|a: int, b: int, t: nat| #[trigger] n.runs(a, t) && #[trigger] n.runs(b, t)
            implies a == b by {
            if a != w {
                assert(v.runs(a, t));
            }
            if b != w {
                assert(v.runs(b, t));
            }
        }
        assert forall|t: nat| t < n.claimed implies #[trigger] n.accounted(t) by {
            if t == c {
                assert(n.runs(w, t));
            } else {
                assert(v.accounted(t));
                if !v.done.contains(t) {
                    let u = choose|u: int| #[trigger] v.runs(u, t);
                    assert(u != w);
                    assert(n.runs(u, t));
                }
            }
        }
        assert forall|u: int| n.is_worker(u) && #[trigger] n.activity[u] is Stopped implies n.closed
            && n.claimed == n.history.len() by {
            assert(u != w);
        }
    } else if v.closed {
        assert forall|u: int, t: nat| #[trigger] n.runs(u, t) implies t < n.claimed
            && !n.done.contains(t) by {
            assert(v.runs(u, t));
        }
        assert forall|a: int, b: int, t: nat| #[trigger] n.runs(a, t) && #[trigger] n.runs(b, t)
            implies a == b by {
            assert(v.runs(a, t));
            assert(v.runs(b, t));
        }
        assert forall|t: nat| t < n.claimed implies #[trigger] n.accounted(t) by {
            assert(v.accounted(t));
            if !v.done.contains(t) {
                let u = choose|u: int| #[trigger] v.runs(u, t);
                assert(u != w);
                assert(n.runs(u, t));
            }
        }
    }
}

/// Finishing a running unit keeps a pool consistent, and records a ticket
/// that had not finished before.
pub proof fn lemma_finish_consistent<T>(v: PoolView<T>, w: int)
    requires
        v.consistent(),
        v.is_worker(w),
        v.activity[w] is Running,
    ensures
        v.finished_by(w).consistent(),
        !v.done.contains(v.activity[w]->Running_0),
{
    let n = v.finished_by(w);
    let c = v.activity[w]->Running_0;
    assert(v.runs(w, c));
    assert forall|u: int, t: nat| #[trigger] n.runs(u, t) implies t < n.claimed
        && !n.done.contains(t) by {
        assert(u != w);
        assert(v.runs(u, t));
    }
    assert forall|a: int, b: int, t: nat| #[trigger] n.runs(a, t) && #[trigger] n.runs(b, t)
        implies a == b by {
        assert(v.runs(a, t));
        assert(v.runs(b, t));
    }
    assert forall|t: nat| t < n.claimed implies #[trigger] n.accounted(t) by {
        assert(v.accounted(t));
        if !v.done.contains(t) && t != c {
            let u = choose|u: int| #[trigger] v.runs(u, t);
            assert(u != w);
            assert(n.runs(u, t));
        }
    }
    assert forall|u: int| n.is_worker(u) && #[trigger] n.activity[u] is Stopped implies n.closed
        && n.claimed == n.history.len() by {
        assert(u != w);
    }
}

/// Closing keeps a pool consistent.
pub proof fn lemma_close_consistent<T>(v: PoolView<T>)
    requires
        v.consistent(),
    ensures
        v.closed_now().consistent(),
{
    let n = v.closed_now();
    assert forall|u: int, t: nat| #[trigger] n.runs(u, t) implies t < n.claimed
        && !n.done.contains(t) by {
        assert(v.runs(u, t));
    }
    assert forall|a: int, b: int, t: nat| #[trigger] n.runs(a, t) && #[trigger] n.runs(b, t)
        implies a == b by {
        assert(v.runs(a, t));
        assert(v.runs(b, t));
    }
    assert forall|t: nat| t < n.claimed implies #[trigger] n.accounted(t) by {
        assert(v.accounted(t));
        if !v.done.contains(t) {
            let u = choose|u: int| #[trigger] v.runs(u, t);
            assert(n.runs(u, t));
        }
    }
}

/// A claim by an idle worker hands out the oldest waiting unit, one that no
/// worker has run or is running, and the worker is then running it.
pub proof fn lemma_claim_takes_oldest<T>(v: PoolView<T>, w: int)
    requires
        v.consistent(),
        v.is_idle(w),
        v.pending().len() > 0,
    ensures
        v.next_claim() == Claim::Job(v.pending()[0]),
        v.claimed_by(w).runs(w, v.claimed),
        v.claimed_by(w).pending() == v.pending().drop_first(),
        !v.done.contains(v.claimed),
        forall|u: int| !#[trigger] v.runs(u, v.claimed),
{
    lemma_claim_consistent(v, w);
    assert(v.claimed_by(w).pending() =~= v.pending().drop_first());
}

/// Once nothing is queued and no worker is running anything, every unit ever
/// submitted has run, and only those.
pub proof fn lemma_quiet_pool_ran_everything<T>(v: PoolView<T>)
    requires
        v.consistent(),
        v.pending().len() == 0,
        forall|w: int| v.is_worker(w) ==> !(#[trigger] v.activity[w] is Running),
    ensures
        forall|t: nat| #[trigger] v.done.contains(t) <==> t < v.history.len(),
{
    assert forall|t: nat| #[trigger] v.done.contains(t) <==> t < v.history.len() by {
        if t < v.history.len() {
            assert(v.accounted(t));
            if !v.done.contains(t) {
                let u = choose|u: int| #[trigger] v.runs(u, t);
                assert(v.activity[u] is Running);
            }
        }
    }
}

/// A worker that claims and runs waiting units one after another runs them
/// exactly in submission order; each then counts as finished, and the pool
/// stays consistent.
pub proof fn lemma_one_worker_runs_in_order<T>(v: PoolView<T>, w: int, n: nat)
    requires
        v.consistent(),
        v.is_idle(w),
        n <= v.pending().len(),
    ensures
        v.run_by(w, n) == v.pending().take(n as int),
        v.served_by(w, n).consistent(),
        v.served_by(w, n).is_idle(w),
        v.served_by(w, n).claimed == v.claimed + n,
        forall|t: nat| #[trigger] v.served_by(w, n).done.contains(t)
            <==> v.done.contains(t) || (v.claimed <= t < v.claimed + n),
    decreases n,
{
    if n > 0 {
        let c = v.claimed_by(w);
        lemma_claim_takes_oldest(v, w);
        lemma_claim_consistent(v, w);
        assert(c.activity[w] == Activity::Running(v.claimed));
        lemma_finish_consistent(c, w);
        let f = c.finished_by(w);
        assert(f.is_idle(w));
        assert(f.pending() =~= v.pending().drop_first());
        lemma_one_worker_runs_in_order(f, w, (n - 1) as nat);
        assert(v.run_by(w, n) =~= v.pending().take(n as int));
    } else {
        assert(v.run_by(w, n) =~= v.pending().take(0));
    }
}

/// Two idle workers can each claim one of two waiting units: both then run
/// at once, the older unit on the worker that asked first.
pub proof fn lemma_two_idle_workers_run_together<T>(v: PoolView<T>, a: int, b: int)
    requires
        v.consistent(),
        v.is_idle(a),
        v.is_idle(b),
        a != b,
        v.pending().len() >= 2,
    ensures
        v.next_claim() == Claim::Job(v.pending()[0]),
        v.claimed_by(a).next_claim() == Claim::Job(v.pending()[1]),
        v.claimed_by(a).claimed_by(b).runs(a, v.claimed),
        v.claimed_by(a).claimed_by(b).runs(b, v.claimed + 1),
        v.claimed_by(a).claimed_by(b).consistent(),
{
    lemma_claim_consistent(v, a);
    let c = v.claimed_by(a);
    assert(c.is_idle(b));
    lemma_claim_consistent(c, b);
}

/// With a single worker, units run strictly one at a time: while the worker
/// runs one unit, every other unit claimed so far has already finished.
pub proof fn lemma_single_worker_is_sequential<T>(v: PoolView<T>, t: nat)
    requires
        v.consistent(),
        v.size() == 1,
        v.runs(0, t),
    ensures
        forall|u: nat| u < v.claimed && u != t ==> #[trigger] v.done.contains(u),
{
    assert forall|u: nat| u < v.claimed && u != t implies #[trigger] v.done.contains(u) by {
        assert(v.accounted(u));
        if !v.done.contains(u) {
            let x = choose|x: int| #[trigger] v.runs(x, u);
            assert(x == 0);
        }
    }
}

/// A worker stuck on one unit stays on it whatever the other workers do,
/// and every other idle worker still gets the waiting units.
pub proof fn lemma_stuck_worker_leaves_others_serving<T>(v: PoolView<T>, s: int, t: nat, w: int, job: T)
    requires
        v.consistent(),
        v.runs(s, t),
        v.is_worker(w),
        w != s,
    ensures
        v.submitted(job).runs(s, t),
        v.closed_now().runs(s, t),
        v.is_idle(w) ==> v.claimed_by(w).runs(s, t),
        v.activity[w] is Running ==> v.finished_by(w).runs(s, t),
        v.is_idle(w) && v.pending().len() > 0 ==> v.next_claim() == Claim::Job(v.pending()[0])
            && v.claimed_by(w).runs(w, v.claimed),
{
}

/// The shared state of a pool: the queue of units of work not yet claimed,
/// the state of each worker, and whether submissions are still taken.
/// Workers are numbered densely from 0.
pub struct PoolState<T> {
    queue: VecDeque<T>,
    workers: Vec<WorkerState>,
    closed: bool,
    model: Ghost<PoolView<T>>,
}

impl<T> View for PoolState<T> {
    type V = PoolView<T>;

    closed spec fn view(&self) -> PoolView<T> {
        self.model@
    }
}

impl<T> PoolState<T> {
    pub closed spec fn wf(&self) -> bool {
        &&& self.model@.consistent()
        &&& self.queue@ == self.model@.pending()
        &&& self.workers@.len() == self.model@.activity.len()
        &&& forall|w: int|
            0 <= w < self.workers@.len() ==> #[trigger] self.workers@[w] == state_of(
                self.model@.activity[w],
            )
        &&& self.closed == self.model@.closed
    }

    /// A well-formed pool is consistent.
    pub proof fn lemma_view_consistent(&self)
        requires
            self.wf(),
        ensures
            self@.consistent(),
    {
    }

    /// Builds a pool of `size` idle workers around an empty, open queue.
    /// Fails when `size` is zero.
    pub fn new(size: usize) -> (r: Result<Self, PoolError>)
        ensures
            size == 0 <==> r is Err,
            r is Err ==> r == Err::<Self, PoolError>(PoolError::ZeroSize),
            r matches Ok(p) ==> p.wf() && p@ == PoolView::<T>::initial(size as nat),
    {
        if size == 0 {
            return Err(PoolError::ZeroSize);
        }
        let mut workers: Vec<WorkerState> = Vec::with_capacity(size);
        let mut i: usize = 0;
        while i < size
            invariant
                i <= size,
                workers@ == Seq::new(i as nat, |k: int| WorkerState::Idle),
            decreases size - i,
        {
            workers.push(WorkerState::Idle);
            i = i + 1;
            assert(workers@ =~= Seq::new(i as nat, |k: int| WorkerState::Idle));
        }
        let ghost v = PoolView::<T>::initial(size as nat);
        proof {
            lemma_initial_consistent::<T>(size as nat);
            assert(v.pending() =~= Seq::<T>::empty());
        }
        Ok(PoolState { queue: VecDeque::new(), workers, closed: false, model: Ghost(v) })
    }

    /// The number of workers, fixed when the pool was built.
    pub fn size(&self) -> (r: usize)
        requires
            self.wf(),
        ensures
            r == self@.size(),
    {
        self.workers.len()
    }

    /// The state of worker `worker`.
    pub fn worker_state(&self, worker: usize) -> (r: WorkerState)
        requires
            self.wf(),
            worker < self@.size(),
        ensures
            r == state_of(self@.activity[worker as int]),
    {
        self.workers[worker]
    }

    /// How many units of work wait in the queue.
    pub fn pending_len(&self) -> (r: usize)
        requires
            self.wf(),
        ensures
            r == self@.pending().len(),
    {
        self.queue.len()
    }

    /// Whether the pool has stopped taking submissions.
    pub fn is_closed(&self) -> (r: bool)
        requires
            self.wf(),
        ensures
            r == self@.closed,
    {
        self.closed
    }

    /// Puts `job` at the back of the queue. A closed pool refuses it and
    /// hands it back unchanged.
    pub fn submit(&mut self, job: T) -> (r: Result<(), T>)
        requires
            old(self).wf(),
        ensures
            final(self).wf(),
            old(self)@.closed ==> r == Err::<(), T>(job) && final(self)@ == old(self)@,
            !old(self)@.closed ==> r is Ok && final(self)@ == old(self)@.submitted(job),
    {
        if self.closed {
            return Err(job);
        }
        let ghost v = self.model@;
        proof {
            lemma_submit_consistent(v, job);
            assert(v.submitted(job).pending() =~= v.pending().push(job));
        }
        self.queue.push_back(job);
        self.model = Ghost(v.submitted(job));
        Ok(())
    }

    /// Idle worker `worker` asks for work. It gets the oldest unclaimed unit
    /// and turns busy; or, with nothing queued, it waits, or stops for good
    /// once the pool is closed.
    pub fn claim(&mut self, worker: usize) -> (r: Claim<T>)
        requires
            old(self).wf(),
            old(self)@.is_idle(worker as int),
        ensures
            final(self).wf(),
            r == old(self)@.next_claim(),
            final(self)@ == old(self)@.claimed_by(worker as int),
    {
        let ghost v = self.model@;
        proof {
            lemma_claim_consistent(v, worker as int);
        }
        match self.queue.pop_front() {
            Some(job) => {
                self.workers.set(worker, WorkerState::Busy);
                self.model = Ghost(v.claimed_by(worker as int));
                proof {
                    assert(self.model@.pending() =~= v.pending().subrange(1, v.pending().len() as int));
                }
                Claim::Job(job)
            },
            None => {
                if self.closed {
                    self.workers.set(worker, WorkerState::Stopped);
                    self.model = Ghost(v.claimed_by(worker as int));
                    Claim::Stop
                } else {
                    Claim::Wait
                }
            },
        }
    }

    /// Worker `worker` reports that the unit it was running has returned;
    /// it turns idle again.
    pub fn finish(&mut self, worker: usize)
        requires
            old(self).wf(),
            old(self)@.is_worker(worker as int),
            old(self)@.activity[worker as int] is Running,
        ensures
            final(self).wf(),
            final(self)@ == old(self)@.finished_by(worker as int),
    {
        let ghost v = self.model@;
        proof {
            lemma_finish_consistent(v, worker as int);
        }
        self.workers.set(worker, WorkerState::Idle);
        self.model = Ghost(v.finished_by(worker as int));
    }

    /// Stops taking submissions. Units already queued are still handed out;
    /// once the queue is empty, every worker that asks for work stops.
    pub fn close(&mut self)
        requires
            old(self).wf(),
        ensures
            final(self).wf(),
            final(self)@ == old(self)@.closed_now(),
    {
        let ghost v = self.model@;
        proof {
            lemma_close_consistent(v);
        }
        self.closed = true;
        self.model = Ghost(v.closed_now());
    }
}

} // verus!
