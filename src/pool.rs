//! The decisions of the worker pool's dispatcher: which idle worker takes
//! which job. The threads and channels that carry the jobs live outside; they
//! hand each message to `Dispatcher::handle` and carry out the action it returns.
use vstd::prelude::*;
use std::collections::VecDeque;

verus! {

/// `std::io::Error`, carried opaquely: the error of starting a pool's threads.
#[verifier::external_type_specification]
#[verifier::external_body]
pub struct ExIoError(std::io::Error);

/// A pool of worker threads that runs submitted jobs.
pub trait ThreadPool {
    /// A pool of `num_threads` workers.
    fn new(num_threads: usize) -> std::io::Result<Self> where Self: Sized;

    /// Runs `job` on some worker.
    fn spawn<F>(&self, job: F) where F: FnOnce() + Send + 'static;
}

/// A message to the dispatcher.
#[derive(Debug, Clone, Copy, PartialEq, Eq, Structural)]
pub enum PoolMessage {
    /// A job, by its ticket, was submitted.
    RunJob(u64),
    /// A worker finished its job, normally or by a panic that was caught.
    JobComplete(usize),
    /// The pool is being dropped.
    Shutdown,
}

/// What the dispatcher asks to be done.
#[derive(Debug, Clone, Copy, PartialEq, Eq, Structural)]
pub enum PoolAction {
    /// Send the job to the worker.
    Run { worker: usize, job: u64 },
    /// Nothing to send: the job waits for a worker, or the worker for a job.
    Wait,
    /// Tell every worker, numbered from 0 below the count, to stop.
    StopAll(usize),
    /// The message is not acted on: the pool has stopped, or the worker was not busy.
    Ignore,
}

/// The state of the dispatcher, as values.
pub struct DispatchModel {
    pub busy: Seq<bool>,
    pub idle: Seq<usize>,
    pub pending: Seq<u64>,
    pub stopped: bool,
}

/// What one message does to the dispatcher, and the action it asks for.
pub open spec fn step(m: DispatchModel, msg: PoolMessage) -> (DispatchModel, PoolAction) {
    if m.stopped {
        (m, PoolAction::Ignore)
    } else {
        match msg {
            PoolMessage::RunJob(j) => if m.idle.len() > 0 {
                let w = m.idle[0];
                (
                    DispatchModel { busy: m.busy.update(w as int, true), idle: m.idle.drop_first(), ..m },
                    PoolAction::Run { worker: w, job: j },
                )
            } else {
                (DispatchModel { pending: m.pending.push(j), ..m }, PoolAction::Wait)
            },
            PoolMessage::JobComplete(w) => if w >= m.busy.len() || !m.busy[w as int] {
                (m, PoolAction::Ignore)
            } else if m.pending.len() > 0 {
                (
                    DispatchModel { pending: m.pending.drop_first(), ..m },
                    PoolAction::Run { worker: w, job: m.pending[0] },
                )
            } else {
                (
                    DispatchModel { busy: m.busy.update(w as int, false), idle: m.idle.push(w), ..m },
                    PoolAction::Wait,
                )
            },
            PoolMessage::Shutdown => (DispatchModel { stopped: true, ..m }, PoolAction::StopAll(
                m.busy.len() as usize,
            )),
        }
    }
}

/// The dispatcher's state is consistent: the idle queue holds each worker that
/// is not busy, once, and no job waits while a worker is idle.
pub open spec fn consistent(m: DispatchModel) -> bool {
    &&& forall|i: int| 0 <= i < m.idle.len() ==> (#[trigger] m.idle[i] as int) < m.busy.len() && !m.busy[m.idle[i] as int]
    &&& forall|i: int, j: int| 0 <= i < j < m.idle.len() ==> #[trigger] m.idle[i] != #[trigger] m.idle[j]
    &&& forall|w: int| 0 <= w < m.busy.len() && !#[trigger] m.busy[w] ==> exists|i: int| 0 <= i < m.idle.len() && m.idle[i] == w
    &&& m.pending.len() > 0 ==> m.idle.len() == 0
}

/// The dispatcher: busy flags, the FIFO of idle workers and the FIFO of waiting jobs.
pub struct Dispatcher {
    busy: Vec<bool>,
    idle: VecDeque<usize>,
    pending: VecDeque<u64>,
    stopped: bool,
}

impl View for Dispatcher {
    type V = DispatchModel;

    closed spec fn view(&self) -> DispatchModel {
        DispatchModel { busy: self.busy@, idle: self.idle@, pending: self.pending@, stopped: self.stopped }
    }
}

impl Dispatcher {
    /// A dispatcher over `workers` idle workers, numbered from 0.
    pub fn new(workers: usize) -> (r: Dispatcher)
        ensures
            consistent(r@),
            r@.busy == Seq::new(workers as nat, |w: int| false),
            r@.idle == Seq::new(workers as nat, |w: int| w as usize),
            r@.pending == Seq::<u64>::empty(),
            !r@.stopped,
    {
        let mut busy: Vec<bool> = Vec::new();
        let mut idle: VecDeque<usize> = VecDeque::new();
        let mut w: usize = 0;
        while w < workers
            invariant
                w <= workers,
                busy@ == Seq::new(w as nat, |x: int| false),
                idle@ == Seq::new(w as nat, |x: int| x as usize),
            decreases workers - w,
        {
            busy.push(false);
            idle.push_back(w);
            w = w + 1;
            proof {
                assert(busy@ =~= Seq::new(w as nat, |x: int| false));
                assert(idle@ =~= Seq::new(w as nat, |x: int| x as usize));
            }
        }
        let r = Dispatcher { busy, idle, pending: VecDeque::new(), stopped: false };
        proof {
            assert forall|x: int| 0 <= x < r@.busy.len() && !#[trigger] r@.busy[x] implies exists|i: int|
                0 <= i < r@.idle.len() && r@.idle[i] == x by {
                assert(r@.idle[x] == x);
            }
        }
        r
    }

    /// Acts on one message and returns what is to be done.
    pub fn handle(&mut self, msg: PoolMessage) -> (r: PoolAction)
        requires
            consistent(old(self)@),
        ensures
            consistent(final(self)@),
            (final(self)@, r) == step(old(self)@, msg),
    {
        if self.stopped {
            return PoolAction::Ignore;
        }
        let ghost m = self@;
        match msg {
            PoolMessage::RunJob(j) => {
                match self.idle.pop_front() {
                    Some(w) => {
                        proof {
                            assert(m.idle[0] == w);
                            assert(self.idle@ =~= m.idle.drop_first());
                        }
                        self.busy.set(w, true);
                        proof {
                            let n = self@;
                            assert forall|i: int| 0 <= i < n.idle.len() implies (#[trigger] n.idle[i] as int) < n.busy.len()
                                && !n.busy[n.idle[i] as int] by {
                                assert(n.idle[i] == m.idle[i + 1]);
                                assert(m.idle[i + 1] != m.idle[0]);
                            }
                            assert forall|i: int, k: int| 0 <= i < k < n.idle.len() implies #[trigger] n.idle[i]
                                != #[trigger] n.idle[k] by {
                                assert(n.idle[i] == m.idle[i + 1]);
                                assert(n.idle[k] == m.idle[k + 1]);
                            }
                            assert forall|x: int| 0 <= x < n.busy.len() && !#[trigger] n.busy[x] implies exists|i: int|
                                0 <= i < n.idle.len() && n.idle[i] == x by {
                                let i = choose|i: int| 0 <= i < m.idle.len() && m.idle[i] == x;
                                assert(i != 0);
                                assert(n.idle[i - 1] == x);
                            }
                            assert(self@ == step(m, msg).0);
                        }
                        PoolAction::Run { worker: w, job: j }
                    },
                    None => {
                        self.pending.push_back(j);
                        proof {
                            assert(self@ == step(m, msg).0);
                        }
                        PoolAction::Wait
                    },
                }
            },
            PoolMessage::JobComplete(w) => {
                if w >= self.busy.len() || !self.busy[w] {
                    return PoolAction::Ignore;
                }
                match self.pending.pop_front() {
                    Some(j) => {
                        proof {
                            assert(m.pending[0] == j);
                            assert(self.pending@ =~= m.pending.drop_first());
                            assert(self@ == step(m, msg).0);
                        }
                        PoolAction::Run { worker: w, job: j }
                    },
                    None => {
                        self.busy.set(w, false);
                        self.idle.push_back(w);
                        proof {
                            let n = self@;
                            assert forall|i: int| 0 <= i < n.idle.len() implies (#[trigger] n.idle[i] as int) < n.busy.len()
                                && !n.busy[n.idle[i] as int] by {
                                if i < m.idle.len() {
                                    assert(n.idle[i] == m.idle[i]);
                                }
                            }
                            assert forall|i: int, k: int| 0 <= i < k < n.idle.len() implies #[trigger] n.idle[i]
                                != #[trigger] n.idle[k] by {
                                if k == m.idle.len() {
                                    assert(n.idle[i] == m.idle[i]);
                                    assert(!m.busy[m.idle[i] as int]);
                                }
                            }
                            assert forall|x: int| 0 <= x < n.busy.len() && !#[trigger] n.busy[x] implies exists|i: int|
                                0 <= i < n.idle.len() && n.idle[i] == x by {
                                if x == w {
                                    assert(n.idle[m.idle.len() as int] == x);
                                } else {
                                    let i = choose|i: int| 0 <= i < m.idle.len() && m.idle[i] == x;
                                    assert(n.idle[i] == x);
                                }
                            }
                            assert(self@ == step(m, msg).0);
                        }
                        PoolAction::Wait
                    },
                }
            },
            PoolMessage::Shutdown => {
                self.stopped = true;
                proof {
                    assert(self@ == step(m, msg).0);
                }
                PoolAction::StopAll(self.busy.len())
            },
        }
    }
}

/// A worker whose job has ended, by returning or by a panic that was caught,
/// stays in the pool: it takes the oldest waiting job at once, or joins the
/// idle queue.
pub proof fn law_finished_worker_stays(m: DispatchModel, w: usize)
    requires
        consistent(m),
        !m.stopped,
        w < m.busy.len(),
        m.busy[w as int],
    ensures
        ({
            let (m2, a) = step(m, PoolMessage::JobComplete(w));
            ||| m.pending.len() > 0 && a == PoolAction::Run { worker: w, job: m.pending[0] }
            ||| m.pending.len() == 0 && a == PoolAction::Wait && m2.idle.last() == w && !m2.busy[w as int]
        }),
{
}

/// After a worker has finished, the next job submitted is run: by that worker
/// or by one that was idle before it.
pub proof fn law_submission_after_completion(m: DispatchModel, w: usize, j: u64)
    requires
        consistent(m),
        !m.stopped,
        w < m.busy.len(),
        m.busy[w as int],
        m.pending.len() == 0,
    ensures
        ({
            let m2 = step(m, PoolMessage::JobComplete(w)).0;
            step(m2, PoolMessage::RunJob(j)).1 is Run
        }),
{
}

/// Jobs are handed out in the order they were submitted: a job that finds no
/// idle worker joins the back of the queue, and a finishing worker takes the
/// front.
pub proof fn law_jobs_fifo(m: DispatchModel, msg: PoolMessage)
    requires
        consistent(m),
        !m.stopped,
    ensures
        ({
            let (m2, a) = step(m, msg);
            &&& a is Run && msg is JobComplete ==> m2.pending == m.pending.drop_first() && a->job == m.pending[0]
            &&& a is Wait && msg is RunJob ==> m2.pending == m.pending.push(msg->RunJob_0)
            &&& msg is RunJob ==> m2.pending.len() + (if a is Run { 1int } else { 0 }) == m.pending.len() + 1
        }),
{
}

/// The worker after `current` in a round robin over `workers` workers.
pub fn next_worker(current: usize, workers: usize) -> (r: usize)
    requires
        current < workers,
    ensures
        r == (current as int + 1) % (workers as int),
{
    if current + 1 == workers {
        assert((workers as int) % (workers as int) == 0) by (nonlinear_arith)
            requires
                workers > 0,
        ;
        0
    } else {
        assert((current as int + 1) % (workers as int) == current + 1) by (nonlinear_arith)
            requires
                0 <= current + 1 < workers,
        ;
        current + 1
    }
}

} // verus!
