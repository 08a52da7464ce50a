//! The ledger behind the worker pool: which jobs were submitted, which are
//! still queued, and which were handed to a worker.
//!
//! The pool itself is a set of operating-system threads around one shared
//! queue; what is proved here is the queue discipline they follow.  Each job
//! is identified by a number.  `submit` appends a job while the pool is open
//! and refuses it after shutdown; `take` hands out the oldest queued job,
//! moving it — exactly once — from the queue to the delivered ledger; a
//! worker that finds the queue empty and closed exits.  The lemmas at the
//! bottom state the delivery guarantees these contracts add up to.

use vstd::prelude::*;

verus! {

/// What a worker does after one look at the queue.
#[derive(Clone, Copy, Debug, PartialEq, Eq, Structural)]
pub enum WorkerStep {
    /// Run the job it was handed, then look again.
    Run(u64),
    /// Nothing queued yet: block on the queue and look again.
    Wait,
    /// The queue is closed and drained: terminate.
    Exit,
}

/// The job queue's ledger.  The queue holds jobs submitted and not yet
/// taken, oldest first; the two ghost sequences record the full history.
pub struct JobQueue {
    pending: Vec<u64>,
    closed: bool,
    submitted: Ghost<Seq<u64>>,
    delivered: Ghost<Seq<u64>>,
}

impl JobQueue {
    /// Jobs submitted and not yet handed to a worker, oldest first.
    pub closed spec fn pending_jobs(self) -> Seq<u64> {
        self.pending@
    }

    /// Every job ever accepted, in submission order.
    pub closed spec fn submitted_jobs(self) -> Seq<u64> {
        self.submitted@
    }

    /// Every job handed to a worker, in delivery order.
    pub closed spec fn delivered_jobs(self) -> Seq<u64> {
        self.delivered@
    }

    /// Whether the submission side has been closed.
    pub closed spec fn is_closed(self) -> bool {
        self.closed
    }

    /// The ledger balances: what was submitted is exactly what was
    /// delivered followed by what is still pending.
    pub closed spec fn wf(self) -> bool {
        self.submitted@ == self.delivered@ + self.pending@
    }

    /// An open, empty queue.
    pub fn new() -> (q: Self)
        ensures
            q.wf(),
            !q.is_closed(),
            q.pending_jobs() == Seq::<u64>::empty(),
            q.submitted_jobs() == Seq::<u64>::empty(),
            q.delivered_jobs() == Seq::<u64>::empty(),
    {
        let q = JobQueue {
            pending: Vec::new(),
            closed: false,
            submitted: Ghost(Seq::empty()),
            delivered: Ghost(Seq::empty()),
        };
        proof {
            assert(q.submitted@ =~= q.delivered@ + q.pending@);
        }
        q
    }

    /// Submit one job.  While the pool is open the job is queued; after
    /// shutdown nothing is accepted, and the caller learns so at once.
    pub fn submit(&mut self, job: u64) -> (accepted: bool)
        requires
            old(self).wf(),
        ensures
            final(self).wf(),
            accepted == !old(self).is_closed(),
            final(self).is_closed() == old(self).is_closed(),
            final(self).delivered_jobs() == old(self).delivered_jobs(),
            old(self).is_closed() ==> *final(self) == *old(self),
            !old(self).is_closed() ==> final(self).pending_jobs() == old(self).pending_jobs().push(
                job,
            ) && final(self).submitted_jobs() == old(self).submitted_jobs().push(job),
    {
        if self.closed {
            false
        } else {
            self.pending.push(job);
            proof {
                self.submitted@ = self.submitted@.push(job);
                assert(self.submitted@ =~= self.delivered@ + self.pending@);
            }
            true
        }
    }

    /// Hand the oldest queued job to a worker.  A job leaves the queue the
    /// moment it is handed out and is recorded as delivered, so no job can
    /// be handed out twice.
    pub fn take(&mut self) -> (job: Option<u64>)
        requires
            old(self).wf(),
        ensures
            final(self).wf(),
            final(self).is_closed() == old(self).is_closed(),
            final(self).submitted_jobs() == old(self).submitted_jobs(),
            match job {
                Some(id) => old(self).pending_jobs().len() > 0 && id == old(
                    self,
                ).pending_jobs()[0] && final(self).pending_jobs() == old(
                    self,
                ).pending_jobs().drop_first() && final(self).delivered_jobs() == old(
                    self,
                ).delivered_jobs().push(id),
                None => old(self).pending_jobs().len() == 0 && *final(self) == *old(self),
            },
    {
        if self.pending.len() == 0 {
            None
        } else {
            let id = self.pending.remove(0);
            proof {
                self.delivered@ = self.delivered@.push(id);
                assert(old(self).pending_jobs().remove(0) =~= old(self).pending_jobs(
                ).drop_first());
                assert(self.submitted@ =~= self.delivered@ + self.pending@);
            }
            Some(id)
        }
    }

    /// Close the submission side.  Queued jobs stay queued — shutdown
    /// drains them — but nothing further is accepted.
    pub fn close(&mut self)
        requires
            old(self).wf(),
        ensures
            final(self).wf(),
            final(self).is_closed(),
            final(self).pending_jobs() == old(self).pending_jobs(),
            final(self).submitted_jobs() == old(self).submitted_jobs(),
            final(self).delivered_jobs() == old(self).delivered_jobs(),
    {
        self.closed = true;
    }

    /// What a worker that saw `job` come back from `take` on a queue in
    /// state `closed` does next: run it, wait for more, or — only when the
    /// queue is closed and empty-handed — exit.
    pub fn worker_step(job: Option<u64>, closed: bool) -> (step: WorkerStep)
        ensures
            match job {
                Some(id) => step == WorkerStep::Run(id),
                None => step == if closed {
                    WorkerStep::Exit
                } else {
                    WorkerStep::Wait
                },
            },
    {
        match job {
            Some(id) => WorkerStep::Run(id),
            None => {
                if closed {
                    WorkerStep::Exit
                } else {
                    WorkerStep::Wait
                }
            },
        }
    }
}

/// Exactly-once delivery: when every submitted job is distinct, no job is
/// delivered twice, and nothing is delivered that was not submitted.
pub proof fn lemma_exactly_once(q: &JobQueue)
    requires
        q.wf(),
        q.submitted_jobs().no_duplicates(),
    ensures
        q.delivered_jobs().no_duplicates(),
        forall|k: int|
            0 <= k < q.delivered_jobs().len() ==> q.submitted_jobs().contains(
                #[trigger] q.delivered_jobs()[k],
            ),
{
    let s = q.submitted_jobs();
    let d = q.delivered_jobs();
    assert forall|k: int| 0 <= k < d.len() implies s.contains(#[trigger] d[k]) by {
        assert(s[k] == d[k]);
    }
    assert forall|k1: int, k2: int| 0 <= k1 < k2 < d.len() implies d[k1] != d[k2] by {
        assert(s[k1] == d[k1] && s[k2] == d[k2]);
    }
}

/// Shutdown drains in-flight work: once the queue is empty, everything ever
/// submitted has been handed to a worker.
pub proof fn lemma_drained_delivers_all(q: &JobQueue)
    requires
        q.wf(),
        q.pending_jobs().len() == 0,
    ensures
        q.delivered_jobs() == q.submitted_jobs(),
{
    assert(q.delivered_jobs() =~= q.submitted_jobs());
}

} // verus!
