//! The worker pool's dispatch discipline.
//!
//! The pool itself — threads blocking on a queue — lives outside this
//! crate; what stands here is the queue that decides which job runs next.
//! `JobQueue` holds the jobs not yet handed to a worker and, as ghost
//! state, the sequence of jobs already handed out, so that its contracts
//! can say what the pool guarantees: jobs are handed out first-in
//! first-out, and no submitted job is ever dropped or duplicated.

use vstd::prelude::*;

verus! {

/// The pending-job queue, with a ghost record of every job already handed
/// to a worker.
pub struct JobQueue<T> {
    pending: Vec<T>,
    dispatched_jobs: Ghost<Seq<T>>,
}

impl<T> JobQueue<T> {
    /// Jobs already handed to a worker, oldest first.
    pub closed spec fn dispatched(self) -> Seq<T> {
        self.dispatched_jobs@
    }

    /// Jobs submitted but not yet handed out, oldest first.
    pub closed spec fn pending_jobs(self) -> Seq<T> {
        self.pending@
    }

    /// Every job ever submitted, in submission order.
    pub closed spec fn submitted(self) -> Seq<T> {
        self.dispatched_jobs@ + self.pending@
    }

    /// An empty queue with no history.
    pub fn new() -> (q: JobQueue<T>)
        ensures
            q.submitted() == Seq::<T>::empty(),
            q.pending_jobs() == Seq::<T>::empty(),
            q.dispatched() == Seq::<T>::empty(),
    {
        let q = JobQueue { pending: Vec::new(), dispatched_jobs: Ghost(Seq::empty()) };
        proof {
            assert(q.submitted() =~= Seq::<T>::empty());
        }
        q
    }

    /// Enqueues a job; it returns at once, and the job waits its turn.
    pub fn submit(&mut self, job: T)
        ensures
            final(self).pending_jobs() == old(self).pending_jobs().push(job),
            final(self).dispatched() == old(self).dispatched(),
            final(self).submitted() == old(self).submitted().push(job),
    {
        self.pending.push(job);
        proof {
            assert(final(self).submitted() =~= old(self).submitted().push(job));
        }
    }

    /// Hands out the oldest pending job, or reports the queue empty. A job
    /// handed out moves, unchanged, from the front of the pending queue to
    /// the end of the dispatched record, so each submitted job is handed
    /// out at most once and in submission order.
    pub fn take(&mut self) -> (r: Option<T>)
        ensures
            final(self).submitted() == old(self).submitted(),
            match r {
                None => old(self).pending_jobs().len() == 0 && *final(self) == *old(self),
                Some(j) => old(self).pending_jobs().len() > 0 && j == old(self).pending_jobs()[0]
                    && final(self).pending_jobs() == old(self).pending_jobs().skip(1)
                    && final(self).dispatched() == old(self).dispatched().push(j),
            },
    {
        if self.pending.len() == 0 {
            return None;
        }
        let j = self.pending.remove(0);
        proof {
            self.dispatched_jobs@ = self.dispatched_jobs@.push(j);
            assert(final(self).pending_jobs() =~= old(self).pending_jobs().skip(1));
            assert(final(self).submitted() =~= old(self).submitted());
        }
        Some(j)
    }

    /// How many jobs wait.
    pub fn pending_len(&self) -> (n: usize)
        ensures
            n == self.pending_jobs().len(),
    {
        self.pending.len()
    }
}

/// No job is lost and none is run twice: in every queue state, each job
/// value occurs among the dispatched and pending jobs together exactly as
/// often as it was submitted.
pub proof fn lemma_jobs_conserved<T>(q: JobQueue<T>, j: T)
    ensures
        q.submitted().filter(|x: T| x == j).len() == q.dispatched().filter(|x: T| x == j).len()
            + q.pending_jobs().filter(|x: T| x == j).len(),
{
    Seq::<T>::filter_distributes_over_add(q.dispatched(), q.pending_jobs(), |x: T| x == j);
}

/// Jobs are handed out in submission order: the dispatched record is
/// always a prefix of the submission order, and the pending queue is
/// exactly the rest of it.
pub proof fn lemma_fifo_order<T>(q: JobQueue<T>)
    ensures
        q.dispatched() == q.submitted().take(q.dispatched().len() as int),
        q.pending_jobs() == q.submitted().skip(q.dispatched().len() as int),
{
    assert(q.dispatched() =~= q.submitted().take(q.dispatched().len() as int));
    assert(q.pending_jobs() =~= q.submitted().skip(q.dispatched().len() as int));
}

} // verus!
