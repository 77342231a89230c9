//! The shared work queue of pending jobs.

use vstd::prelude::*;
use vstd::multiset::Multiset;

verus! {

#[verifier::external_type_specification]
#[verifier::external_body]
#[verifier::reject_recursive_types(T)]
pub struct ExSegQueue<T>(crossbeam_queue::SegQueue<T>);

/// The jobs a segment queue holds, as a multiset of path values: the
/// queue promises delivery, not order.
pub uninterp spec fn seg_queue_jobs(q: crossbeam_queue::SegQueue<Vec<String>>) -> Multiset<
    Seq<Seq<char>>,
>;

/// A concurrent, unbounded queue of pending source files.  The pipeline
/// fills it once and the workers drain it; no job is ever re-queued.
pub struct JobQueue {
    pub queue: crossbeam_queue::SegQueue<Vec<String>>,
}

impl JobQueue {
    /// The jobs now queued.
    pub open spec fn jobs(self) -> Multiset<Seq<Seq<char>>> {
        seg_queue_jobs(self.queue)
    }

    /// Relies on `SegQueue::new`: a new queue is empty.
    #[verifier::external_body]
    pub fn new() -> (r: JobQueue)
        ensures
            seg_queue_jobs(r.queue) == Multiset::<Seq<Seq<char>>>::empty(),
    {
        JobQueue { queue: crossbeam_queue::SegQueue::new() }
    }

    /// Relies on `SegQueue::push`: the element joins the queue.
    #[verifier::external_body]
    pub fn push(&mut self, job: Vec<String>)
        ensures
            seg_queue_jobs(final(self).queue) == seg_queue_jobs(old(self).queue).insert(
                job.deep_view(),
            ),
    {
        self.queue.push(job);
    }

    /// Relies on `SegQueue::pop`: held exclusively, the queue yields an
    /// element exactly when it is not empty, and loses what it yields.
    /// Which of several queued jobs comes out is not promised.
    #[verifier::external_body]
    pub fn pop(&mut self) -> (r: Option<Vec<String>>)
        ensures
            match r {
                Some(job) => seg_queue_jobs(old(self).queue).contains(job.deep_view())
                    && seg_queue_jobs(final(self).queue) == seg_queue_jobs(
                    old(self).queue,
                ).remove(job.deep_view()),
                None => seg_queue_jobs(old(self).queue) == Multiset::<Seq<Seq<char>>>::empty()
                    && seg_queue_jobs(final(self).queue) == seg_queue_jobs(old(self).queue),
            },
    {
        self.queue.pop()
    }

    /// Relies on `SegQueue::is_empty`: held exclusively, true exactly
    /// when nothing is queued.
    #[verifier::external_body]
    pub fn is_empty(&self) -> (r: bool)
        ensures
            r == (seg_queue_jobs(self.queue) == Multiset::<Seq<Seq<char>>>::empty()),
    {
        self.queue.is_empty()
    }
}

} // verus!
