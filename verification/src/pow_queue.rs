//! The proof-of-work job queue: at most one search runs at a time; further
//! jobs wait in a FIFO of their hash strings, with the objects themselves
//! held alongside in arrival order.
use vstd::prelude::*;

use queues::IsQueue;

use crate::crypto::{base58_encode, base58_of};
use crate::messages::Object;
use crate::repo_inventory::{lemma_objs_view_push, objs_view};

verus! {

#[verifier::external_type_specification]
#[verifier::external_body]
#[verifier::reject_recursive_types(T)]
pub struct ExQueue<T: Clone>(queues::Queue<T>);

/// The strings a queue holds, front first.
pub uninterp spec fn queue_elems(q: queues::Queue<String>) -> Seq<Seq<char>>;

/// Relies on queues::Queue::new: a fresh queue is empty.
#[verifier::external_body]
fn queue_new() -> (r: queues::Queue<String>)
    ensures
        queue_elems(r) == Seq::<Seq<char>>::empty(),
{
    queues::Queue::new()
}

/// Relies on queues::Queue::add: appends at the back; on this unbounded
/// queue it always succeeds.
#[verifier::external_body]
fn queue_add(q: &mut queues::Queue<String>, s: String)
    ensures
        queue_elems(*final(q)) == queue_elems(*old(q)).push(s@),
{
    let _ = q.add(s);
}

/// Relies on queues::Queue::remove: takes the front element; fails exactly
/// when the queue is empty.
#[verifier::external_body]
fn queue_remove(q: &mut queues::Queue<String>) -> (r: Option<String>)
    ensures
        match r {
            Some(s) => queue_elems(*old(q)).len() > 0 && s@ == queue_elems(*old(q))[0]
                && queue_elems(*final(q)) == queue_elems(*old(q)).skip(1),
            None => queue_elems(*old(q)).len() == 0 && queue_elems(*final(q)) == queue_elems(
                *old(q),
            ),
        },
{
    match q.remove() {
        Ok(s) => Some(s),
        Err(_) => None,
    }
}

/// Relies on queues::Queue::size: the number of waiting elements.
#[verifier::external_body]
fn queue_size(q: &queues::Queue<String>) -> (r: usize)
    ensures
        r == queue_elems(*q).len(),
{
    q.size()
}

/// The single-writer proof-of-work queue: one search at a time, the rest
/// waiting in arrival order.
pub struct PowQueue {
    is_pow_running: bool,
    waiting: queues::Queue<String>,
    pending: Vec<Object>,
}

impl PowQueue {
    /// Whether a search is currently running.
    pub closed spec fn running(&self) -> bool {
        self.is_pow_running
    }

    /// The queued jobs, front first.
    pub closed spec fn jobs(&self) -> Seq<crate::messages::ObjectView> {
        objs_view(self.pending@)
    }

    /// The FIFO mirrors the job list: same length, and each slot holds the
    /// hash string of its object.
    pub closed spec fn wf(&self) -> bool {
        &&& queue_elems(self.waiting).len() == self.pending@.len()
        &&& (forall|k: int|
            0 <= k < self.pending@.len() ==> queue_elems(self.waiting)[k] == base58_of(
                (#[trigger] self.pending@[k])@.hash,
            ))
    }

    /// An idle queue with no jobs.
    pub fn new() -> (r: PowQueue)
        ensures
            r.wf(),
            !r.running(),
            r.jobs() == Seq::<crate::messages::ObjectView>::empty(),
    {
        let r = PowQueue { is_pow_running: false, waiting: queue_new(), pending: Vec::new() };
        assert(r.jobs() =~= Seq::<crate::messages::ObjectView>::empty());
        r
    }

    /// Submit a job: started at once when the queue is idle, otherwise put
    /// at the back. The returned object, if any, is the one to search on.
    pub fn enqueue_pow(&mut self, object: Object) -> (r: Option<Object>)
        requires
            old(self).wf(),
        ensures
            final(self).wf(),
            if old(self).running() {
                &&& r is None
                &&& final(self).running()
                &&& final(self).jobs() == old(self).jobs().push(object@)
            } else {
                &&& (r matches Some(o) && o@ == object@)
                &&& final(self).running()
                &&& final(self).jobs() == old(self).jobs()
            },
    {
        if self.is_pow_running {
            let hash = base58_encode(object.hash.as_slice());
            queue_add(&mut self.waiting, hash);
            let ghost pre = self.pending@;
            self.pending.push(object);
            proof {
                lemma_objs_view_push(pre, self.pending@.last());
            }
            None
        } else {
            self.is_pow_running = true;
            Some(object)
        }
    }

    /// A search finished: start the next waiting job if there is one, and
    /// fall idle otherwise.
    pub fn on_pow_finished(&mut self) -> (r: Option<Object>)
        requires
            old(self).wf(),
        ensures
            final(self).wf(),
            if old(self).jobs().len() > 0 {
                &&& (r matches Some(o) && o@ == old(self).jobs()[0])
                &&& final(self).running()
                &&& final(self).jobs() == old(self).jobs().skip(1)
            } else {
                &&& r is None
                &&& !final(self).running()
                &&& final(self).jobs() == old(self).jobs()
            },
    {
        match queue_remove(&mut self.waiting) {
            Some(_) => {
                let next = self.pending.remove(0);
                proof {
                    assert(objs_view(self.pending@) =~= objs_view(old(self).pending@).skip(1));
                }
                self.is_pow_running = true;
                Some(next)
            },
            None => {
                assert(self.pending@.len() == 0);
                assert(self.jobs() =~= old(self).jobs());
                self.is_pow_running = false;
                None
            },
        }
    }

    /// How many jobs are waiting (the running one not counted).
    pub fn waiting_len(&self) -> (r: usize)
        requires
            self.wf(),
        ensures
            r == self.jobs().len(),
    {
        queue_size(&self.waiting)
    }
}

} // verus!
