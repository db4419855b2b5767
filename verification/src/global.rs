//! The state shared across connections: the deferred task queue and the
//! shared upload buffer.
//!
//! The buffer holds the last payload a script client uploaded, replaced
//! whole on every upload and never edited in place. A browser request for
//! the stats path that arrives before any upload becomes a deferred task;
//! an upload makes every queued task serviceable at once.

use vstd::prelude::*;

verus! {

/// A deferred replay: answer the connection `token` from the upload buffer
/// once it is serviceable.
#[derive(Clone, Copy, PartialEq, Eq, Structural, Debug)]
pub struct Task {
    pub token: u64,
    pub service: bool,
}

impl Task {
    /// A new task starts out not yet serviceable: it waits for an upload.
    pub fn new(token: u64) -> (t: Task)
        ensures
            t.token == token,
            !t.service,
    {
        Task { token, service: false }
    }
}

/// How many queued tasks are serviceable.
pub open spec fn count_serviceable(q: Seq<Task>) -> nat
    decreases q.len(),
{
    if q.len() == 0 {
        0
    } else {
        count_serviceable(q.drop_last()) + (if q.last().service {
            1nat
        } else {
            0nat
        })
    }
}

/// When every queued task is serviceable, the count is the queue length.
pub proof fn lemma_count_serviceable_all(q: Seq<Task>)
    requires
        forall|i: int| 0 <= i < q.len() ==> q[i].service,
    ensures
        count_serviceable(q) == q.len(),
    decreases q.len(),
{
    if q.len() > 0 {
        lemma_count_serviceable_all(q.drop_last());
    }
}

/// When no queued task is serviceable, the count is zero.
pub proof fn lemma_count_serviceable_none(q: Seq<Task>)
    requires
        forall|i: int| 0 <= i < q.len() ==> !q[i].service,
    ensures
        count_serviceable(q) == 0,
    decreases q.len(),
{
    if q.len() > 0 {
        lemma_count_serviceable_none(q.drop_last());
    }
}

/// The queue of deferred replays, with a running count of how many are
/// serviceable.
pub struct TaskQueue {
    pub queue: Vec<Task>,
    pub serviceable: usize,
}

impl TaskQueue {
    /// The count matches the queue.
    pub open spec fn wf(&self) -> bool {
        self.serviceable == count_serviceable(self.queue@)
    }

    /// An empty queue.
    pub fn new() -> (q: TaskQueue)
        ensures
            q.queue@ == Seq::<Task>::empty(),
            q.serviceable == 0,
            q.wf(),
    {
        TaskQueue { queue: Vec::new(), serviceable: 0 }
    }
}

/// Every queued task, made serviceable.
pub open spec fn all_serviceable(q: Seq<Task>) -> Seq<Task> {
    q.map_values(|t: Task| Task { token: t.token, service: true })
}

/// The view of the shared state: the queued tasks, the buffer contents, and
/// whether any upload has landed yet.
pub struct GlobalV {
    pub tasks: Seq<Task>,
    pub data: Seq<u8>,
    pub fresh: bool,
}

/// The shared state after an upload of `p`: the buffer holds exactly `p`,
/// the buffer is marked fresh, and every queued task becomes serviceable.
pub open spec fn upload_spec(g: GlobalV, p: Seq<u8>) -> GlobalV {
    GlobalV { tasks: all_serviceable(g.tasks), data: p, fresh: true }
}

/// The shared state after deferring a reply to `token`: one task is queued
/// behind the others, not yet serviceable; nothing else moves.
pub open spec fn defer_spec(g: GlobalV, token: u64) -> GlobalV {
    GlobalV { tasks: g.tasks.push(Task { token, service: false }), data: g.data, fresh: g.fresh }
}

/// The state shared by every connection: the task queue, the upload buffer,
/// and the freshness mark that says an upload has landed.
pub struct GlobalHandle {
    pub task_queue: TaskQueue,
    pub data: Vec<u8>,
    pub is_fresh: bool,
}

impl View for GlobalHandle {
    type V = GlobalV;

    open spec fn view(&self) -> GlobalV {
        GlobalV { tasks: self.task_queue.queue@, data: self.data@, fresh: self.is_fresh }
    }
}

impl GlobalHandle {
    /// The count matches the queue, and no task is serviceable before the
    /// first upload has landed.
    pub open spec fn wf(&self) -> bool {
        &&& self.task_queue.wf()
        &&& forall|i: int|
            0 <= i < self.task_queue.queue@.len() && self.task_queue.queue@[i].service
                ==> self.is_fresh
    }

    /// Empty shared state: no tasks, no upload yet.
    pub fn new() -> (g: GlobalHandle)
        ensures
            g@.tasks == Seq::<Task>::empty(),
            g@.data == Seq::<u8>::empty(),
            !g@.fresh,
            g.wf(),
    {
        GlobalHandle { task_queue: TaskQueue::new(), data: Vec::new(), is_fresh: false }
    }

    /// Replace the upload buffer with `payload`, whole, and make every
    /// queued task serviceable.
    pub fn upload(&mut self, payload: Vec<u8>)
        requires
            old(self).wf(),
        ensures
            final(self)@ == upload_spec(old(self)@, payload@),
            final(self).wf(),
    {
        self.data = payload;
        self.is_fresh = true;
        let mut marked: Vec<Task> = Vec::new();
        let mut i: usize = 0;
        let ghost q0 = self.task_queue.queue@;
        while i < self.task_queue.queue.len()
            invariant
                i <= q0.len(),
                self.task_queue.queue@ == q0,
                marked@ == all_serviceable(q0).take(i as int),
            decreases q0.len() - i,
        {
            let t = self.task_queue.queue[i];
            marked.push(Task { token: t.token, service: true });
            proof {
                assert(marked@ =~= all_serviceable(q0).take(i + 1));
            }
            i = i + 1;
        }
        proof {
            assert(all_serviceable(q0).take(q0.len() as int) =~= all_serviceable(q0));
        }
        self.task_queue.serviceable = marked.len();
        self.task_queue.queue = marked;
        proof {
            lemma_count_serviceable_all(self.task_queue.queue@);
        }
    }

    /// Queue a deferred reply for `token`, to be answered once an upload
    /// has landed.
    pub fn defer(&mut self, token: u64)
        requires
            old(self).wf(),
        ensures
            final(self)@ == defer_spec(old(self)@, token),
            final(self).wf(),
    {
        let t = Task::new(token);
        self.task_queue.queue.push(t);
        proof {
            assert(self.task_queue.queue@.drop_last() =~= old(self).task_queue.queue@);
        }
    }
}

} // verus!
