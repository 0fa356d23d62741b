use std::collections::VecDeque;

use vstd::prelude::*;

verus! {

/// How many frames may be in flight at once.
pub const MAX_FRAMES: usize = 2;

/// A resource waiting until no frame in flight can still use it.
pub struct QueuedResource<R> {
    pub future_frame: usize,
    pub resource: R,
}

/// GPU resources whose destruction is deferred by `MAX_FRAMES` frames.
pub struct VulkanDeletionQueue<R> {
    pub current_frame: usize,
    pub queue: VecDeque<QueuedResource<R>>,
}

/// How many entries at the back of `q` are due at frame `current`: the
/// longest run of entries, counted from the back, whose frame has come.
pub open spec fn due_count<R>(q: Seq<QueuedResource<R>>, current: usize) -> nat
    decreases q.len(),
{
    if q.len() == 0 || q.last().future_frame > current {
        0
    } else {
        1 + due_count(q.drop_last(), current)
    }
}

impl<R> VulkanDeletionQueue<R> {
    /// The waiting resources, oldest first.
    pub open spec fn entries(&self) -> Seq<QueuedResource<R>> {
        self.queue@
    }

    /// An empty queue at frame 0.
    pub fn new() -> (r: VulkanDeletionQueue<R>)
        ensures
            r.current_frame == 0,
            r.entries() == Seq::<QueuedResource<R>>::empty(),
    {
        let queue = VecDeque::new();
        Self { queue, current_frame: 0 }
    }

    /// Queues `resource` for destruction `MAX_FRAMES` frames from now.
    pub fn push(&mut self, resource: R)
        requires
            old(self).current_frame + MAX_FRAMES <= usize::MAX,
        ensures
            final(self).current_frame == old(self).current_frame,
            final(self).entries() == old(self).entries().push(
                QueuedResource { future_frame: (old(self).current_frame + MAX_FRAMES) as usize, resource },
            ),
    {
        self.queue.push_back(QueuedResource { future_frame: self.current_frame + MAX_FRAMES, resource });
    }

    /// Removes, newest first, the resources at the back of the queue whose
    /// frame has come, stopping at the first that must still wait, and hands
    /// them back for destruction.
    pub fn take_expired(&mut self) -> (r: Vec<R>)
        ensures
            final(self).current_frame == old(self).current_frame,
            ({
                let q = old(self).entries();
                let k = due_count(q, old(self).current_frame);
                &&& k <= q.len()
                &&& final(self).entries() == q.subrange(0, q.len() - k)
                &&& r@.len() == k
                &&& forall|i: int| 0 <= i < k ==> #[trigger] r@[i] == q[q.len() - 1 - i].resource
                &&& forall|i: int| q.len() - k <= i < q.len() ==> (#[trigger] q[i]).future_frame <= old(self).current_frame
            }),
    {
        let ghost q = self.queue@;
        let ghost cur = self.current_frame;
        let mut taken: Vec<R> = Vec::new();
        proof {
            lemma_due_count_bound(q, cur);
        }
        loop
            invariant
                self.current_frame == cur,
                due_count(q, cur) <= q.len(),
                taken@.len() <= due_count(q, cur),
                self.queue@ == q.subrange(0, q.len() - taken@.len()),
                due_count(self.queue@, cur) == due_count(q, cur) - taken@.len(),
                forall|i: int| 0 <= i < taken@.len() ==> #[trigger] taken@[i] == q[q.len() - 1 - i].resource,
                forall|i: int| q.len() - taken@.len() <= i < q.len() ==> (#[trigger] q[i]).future_frame <= cur,
            ensures
                taken@.len() == due_count(q, cur),
                self.queue@ == q.subrange(0, q.len() - taken@.len()),
                forall|i: int| 0 <= i < taken@.len() ==> #[trigger] taken@[i] == q[q.len() - 1 - i].resource,
                forall|i: int| q.len() - taken@.len() <= i < q.len() ==> (#[trigger] q[i]).future_frame <= cur,
            decreases self.queue@.len(),
        {
            let len = self.queue.len();
            if len == 0 {
                break;
            }
            if self.queue[len - 1].future_frame > self.current_frame {
                break;
            }
            let ghost before = self.queue@;
            assert(before.drop_last() == before.subrange(0, before.len() - 1));
            match self.queue.pop_back() {
                Some(item) => {
                    taken.push(item.resource);
                    assert(self.queue@ =~= q.subrange(0, q.len() - taken@.len()));
                },
                None => {},
            }
        }
        taken
    }
}

/// A resource queued at the current frame is never due at that frame: however
/// the queue looked before, cleaning right after the push takes nothing.
pub proof fn law_fresh_push_not_due<R>(q: Seq<QueuedResource<R>>, current: usize, resource: R)
    requires
        current + MAX_FRAMES <= usize::MAX,
    ensures
        due_count(q.push(QueuedResource { future_frame: (current + MAX_FRAMES) as usize, resource }), current) == 0,
{
}

/// Advancing the frame never makes fewer resources due.
pub proof fn law_due_grows_with_frame<R>(q: Seq<QueuedResource<R>>, c1: usize, c2: usize)
    requires
        c1 <= c2,
    ensures
        due_count(q, c1) <= due_count(q, c2),
    decreases q.len(),
{
    if q.len() > 0 {
        law_due_grows_with_frame(q.drop_last(), c1, c2);
    }
}

proof fn lemma_due_count_bound<R>(q: Seq<QueuedResource<R>>, cur: usize)
    ensures
        due_count(q, cur) <= q.len(),
    decreases q.len(),
{
    if q.len() > 0 {
        lemma_due_count_bound(q.drop_last(), cur);
    }
}

} // verus!
