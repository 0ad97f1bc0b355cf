use vstd::prelude::*;

use std::collections::VecDeque;

use futures::FutureExt;

verus! {

/// Waker for polling without wake-ups: a task that is not ready is polled
/// again on the next flush, whatever it asks for.
pub struct DummyWaker;

impl std::task::Wake for DummyWaker {
    fn wake(self: std::sync::Arc<Self>) {
    }

    fn wake_by_ref(self: &std::sync::Arc<Self>) {
    }
}

/// Relies on futures::FutureExt::poll_unpin: polls `future` once, with a
/// waker that does nothing; `true` when it has completed. Whether it has
/// depends on the future, so nothing is promised of the result.
#[verifier::external_body]
fn poll_once<F: std::future::Future<Output = ()> + Unpin>(future: &mut F) -> (ready: bool) {
    let waker: std::task::Waker = std::sync::Arc::new(DummyWaker).into();
    let mut cx = std::task::Context::from_waker(&waker);
    future.poll_unpin(&mut cx).is_ready()
}

/// A deferred computation and the id it was given when submitted.
pub struct Task<F> {
    pub id: u64,
    pub future: F,
}

/// The ids of the tasks in `q`, front first.
pub open spec fn ids<F>(q: Seq<Task<F>>) -> Seq<u64> {
    q.map_values(|t: Task<F>| t.id)
}

/// The entries of `s` whose flag in `keep` is set, in order.
pub open spec fn kept(s: Seq<u64>, keep: Seq<bool>) -> Seq<u64>
    decreases s.len(),
{
    if s.len() == 0 {
        s
    } else if keep.last() {
        kept(s.drop_last(), keep.drop_last()).push(s.last())
    } else {
        kept(s.drop_last(), keep.drop_last())
    }
}

/// Drops a task that has completed; puts one that has not at the back of
/// `queue`, to be polled again on the next flush.
pub fn settle<F>(queue: &mut VecDeque<Task<F>>, task: Task<F>, ready: bool)
    ensures
        ready ==> final(queue)@ == old(queue)@,
        !ready ==> final(queue)@ == old(queue)@.push(task),
{
    if !ready {
        queue.push_back(task);
    }
}

/// Polls once each task that is in `queue` on entry, in order. Tasks that
/// complete are dropped; the others go back to the end of the queue in the
/// order they were polled. Returns the number of polls.
pub fn drain<F: std::future::Future<Output = ()> + Unpin>(queue: &mut VecDeque<Task<F>>) -> (polls: usize)
    ensures
        polls == old(queue)@.len(),
        exists|keep: Seq<bool>|
            keep.len() == old(queue)@.len() && ids(final(queue)@) == #[trigger] kept(ids(old(queue)@), keep),
{
    let ghost start = ids(queue@);
    let mut snapshot: VecDeque<Task<F>> = VecDeque::new();
    std::mem::swap(&mut snapshot, queue);
    let total = snapshot.len();
    let mut polls: usize = 0;
    let ghost mut keep: Seq<bool> = Seq::empty();
    while polls < total
        invariant
            total == start.len(),
            polls <= total,
            snapshot@.len() == total - polls,
            ids(snapshot@) == start.subrange(polls as int, total as int),
            keep.len() == polls,
            ids(queue@) == kept(start.subrange(0, polls as int), keep),
        decreases total - polls,
    {
        let ghost before = queue@;
        let ghost rest = snapshot@;
        match snapshot.pop_front() {
            Some(mut task) => {
                proof {
                    assert(task.id == ids(rest)[0]);
                    assert(ids(snapshot@) =~= ids(rest).subrange(1, rest.len() as int));
                }
                let ghost id = task.id;
                let ready = poll_once(&mut task.future);
                settle(queue, task, ready);
                proof {
                    let s1 = start.subrange(0, polls + 1);
                    assert(s1.drop_last() == start.subrange(0, polls as int));
                    assert(s1.last() == id);
                    let k0 = keep;
                    keep = keep.push(!ready);
                    assert(keep.drop_last() == k0);
                    if !ready {
                        assert(ids(queue@) =~= ids(before).push(id));
                    }
                    assert(ids(queue@) =~= kept(s1, keep));
                }
            },
            None => {
                proof {
                    assert(false);
                }
            },
        }
        polls = polls + 1;
    }
    proof {
        assert(start.subrange(0, total as int) == start);
    }
    polls
}

/// Runs deferred tasks cooperatively, once per tick. Tasks in `remote` may
/// come from any thread; tasks in `local` only from the owning thread.
pub struct ManagedExecutor<S, L> {
    pub remote: VecDeque<Task<S>>,
    pub local: VecDeque<Task<L>>,
    /// The id that the next submitted task gets.
    pub next_id: u64,
}

impl<S: std::future::Future<Output = ()> + Unpin, L: std::future::Future<Output = ()> + Unpin> ManagedExecutor<S, L> {
    pub fn new() -> (r: Self)
        ensures
            r.remote@.len() == 0,
            r.local@.len() == 0,
            r.next_id == 1,
    {
        ManagedExecutor { remote: VecDeque::new(), local: VecDeque::new(), next_id: 1 }
    }

    /// Queues a task that any thread may submit. Returns its id.
    pub fn spawn(&mut self, future: S) -> (id: u64)
        requires
            old(self).next_id < u64::MAX,
        ensures
            id == old(self).next_id,
            final(self).next_id == old(self).next_id + 1,
            final(self).remote@ == old(self).remote@.push(Task { id, future }),
            ids(final(self).remote@) == ids(old(self).remote@).push(id),
            final(self).local@ == old(self).local@,
    {
        let id = self.next_id;
        self.remote.push_back(Task { id, future });
        self.next_id = id + 1;
        proof {
            assert(ids(self.remote@) =~= ids(old(self).remote@).push(id));
        }
        id
    }

    /// Queues a task bound to the owning thread. Returns its id.
    pub fn spawn_local(&mut self, future: L) -> (id: u64)
        requires
            old(self).next_id < u64::MAX,
        ensures
            id == old(self).next_id,
            final(self).next_id == old(self).next_id + 1,
            final(self).local@ == old(self).local@.push(Task { id, future }),
            ids(final(self).local@) == ids(old(self).local@).push(id),
            final(self).remote@ == old(self).remote@,
    {
        let id = self.next_id;
        self.local.push_back(Task { id, future });
        self.next_id = id + 1;
        proof {
            assert(ids(self.local@) =~= ids(old(self).local@).push(id));
        }
        id
    }

    /// One pass over each queue: every task queued on entry is polled exactly
    /// once, cross-thread tasks first. Finished tasks are dropped; the others
    /// keep their order at the back of their queue for the next flush.
    /// Returns the number of polls, which is the number of tasks on entry.
    pub fn flush(&mut self) -> (polls: usize)
        requires
            old(self).remote@.len() + old(self).local@.len() <= usize::MAX,
        ensures
            polls == old(self).remote@.len() + old(self).local@.len(),
            final(self).next_id == old(self).next_id,
            exists|keep: Seq<bool>|
                keep.len() == old(self).remote@.len() && ids(final(self).remote@) == #[trigger] kept(ids(old(self).remote@), keep),
            exists|keep: Seq<bool>|
                keep.len() == old(self).local@.len() && ids(final(self).local@) == #[trigger] kept(ids(old(self).local@), keep),
    {
        let a = drain(&mut self.remote);
        let b = drain(&mut self.local);
        a + b
    }

    /// Ids of the queued cross-thread tasks, front first.
    pub fn remote_ids(&self) -> (r: Vec<u64>)
        ensures
            r@ == ids(self.remote@),
    {
        let mut r: Vec<u64> = Vec::new();
        let mut i: usize = 0;
        while i < self.remote.len()
            invariant
                i <= self.remote@.len(),
                r@ == ids(self.remote@).subrange(0, i as int),
            decreases self.remote@.len() - i,
        {
            r.push(self.remote[i].id);
            proof {
                assert(ids(self.remote@).subrange(0, i + 1) =~= ids(self.remote@).subrange(0, i as int).push(self.remote@[i as int].id));
            }
            i = i + 1;
        }
        proof {
            assert(ids(self.remote@).subrange(0, i as int) =~= ids(self.remote@));
        }
        r
    }

    /// Ids of the queued thread-bound tasks, front first.
    pub fn local_ids(&self) -> (r: Vec<u64>)
        ensures
            r@ == ids(self.local@),
    {
        let mut r: Vec<u64> = Vec::new();
        let mut i: usize = 0;
        while i < self.local.len()
            invariant
                i <= self.local@.len(),
                r@ == ids(self.local@).subrange(0, i as int),
            decreases self.local@.len() - i,
        {
            r.push(self.local[i].id);
            proof {
                assert(ids(self.local@).subrange(0, i + 1) =~= ids(self.local@).subrange(0, i as int).push(self.local@[i as int].id));
            }
            i = i + 1;
        }
        proof {
            assert(ids(self.local@).subrange(0, i as int) =~= ids(self.local@));
        }
        r
    }
}

} // verus!
