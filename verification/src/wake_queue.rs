//! The queue of tasks that were awoken.

use std::collections::VecDeque;

use concurrent_queue::ConcurrentQueue;
use vstd::prelude::*;

verus! {

/// The queue of the crate `concurrent-queue`.
#[verifier::external_type_specification]
#[verifier::external_body]
#[verifier::reject_recursive_types(T)]
pub struct ExConcurrentQueue<T>(ConcurrentQueue<T>);

/// What a queue holds, from the item that was pushed first to the one that was pushed last.
pub uninterp spec fn queued(queue: ConcurrentQueue<usize>) -> Seq<usize>;

/// Whether a queue takes every item: it has no limit and was not closed.
pub uninterp spec fn unlimited(queue: ConcurrentQueue<usize>) -> bool;

/// Calls `ConcurrentQueue::unbounded`, which makes an empty queue without a limit that is open.
#[verifier::external_body]
fn queue_unbounded() -> (queue: ConcurrentQueue<usize>)
    ensures
        queued(queue) == Seq::<usize>::empty(),
        unlimited(queue),
{
    ConcurrentQueue::unbounded()
}

/// Calls `ConcurrentQueue::push`, which appends the item to a queue that is open and has no
/// limit. The queue is borrowed exclusively, so that no other thread touches it meanwhile. Says
/// whether the item was taken.
#[verifier::external_body]
fn queue_push(queue: &mut ConcurrentQueue<usize>, item: usize) -> (taken: bool)
    ensures
        unlimited(*old(queue)) ==> taken,
        taken ==> queued(*final(queue)) == queued(*old(queue)).push(item),
        !taken ==> queued(*final(queue)) == queued(*old(queue)),
        unlimited(*final(queue)) == unlimited(*old(queue)),
{
    queue.push(item).is_ok()
}

/// Calls `ConcurrentQueue::pop`, which takes out the item that was pushed first, and fails on an
/// empty queue alone. The queue is borrowed exclusively, so that no other thread touches it
/// meanwhile.
#[verifier::external_body]
fn queue_pop(queue: &mut ConcurrentQueue<usize>) -> (item: Option<usize>)
    ensures
        match item {
            Some(first) => {
                &&& queued(*old(queue)).len() > 0
                &&& first == queued(*old(queue))[0]
                &&& queued(*final(queue)) == queued(*old(queue)).drop_first()
            },
            None => {
                &&& queued(*old(queue)).len() == 0
                &&& queued(*final(queue)) == queued(*old(queue))
            },
        },
        unlimited(*final(queue)) == unlimited(*old(queue)),
{
    queue.pop().ok()
}

/// Calls `ConcurrentQueue::len`, which counts the items in the queue. Items come and go through an
/// exclusive borrow alone, so that the count stands for as long as the queue is shared.
#[verifier::external_body]
fn queue_len(queue: &ConcurrentQueue<usize>) -> (n: usize)
    ensures
        n == queued(*queue).len(),
{
    queue.len()
}

/// How much of a queue is still to be drained.
#[derive(Debug, Clone, Copy)]
pub struct Drain {
    /// How many of the wakeups from the queue's own thread.
    pub local: usize,
    /// How many of the wakeups from other threads.
    pub concurrent: usize,
}

/// The tasks that were awoken, by number. Wakeups from the queue's own thread and from other
/// threads are kept apart.
pub struct WakeQueue {
    local: VecDeque<usize>,
    concurrent: ConcurrentQueue<usize>,
}

/// The front of a queue that a drain is still to take.
pub open spec fn front(items: Seq<usize>, limit: int) -> Seq<usize> {
    if limit < items.len() {
        items.take(limit)
    } else {
        items
    }
}

/// What adding a wakeup does: it comes last among those of its kind.
pub open spec fn pushed(
    before: WakeQueue,
    val: usize,
    on_local_thread: bool,
    after: WakeQueue,
) -> bool {
    &&& after.local() == if on_local_thread {
        before.local().push(val)
    } else {
        before.local()
    }
    &&& after.concurrent() == if on_local_thread {
        before.concurrent()
    } else {
        before.concurrent().push(val)
    }
}

/// What a step of a drain does: it takes out the first wakeup that is still to be handed out, and
/// there is none exactly if the drain is through.
pub open spec fn drained(
    before: WakeQueue,
    drain: Drain,
    val: Option<usize>,
    after: WakeQueue,
    drain2: Drain,
) -> bool {
    &&& before.covers(drain) ==> after.covers(drain2)
    &&& match val {
        Some(first) => {
            &&& before.pending(drain).len() > 0
            &&& first == before.pending(drain)[0]
            &&& after.pending(drain2) == before.pending(drain).drop_first()
            &&& if drain.local > 0 {
                &&& after.local() == before.local().drop_first()
                &&& after.concurrent() == before.concurrent()
                &&& drain2.local == drain.local - 1
                &&& drain2.concurrent == drain.concurrent
            } else {
                &&& after.local() == before.local()
                &&& after.concurrent() == before.concurrent().drop_first()
                &&& drain2.local == 0
                &&& drain2.concurrent == drain.concurrent - 1
            }
        },
        None => {
            &&& before.pending(drain).len() == 0
            &&& drain2.local == drain2.concurrent == 0
            &&& after.local() == before.local()
            &&& after.concurrent() == before.concurrent()
        },
    }
}

/// What starting a drain does: on the queue's own thread it covers the wakeups that are there, and
/// on another none.
pub open spec fn starts_drain(queue: WakeQueue, on_local_thread: bool, drain: Drain) -> bool {
    &&& queue.covers(drain)
    &&& on_local_thread ==> {
        &&& drain.local == queue.local().len()
        &&& drain.concurrent == queue.concurrent().len()
        &&& queue.pending(drain) == queue.local() + queue.concurrent()
    }
    &&& !on_local_thread ==> {
        &&& drain.local == 0
        &&& drain.concurrent == 0
        &&& queue.pending(drain) == Seq::<usize>::empty()
    }
}

/// What resetting does: on the queue's own thread it leaves the given wakeup alone, and on another
/// everything.
pub open spec fn resets(
    before: WakeQueue,
    init_val: usize,
    on_local_thread: bool,
    after: WakeQueue,
) -> bool {
    &&& on_local_thread ==> {
        &&& after.local() == seq![init_val]
        &&& after.concurrent() == Seq::<usize>::empty()
    }
    &&& !on_local_thread ==> {
        &&& after.local() == before.local()
        &&& after.concurrent() == before.concurrent()
    }
}

impl WakeQueue {
    /// The wakeups from the queue's own thread.
    pub closed spec fn local(&self) -> Seq<usize> {
        self.local@
    }

    /// The wakeups from other threads.
    pub closed spec fn concurrent(&self) -> Seq<usize> {
        queued(self.concurrent)
    }

    /// The queue takes every wakeup.
    pub closed spec fn wf(&self) -> bool {
        unlimited(self.concurrent)
    }

    /// The wakeups that a drain is still to hand out, in order.
    pub open spec fn pending(&self, drain: Drain) -> Seq<usize> {
        front(self.local(), drain.local as int) + front(
            self.concurrent(),
            drain.concurrent as int,
        )
    }

    /// Whether everything that a drain is still to hand out is there.
    pub open spec fn covers(&self, drain: Drain) -> bool {
        drain.local <= self.local().len() && drain.concurrent <= self.concurrent().len()
    }

    /// An empty queue, with room for `capacity` wakeups of its own thread. The contract leaves
    /// unsaid how much memory was set aside.
    pub fn with_capacity(capacity: usize) -> (queue: WakeQueue)
        requires
            capacity * 8 <= isize::MAX,
        ensures
            queue.wf(),
            queue.local() == Seq::<usize>::empty(),
            queue.concurrent() == Seq::<usize>::empty(),
    {
        WakeQueue { local: VecDeque::with_capacity(capacity), concurrent: queue_unbounded() }
    }

    /// Adds a wakeup, which comes from the queue's own thread or from another one.
    pub fn push(&mut self, val: usize, on_local_thread: bool)
        requires
            old(self).wf(),
        ensures
            final(self).wf(),
            pushed(*old(self), val, on_local_thread, *final(self)),
    {
        if on_local_thread {
            self.local.push_back(val);
        } else {
            queue_push(&mut self.concurrent, val);
        }
    }

    /// Starts a drain of the wakeups that are there now. Only the queue's own thread drains it.
    pub fn begin_drain(&self, on_local_thread: bool) -> (drain: Drain)
        requires
            self.wf(),
        ensures
            starts_drain(*self, on_local_thread, drain),
    {
        let drain = if on_local_thread {
            Drain { local: self.local.len(), concurrent: queue_len(&self.concurrent) }
        } else {
            Drain { local: 0, concurrent: 0 }
        };
        assert(self.pending(drain) =~= if on_local_thread {
            self.local() + self.concurrent()
        } else {
            Seq::<usize>::empty()
        });
        drain
    }

    /// Takes out the next wakeup of a drain, first those from the queue's own thread.
    pub fn next_drained(&mut self, drain: &mut Drain) -> (val: Option<usize>)
        requires
            old(self).wf(),
            old(drain).local <= old(self).local().len(),
        ensures
            final(self).wf(),
            final(drain).local <= final(self).local().len(),
            drained(*old(self), *old(drain), val, *final(self), *final(drain)),
    {
        if drain.local > 0 {
            drain.local = drain.local - 1;
            let val = self.local.pop_front();
            assert(self.pending(*drain) =~= old(self).pending(*old(drain)).drop_first());
            return val;
        }
        if drain.concurrent > 0 {
            if let Some(val) = queue_pop(&mut self.concurrent) {
                drain.concurrent = drain.concurrent - 1;
                assert(self.pending(*drain) =~= old(self).pending(*old(drain)).drop_first());
                return Some(val);
            }
            drain.concurrent = 0;
        }
        None
    }

    /// Drops all wakeups but the given one. Only the queue's own thread does so.
    pub fn reset(&mut self, init_val: usize, on_local_thread: bool)
        requires
            old(self).wf(),
        ensures
            final(self).wf(),
            resets(*old(self), init_val, on_local_thread, *final(self)),
    {
        if on_local_thread {
            self.local.clear();
            self.local.push_back(init_val);
            loop
                invariant
                    unlimited(self.concurrent),
                    self.local@ == seq![init_val],
                ensures
                    unlimited(self.concurrent),
                    self.local@ == seq![init_val],
                    queued(self.concurrent).len() == 0,
                decreases queued(self.concurrent).len(),
            {
                if queue_pop(&mut self.concurrent).is_none() {
                    break;
                }
            }
            assert(self.concurrent() =~= Seq::<usize>::empty());
        }
    }

    /// The number of wakeups from the queue's own thread.
    pub fn local_len(&self) -> (n: usize)
        ensures
            n == self.local().len(),
    {
        self.local.len()
    }

    /// The number of wakeups from other threads.
    pub fn concurrent_len(&self) -> (n: usize)
        ensures
            n == self.concurrent().len(),
    {
        queue_len(&self.concurrent)
    }
}

/// What happens to a queue while it is drained.
pub ghost enum DrainStep {
    /// A wakeup comes in.
    Push { val: usize, on_local_thread: bool },
    /// The drain goes on.
    Next(Option<usize>),
}

/// Whether a step leads from one state of the queue and the drain to the next.
pub open spec fn steps_to(
    before: WakeQueue,
    drain: Drain,
    step: DrainStep,
    after: WakeQueue,
    drain2: Drain,
) -> bool {
    match step {
        DrainStep::Push { val, on_local_thread } => {
            &&& pushed(before, val, on_local_thread, after)
            &&& drain2 == drain
        },
        DrainStep::Next(val) => drained(before, drain, val, after, drain2),
    }
}

/// The wakeups that a drain handed out over some steps.
pub open spec fn handed_out(steps: Seq<DrainStep>) -> Seq<usize>
    decreases steps.len(),
{
    if steps.len() == 0 {
        Seq::empty()
    } else {
        let front = handed_out(steps.drop_last());
        match steps.last() {
            DrainStep::Next(Some(val)) => front.push(val),
            _ => front,
        }
    }
}

/// A wakeup that comes in while the queue is drained is left for the next drain.
pub proof fn law_push_leaves_drain_alone(
    before: WakeQueue,
    after: WakeQueue,
    drain: Drain,
    val: usize,
    on_local_thread: bool,
)
    requires
        before.covers(drain),
        pushed(before, val, on_local_thread, after),
    ensures
        after.covers(drain),
        after.pending(drain) == before.pending(drain),
{
    assert(front(after.local(), drain.local as int) =~= front(before.local(), drain.local as int));
    assert(front(after.concurrent(), drain.concurrent as int) =~= front(
        before.concurrent(),
        drain.concurrent as int,
    ));
}

/// However many wakeups come in meanwhile, a drain hands out the wakeups that were there when it
/// started, each once and in order, and no others: what it has handed out and what it is still to
/// hand out make up what was there. So it comes to an end, and by then has handed out all of them.
pub proof fn law_drain_hands_out_what_was_there(
    queues: Seq<WakeQueue>,
    drains: Seq<Drain>,
    steps: Seq<DrainStep>,
)
    requires
        queues.len() == steps.len() + 1,
        drains.len() == steps.len() + 1,
        queues[0].covers(drains[0]),
        forall|k: int|
            0 <= k < steps.len() ==> steps_to(
                #[trigger] queues[k],
                drains[k],
                steps[k],
                queues[k + 1],
                drains[k + 1],
            ),
    ensures
        queues.last().covers(drains.last()),
        handed_out(steps) + queues.last().pending(drains.last()) == queues[0].pending(drains[0]),
        handed_out(steps).len() <= queues[0].pending(drains[0]).len(),
        steps.len() > 0 && steps.last() == DrainStep::Next(None) ==> handed_out(steps)
            == queues[0].pending(drains[0]),
    decreases steps.len(),
{
    let was_there = queues[0].pending(drains[0]);
    if steps.len() == 0 {
        assert(handed_out(steps) + was_there =~= was_there);
    } else {
        let k = steps.len() - 1;
        assert forall|j: int| 0 <= j < steps.drop_last().len() implies steps_to(
            #[trigger] queues.drop_last()[j],
            drains.drop_last()[j],
            steps.drop_last()[j],
            queues.drop_last()[j + 1],
            drains.drop_last()[j + 1],
        ) by {
            assert(steps_to(queues[j], drains[j], steps[j], queues[j + 1], drains[j + 1]));
        }
        law_drain_hands_out_what_was_there(
            queues.drop_last(),
            drains.drop_last(),
            steps.drop_last(),
        );
        let front = handed_out(steps.drop_last());
        let left = queues[k].pending(drains[k]);
        assert(front + left == was_there);
        assert(steps_to(queues[k], drains[k], steps[k], queues[k + 1], drains[k + 1]));
        match steps[k] {
            DrainStep::Push { val, on_local_thread } => {
                law_push_leaves_drain_alone(
                    queues[k],
                    queues[k + 1],
                    drains[k],
                    val,
                    on_local_thread,
                );
            },
            DrainStep::Next(Some(val)) => {
                assert(front.push(val) + left.drop_first() =~= front + left);
            },
            DrainStep::Next(None) => {
                assert(queues[k + 1].pending(drains[k + 1]) =~= left);
                assert(front + left =~= front);
            },
        }
    }
}

/// The wakeups that came in over some steps, from the queue's own thread or from others.
pub open spec fn came_in(steps: Seq<DrainStep>, from_local_thread: bool) -> Seq<usize>
    decreases steps.len(),
{
    if steps.len() == 0 {
        Seq::empty()
    } else {
        let front = came_in(steps.drop_last(), from_local_thread);
        match steps.last() {
            DrainStep::Push { val, on_local_thread } if on_local_thread == from_local_thread => {
                front.push(val)
            },
            _ => front,
        }
    }
}

/// No wakeup is lost, none comes twice, and none changes places. What a drain has handed out is the
/// front of what was there when it started, first of the wakeups of the queue's own thread, then of
/// those of others. The queue holds the rest, and behind it what came in since. A drain that is
/// through has handed out everything that was there and leaves exactly what came in since.
pub proof fn law_every_wakeup_is_accounted_for(
    queues: Seq<WakeQueue>,
    drains: Seq<Drain>,
    steps: Seq<DrainStep>,
)
    requires
        queues.len() == steps.len() + 1,
        drains.len() == steps.len() + 1,
        starts_drain(queues[0], true, drains[0]),
        forall|i: int, j: int|
            #![trigger queues[i], queues[j]]
            0 <= i < steps.len() && j == i + 1 ==> steps_to(
                queues[i],
                drains[i],
                steps[i],
                queues[j],
                drains[j],
            ),
    ensures
        ({
            let local = queues[0].local();
            let concurrent = queues[0].concurrent();
            let taken_local = local.len() - drains.last().local;
            let taken_concurrent = concurrent.len() - drains.last().concurrent;
            &&& 0 <= taken_local <= local.len()
            &&& 0 <= taken_concurrent <= concurrent.len()
            &&& taken_concurrent > 0 ==> taken_local == local.len()
            &&& handed_out(steps) == local.take(taken_local) + concurrent.take(taken_concurrent)
            &&& queues.last().local() == local.skip(taken_local) + came_in(steps, true)
            &&& queues.last().concurrent() == concurrent.skip(taken_concurrent) + came_in(
                steps,
                false,
            )
        }),
        steps.len() > 0 && steps.last() == DrainStep::Next(None) ==> {
            &&& handed_out(steps) == queues[0].local() + queues[0].concurrent()
            &&& queues.last().local() == came_in(steps, true)
            &&& queues.last().concurrent() == came_in(steps, false)
        },
    decreases steps.len(),
{
    let local = queues[0].local();
    let concurrent = queues[0].concurrent();
    if steps.len() == 0 {
        assert(local.take(0) + concurrent.take(0) =~= handed_out(steps));
        assert(local.skip(0) + came_in(steps, true) =~= local);
        assert(concurrent.skip(0) + came_in(steps, false) =~= concurrent);
    } else {
        let k = steps.len() - 1;
        let earlier = queues.drop_last();
        assert forall|i: int, j: int|
            #![trigger earlier[i], earlier[j]]
            0 <= i < steps.drop_last().len() && j == i + 1 implies steps_to(
            earlier[i],
            drains.drop_last()[i],
            steps.drop_last()[i],
            earlier[j],
            drains.drop_last()[j],
        ) by {
            assert(steps_to(queues[i], drains[i], steps[i], queues[j], drains[j]));
        }
        law_every_wakeup_is_accounted_for(earlier, drains.drop_last(), steps.drop_last());
        let front = handed_out(steps.drop_last());
        let queue = queues[k];
        let drain = drains[k];
        let queue2 = queues[k + 1];
        let drain2 = drains[k + 1];
        assert(steps_to(queues[k], drains[k], steps[k], queues[k + 1], drains[k + 1]));
        let t1 = local.len() - drain.local;
        let t2 = concurrent.len() - drain.concurrent;
        let came = came_in(steps.drop_last(), true);
        let came2 = came_in(steps.drop_last(), false);
        assert(queue.local() == local.skip(t1) + came);
        assert(queue.concurrent() == concurrent.skip(t2) + came2);
        assert(queue.covers(drain));
        match steps[k] {
            DrainStep::Push { val, on_local_thread } => {
                assert(queue2.local() =~= local.skip(t1) + came_in(steps, true));
                assert(queue2.concurrent() =~= concurrent.skip(t2) + came_in(steps, false));
            },
            DrainStep::Next(Some(val)) => {
                if drain.local > 0 {
                    assert(val == local[t1]);
                    assert(front.push(val) =~= local.take(t1 + 1) + concurrent.take(t2));
                    assert(queue2.local() =~= local.skip(t1 + 1) + came);
                } else {
                    assert(val == concurrent[t2]);
                    assert(front.push(val) =~= local.take(t1) + concurrent.take(t2 + 1));
                    assert(queue2.concurrent() =~= concurrent.skip(t2 + 1) + came2);
                }
            },
            DrainStep::Next(None) => {
                assert(drain.local == 0 && drain.concurrent == 0);
                assert(local.take(t1) + concurrent.take(t2) =~= local + concurrent);
                assert(local.skip(t1) + came =~= came);
                assert(concurrent.skip(t2) + came2 =~= came2);
            },
        }
    }
}

/// Another thread than the queue's own drains nothing, and resets nothing. A reset on its own
/// thread leaves one wakeup, the given one.
pub proof fn law_only_own_thread_drains_and_resets(
    queue: WakeQueue,
    drain: Drain,
    val: Option<usize>,
    after: WakeQueue,
    drain2: Drain,
    init_val: usize,
    on_local_thread: bool,
    reset: WakeQueue,
)
    requires
        starts_drain(queue, false, drain),
        drained(queue, drain, val, after, drain2),
        resets(queue, init_val, on_local_thread, reset),
    ensures
        val is None,
        after.local() == queue.local(),
        after.concurrent() == queue.concurrent(),
        on_local_thread ==> {
            &&& reset.local().len() == 1
            &&& reset.local()[0] == init_val
            &&& reset.concurrent().len() == 0
        },
        !on_local_thread ==> {
            &&& reset.local() == queue.local()
            &&& reset.concurrent() == queue.concurrent()
        },
{
    assert(queue.pending(drain) =~= Seq::<usize>::empty());
}

} // verus!
