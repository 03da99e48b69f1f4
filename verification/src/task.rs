//! Spawned tasks: how they are awoken, cancelled and waited for.

use vstd::prelude::*;

use crate::wake_queue::WakeQueue;
use crate::Poll;

verus! {

/// Puts a task into the queue of awoken tasks, once for each time it went to sleep.
pub struct TaskWaker {
    /// Whether the task was awoken since it last went to sleep.
    pub awoken: bool,
    /// The task's number.
    pub task_id: usize,
}

/// What waking a task does to its waker and to the queue: the task is put into the queue, with the
/// wakeups of the thread that wakes it, if and only if it was asleep.
pub open spec fn wakes(
    before: TaskWaker,
    local: Seq<usize>,
    concurrent: Seq<usize>,
    on_local_thread: bool,
    after: TaskWaker,
    local2: Seq<usize>,
    concurrent2: Seq<usize>,
    first: bool,
) -> bool {
    &&& first == !before.awoken
    &&& after == TaskWaker { awoken: true, ..before }
    &&& local2 == if first && on_local_thread {
        local.push(before.task_id)
    } else {
        local
    }
    &&& concurrent2 == if first && !on_local_thread {
        concurrent.push(before.task_id)
    } else {
        concurrent
    }
}

/// A waker of the task with this number that is asleep, made so or put to sleep.
pub open spec fn asleep(waker: TaskWaker, task_id: usize) -> bool {
    !waker.awoken && waker.task_id == task_id
}

impl TaskWaker {
    /// A waker for the task with this number, which is asleep.
    pub fn new(task_id: usize) -> (waker: TaskWaker)
        ensures
            asleep(waker, task_id),
    {
        TaskWaker { awoken: false, task_id }
    }

    /// Wakes the task up. Says whether whoever polls the tasks is to be awoken too, which is the
    /// case if the task was asleep.
    pub fn wake(&mut self, queue: &mut WakeQueue, on_local_thread: bool) -> (first: bool)
        requires
            old(queue).wf(),
        ensures
            final(queue).wf(),
            wakes(
                *old(self),
                old(queue).local(),
                old(queue).concurrent(),
                on_local_thread,
                *final(self),
                final(queue).local(),
                final(queue).concurrent(),
                first,
            ),
    {
        if self.awoken {
            return false;
        }
        self.awoken = true;
        queue.push(self.task_id, on_local_thread);
        true
    }

    /// Lets the waker produce a wakeup again.
    pub fn to_sleep(&mut self)
        ensures
            asleep(*final(self), old(self).task_id),
    {
        self.awoken = false;
    }
}

/// What a task and its handle share about the task's result.
pub struct RetData<T, W> {
    /// The result, from when the task completes until the handle takes it.
    pub value: Option<T>,
    /// Who waits for the result.
    pub waker: Option<W>,
}

/// What a task and its handle share about the task itself.
pub struct HandleData<W> {
    /// Whether the task was cancelled.
    pub cancelled: bool,
    /// The task's own waker, from when it was first polled until it is cancelled.
    pub waker: Option<W>,
}

/// A handle to a spawned task.
pub struct TaskHandle<T, W> {
    /// The task's result.
    pub ret: RetData<T, W>,
    /// The task itself.
    pub handle_data: HandleData<W>,
}

/// What cancelling a task does: it is marked, and its waker is taken out to be called.
pub open spec fn cancels<T, W>(
    before: TaskHandle<T, W>,
    after: TaskHandle<T, W>,
    wake: Option<W>,
) -> bool {
    &&& after.handle_data == HandleData::<W> { cancelled: true, waker: None }
    &&& after.ret == before.ret
    &&& wake == before.handle_data.waker
}

/// What polling a handle does: the result is taken out if it is there, and the waker left if not.
pub open spec fn polls<T, W>(
    before: TaskHandle<T, W>,
    waker: W,
    after: TaskHandle<T, W>,
    polled: Poll<T>,
) -> bool {
    &&& after.handle_data == before.handle_data
    &&& match before.ret.value {
        Some(value) => {
            &&& polled == Poll::Ready(value)
            &&& after.ret == RetData { value: None, ..before.ret }
        },
        None => {
            &&& polled is Pending
            &&& after.ret == RetData { waker: Some(waker), ..before.ret }
        },
    }
}

/// What the end of a task does: its result is left, and who waits for it is taken out to be called.
pub open spec fn completes<T, W>(
    before: TaskHandle<T, W>,
    value: T,
    after: TaskHandle<T, W>,
    wake: Option<W>,
) -> bool {
    &&& after.handle_data == before.handle_data
    &&& after.ret == RetData::<T, W> { value: Some(value), waker: None }
    &&& wake == before.ret.waker
}

/// What the start of a task does: its own waker is left.
pub open spec fn attaches<T, W>(
    before: TaskHandle<T, W>,
    waker: W,
    after: TaskHandle<T, W>,
) -> bool {
    &&& after.handle_data == HandleData { waker: Some(waker), ..before.handle_data }
    &&& after.ret == before.ret
}

/// Whether the task's result is there to be taken.
pub open spec fn has_result<T, W>(handle: TaskHandle<T, W>) -> bool {
    handle.ret.value is Some
}

/// Whether the task was cancelled.
pub open spec fn was_cancelled<T, W>(handle: TaskHandle<T, W>) -> bool {
    handle.handle_data.cancelled
}

/// A handle to a task that nothing has happened to.
pub open spec fn fresh<T, W>(handle: TaskHandle<T, W>) -> bool {
    &&& handle.ret.value is None
    &&& handle.ret.waker is None
    &&& !handle.handle_data.cancelled
    &&& handle.handle_data.waker is None
}

impl<T, W> TaskHandle<T, W> {
    /// A handle to a task that has not been polled.
    pub fn new() -> (handle: TaskHandle<T, W>)
        ensures
            fresh(handle),
    {
        TaskHandle {
            ret: RetData { value: None, waker: None },
            handle_data: HandleData { cancelled: false, waker: None },
        }
    }

    /// Cancels the task. A waker that comes back is to be called: the task is then in the task
    /// list, and has to be awoken for its cancellation to be seen.
    pub fn cancel(&mut self) -> (wake: Option<W>)
        ensures
            cancels(*old(self), *final(self), wake),
    {
        self.handle_data.cancelled = true;
        self.handle_data.waker.take()
    }

    /// Whether the task is finished.
    pub fn is_finished(&self) -> (finished: bool)
        ensures
            finished == has_result(*self),
    {
        self.ret.value.is_some()
    }

    /// Whether the task was cancelled.
    pub fn is_cancelled(&self) -> (cancelled: bool)
        ensures
            cancelled == was_cancelled(*self),
    {
        self.handle_data.cancelled
    }

    /// Takes the result, or leaves the waker to be called once it is there.
    pub fn poll(&mut self, waker: W) -> (polled: Poll<T>)
        ensures
            polls(*old(self), waker, *final(self), polled),
    {
        if let Some(value) = self.ret.value.take() {
            return Poll::Ready(value);
        }
        self.ret.waker = Some(waker);
        Poll::Pending
    }

    /// Leaves the task's result. A waker that comes back is to be called.
    pub fn complete(&mut self, value: T) -> (wake: Option<W>)
        ensures
            completes(*old(self), value, *final(self), wake),
    {
        self.ret.value = Some(value);
        self.ret.waker.take()
    }

    /// Leaves the task's own waker, once the task is about to be polled for the first time.
    pub fn attach(&mut self, waker: W)
        ensures
            attaches(*old(self), waker, *final(self)),
    {
        self.handle_data.waker = Some(waker);
    }
}

/// One call of a task's waker, with its state and the queue before and after it.
pub ghost struct WakeRecord {
    pub before: TaskWaker,
    pub local: Seq<usize>,
    pub concurrent: Seq<usize>,
    pub on_local_thread: bool,
    pub after: TaskWaker,
    pub local2: Seq<usize>,
    pub concurrent2: Seq<usize>,
    pub first: bool,
}

impl WakeRecord {
    /// The call did what waking a task does.
    pub open spec fn valid(self) -> bool {
        wakes(
            self.before,
            self.local,
            self.concurrent,
            self.on_local_thread,
            self.after,
            self.local2,
            self.concurrent2,
            self.first,
        )
    }
}

/// However often a task is awoken, from whatever thread and whatever else comes into the queue
/// meanwhile, none but the first call puts it into the queue until it goes to sleep again.
pub proof fn law_one_wakeup_until_asleep(calls: Seq<WakeRecord>)
    requires
        forall|k: int| 0 <= k < calls.len() ==> (#[trigger] calls[k]).valid(),
        forall|k: int| 0 < k < calls.len() ==> (#[trigger] calls[k]).before == calls[k - 1].after,
    ensures
        calls.len() > 0 ==> calls[0].first == !calls[0].before.awoken,
        forall|k: int|
            0 < k < calls.len() ==> {
                &&& !(#[trigger] calls[k]).first
                &&& calls[k].local2 == calls[k].local
                &&& calls[k].concurrent2 == calls[k].concurrent
                &&& calls[k].after == calls[k].before
            },
        calls.len() > 0 ==> {
            let call = calls[0];
            &&& call.after.awoken
            &&& call.after.task_id == call.before.task_id
            &&& call.local2.len() + call.concurrent2.len() == call.local.len()
                + call.concurrent.len() + if call.before.awoken {
                0int
            } else {
                1int
            }
        },
{
    assert forall|k: int| 0 < k < calls.len() implies {
        &&& !(#[trigger] calls[k]).first
        &&& calls[k].local2 == calls[k].local
        &&& calls[k].concurrent2 == calls[k].concurrent
        &&& calls[k].after == calls[k].before
    } by {
        assert(calls[k].valid());
        assert(calls[k - 1].valid());
    }
    if calls.len() > 0 {
        assert(calls[0].valid());
    }
}

/// A task that goes to sleep is put into the queue by the next wakeup, by its own number and last
/// among the wakeups of the thread that wakes it: none is missed. Whoever polls the tasks is to be
/// awoken then.
pub proof fn law_asleep_is_woken(waker: TaskWaker, task_id: usize, call: WakeRecord)
    requires
        asleep(waker, task_id),
        call.before == waker,
        call.valid(),
    ensures
        call.first,
        call.after.awoken,
        call.after.task_id == task_id,
        call.local2 == if call.on_local_thread {
            call.local.push(task_id)
        } else {
            call.local
        },
        call.concurrent2 == if call.on_local_thread {
            call.concurrent
        } else {
            call.concurrent.push(task_id)
        },
{
}

/// Polling the handle gives the result exactly if the task is finished, and takes it: the task is
/// then not finished any more.
pub proof fn law_finished_is_ready<T, W>(
    before: TaskHandle<T, W>,
    waker: W,
    after: TaskHandle<T, W>,
    polled: Poll<T>,
)
    requires
        polls(before, waker, after, polled),
    ensures
        has_result(before) <==> polled is Ready,
        before.ret.value is Some <==> polled is Ready,
        polled matches Poll::Ready(value) ==> before.ret.value == Some(value),
        after.ret.value is None,
        !has_result(after),
{
}

/// Nothing has happened to a new task: it is neither finished nor cancelled, its handle has nothing
/// to give, its end wakes nobody, and cancelling it wakes nobody.
pub proof fn law_new_task_is_untouched<T, W>(
    handle: TaskHandle<T, W>,
    waker: W,
    waiting: TaskHandle<T, W>,
    polled: Poll<T>,
    value: T,
    completed: TaskHandle<T, W>,
    wake: Option<W>,
    cancelled: TaskHandle<T, W>,
    wake_task: Option<W>,
)
    requires
        fresh(handle),
        polls(handle, waker, waiting, polled),
        completes(handle, value, completed, wake),
        cancels(handle, cancelled, wake_task),
    ensures
        !has_result(handle),
        !was_cancelled(handle),
        polled is Pending,
        wake is None,
        has_result(completed),
        !was_cancelled(completed),
        wake_task is None,
        was_cancelled(cancelled),
        !has_result(cancelled),
{
}

/// Waiting for a task and ending it do not touch whether it was cancelled and how it is awoken.
/// Cancelling and starting it do not touch its result and who waits for it.
pub proof fn law_task_and_result_are_apart<T, W>(
    before: TaskHandle<T, W>,
    after: TaskHandle<T, W>,
    waker: W,
    polled: Poll<T>,
    value: T,
    wake: Option<W>,
)
    ensures
        polls(before, waker, after, polled) || completes(before, value, after, wake) ==> {
            &&& after.handle_data.cancelled == before.handle_data.cancelled
            &&& after.handle_data.waker == before.handle_data.waker
        },
        cancels(before, after, wake) || attaches(before, waker, after) ==> {
            &&& after.ret.value == before.ret.value
            &&& after.ret.waker == before.ret.waker
        },
        attaches(before, waker, after) ==> {
            &&& after.handle_data.cancelled == before.handle_data.cancelled
            &&& after.handle_data.waker == Some(waker)
        },
        cancels(before, after, wake) ==> after.handle_data.cancelled && after.handle_data.waker
            is None,
        completes(before, value, after, wake) ==> after.ret.value == Some(value)
            && after.ret.waker is None,
{
}

/// The result that a task leaves is what its handle is given, even if the task was cancelled in
/// between.
pub proof fn law_result_is_delivered<T, W>(
    before: TaskHandle<T, W>,
    value: T,
    completed: TaskHandle<T, W>,
    wake: Option<W>,
    cancelled: TaskHandle<T, W>,
    wake_task: Option<W>,
    waker: W,
    after: TaskHandle<T, W>,
    polled: Poll<T>,
)
    requires
        completes(before, value, completed, wake),
        cancelled == completed || cancels(completed, cancelled, wake_task),
        polls(cancelled, waker, after, polled),
    ensures
        polled == Poll::Ready(value),
{
}

/// Whoever polled a handle last without a result is the one that the end of the task wakes.
pub proof fn law_last_waiter_is_woken<T, W>(
    before: TaskHandle<T, W>,
    waker: W,
    waiting: TaskHandle<T, W>,
    polled: Poll<T>,
    value: T,
    after: TaskHandle<T, W>,
    wake: Option<W>,
)
    requires
        polls(before, waker, waiting, polled),
        polled is Pending,
        completes(waiting, value, after, wake),
    ensures
        wake == Some(waker),
{
}

/// A cancelled task stays cancelled.
pub proof fn law_cancelled_for_good<T, W>(
    before: TaskHandle<T, W>,
    after: TaskHandle<T, W>,
    waker: W,
    value: T,
    polled: Poll<T>,
    wake: Option<W>,
)
    requires
        before.handle_data.cancelled,
        cancels(before, after, wake) || polls(before, waker, after, polled) || completes(
            before,
            value,
            after,
            wake,
        ) || attaches(before, waker, after),
    ensures
        after.handle_data.cancelled,
{
}

/// Cancelling a task that was polled wakes it, and cancelling it again wakes nobody.
pub proof fn law_cancel_wakes_once<T, W>(
    before: TaskHandle<T, W>,
    waker: W,
    attached: TaskHandle<T, W>,
    cancelled: TaskHandle<T, W>,
    wake1: Option<W>,
    again: TaskHandle<T, W>,
    wake2: Option<W>,
)
    requires
        attaches(before, waker, attached),
        cancels(attached, cancelled, wake1),
        cancels(cancelled, again, wake2),
    ensures
        wake1 == Some(waker),
        wake2 is None,
        again == cancelled,
{
}

} // verus!
