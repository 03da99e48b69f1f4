//! The executor: which task is polled next.
//!
//! The executor knows a task by a number that whoever spawns it picks, its ticket. A task that is
//! waiting also has a key, its place in the task list, and it is awoken by its key. One poll of
//! the future that drives the executor is a pass: [`Executor::next_action`] says what is to be
//! done next, until it says [`RunAction::Suspend`].

use slab::Slab;
use vstd::multiset::Multiset;
use vstd::prelude::*;

use crate::task::{HandleData, TaskHandle};
use crate::wake_queue::{Drain, WakeQueue};

verus! {

/// The list of the crate `slab`.
#[verifier::external_type_specification]
#[verifier::external_body]
#[verifier::reject_recursive_types(T)]
pub struct ExSlab<T>(Slab<T>);

/// What a list holds: under each key that is taken, a number.
pub uninterp spec fn listed(list: Slab<u64>) -> Map<usize, u64>;

/// The key under which a list keeps what is inserted next.
pub uninterp spec fn next_key(list: Slab<u64>) -> usize;

/// A list without entries.
pub open spec fn no_tasks() -> Map<usize, u64> {
    Map::empty()
}

/// Calls `Slab::with_capacity`, which makes an empty list. The bound is what an allocation can
/// hold, at no more than sixteen bytes for each entry. How much room the allocator gave is left
/// unsaid: it is no part of what the list holds. The first key is zero.
#[verifier::external_body]
fn slab_with_capacity(capacity: usize) -> (list: Slab<u64>)
    requires
        capacity * 16 <= isize::MAX,
    ensures
        listed(list) == no_tasks(),
        next_key(list) == 0,
{
    Slab::with_capacity(capacity)
}

/// Calls `Slab::vacant_key`, which tells the key that the next insertion takes. It is free.
#[verifier::external_body]
fn slab_vacant_key(list: &Slab<u64>) -> (key: usize)
    ensures
        key == next_key(*list),
        !listed(*list).contains_key(key),
{
    list.vacant_key()
}

/// Calls `Slab::insert`, which keeps the number under the next free key and tells the key.
#[verifier::external_body]
fn slab_insert(list: &mut Slab<u64>, ticket: u64) -> (key: usize)
    ensures
        key == next_key(*old(list)),
        !listed(*old(list)).contains_key(key),
        listed(*final(list)) == listed(*old(list)).insert(key, ticket),
{
    list.insert(ticket)
}

/// Calls `Slab::get`, which reads what is kept under a key, if it is taken.
#[verifier::external_body]
fn slab_get(list: &Slab<u64>, key: usize) -> (ticket: Option<u64>)
    ensures
        ticket == if listed(*list).contains_key(key) {
            Some(listed(*list)[key])
        } else {
            None
        },
{
    list.get(key).copied()
}

/// Calls `Slab::remove`, which frees a key that is taken and tells what was kept under it.
#[verifier::external_body]
fn slab_remove(list: &mut Slab<u64>, key: usize) -> (ticket: u64)
    requires
        listed(*old(list)).contains_key(key),
    ensures
        ticket == listed(*old(list))[key],
        listed(*final(list)) == listed(*old(list)).remove(key),
{
    list.remove(key)
}

/// Calls `Slab::clear`, which frees all keys. The next key is zero again.
#[verifier::external_body]
fn slab_clear(list: &mut Slab<u64>)
    ensures
        listed(*final(list)) == no_tasks(),
        next_key(*final(list)) == 0,
{
    list.clear()
}

/// Calls `Slab::len`, which counts the keys that are taken.
#[verifier::external_body]
fn slab_len(list: &Slab<u64>) -> (n: usize)
    ensures
        n == listed(*list).len(),
{
    list.len()
}

/// The number by which the future that drives the executor is awoken. No task has it as its key.
pub const MAIN_TASK_ID: usize = usize::MAX;

/// Where a pass stands.
#[derive(Debug, Clone, Copy, PartialEq, Eq, Structural)]
pub enum Phase {
    /// Awoken tasks are polled.
    Awoken,
    /// Newly spawned tasks are polled.
    Spawned,
}

/// A pass of the executor.
#[derive(Debug, Clone, Copy)]
pub struct RunPass {
    /// The wakeups that are still to be looked at.
    pub drain: Drain,
    /// Whether the main future was among the wakeups so far.
    pub main_task_awoken: bool,
    /// Where the pass stands.
    pub phase: Phase,
}

/// What is to be done next.
#[derive(Debug, Clone, Copy, PartialEq, Eq, Structural)]
pub enum RunAction {
    /// Deal with an awoken task: see [`Executor::check_task`] and [`Executor::settle_task`].
    PollTask { key: usize, ticket: u64 },
    /// Poll the main future. If it is ready, the run is over: see [`Executor::finish_run`].
    PollMain,
    /// Deal with a newly spawned task: see [`Executor::check_spawned`] and
    /// [`Executor::settle_spawned`].
    PollSpawned { ticket: u64 },
    /// Nothing is left to do until the next wakeup.
    Suspend,
}

/// An async executor that can spawn tasks.
pub struct Executor {
    tasks: Slab<u64>,
    spawned: Vec<u64>,
}

/// Whether a wakeup is of a task that is in the task list.
pub open spec fn live(tasks: Map<usize, u64>, id: usize) -> bool {
    id != MAIN_TASK_ID && tasks.contains_key(id)
}

/// Whether a task is polled when its turn comes.
pub open spec fn may_poll<W>(handle_data: HandleData<W>) -> bool {
    !handle_data.cancelled
}

/// Where in a run of wakeups the first one stands that is of a task in the task list, or the
/// length of the run if there is none.
pub open spec fn first_live(tasks: Map<usize, u64>, ids: Seq<usize>) -> int
    decreases ids.len(),
{
    if ids.len() == 0 || live(tasks, ids[0]) {
        0
    } else {
        1 + first_live(tasks, ids.drop_first())
    }
}

/// What a pass does next. The pass is at `pass`, with `ids` to look at, in an executor with these
/// tasks and spawned tasks; `pass2`, `ids2` and `spawned2` are what it leaves.
pub open spec fn acts(
    tasks: Map<usize, u64>,
    spawned: Seq<u64>,
    ids: Seq<usize>,
    pass: RunPass,
    action: RunAction,
    spawned2: Seq<u64>,
    ids2: Seq<usize>,
    pass2: RunPass,
) -> bool {
    let at = first_live(tasks, ids);
    let main = pass.main_task_awoken || ids.take(at).contains(MAIN_TASK_ID);
    match pass.phase {
        Phase::Awoken if at < ids.len() => {
            // The next wakeup of a task that is still there.
            &&& action == RunAction::PollTask { key: ids[at], ticket: tasks[ids[at]] }
            &&& ids2 == ids.skip(at + 1)
            &&& pass2.phase is Awoken
            &&& pass2.main_task_awoken == main
            &&& spawned2 == spawned
        },
        Phase::Awoken if main => {
            // All wakeups have been looked at, and the main future was among them.
            &&& action == RunAction::PollMain
            &&& ids2 == Seq::<usize>::empty()
            &&& pass2.phase is Spawned
            &&& pass2.main_task_awoken
            &&& spawned2 == spawned
        },
        _ => {
            // The task that was spawned last, if there is one.
            &&& action == if spawned.len() > 0 {
                RunAction::PollSpawned { ticket: spawned.last() }
            } else {
                RunAction::Suspend
            }
            &&& spawned2 == if spawned.len() > 0 {
                spawned.drop_last()
            } else {
                spawned
            }
            &&& pass2.phase is Spawned
            &&& pass2.main_task_awoken == pass.main_task_awoken
            &&& pass.phase is Awoken ==> ids2 == Seq::<usize>::empty()
            &&& pass.phase is Spawned ==> ids2 == ids
        },
    }
}

/// What spawning a task does: it is the latest of those that were not yet polled.
pub open spec fn spawns(spawned: Seq<u64>, ticket: u64, spawned2: Seq<u64>) -> bool {
    spawned2 == spawned.push(ticket)
}

/// What checking the awoken task under `key` comes to: a cancelled task is not polled and leaves
/// the task list.
pub open spec fn task_checked<W>(
    tasks: Map<usize, u64>,
    key: usize,
    handle_data: HandleData<W>,
    poll: bool,
    tasks2: Map<usize, u64>,
) -> bool {
    &&& poll == may_poll(handle_data)
    &&& tasks2 == if poll {
        tasks
    } else {
        tasks.remove(key)
    }
}

/// What becomes of the task under `key` once it was polled: it leaves the task list if it is
/// complete.
pub open spec fn task_settled(
    tasks: Map<usize, u64>,
    key: usize,
    ready: bool,
    tasks2: Map<usize, u64>,
) -> bool {
    tasks2 == if ready {
        tasks.remove(key)
    } else {
        tasks
    }
}

/// What checking a newly spawned task comes to: a cancelled task is not polled, and another is to
/// be awoken by the next key.
pub open spec fn spawned_checked<W>(
    next_key: usize,
    handle_data: HandleData<W>,
    key: Option<usize>,
) -> bool {
    key == if may_poll(handle_data) {
        Some(next_key)
    } else {
        None
    }
}

/// What becomes of a newly spawned task once it was polled: it is put into the task list under the
/// next key if it is not complete.
pub open spec fn spawned_settled(
    tasks: Map<usize, u64>,
    next_key: usize,
    ticket: u64,
    ready: bool,
    key: Option<usize>,
    tasks2: Map<usize, u64>,
) -> bool {
    if ready {
        key is None && tasks2 == tasks
    } else {
        key == Some(next_key) && tasks2 == tasks.insert(next_key, ticket)
    }
}

/// What starting a pass does: it is to look at the wakeups that are there, and knows nothing of the
/// main future yet.
pub open spec fn starts_pass(queue: WakeQueue, on_local_thread: bool, pass: RunPass) -> bool {
    &&& crate::wake_queue::starts_drain(queue, on_local_thread, pass.drain)
    &&& !pass.main_task_awoken
    &&& pass.phase is Awoken
}

/// Whether a drain went on and took out of the queue what it handed out, and nothing else.
pub open spec fn took(before: WakeQueue, drain: Drain, after: WakeQueue, drain2: Drain) -> bool {
    &&& drain2.local <= drain.local
    &&& drain2.concurrent <= drain.concurrent
    &&& after.local() == before.local().skip(drain.local - drain2.local)
    &&& after.concurrent() == before.concurrent().skip(drain.concurrent - drain2.concurrent)
    &&& after.covers(drain2)
}

impl Executor {
    /// The tasks that wait to be awoken: their tickets by their keys.
    pub closed spec fn tasks(&self) -> Map<usize, u64> {
        listed(self.tasks)
    }

    /// The tickets of the tasks that were spawned and not yet polled, the latest last.
    pub closed spec fn spawned(&self) -> Seq<u64> {
        self.spawned@
    }

    /// The key that the next task gets that is put into the task list.
    pub closed spec fn next_key(&self) -> usize {
        next_key(self.tasks)
    }

    /// No task is awoken by the main future's number.
    pub open spec fn wf(&self) -> bool {
        !self.tasks().contains_key(MAIN_TASK_ID)
    }

    /// An executor without tasks.
    pub fn new() -> (ex: Executor)
        ensures
            ex.wf(),
            ex.tasks() == no_tasks(),
            ex.next_key() == 0,
            ex.spawned() == Seq::<u64>::empty(),
    {
        Executor::with_capacity(4)
    }

    /// An executor without tasks, with room for `capacity` tasks. The room saves reallocating and
    /// changes nothing else: the contract says what the executor holds, and leaves unsaid how much
    /// memory was set aside.
    pub fn with_capacity(capacity: usize) -> (ex: Executor)
        requires
            capacity * 16 <= isize::MAX,
        ensures
            ex.wf(),
            ex.tasks() == no_tasks(),
            ex.next_key() == 0,
            ex.spawned() == Seq::<u64>::empty(),
    {
        Executor { tasks: slab_with_capacity(capacity), spawned: Vec::with_capacity(capacity) }
    }

    /// Spawns the task with this ticket.
    pub fn spawn<T, W>(&mut self, ticket: u64) -> (handle: TaskHandle<T, W>)
        ensures
            spawns(old(self).spawned(), ticket, final(self).spawned()),
            final(self).tasks() == old(self).tasks(),
            final(self).next_key() == old(self).next_key(),
            crate::task::fresh(handle),
    {
        self.spawned.push(ticket);
        TaskHandle::new()
    }

    /// Starts a run: forgets all wakeups and wakes the main future.
    pub fn begin_run(&self, queue: &mut WakeQueue, on_local_thread: bool)
        requires
            old(queue).wf(),
        ensures
            final(queue).wf(),
            crate::wake_queue::resets(*old(queue), MAIN_TASK_ID, on_local_thread, *final(queue)),
    {
        queue.reset(MAIN_TASK_ID, on_local_thread);
    }

    /// Starts a pass, which looks at the wakeups that are there now.
    pub fn begin_pass(&self, queue: &WakeQueue, on_local_thread: bool) -> (pass: RunPass)
        requires
            queue.wf(),
        ensures
            starts_pass(*queue, on_local_thread, pass),
    {
        RunPass {
            drain: queue.begin_drain(on_local_thread),
            main_task_awoken: false,
            phase: Phase::Awoken,
        }
    }

    /// The next wakeup of a task that is in the task list. Wakeups of tasks that are gone are
    /// passed over, and those of the main future noted.
    fn next_awoken(&self, queue: &mut WakeQueue, pass: &mut RunPass) -> (next: Option<
        (usize, u64),
    >)
        requires
            old(queue).wf(),
            old(pass).drain.local <= old(queue).local().len(),
        ensures
            final(queue).wf(),
            final(pass).drain.local <= final(queue).local().len(),
            old(queue).covers(old(pass).drain) ==> took(
                *old(queue),
                old(pass).drain,
                *final(queue),
                final(pass).drain,
            ),
            final(pass).phase == old(pass).phase,
            ({
                let ids = old(queue).pending(old(pass).drain);
                let at = first_live(self.tasks(), ids);
                &&& final(pass).main_task_awoken == (old(pass).main_task_awoken || ids.take(
                    at,
                ).contains(MAIN_TASK_ID))
                &&& next == if at < ids.len() {
                    Some((ids[at], self.tasks()[ids[at]]))
                } else {
                    None
                }
                &&& final(queue).pending(final(pass).drain) == if at < ids.len() {
                    ids.skip(at + 1)
                } else {
                    Seq::<usize>::empty()
                }
            }),
    {
        let ghost ids = queue.pending(pass.drain);
        let ghost at = first_live(self.tasks(), ids);
        let ghost mut k: int = 0;
        proof {
            lemma_first_live(self.tasks(), ids);
            lemma_took_nothing(*queue, pass.drain);
        }
        loop
            invariant
                queue.wf(),
                pass.drain.local <= queue.local().len(),
                old(queue).covers(old(pass).drain) ==> took(
                    *old(queue),
                    old(pass).drain,
                    *queue,
                    pass.drain,
                ),
                pass.phase == old(pass).phase,
                ids == old(queue).pending(old(pass).drain),
                at == first_live(self.tasks(), ids),
                0 <= k <= at <= ids.len(),
                queue.pending(pass.drain) == ids.skip(k),
                pass.main_task_awoken == (old(pass).main_task_awoken || ids.take(k).contains(
                    MAIN_TASK_ID,
                )),
            decreases ids.len() - k,
        {
            proof {
                lemma_first_live(self.tasks(), ids);
            }
            let ghost queue0 = *queue;
            let ghost drain0 = pass.drain;
            match queue.next_drained(&mut pass.drain) {
                None => {
                    return None;
                },
                Some(id) => {
                    proof {
                        if old(queue).covers(old(pass).drain) {
                            lemma_took_one(
                                *old(queue),
                                old(pass).drain,
                                queue0,
                                drain0,
                                *queue,
                                pass.drain,
                            );
                        }
                    }
                    assert(id == ids[k]);
                    assert(ids.take(k + 1) =~= ids.take(k).push(id));
                    assert(ids.skip(k).drop_first() =~= ids.skip(k + 1));
                    if id == MAIN_TASK_ID {
                        pass.main_task_awoken = true;
                    } else if let Some(ticket) = slab_get(&self.tasks, id) {
                        return Some((id, ticket));
                    }
                    proof {
                        vstd::seq_lib::lemma_seq_contains_after_push(ids.take(k), id, MAIN_TASK_ID);
                        k = k + 1;
                    }
                },
            }
        }
    }

    /// What a pass has to do next: first the awoken tasks are dealt with, then the main future if
    /// it was awoken, then the newly spawned tasks.
    pub fn next_action(&mut self, queue: &mut WakeQueue, pass: &mut RunPass) -> (action: RunAction)
        requires
            old(queue).wf(),
            old(pass).drain.local <= old(queue).local().len(),
        ensures
            final(queue).wf(),
            final(pass).drain.local <= final(queue).local().len(),
            old(queue).covers(old(pass).drain) ==> took(
                *old(queue),
                old(pass).drain,
                *final(queue),
                final(pass).drain,
            ),
            final(self).tasks() == old(self).tasks(),
            final(self).next_key() == old(self).next_key(),
            acts(
                old(self).tasks(),
                old(self).spawned(),
                old(queue).pending(old(pass).drain),
                *old(pass),
                action,
                final(self).spawned(),
                final(queue).pending(final(pass).drain),
                *final(pass),
            ),
    {
        if let Phase::Awoken = pass.phase {
            proof {
                lemma_first_live(self.tasks(), queue.pending(pass.drain));
            }
            if let Some((key, ticket)) = self.next_awoken(queue, pass) {
                return RunAction::PollTask { key, ticket };
            }
            pass.phase = Phase::Spawned;
            if pass.main_task_awoken {
                return RunAction::PollMain;
            }
        } else {
            proof {
                lemma_took_nothing(*queue, pass.drain);
            }
        }
        match self.spawned.pop() {
            Some(ticket) => RunAction::PollSpawned { ticket },
            None => RunAction::Suspend,
        }
    }

    /// Says whether the awoken task under this key is to be polled. One that was cancelled is not,
    /// and is removed from the task list.
    pub fn check_task<W>(&mut self, key: usize, handle_data: &HandleData<W>) -> (poll: bool)
        requires
            old(self).wf(),
            old(self).tasks().contains_key(key),
        ensures
            final(self).wf(),
            task_checked(old(self).tasks(), key, *handle_data, poll, final(self).tasks()),
            poll ==> final(self).next_key() == old(self).next_key(),
            final(self).spawned() == old(self).spawned(),
    {
        if handle_data.cancelled {
            slab_remove(&mut self.tasks, key);
            false
        } else {
            true
        }
    }

    /// Takes whether polling the task under this key completed it. A task that is complete is
    /// removed from the task list.
    pub fn settle_task(&mut self, key: usize, ready: bool)
        requires
            old(self).wf(),
            old(self).tasks().contains_key(key),
        ensures
            final(self).wf(),
            task_settled(old(self).tasks(), key, ready, final(self).tasks()),
            !ready ==> final(self).next_key() == old(self).next_key(),
            final(self).spawned() == old(self).spawned(),
    {
        if ready {
            slab_remove(&mut self.tasks, key);
        }
    }

    /// Says whether a newly spawned task is to be polled, and by which key it is to be awoken. One
    /// that was cancelled is not polled.
    pub fn check_spawned<W>(&self, handle_data: &HandleData<W>) -> (key: Option<usize>)
        ensures
            spawned_checked(self.next_key(), *handle_data, key),
            key is Some ==> !self.tasks().contains_key(self.next_key()),
    {
        if handle_data.cancelled {
            None
        } else {
            Some(slab_vacant_key(&self.tasks))
        }
    }

    /// Takes whether polling a newly spawned task completed it. One that is not complete is put
    /// into the task list, under the key that [`Executor::check_spawned`] gave.
    pub fn settle_spawned(&mut self, ticket: u64, ready: bool) -> (key: Option<usize>)
        requires
            old(self).wf(),
            old(self).next_key() != MAIN_TASK_ID,
        ensures
            final(self).wf(),
            spawned_settled(
                old(self).tasks(),
                old(self).next_key(),
                ticket,
                ready,
                key,
                final(self).tasks(),
            ),
            !ready ==> !old(self).tasks().contains_key(old(self).next_key()),
            ready ==> final(self).next_key() == old(self).next_key(),
            final(self).spawned() == old(self).spawned(),
    {
        if ready {
            None
        } else {
            Some(slab_insert(&mut self.tasks, ticket))
        }
    }

    /// Ends a run: drops all tasks that are not finished.
    pub fn finish_run(&mut self)
        ensures
            final(self).wf(),
            final(self).tasks() == no_tasks(),
            final(self).next_key() == 0,
            final(self).spawned() == Seq::<u64>::empty(),
    {
        slab_clear(&mut self.tasks);
        self.spawned.clear();
    }

    /// The number of tasks in the task list.
    pub fn task_count(&self) -> (n: usize)
        ensures
            n == self.tasks().len(),
    {
        slab_len(&self.tasks)
    }
}

/// One step of a pass, with the state before and after it.
pub ghost struct StepRecord {
    pub tasks: Map<usize, u64>,
    pub spawned: Seq<u64>,
    pub ids: Seq<usize>,
    pub pass: RunPass,
    pub action: RunAction,
    pub spawned2: Seq<u64>,
    pub ids2: Seq<usize>,
    pub pass2: RunPass,
}

impl StepRecord {
    /// The step did what a pass does.
    pub open spec fn valid(self) -> bool {
        acts(
            self.tasks,
            self.spawned,
            self.ids,
            self.pass,
            self.action,
            self.spawned2,
            self.ids2,
            self.pass2,
        )
    }

    /// Whether the pass is still at the awoken tasks, and knows or will find that the main future
    /// was awoken.
    pub open spec fn main_due(self) -> bool {
        &&& self.pass.phase is Awoken
        &&& self.pass.main_task_awoken || self.ids.contains(MAIN_TASK_ID)
    }

    /// Whether the step goes on where the last one stopped.
    pub open spec fn follows(self, last: StepRecord) -> bool {
        self.pass == last.pass2 && self.ids == last.ids2
    }

    /// Whether the step deals with the task under this key.
    pub open spec fn deals_with(self, key: usize) -> bool {
        self.action is PollTask && self.action->key == key
    }
}

/// A run of steps of one pass. In between tasks may come, go and spawn others, and wakeups may
/// come in, which are left for the next pass.
pub open spec fn pass_history(steps: Seq<StepRecord>) -> bool {
    &&& forall|k: int| 0 <= k < steps.len() ==> (#[trigger] steps[k]).valid()
    &&& forall|i: int, j: int|
        #![trigger steps[i], steps[j]]
        0 <= i < steps.len() && j == i + 1 && j < steps.len() ==> steps[j].follows(steps[i])
}

/// The next step polls the main future if it was awoken, unless an awoken task comes first. What
/// the pass knows of the main future's wakeup stays until then.
pub proof fn law_main_polled_iff_awoken(step: StepRecord, next: StepRecord)
    requires
        step.valid(),
        next.follows(step),
    ensures
        step.action is PollTask ==> next.main_due() == step.main_due(),
        step.action !is PollTask ==> {
            &&& step.action is PollMain <==> step.main_due()
            &&& !next.main_due()
        },
{
    let ids = step.ids;
    let at = first_live(step.tasks, ids);
    lemma_first_live(step.tasks, ids);
    if at < ids.len() {
        assert(ids =~= ids.take(at).push(ids[at]) + ids.skip(at + 1));
        vstd::seq_lib::lemma_seq_contains_after_push(ids.take(at), ids[at], MAIN_TASK_ID);
        vstd::seq_lib::lemma_seq_concat_contains_all_elements(
            ids.take(at).push(ids[at]),
            ids.skip(at + 1),
            MAIN_TASK_ID,
        );
    } else {
        assert(ids.take(at) =~= ids);
    }
}

/// Over a whole pass the main future is polled once if it was awoken, and not at all if not.
pub proof fn law_main_polled_once_per_pass(steps: Seq<StepRecord>)
    requires
        steps.len() > 0,
        pass_history(steps),
        steps.last().action !is PollTask,
    ensures
        steps[0].main_due() <==> exists|k: int|
            0 <= k < steps.len() && (#[trigger] steps[k]).action is PollMain,
        forall|i: int, j: int|
            0 <= i < j < steps.len() && (#[trigger] steps[i]).action is PollMain ==> !((
            #[trigger] steps[j]).action is PollMain),
    decreases steps.len(),
{
    let step = steps[0];
    let rest = steps.drop_first();
    assert(step.valid());
    if rest.len() == 0 {
        law_main_polled_iff_awoken(
            step,
            StepRecord { pass: step.pass2, ids: step.ids2, ..step },
        );
        assert(steps[0].action is PollMain <==> steps[0].main_due());
    } else {
        lemma_rest_of_pass(steps);
        law_main_polled_once_per_pass(rest);
        law_main_polled_iff_awoken(step, rest[0]);
        assert forall|i: int, j: int|
            0 <= i < j < steps.len() && (#[trigger] steps[i]).action is PollMain implies !((
        #[trigger] steps[j]).action is PollMain) by {
            if steps[j].action is PollMain {
                assert(rest[j - 1].action is PollMain);
                if i > 0 {
                    assert(rest[i - 1].action is PollMain);
                } else {
                    assert(!rest[0].main_due());
                }
            }
        }
        if step.action is PollTask {
            if exists|k: int| 0 <= k < steps.len() && (#[trigger] steps[k]).action is PollMain {
                let k = choose|k: int|
                    0 <= k < steps.len() && (#[trigger] steps[k]).action is PollMain;
                assert(rest[k - 1].action is PollMain);
            }
            if exists|k: int| 0 <= k < rest.len() && (#[trigger] rest[k]).action is PollMain {
                let k = choose|k: int|
                    0 <= k < rest.len() && (#[trigger] rest[k]).action is PollMain;
                assert(steps[k + 1].action is PollMain);
            }
        } else {
            if exists|k: int| 0 <= k < steps.len() && (#[trigger] steps[k]).action is PollMain {
                let k = choose|k: int|
                    0 <= k < steps.len() && (#[trigger] steps[k]).action is PollMain;
                if k > 0 {
                    assert(rest[k - 1].action is PollMain);
                }
            }
        }
    }
}

/// A task from the task list is polled only if it was awoken.
pub proof fn law_only_awoken_tasks_polled(step: StepRecord, key: usize)
    requires
        step.valid(),
        step.deals_with(key),
    ensures
        step.ids.contains(key),
        key != MAIN_TASK_ID,
        step.tasks.contains_key(key),
        step.tasks[key] == step.action->PollTask_ticket,
{
    lemma_first_live(step.tasks, step.ids);
}

/// No step loses a wakeup of a task in the task list: the task is dealt with, or its wakeup is
/// still to be looked at.
pub proof fn law_no_wakeup_lost(step: StepRecord, key: usize)
    requires
        step.valid(),
        step.pass.phase is Awoken,
        key != MAIN_TASK_ID,
        step.tasks.contains_key(key),
        step.ids.contains(key),
    ensures
        step.action is PollTask,
        step.pass2.phase is Awoken,
        step.deals_with(key) || step.ids2.contains(key),
{
    let ids = step.ids;
    let at = first_live(step.tasks, ids);
    lemma_first_live(step.tasks, ids);
    let k = choose|k: int| 0 <= k < ids.len() && ids[k] == key;
    assert(k >= at);
    if k > at {
        assert(ids.skip(at + 1)[k - at - 1] == key);
    }
}

/// Every task that was awoken before a pass and stays in the task list is dealt with in that pass.
pub proof fn law_awoken_task_is_dealt_with(steps: Seq<StepRecord>, key: usize)
    requires
        steps.len() > 0,
        pass_history(steps),
        steps[0].pass.phase is Awoken,
        steps[0].ids.contains(key),
        key != MAIN_TASK_ID,
        forall|k: int| 0 <= k < steps.len() ==> (#[trigger] steps[k]).tasks.contains_key(key),
        steps.last().action !is PollTask,
    ensures
        exists|k: int| 0 <= k < steps.len() && (#[trigger] steps[k]).deals_with(key),
    decreases steps.len(),
{
    let step = steps[0];
    assert(step.valid() && step.tasks.contains_key(key));
    law_no_wakeup_lost(step, key);
    if step.deals_with(key) {
        assert(steps[0].deals_with(key));
    } else {
        let rest = steps.drop_first();
        assert(rest.len() > 0);
        lemma_rest_of_pass(steps);
        assert forall|k: int| 0 <= k < rest.len() implies (
        #[trigger] rest[k]).tasks.contains_key(key) by {
            assert(steps[k + 1].tasks.contains_key(key));
        }
        law_awoken_task_is_dealt_with(rest, key);
        let k = choose|k: int| 0 <= k < rest.len() && (#[trigger] rest[k]).deals_with(key);
        assert(steps[k + 1].deals_with(key));
    }
}

/// A pass suspends only once nothing is left to do: no spawned task is left, and neither a task
/// nor the main future has a wakeup that was not looked at.
pub proof fn law_suspends_only_when_idle(step: StepRecord)
    requires
        step.valid(),
        step.action is Suspend,
    ensures
        step.spawned.len() == 0,
        !step.main_due(),
        step.pass.phase is Awoken ==> forall|key: usize| #[trigger]
            step.ids.contains(key) ==> !step.tasks.contains_key(key) || key == MAIN_TASK_ID,
{
    law_main_polled_iff_awoken(step, StepRecord { pass: step.pass2, ids: step.ids2, ..step });
    if step.pass.phase is Awoken {
        assert forall|key: usize| #[trigger] step.ids.contains(key) implies !step.tasks.contains_key(
            key,
        ) || key == MAIN_TASK_ID by {
            if step.tasks.contains_key(key) && key != MAIN_TASK_ID {
                law_no_wakeup_lost(step, key);
            }
        }
    }
}

/// A pass makes progress with each step: it looks at wakeups, then goes over to the spawned tasks,
/// then takes one of these, and never goes back.
pub proof fn law_pass_goes_forward(step: StepRecord)
    requires
        step.valid(),
    ensures
        match step.action {
            RunAction::PollTask { .. } => {
                &&& step.pass.phase is Awoken
                &&& step.pass2.phase is Awoken
                &&& step.ids2.len() < step.ids.len()
            },
            RunAction::PollMain => step.pass.phase is Awoken && step.pass2.phase is Spawned,
            RunAction::PollSpawned { .. } => {
                &&& step.pass2.phase is Spawned
                &&& step.spawned2.len() < step.spawned.len()
            },
            RunAction::Suspend => step.pass2.phase is Spawned,
        },
{
    lemma_first_live(step.tasks, step.ids);
}

/// The first pass of a run polls the main future before anything else, whatever was awoken before
/// the run.
pub proof fn law_run_starts_with_main(
    before: WakeQueue,
    queue: WakeQueue,
    pass: RunPass,
    step: StepRecord,
)
    requires
        crate::wake_queue::resets(before, MAIN_TASK_ID, true, queue),
        starts_pass(queue, true, pass),
        step.pass == pass,
        step.ids == queue.pending(pass.drain),
        step.valid(),
    ensures
        step.action is PollMain,
{
    assert(step.ids[0] == MAIN_TASK_ID);
    lemma_first_live(step.tasks, step.ids);
    law_main_polled_iff_awoken(step, StepRecord { pass: step.pass2, ids: step.ids2, ..step });
}

/// A pass looks at every wakeup that is there when it starts, and so deals with its task if that is
/// in the task list.
pub proof fn law_pass_looks_at_every_wakeup(queue: WakeQueue, pass: RunPass, id: usize)
    requires
        starts_pass(queue, true, pass),
    ensures
        queue.local().contains(id) || queue.concurrent().contains(id) <==> queue.pending(
            pass.drain,
        ).contains(id),
        pass.phase is Awoken,
        !pass.main_task_awoken,
{
    vstd::seq_lib::lemma_seq_concat_contains_all_elements(queue.local(), queue.concurrent(), id);
}

/// What a step does with the wakeups. It deals with the first one that is of a task in the task
/// list, passes over those before it, which are of the main future or of nobody, and leaves those
/// behind it for the next steps. Only when there is none it goes on to the main future, if that was
/// awoken at all, or to the spawned tasks, and never back.
pub proof fn law_wakeups_taken_in_order(step: StepRecord)
    requires
        step.valid(),
    ensures
        step.pass.phase is Awoken && step.action is PollTask ==> exists|at: int|
            #![trigger step.ids[at]]
            {
                &&& 0 <= at < step.ids.len()
                &&& step.ids[at] == step.action->key
                &&& step.ids2 == step.ids.skip(at + 1)
                &&& forall|j: int|
                    0 <= j < at ==> step.ids[j] == MAIN_TASK_ID || !step.tasks.contains_key(
                        #[trigger] step.ids[j],
                    )
                &&& step.pass2.main_task_awoken <==> step.pass.main_task_awoken || exists|j: int|
                    0 <= j < at && #[trigger] step.ids[j] == MAIN_TASK_ID
            },
        step.action is PollTask ==> {
            &&& step.action->key != MAIN_TASK_ID
            &&& step.tasks.contains_key(step.action->key)
            &&& step.tasks[step.action->key] == step.action->PollTask_ticket
            &&& step.pass2.phase is Awoken
        },
        step.pass.phase is Awoken && step.action !is PollTask ==> {
            &&& forall|j: int|
                0 <= j < step.ids.len() ==> step.ids[j] == MAIN_TASK_ID
                    || !step.tasks.contains_key(#[trigger] step.ids[j])
            &&& step.ids2.len() == 0
            &&& step.action is PollMain <==> step.pass.main_task_awoken || exists|j: int|
                0 <= j < step.ids.len() && #[trigger] step.ids[j] == MAIN_TASK_ID
            &&& step.pass2.phase is Spawned
        },
        step.pass.phase is Spawned ==> {
            &&& step.action is PollSpawned || step.action is Suspend
            &&& step.pass2.phase is Spawned
            &&& step.ids2 == step.ids
        },
{
    let ids = step.ids;
    let at = first_live(step.tasks, ids);
    lemma_first_live(step.tasks, ids);
    let early = ids.take(at);
    if early.contains(MAIN_TASK_ID) {
        let j = choose|j: int| 0 <= j < early.len() && early[j] == MAIN_TASK_ID;
        assert(ids[j] == MAIN_TASK_ID);
    }
    if exists|j: int| 0 <= j < at && #[trigger] ids[j] == MAIN_TASK_ID {
        let j = choose|j: int| 0 <= j < at && #[trigger] ids[j] == MAIN_TASK_ID;
        assert(early[j] == MAIN_TASK_ID);
    }
    if step.pass.phase is Awoken && step.action is PollTask {
        assert(ids[at] == step.action->key);
    }
}

/// No step loses a spawned task. A step that polls one takes the latest, and the others stay as
/// they are. Any other step leaves all of them, and none is left when the pass suspends.
pub proof fn law_no_spawned_task_lost(step: StepRecord)
    requires
        step.valid(),
    ensures
        match step.action {
            RunAction::PollSpawned { ticket } => {
                &&& step.spawned2.len() == step.spawned.len() - 1
                &&& step.spawned[step.spawned.len() - 1] == ticket
                &&& forall|i: int|
                    0 <= i < step.spawned2.len() ==> #[trigger] step.spawned2[i]
                        == step.spawned[i]
                &&& step.spawned.to_multiset() == step.spawned2.to_multiset().insert(ticket)
            },
            RunAction::Suspend => step.spawned.len() == 0 && step.spawned2.len() == 0,
            _ => step.spawned2 == step.spawned,
        },
{
    broadcast use vstd::seq_lib::group_to_multiset_ensures;

    lemma_first_live(step.tasks, step.ids);
    if let RunAction::PollSpawned { ticket } = step.action {
        assert(step.spawned =~= step.spawned2.push(ticket));
    }
}

/// What happens to the spawned tasks while an executor runs.
pub ghost enum SpawnEvent {
    /// A task is spawned.
    Spawn { ticket: u64 },
    /// A pass takes a step.
    Step(StepRecord),
}

/// Whether an event leads from one list of spawned tasks to the next.
pub open spec fn spawn_steps_to(spawned: Seq<u64>, event: SpawnEvent, spawned2: Seq<u64>) -> bool {
    match event {
        SpawnEvent::Spawn { ticket } => spawns(spawned, ticket, spawned2),
        SpawnEvent::Step(step) => {
            &&& step.valid()
            &&& step.spawned == spawned
            &&& step.spawned2 == spawned2
        },
    }
}

/// The tickets of the tasks that were spawned.
pub open spec fn tickets_spawned(events: Seq<SpawnEvent>) -> Multiset<u64>
    decreases events.len(),
{
    if events.len() == 0 {
        Multiset::empty()
    } else {
        let front = tickets_spawned(events.drop_last());
        match events.last() {
            SpawnEvent::Spawn { ticket } => front.insert(ticket),
            _ => front,
        }
    }
}

/// The tickets of the newly spawned tasks that were to be polled.
pub open spec fn tickets_polled(events: Seq<SpawnEvent>) -> Multiset<u64>
    decreases events.len(),
{
    if events.len() == 0 {
        Multiset::empty()
    } else {
        let front = tickets_polled(events.drop_last());
        match events.last() {
            SpawnEvent::Step(step) => match step.action {
                RunAction::PollSpawned { ticket } => front.insert(ticket),
                _ => front,
            },
            _ => front,
        }
    }
}

/// Every task that is spawned is polled exactly once as a newly spawned one, by the time the pass
/// suspends, also if it is spawned while the pass goes on.
pub proof fn law_every_spawned_task_polled_once(lists: Seq<Seq<u64>>, events: Seq<SpawnEvent>)
    requires
        lists.len() == events.len() + 1,
        forall|i: int, j: int|
            #![trigger lists[i], lists[j]]
            0 <= i < events.len() && j == i + 1 ==> spawn_steps_to(lists[i], events[i], lists[j]),
    ensures
        lists[0].to_multiset().add(tickets_spawned(events)) == lists.last().to_multiset().add(
            tickets_polled(events),
        ),
        events.len() > 0 && (events.last() matches SpawnEvent::Step(step) && step.action is Suspend)
            ==> lists[0].to_multiset().add(tickets_spawned(events)) == tickets_polled(events),
    decreases events.len(),
{
    broadcast use vstd::seq_lib::group_to_multiset_ensures;

    let start = lists[0].to_multiset();
    if events.len() == 0 {
        assert(start.add(tickets_spawned(events)) =~= start.add(tickets_polled(events)));
    } else {
        let n = events.len() - 1;
        let front = events.drop_last();
        let earlier = lists.drop_last();
        assert forall|i: int, j: int|
            #![trigger earlier[i], earlier[j]]
            0 <= i < front.len() && j == i + 1 implies spawn_steps_to(
            earlier[i],
            front[i],
            earlier[j],
        ) by {
            assert(spawn_steps_to(lists[i], events[i], lists[j]));
        }
        law_every_spawned_task_polled_once(earlier, front);
        assert(earlier.last() == lists[n]);
        assert(spawn_steps_to(lists[n], events[n], lists[n + 1]));
        let before = lists[n].to_multiset();
        let after = lists[n + 1].to_multiset();
        assert(start.add(tickets_spawned(front)) == before.add(tickets_polled(front)));
        match events[n] {
            SpawnEvent::Spawn { ticket } => {
                assert(after == before.insert(ticket));
                assert(start.add(tickets_spawned(events)) =~= start.add(
                    tickets_spawned(front),
                ).insert(ticket));
                assert(after.add(tickets_polled(events)) =~= before.add(
                    tickets_polled(front),
                ).insert(ticket));
            },
            SpawnEvent::Step(step) => {
                law_no_spawned_task_lost(step);
                if let RunAction::PollSpawned { ticket } = step.action {
                    assert(before == after.insert(ticket));
                    assert(after.add(tickets_polled(events)) =~= before.add(
                        tickets_polled(front),
                    ));
                }
                if step.action is Suspend {
                    assert(lists[n + 1] =~= Seq::<u64>::empty());
                    assert(after =~= Multiset::<u64>::empty());
                    assert(after.add(tickets_polled(events)) =~= tickets_polled(events));
                }
            },
        }
    }
}

/// A task is polled when its turn comes, whether it was polled before or only spawned, exactly if
/// it was not cancelled. One that was cancelled leaves the task list, and no other task does.
pub proof fn law_polled_unless_cancelled<W>(
    tasks: Map<usize, u64>,
    key: usize,
    handle_data: HandleData<W>,
    poll: bool,
    tasks2: Map<usize, u64>,
    next_key: usize,
    new_key: Option<usize>,
)
    requires
        tasks.contains_key(key),
        task_checked(tasks, key, handle_data, poll, tasks2),
        spawned_checked(next_key, handle_data, new_key),
    ensures
        poll <==> !handle_data.cancelled,
        new_key is Some <==> !handle_data.cancelled,
        tasks2.contains_key(key) <==> !handle_data.cancelled,
        forall|other: usize|
            other != key || !handle_data.cancelled ==> {
                &&& #[trigger] tasks2.contains_key(other) <==> tasks.contains_key(other)
                &&& tasks2[other] == tasks[other]
            },
{
}

/// A task stays in the task list exactly until it is complete, and no other task is touched by
/// that.
pub proof fn law_listed_until_complete(
    tasks: Map<usize, u64>,
    key: usize,
    ready: bool,
    tasks2: Map<usize, u64>,
)
    requires
        tasks.contains_key(key),
        task_settled(tasks, key, ready, tasks2),
    ensures
        tasks2.contains_key(key) <==> !ready,
        forall|other: usize|
            other != key || !ready ==> {
                &&& #[trigger] tasks2.contains_key(other) <==> tasks.contains_key(other)
                &&& tasks2[other] == tasks[other]
            },
{
}

/// A newly spawned task is in the task list after its first poll exactly if that did not complete
/// it, under the key by which it was told to be awoken, and no other task is touched. A wakeup by
/// that key then makes a pass deal with it.
pub proof fn law_awoken_by_the_key_it_was_given<W>(
    tasks: Map<usize, u64>,
    next_key: usize,
    handle_data: HandleData<W>,
    key: usize,
    ticket: u64,
    ready: bool,
    kept: Option<usize>,
    tasks2: Map<usize, u64>,
    step: StepRecord,
)
    requires
        next_key != MAIN_TASK_ID,
        !tasks.contains_key(next_key),
        spawned_checked(next_key, handle_data, Some(key)),
        spawned_settled(tasks, next_key, ticket, ready, kept, tasks2),
        step.valid(),
        step.tasks == tasks2,
        step.pass.phase is Awoken,
        step.ids.len() > 0,
        step.ids[0] == key,
    ensures
        kept is Some <==> !ready,
        tasks2.contains_key(key) <==> !ready,
        !ready ==> kept == Some(key),
        !ready ==> step.action == (RunAction::PollTask { key, ticket }),
        forall|other: usize|
            other != key ==> {
                &&& #[trigger] tasks2.contains_key(other) <==> tasks.contains_key(other)
                &&& tasks2[other] == tasks[other]
            },
{
    lemma_first_live(step.tasks, step.ids);
    assert(live(step.tasks, step.ids[0]) <==> !ready);
}

/// A task that was cancelled is not polled when its turn comes, whether it was polled before or
/// only spawned.
pub proof fn law_cancelled_is_not_polled<T, W>(
    before: TaskHandle<T, W>,
    cancelled: TaskHandle<T, W>,
    wake: Option<W>,
)
    requires
        crate::task::cancels(before, cancelled, wake),
    ensures
        !may_poll(cancelled.handle_data),
{
}

/// A step takes out of the queue what it has looked at, from the front, and leaves all the rest of
/// it, in order.
pub proof fn law_rest_of_queue_stays(
    before: WakeQueue,
    drain: Drain,
    after: WakeQueue,
    drain2: Drain,
)
    requires
        before.covers(drain),
        took(before, drain, after, drain2),
    ensures
        before.local().len() - after.local().len() == drain.local - drain2.local,
        before.concurrent().len() - after.concurrent().len() == drain.concurrent
            - drain2.concurrent,
        forall|i: int|
            0 <= i < after.local().len() ==> #[trigger] after.local()[i] == before.local()[i
                + drain.local - drain2.local],
        forall|i: int|
            0 <= i < after.concurrent().len() ==> #[trigger] after.concurrent()[i]
                == before.concurrent()[i + drain.concurrent - drain2.concurrent],
{
}

/// What is left of a pass after its first step is a run of steps that goes on where it stopped.
proof fn lemma_rest_of_pass(steps: Seq<StepRecord>)
    requires
        steps.len() > 1,
        pass_history(steps),
    ensures
        pass_history(steps.drop_first()),
        steps.drop_first()[0].follows(steps[0]),
{
    let rest = steps.drop_first();
    assert(rest[0] == steps[1]);
    assert(steps[1].follows(steps[0]));
    assert forall|k: int| 0 <= k < rest.len() implies (#[trigger] rest[k]).valid() by {
        assert(steps[k + 1].valid());
    }
    assert forall|i: int, j: int|
        #![trigger rest[i], rest[j]]
        0 <= i < rest.len() && j == i + 1 && j < rest.len() implies rest[j].follows(rest[i]) by {
        assert(steps[j + 1].follows(steps[i + 1]));
    }
}

/// What [`first_live`] finds.
proof fn lemma_first_live(tasks: Map<usize, u64>, ids: Seq<usize>)
    ensures
        0 <= first_live(tasks, ids) <= ids.len(),
        forall|j: int| 0 <= j < first_live(tasks, ids) ==> !live(tasks, #[trigger] ids[j]),
        first_live(tasks, ids) < ids.len() ==> live(tasks, ids[first_live(tasks, ids)]),
    decreases ids.len(),
{
    if ids.len() > 0 && !live(tasks, ids[0]) {
        let rest = ids.drop_first();
        lemma_first_live(tasks, rest);
        assert forall|j: int| 0 <= j < first_live(tasks, ids) implies !live(
            tasks,
            #[trigger] ids[j],
        ) by {
            if j > 0 {
                assert(!live(tasks, rest[j - 1]));
            }
        }
    }
}

/// A drain that has not gone on has taken nothing.
proof fn lemma_took_nothing(queue: WakeQueue, drain: Drain)
    ensures
        queue.covers(drain) ==> took(queue, drain, queue, drain),
{
    assert(queue.local().skip(0) =~= queue.local());
    assert(queue.concurrent().skip(0) =~= queue.concurrent());
}

/// A drain that takes one more wakeup out.
proof fn lemma_took_one(
    before: WakeQueue,
    drain: Drain,
    middle: WakeQueue,
    drain1: Drain,
    after: WakeQueue,
    drain2: Drain,
)
    requires
        took(before, drain, middle, drain1),
        before.covers(drain),
        after.covers(drain2),
        drain1.local > 0 || drain1.concurrent > 0,
        if drain1.local > 0 {
            &&& after.local() == middle.local().drop_first()
            &&& after.concurrent() == middle.concurrent()
            &&& drain2.local == drain1.local - 1
            &&& drain2.concurrent == drain1.concurrent
        } else {
            &&& after.local() == middle.local()
            &&& after.concurrent() == middle.concurrent().drop_first()
            &&& drain2.local == 0
            &&& drain2.concurrent == drain1.concurrent - 1
        },
    ensures
        took(before, drain, after, drain2),
{
    assert(after.local() =~= before.local().skip(drain.local - drain2.local));
    assert(after.concurrent() =~= before.concurrent().skip(
        drain.concurrent - drain2.concurrent,
    ));
}

} // verus!
