use std::cell::{Cell, RefCell};
use std::collections::HashMap;
use std::future::{pending, poll_fn, ready, Future};
use std::pin::Pin;
use std::rc::Rc;
use std::sync::atomic::{AtomicBool, Ordering};
use std::sync::{Arc, Mutex};
use std::task::{Context, Poll, Wake, Waker};
use std::time::Duration;

use atomic_waker::AtomicWaker;
use futures_core::Stream;
use local_runtime::merge::{MergeStep, Turn};
use local_runtime::{
    Executor, FlagWaker, Id, JoinFuture, MergeFutureStream, MergeStream, Reactor, RunAction,
    TaskHandle, TaskWaker, TryJoinFuture, WaitPlan, WakeQueue, WithFlag, MAIN_TASK_ID,
};

type LocalFuture<'a, T> = Pin<Box<dyn Future<Output = T> + 'a>>;
type LocalStream<'a, T> = Pin<Box<dyn Stream<Item = T> + 'a>>;

#[derive(Debug, Default)]
struct MockWaker(AtomicBool);

impl Wake for MockWaker {
    fn wake(self: Arc<Self>) {
        self.0.store(true, Ordering::Relaxed);
    }
}

impl MockWaker {
    fn get(&self) -> bool {
        self.0.load(Ordering::Relaxed)
    }
}

/// How much longer than asked for the reactor waits.
const LATENCY: u64 = 1_000;

/// A reactor without event sources, on a clock that moves only while the reactor waits.
struct Clock {
    reactor: RefCell<Reactor<Waker>>,
    now: Cell<u64>,
    notifier: Arc<Interrupt>,
}

struct Interrupt(Mutex<WithFlag<()>>);

impl Wake for Interrupt {
    fn wake(self: Arc<Self>) {
        self.0.lock().unwrap().notify();
    }
}

impl Clock {
    fn new() -> Rc<Clock> {
        Rc::new(Clock {
            reactor: RefCell::new(Reactor::new()),
            now: Cell::new(0),
            notifier: Arc::new(Interrupt(Mutex::new(WithFlag::new(())))),
        })
    }

    fn elapsed(&self) -> Duration {
        Duration::from_nanos(self.now.get())
    }

    fn wait(&self) {
        let notified = self.notifier.0.lock().unwrap().is_notified();
        let plan = self.reactor.borrow().begin_wait(self.now.get(), notified);
        match plan {
            WaitPlan::Skip => {}
            WaitPlan::Poll { timeout, .. } => {
                let span = timeout.expect("nothing to wait for");
                let span = span.secs * 1_000_000_000 + span.nanos as u64;
                self.now.set(self.now.get() + span + LATENCY);
                self.notifier.0.lock().unwrap().set_to_notified();
            }
        }
        let awoken = self
            .reactor
            .borrow_mut()
            .finish_wait(&vec![], self.now.get());
        for waker in awoken.timers {
            waker.wake();
        }
        self.notifier.0.lock().unwrap().clear(());
    }

    fn block_on<T>(&self, fut: impl Future<Output = T>) -> T {
        let mut fut = Box::pin(fut);
        let waker = self.notifier.clone().into();
        loop {
            if let Poll::Ready(out) = fut.as_mut().poll(&mut Context::from_waker(&waker)) {
                return out;
            }
            self.wait();
        }
    }
}

/// A future that completes after some time.
struct Sleep {
    clock: Rc<Clock>,
    expiry: u64,
    id: Option<Id>,
}

fn sleep(clock: &Rc<Clock>, duration: Duration) -> Sleep {
    Sleep {
        clock: clock.clone(),
        expiry: clock.now.get() + duration.as_nanos() as u64,
        id: None,
    }
}

impl Future for Sleep {
    type Output = ();

    fn poll(mut self: Pin<&mut Self>, cx: &mut Context<'_>) -> Poll<()> {
        let clock = self.clock.clone();
        if clock.now.get() >= self.expiry {
            return Poll::Ready(());
        }
        let mut reactor = clock.reactor.borrow_mut();
        match self.id {
            Some(id) => reactor.modify_timer(id, self.expiry, cx.waker().clone()),
            None => self.id = Some(reactor.register_timer(self.expiry, cx.waker().clone())),
        }
        Poll::Pending
    }
}

impl Drop for Sleep {
    fn drop(&mut self) {
        if let Some(id) = self.id {
            self.clock
                .reactor
                .borrow_mut()
                .cancel_timer(id, self.expiry);
        }
    }
}

/// A stream that yields at regular times.
struct Periodic {
    timer: Sleep,
    period: u64,
}

impl Periodic {
    fn periodic(clock: &Rc<Clock>, period: Duration) -> Periodic {
        Periodic {
            timer: sleep(clock, period),
            period: period.as_nanos() as u64,
        }
    }
}

impl Stream for Periodic {
    type Item = ();

    fn poll_next(mut self: Pin<&mut Self>, cx: &mut Context<'_>) -> Poll<Option<()>> {
        if Pin::new(&mut self.timer).poll(cx).is_pending() {
            return Poll::Pending;
        }
        let (clock, expiry) = (self.timer.clock.clone(), self.timer.expiry);
        self.timer = Sleep {
            clock,
            expiry: expiry + self.period,
            id: None,
        };
        Poll::Ready(Some(()))
    }
}

async fn next<T>(stream: &mut (impl Stream<Item = T> + Unpin)) -> Option<T> {
    poll_fn(|cx| Pin::new(&mut *stream).poll_next(cx)).await
}

/// The first `n` items of a stream, or all where there are fewer.
async fn take<T>(mut stream: impl Stream<Item = T> + Unpin, n: usize) -> Vec<T> {
    let mut items = vec![];
    while items.len() < n {
        match next(&mut stream).await {
            Some(item) => items.push(item),
            None => break,
        }
    }
    items
}

/// Gives a future up after some time.
async fn timeout<T>(
    clock: &Rc<Clock>,
    fut: impl Future<Output = T>,
    duration: Duration,
) -> Result<T, ()> {
    let mut fut = Box::pin(fut);
    let mut timer = sleep(clock, duration);
    poll_fn(move |cx| {
        if let Poll::Ready(out) = fut.as_mut().poll(cx) {
            return Poll::Ready(Ok(out));
        }
        Pin::new(&mut timer).poll(cx).map(Err)
    })
    .await
}

/// The queue of awoken tasks, as the tasks' wakers share it.
struct Queue {
    base: AtomicWaker,
    queue: Mutex<WakeQueue>,
}

struct SharedTaskWaker {
    queue: Arc<Queue>,
    waker: Mutex<TaskWaker>,
}

impl Wake for SharedTaskWaker {
    fn wake(self: Arc<Self>) {
        let first = self
            .waker
            .lock()
            .unwrap()
            .wake(&mut self.queue.queue.lock().unwrap(), true);
        if first {
            self.queue.base.wake();
        }
    }
}

impl SharedTaskWaker {
    fn pair(queue: &Arc<Queue>, task_id: usize) -> (Arc<Self>, Waker) {
        let this = Arc::new(SharedTaskWaker {
            queue: queue.clone(),
            waker: Mutex::new(TaskWaker::new(task_id)),
        });
        let waker = this.clone().into();
        (this, waker)
    }
}

/// A handle whatever its task's result is.
trait AnyHandle {
    fn check_task(&self, ex: &mut Executor, key: usize) -> bool;
    fn check_spawned(&self, ex: &Executor) -> Option<usize>;
    fn attach(&self, waker: Waker);
}

impl<T> AnyHandle for RefCell<TaskHandle<T, Waker>> {
    fn check_task(&self, ex: &mut Executor, key: usize) -> bool {
        ex.check_task(key, &self.borrow().handle_data)
    }

    fn check_spawned(&self, ex: &Executor) -> Option<usize> {
        ex.check_spawned(&self.borrow().handle_data)
    }

    fn attach(&self, waker: Waker) {
        self.borrow_mut().attach(waker);
    }
}

struct Handle<T>(Rc<RefCell<TaskHandle<T, Waker>>>);

impl<T> Handle<T> {
    fn cancel(&self) {
        let waker = self.0.borrow_mut().cancel();
        if let Some(waker) = waker {
            waker.wake();
        }
    }

    fn is_cancelled(&self) -> bool {
        self.0.borrow().is_cancelled()
    }

    fn is_finished(&self) -> bool {
        self.0.borrow().is_finished()
    }
}

impl<T> Future for Handle<T> {
    type Output = T;

    fn poll(self: Pin<&mut Self>, cx: &mut Context<'_>) -> Poll<T> {
        match self.0.borrow_mut().poll(cx.waker().clone()) {
            local_runtime::Poll::Ready(value) => Poll::Ready(value),
            local_runtime::Poll::Pending => Poll::Pending,
        }
    }
}

struct Task<'a> {
    future: LocalFuture<'a, ()>,
    handle: Rc<dyn AnyHandle + 'a>,
    waker: Option<(Arc<SharedTaskWaker>, Waker)>,
}

/// An executor of futures on the library's executor.
struct Tasks<'a> {
    core: RefCell<Executor>,
    futures: RefCell<HashMap<u64, Task<'a>>>,
    next_ticket: Cell<u64>,
    queue: Arc<Queue>,
}

impl<'a> Tasks<'a> {
    fn new() -> Self {
        Tasks {
            core: RefCell::new(Executor::new()),
            futures: RefCell::new(HashMap::new()),
            next_ticket: Cell::new(0),
            queue: Arc::new(Queue {
                base: AtomicWaker::new(),
                queue: Mutex::new(WakeQueue::with_capacity(4)),
            }),
        }
    }

    fn task_count(&self) -> usize {
        self.core.borrow().task_count()
    }

    fn spawn<T: 'a>(&self, fut: impl Future<Output = T> + 'a) -> Handle<T> {
        let ticket = self.next_ticket.get();
        self.next_ticket.set(ticket + 1);
        let handle = Rc::new(RefCell::new(self.core.borrow_mut().spawn::<T, Waker>(ticket)));
        let end = handle.clone();
        let task = Task {
            future: Box::pin(async move {
                let value = fut.await;
                let waker = end.borrow_mut().complete(value);
                if let Some(waker) = waker {
                    waker.wake();
                }
            }),
            handle: handle.clone(),
            waker: None,
        };
        self.futures.borrow_mut().insert(ticket, task);
        Handle(handle)
    }

    /// Polls the task with this ticket, or drops it once it is complete.
    fn poll_task(&self, ticket: u64) -> bool {
        let mut task = self.futures.borrow_mut().remove(&ticket).unwrap();
        let (data, waker) = task.waker.clone().unwrap();
        data.waker.lock().unwrap().to_sleep();
        let ready = task
            .future
            .as_mut()
            .poll(&mut Context::from_waker(&waker))
            .is_ready();
        if !ready {
            self.futures.borrow_mut().insert(ticket, task);
        }
        ready
    }

    /// One pass, in which polling the main future is left to `main`.
    fn pass(&self, main: &mut dyn FnMut() -> bool) -> bool {
        let mut pass = self
            .core
            .borrow()
            .begin_pass(&self.queue.queue.lock().unwrap(), true);
        loop {
            let action = self
                .core
                .borrow_mut()
                .next_action(&mut self.queue.queue.lock().unwrap(), &mut pass);
            match action {
                RunAction::PollTask { key, ticket } => {
                    let handle = self.futures.borrow()[&ticket].handle.clone();
                    if !handle.check_task(&mut self.core.borrow_mut(), key) {
                        self.futures.borrow_mut().remove(&ticket);
                        continue;
                    }
                    let ready = self.poll_task(ticket);
                    self.core.borrow_mut().settle_task(key, ready);
                }
                RunAction::PollMain => {
                    if main() {
                        return true;
                    }
                }
                RunAction::PollSpawned { ticket } => {
                    let handle = self.futures.borrow()[&ticket].handle.clone();
                    let key = match handle.check_spawned(&self.core.borrow()) {
                        Some(key) => key,
                        None => {
                            self.futures.borrow_mut().remove(&ticket);
                            continue;
                        }
                    };
                    assert_ne!(key, MAIN_TASK_ID);
                    let (data, waker) = SharedTaskWaker::pair(&self.queue, key);
                    handle.attach(waker.clone());
                    self.futures.borrow_mut().get_mut(&ticket).unwrap().waker = Some((data, waker));
                    let ready = self.poll_task(ticket);
                    let kept = self.core.borrow_mut().settle_spawned(ticket, ready);
                    assert_eq!(kept, if ready { None } else { Some(key) });
                }
                RunAction::Suspend => return false,
            }
        }
    }

    fn poll(&self) {
        self.pass(&mut || false);
    }

    async fn run_async<T>(&self, fut: impl Future<Output = T>) -> T {
        let mut fut = Box::pin(fut);
        let (data, waker) = SharedTaskWaker::pair(&self.queue, MAIN_TASK_ID);
        self.core
            .borrow()
            .begin_run(&mut self.queue.queue.lock().unwrap(), true);
        let out = poll_fn(|cx| {
            self.queue.base.register(cx.waker());
            let mut out = None;
            self.pass(&mut || {
                data.waker.lock().unwrap().to_sleep();
                match fut.as_mut().poll(&mut Context::from_waker(&waker)) {
                    Poll::Ready(value) => {
                        out = Some(value);
                        true
                    }
                    Poll::Pending => false,
                }
            });
            match out {
                Some(value) => Poll::Ready(value),
                None => Poll::Pending,
            }
        })
        .await;
        self.core.borrow_mut().finish_run();
        self.futures.borrow_mut().clear();
        out
    }

    fn run<T>(&self, clock: &Clock, fut: impl Future<Output = T>) -> T {
        clock.block_on(self.run_async(fut))
    }
}

#[test]
fn spawn_and_poll() {
    let ex = Tasks::new();
    assert_eq!(ex.task_count(), 0);

    ex.spawn(pending::<()>());
    ex.spawn(pending::<()>());
    ex.spawn(pending::<()>());
    ex.poll();
    assert_eq!(ex.task_count(), 3);

    ex.spawn(async {});
    ex.spawn(async {});
    ex.poll();
    assert_eq!(ex.task_count(), 3);
}

#[test]
fn task_waker() {
    let base_waker = Arc::new(MockWaker::default());
    let n = Cell::new(0);
    let ex = Tasks::new();
    ex.queue.base.register(&base_waker.clone().into());
    ex.spawn(poll_fn(|cx| {
        n.set(n.get() + 1);
        cx.waker().wake_by_ref();
        Poll::<()>::Pending
    }));

    // Poll the spawned tasks, which should wake up right away
    ex.poll();
    assert_eq!(ex.queue.queue.lock().unwrap().local_len(), 1);
    assert!(base_waker.get());
    // Poll the awoken task, which should wake up again
    ex.poll();
    assert_eq!(ex.queue.queue.lock().unwrap().local_len(), 1);

    drop(ex);
    // Should have polled twice
    assert_eq!(n.get(), 2);
}

#[test]
fn cancel() {
    let ex = Tasks::new();
    assert_eq!(ex.task_count(), 0);

    let task = ex.spawn(pending::<()>());
    // Cancel task while it's in the spawned list
    task.cancel();
    assert!(task.is_cancelled());
    ex.poll();
    assert_eq!(ex.task_count(), 0);

    let task = ex.spawn(pending::<()>());
    assert!(!task.is_cancelled());
    ex.poll();
    assert_eq!(ex.task_count(), 1);

    // Cancel task while it's in the task list
    task.cancel();
    ex.poll();
    assert_eq!(ex.task_count(), 0);
}

#[test]
fn wake_queue() {
    let mut queue = WakeQueue::with_capacity(4);
    queue.push(12, true);
    queue.push(13, true);
    for i in 0..10 {
        queue.push(i, false);
    }

    assert_eq!(queue.concurrent_len(), 10);
    assert_eq!(queue.local_len(), 2);

    let drain_all = |queue: &mut WakeQueue| {
        let mut drain = queue.begin_drain(true);
        let mut elems = vec![];
        while let Some(val) = queue.next_drained(&mut drain) {
            elems.push(val);
        }
        elems
    };
    let mut elems = drain_all(&mut queue);
    elems.sort_unstable();
    assert_eq!(elems, &[0, 1, 2, 3, 4, 5, 6, 7, 8, 9, 12, 13]);

    queue.push(12, true);
    queue.push(13, true);
    queue.push(14, false);
    queue.reset(6, true);
    assert_eq!(queue.concurrent_len(), 0);
    assert_eq!(queue.local_len(), 1);
    assert_eq!(drain_all(&mut queue), vec![6]);
}

#[test]
fn drain_leaves_what_comes_meanwhile() {
    let mut queue = WakeQueue::with_capacity(0);
    queue.push(1, true);
    queue.push(2, false);
    queue.push(3, true);
    let mut drain = queue.begin_drain(true);
    let mut elems = vec![];
    while let Some(val) = queue.next_drained(&mut drain) {
        elems.push(val);
        // Every wakeup brings forth two more
        queue.push(val + 10, true);
        queue.push(val + 20, false);
    }
    assert_eq!(elems, vec![1, 3, 2]);
    assert_eq!(queue.local_len(), 3);
    assert_eq!(queue.concurrent_len(), 3);

    // Another thread neither drains nor resets the queue
    let mut drain = queue.begin_drain(false);
    assert_eq!(queue.next_drained(&mut drain), None);
    queue.reset(9, false);
    assert_eq!(queue.local_len(), 3);
    assert_eq!(queue.concurrent_len(), 3);
}

#[test]
fn woken_once_until_asleep() {
    let mut queue = WakeQueue::with_capacity(4);
    let mut waker = TaskWaker::new(5);
    assert!(waker.wake(&mut queue, false));
    assert!(!waker.wake(&mut queue, true));
    assert!(!waker.wake(&mut queue, false));
    assert_eq!(queue.concurrent_len(), 1);
    assert_eq!(queue.local_len(), 0);
    waker.to_sleep();
    assert!(waker.wake(&mut queue, true));
    assert_eq!(queue.local_len(), 1);
}

#[test]
fn handle_delivers_result() {
    let mut handle: TaskHandle<u8, &str> = TaskHandle::new();
    assert!(matches!(handle.poll("a"), local_runtime::Poll::Pending));
    assert!(matches!(handle.poll("b"), local_runtime::Poll::Pending));
    assert!(!handle.is_finished());
    // The waker of the last poll is the one to be called
    assert_eq!(handle.complete(7), Some("b"));
    assert!(handle.is_finished());
    // A task that was finished before it was cancelled still delivers its result
    handle.attach("task");
    assert_eq!(handle.cancel(), Some("task"));
    assert_eq!(handle.cancel(), None);
    assert!(handle.is_cancelled());
    assert!(matches!(handle.poll("c"), local_runtime::Poll::Ready(7)));
    assert!(!handle.is_finished());
    assert!(matches!(handle.poll("c"), local_runtime::Poll::Pending));
}

#[test]
fn pass_order() {
    let mut queue = WakeQueue::with_capacity(4);
    let mut ex = Executor::with_capacity(8);
    ex.begin_run(&mut queue, true);
    let handle: TaskHandle<(), ()> = ex.spawn(100);
    let _: TaskHandle<(), ()> = ex.spawn(101);

    // The main future first, then the spawned tasks, the latest first
    let mut pass = ex.begin_pass(&queue, true);
    assert_eq!(ex.next_action(&mut queue, &mut pass), RunAction::PollMain);
    assert_eq!(
        ex.next_action(&mut queue, &mut pass),
        RunAction::PollSpawned { ticket: 101 }
    );
    assert_eq!(ex.check_spawned(&handle.handle_data), Some(0));
    assert_eq!(ex.settle_spawned(101, false), Some(0));
    assert_eq!(
        ex.next_action(&mut queue, &mut pass),
        RunAction::PollSpawned { ticket: 100 }
    );
    assert_eq!(ex.check_spawned(&handle.handle_data), Some(1));
    assert_eq!(ex.settle_spawned(100, false), Some(1));
    assert_eq!(ex.next_action(&mut queue, &mut pass), RunAction::Suspend);

    // Awoken tasks before the main future; a key that nobody has is passed over
    queue.push(7, true);
    queue.push(MAIN_TASK_ID, true);
    queue.push(1, true);
    queue.push(0, false);
    let mut pass = ex.begin_pass(&queue, true);
    assert_eq!(
        ex.next_action(&mut queue, &mut pass),
        RunAction::PollTask {
            key: 1,
            ticket: 100
        }
    );
    assert!(ex.check_task(1, &handle.handle_data));
    ex.settle_task(1, true);
    assert_eq!(
        ex.next_action(&mut queue, &mut pass),
        RunAction::PollTask {
            key: 0,
            ticket: 101
        }
    );
    ex.settle_task(0, false);
    assert_eq!(ex.next_action(&mut queue, &mut pass), RunAction::PollMain);
    assert_eq!(ex.next_action(&mut queue, &mut pass), RunAction::Suspend);
    assert_eq!(ex.task_count(), 1);

    // Without a wakeup nothing is polled
    let mut pass = ex.begin_pass(&queue, true);
    assert_eq!(ex.next_action(&mut queue, &mut pass), RunAction::Suspend);

    // A cancelled task is dropped without being polled
    let mut cancelled: TaskHandle<(), ()> = TaskHandle::new();
    cancelled.cancel();
    assert_eq!(ex.check_spawned(&cancelled.handle_data), None);
    assert!(!ex.check_task(0, &cancelled.handle_data));
    assert_eq!(ex.task_count(), 0);

    ex.settle_spawned(102, false);
    ex.finish_run();
    assert_eq!(ex.task_count(), 0);
}

#[test]
fn spawn_one() {
    let clock = Clock::new();
    let n = 10;
    let ex = Tasks::new();
    let out = ex.run(&clock, async {
        let handle = ex.spawn(async { &n });
        handle.await
    });
    assert_eq!(*out, 10);
}

#[test]
fn spawn_parallel() {
    let clock = Clock::new();
    let ex = Tasks::new();
    ex.run(&clock, async {
        let task1 = ex.spawn(sleep(&clock, Duration::from_millis(100)));
        let clock2 = clock.clone();
        let task2 = ex.spawn(async move {
            sleep(&clock2, Duration::from_millis(50)).await;
            sleep(&clock2, Duration::from_millis(70)).await;
        });
        sleep(&clock, Duration::from_millis(100)).await;
        task1.await;
        task2.await;
    });
    let elapsed = clock.elapsed();
    assert!(elapsed > Duration::from_millis(120));
    assert!(elapsed < Duration::from_millis(150));
}

#[test]
fn spawn_recursive() {
    let clock = Clock::new();
    let n = 10;
    let nref = &n;
    let ex = Rc::new(Tasks::new());
    ex.run(&clock, async {
        let (ex2, clock2) = (ex.clone(), clock.clone());
        let task = ex.spawn(async move {
            sleep(&clock2, Duration::from_millis(50)).await;
            let clock3 = clock2.clone();
            ex2.spawn(async move {
                sleep(&clock3, Duration::from_millis(20)).await;
                nref
            })
        });

        ex.spawn(async move {
            let inner_task = task.await;
            assert_eq!(*inner_task.await, 10);
        })
        .await;
    });
    assert!(clock.elapsed() > Duration::from_millis(70));
    assert_eq!(Rc::strong_count(&ex), 1);
}

#[test]
fn spawn_dropped() {
    let clock = Clock::new();
    let ex = Tasks::new();
    ex.run(&clock, async {
        // Nothing awaits the spawned future, so that it never returns does not matter
        ex.spawn(pending::<()>());
    });
    assert_eq!(ex.task_count(), 0);
}

#[test]
fn cancelled() {
    let clock = Clock::new();
    let ex = Tasks::new();
    ex.run(&clock, async {
        let task1 = ex.spawn(async { 3 });
        task1.cancel();
        assert!(timeout(&clock, task1, Duration::from_millis(10))
            .await
            .is_err());

        let task2 = ex.spawn(sleep(&clock, Duration::from_millis(5)));
        task2.cancel();
        assert!(timeout(&clock, task2, Duration::from_millis(10))
            .await
            .is_err());
    })
}

async fn periodic_task<'a>(clock: Rc<Clock>, n: &'a Cell<i32>, ex: Rc<Tasks<'a>>) {
    let (ex2, clock2) = (ex.clone(), clock.clone());
    let _bg = ex.spawn(async move {
        let mut periodic = Periodic::periodic(&clock2, Duration::from_millis(10));
        // Should run 4 times
        loop {
            next(&mut periodic).await;
            ex2.spawn(async move { n.set(n.get() + 1) });
        }
    });

    let mut periodic = Periodic::periodic(&clock, Duration::from_millis(15));
    for _ in 0..3 {
        next(&mut periodic).await;
        ex.spawn(async move { n.set(n.get() + 1) });
    }
    // Final delay to ensure that all spawned tasks are polled
    sleep(&clock, Duration::from_micros(100)).await;
}

#[test]
fn spawn_periodic() {
    let clock = Clock::new();
    let n = Cell::new(0);
    let ex = Rc::new(Tasks::new());
    ex.run(&clock, periodic_task(clock.clone(), &n, ex.clone()));

    assert_eq!(n.get(), 7);
    assert_eq!(Rc::strong_count(&ex), 1);
}

#[test]
fn sub_executor_periodic() {
    let clock = Clock::new();
    let flag = Cell::new(false);

    let ex = Tasks::new();
    ex.run(&clock, async {
        let (clock2, flag) = (clock.clone(), &flag);
        ex.spawn(async move {
            sleep(&clock2, Duration::from_millis(30)).await;
            flag.set(true);
        });

        let n = Cell::new(0);
        let sub = Rc::new(Tasks::new());
        sub.run_async(periodic_task(clock.clone(), &n, sub.clone()))
            .await;
        assert_eq!(n.get(), 7);
        assert_eq!(Rc::strong_count(&sub), 1);
    });
    drop(ex);

    // The sub-executor shouldn't block, so spawned tasks should run as well
    assert!(flag.get());
}

#[test]
fn sub_executor_one() {
    let clock = Clock::new();
    let ex = Tasks::new();
    ex.run(&clock, async {
        let n = 10;
        let sub = Tasks::new();
        let out = sub
            .run_async(async {
                let (clock2, n) = (clock.clone(), &n);
                let handle = sub.spawn(async move {
                    sleep(&clock2, Duration::from_millis(30)).await;
                    n
                });
                handle.await
            })
            .await;
        assert_eq!(*out, n);
    });
}

#[test]
fn switch_waker_ex() {
    let clock = Clock::new();
    let ex = Tasks::new();
    let waker1 = Arc::new(MockWaker::default());
    let waker2 = Arc::new(MockWaker::default());

    let mut fut = Box::pin(ex.run_async(async {
        let _bg = ex.spawn(sleep(&clock, Duration::from_millis(100)));
        sleep(&clock, Duration::from_millis(50)).await;
        // Have the future wait forever without polling the background task
        pending::<()>().await;
    }));

    // Poll future with waker1
    assert!(fut
        .as_mut()
        .poll(&mut Context::from_waker(&waker1.clone().into()))
        .is_pending());
    // Wait until the 50ms sleep is done, which should notify waker1
    clock.wait();
    assert_eq!(clock.elapsed().as_millis(), 50);
    assert!(waker1.get());

    // Poll future with waker2
    assert!(fut
        .as_mut()
        .poll(&mut Context::from_waker(&waker2.clone().into()))
        .is_pending());
    // Wait until the 100ms sleep is done, which should notify waker2 even though the sleep task is
    // never polled after switching to waker2
    clock.wait();
    assert_eq!(clock.elapsed().as_millis(), 100);
    assert!(waker2.get());
}

#[test]
fn timer_test() {
    let clock = Clock::new();
    clock.block_on(sleep(&clock, Duration::from_millis(10)));
    assert!(clock.elapsed() >= Duration::from_millis(10));
}

#[test]
fn timeout_test() {
    let clock = Clock::new();
    clock.block_on(async {
        assert!(timeout(&clock, pending::<()>(), Duration::from_millis(20))
            .await
            .is_err());
        assert_eq!(
            timeout(&clock, ready(12), Duration::from_millis(20))
                .await
                .unwrap(),
            12
        );
    });
    assert!(clock.elapsed() >= Duration::from_millis(20));
    // A timer that is dropped is cancelled
    assert!(clock.reactor.borrow().is_empty());
}

#[test]
fn id_wraps_to_one() {
    assert_eq!(Id::new(1).overflowing_incr(), Id::new(2));
    assert_eq!(Id::new(usize::MAX - 1).overflowing_incr().get(), usize::MAX);
    assert_eq!(Id::new(usize::MAX).overflowing_incr(), Id::new(1));
}

#[test]
fn finished_task_is_seen_by_its_handle() {
    let ex = Tasks::new();
    let task = ex.spawn(async { 5 });
    assert!(!task.is_finished());
    ex.poll();
    assert!(task.is_finished());
    let clock = Clock::new();
    assert_eq!(clock.block_on(task), 5);
}

#[test]
fn periodic_test() {
    let clock = Clock::new();
    let count = Cell::new(0);
    clock.block_on(async {
        let fut = async {
            let mut periodic = Periodic::periodic(&clock, Duration::from_millis(10));
            loop {
                next(&mut periodic).await.unwrap();
                count.set(count.get() + 1);
            }
        };
        let out: Result<(), ()> = timeout(&clock, fut, Duration::from_millis(75)).await;
        out.unwrap_err();
    });
    assert_eq!(count.get(), 7);
}

#[test]
fn microsecond_timer() {
    let clock = Clock::new();
    clock.block_on(async {
        let mut periodic = Periodic::periodic(&clock, Duration::from_micros(500));
        for _ in 0..10 {
            let before = clock.elapsed();
            next(&mut periodic).await;
            let elapsed = clock.elapsed() - before;
            assert!(elapsed > Duration::from_micros(300));
            assert!(elapsed < Duration::from_micros(700));
        }
    });
}

/// The flags of the futures or streams that are polled together.
struct Flags {
    base: AtomicWaker,
    flags: Mutex<Vec<FlagWaker>>,
}

struct SharedFlag {
    shared: Arc<Flags>,
    index: usize,
}

impl Wake for SharedFlag {
    fn wake(self: Arc<Self>) {
        self.shared.flags.lock().unwrap()[self.index].set_awoken();
        self.shared.base.wake();
    }
}

impl Flags {
    fn new(n: usize) -> (Arc<Flags>, Vec<Waker>) {
        let shared = Arc::new(Flags {
            base: AtomicWaker::new(),
            flags: Mutex::new(FlagWaker::for_each(n)),
        });
        let wakers = (0..n)
            .map(|index| {
                let shared = shared.clone();
                Arc::new(SharedFlag { shared, index }).into()
            })
            .collect();
        (shared, wakers)
    }
}

fn of_std<T>(polled: Poll<T>) -> local_runtime::Poll<T> {
    match polled {
        Poll::Ready(value) => local_runtime::Poll::Ready(value),
        Poll::Pending => local_runtime::Poll::Pending,
    }
}

fn to_std<T>(polled: local_runtime::Poll<T>) -> Poll<T> {
    match polled {
        local_runtime::Poll::Ready(value) => Poll::Ready(value),
        local_runtime::Poll::Pending => Poll::Pending,
    }
}

async fn join<T>(futures: Vec<LocalFuture<'_, T>>) -> Vec<T> {
    let (shared, wakers) = Flags::new(futures.len());
    let mut join: JoinFuture<LocalFuture<'_, T>, T> = JoinFuture::new(futures);
    poll_fn(move |cx| {
        shared.base.register(cx.waker());
        let mut from = 0;
        loop {
            let due = join.next_poll(from, &mut shared.flags.lock().unwrap());
            let Some(i) = due else { break };
            let polled = join
                .future_mut(i)
                .as_mut()
                .poll(&mut Context::from_waker(&wakers[i]));
            join.settle(i, of_std(polled));
            from = i + 1;
        }
        to_std(join.finish())
    })
    .await
}

async fn try_join_all<T, E>(futures: Vec<LocalFuture<'_, Result<T, E>>>) -> Result<Vec<T>, E> {
    let (shared, wakers) = Flags::new(futures.len());
    let mut join: TryJoinFuture<LocalFuture<'_, Result<T, E>>, T, E> = TryJoinFuture::new(futures);
    poll_fn(move |cx| {
        shared.base.register(cx.waker());
        let mut from = 0;
        loop {
            let due = join.0.next_poll(from, &mut shared.flags.lock().unwrap());
            let Some(i) = due else { break };
            let polled = join
                .0
                .future_mut(i)
                .as_mut()
                .poll(&mut Context::from_waker(&wakers[i]));
            if let Some(err) = join.settle(i, of_std(polled)) {
                return Poll::Ready(Err(err));
            }
            from = i + 1;
        }
        to_std(join.finish()).map(Ok)
    })
    .await
}

struct MergedFutures<'a, T> {
    stream: MergeFutureStream<LocalFuture<'a, T>>,
    shared: Arc<Flags>,
    wakers: Vec<Waker>,
}

fn merge_all_futures<T>(futures: Vec<LocalFuture<'_, T>>) -> MergedFutures<'_, T> {
    let (shared, wakers) = Flags::new(futures.len());
    MergedFutures {
        stream: MergeFutureStream::new(futures),
        shared,
        wakers,
    }
}

impl<T> Stream for MergedFutures<'_, T> {
    type Item = T;

    fn poll_next(self: Pin<&mut Self>, cx: &mut Context<'_>) -> Poll<Option<T>> {
        let this = self.get_mut();
        this.shared.base.register(cx.waker());
        let mut pass = this.stream.merged.begin();
        loop {
            let step = this
                .stream
                .merged
                .next_poll(&mut pass, &mut this.shared.flags.lock().unwrap());
            let polled = match step {
                MergeStep::Poll(i) => this
                    .stream
                    .merged
                    .poller_mut(i)
                    .as_mut()
                    .poll(&mut Context::from_waker(&this.wakers[i])),
                MergeStep::End => return Poll::Ready(None),
                MergeStep::Pending => return Poll::Pending,
            };
            let turn = this.stream.settle(
                &mut pass,
                &mut this.shared.flags.lock().unwrap(),
                of_std(polled),
            );
            match turn {
                Turn::Item(item) => return Poll::Ready(Some(item)),
                Turn::End => return Poll::Ready(None),
                Turn::Continue => {}
            }
        }
    }
}

struct MergedStreams<'a, T> {
    stream: MergeStream<LocalStream<'a, T>>,
    shared: Arc<Flags>,
    wakers: Vec<Waker>,
}

fn merge_all_streams<T>(streams: Vec<LocalStream<'_, T>>) -> MergedStreams<'_, T> {
    let (shared, wakers) = Flags::new(streams.len());
    MergedStreams {
        stream: MergeStream::new(streams),
        shared,
        wakers,
    }
}

impl<T> Stream for MergedStreams<'_, T> {
    type Item = T;

    fn poll_next(self: Pin<&mut Self>, cx: &mut Context<'_>) -> Poll<Option<T>> {
        let this = self.get_mut();
        this.shared.base.register(cx.waker());
        let mut pass = this.stream.merged.begin();
        loop {
            let step = this
                .stream
                .merged
                .next_poll(&mut pass, &mut this.shared.flags.lock().unwrap());
            let polled = match step {
                MergeStep::Poll(i) => this
                    .stream
                    .merged
                    .poller_mut(i)
                    .as_mut()
                    .poll_next(&mut Context::from_waker(&this.wakers[i])),
                MergeStep::End => return Poll::Ready(None),
                MergeStep::Pending => return Poll::Pending,
            };
            let turn = this.stream.settle(
                &mut pass,
                &mut this.shared.flags.lock().unwrap(),
                of_std(polled),
            );
            match turn {
                Turn::Item(item) => return Poll::Ready(Some(item)),
                Turn::End => return Poll::Ready(None),
                Turn::Continue => {}
            }
        }
    }
}

struct CountFuture<'a>(&'a Cell<u8>);

impl Future for CountFuture<'_> {
    type Output = ();

    fn poll(self: Pin<&mut Self>, _cx: &mut Context<'_>) -> Poll<Self::Output> {
        self.0.set(self.0.get() + 1);
        Poll::Pending
    }
}

/// A future that counts its polls, is given up after some time, and returns a value.
fn count_until<'a, T: 'a>(
    clock: &'a Rc<Clock>,
    count: &'a Cell<u8>,
    duration: Duration,
    value: T,
) -> LocalFuture<'a, T> {
    Box::pin(async move {
        let _ = timeout(clock, CountFuture(count), duration).await;
        value
    })
}

/// A stream of the given items.
struct Items<T>(std::vec::IntoIter<T>);

impl<T: Unpin> Stream for Items<T> {
    type Item = T;

    fn poll_next(mut self: Pin<&mut Self>, _cx: &mut Context<'_>) -> Poll<Option<T>> {
        Poll::Ready(self.0.next())
    }
}

/// A stream that yields `value` some times, each after a delay.
struct Delayed {
    clock: Rc<Clock>,
    left: usize,
    delay: Duration,
    value: u8,
    timer: Option<Sleep>,
}

impl Stream for Delayed {
    type Item = u8;

    fn poll_next(mut self: Pin<&mut Self>, cx: &mut Context<'_>) -> Poll<Option<u8>> {
        if self.left == 0 {
            return Poll::Ready(None);
        }
        let (clock, delay) = (self.clock.clone(), self.delay);
        let timer = self.timer.get_or_insert_with(|| sleep(&clock, delay));
        if Pin::new(timer).poll(cx).is_pending() {
            return Poll::Pending;
        }
        self.timer = None;
        self.left -= 1;
        Poll::Ready(Some(self.value))
    }
}

/// A periodic stream of the same value.
struct Ticks(Periodic, u8);

impl Stream for Ticks {
    type Item = u8;

    fn poll_next(mut self: Pin<&mut Self>, cx: &mut Context<'_>) -> Poll<Option<u8>> {
        let value = self.1;
        Pin::new(&mut self.0)
            .poll_next(cx)
            .map(|tick| tick.map(|_| value))
    }
}

fn ticks<'a>(clock: &Rc<Clock>, millis: u64, value: u8) -> LocalStream<'a, u8> {
    let period = Duration::from_millis(millis);
    Box::pin(Ticks(Periodic::periodic(clock, period), value))
}

#[test]
fn flag_waker_multiple_wakers() {
    // The flag works even when the inner waker is swapped
    let wk1 = Arc::new(MockWaker::default());
    let wk2 = Arc::new(MockWaker::default());
    let (shared, wakers) = Flags::new(1);
    let flag_waker = &wakers[0];

    // The flag should be initialized as true
    assert!(shared.flags.lock().unwrap()[0].check_awoken());
    assert!(!shared.flags.lock().unwrap()[0].awoken);
    shared.base.register(&wk1.clone().into());
    flag_waker.wake_by_ref();
    assert!(wk1.get());

    // After calling wake_by_ref(), the flag should be set to true
    assert!(shared.flags.lock().unwrap()[0].check_awoken());
    assert!(!shared.flags.lock().unwrap()[0].awoken);
    shared.base.register(&wk2.clone().into());
    flag_waker.wake_by_ref();
    assert!(wk2.get());
}

#[test]
fn join_join() {
    let clock = Clock::new();
    let count = Cell::new(0);
    clock.block_on(join(vec![
        count_until(&clock, &count, Duration::from_micros(500), ()),
        count_until(&clock, &count, Duration::from_micros(200), ()),
        count_until(&clock, &count, Duration::from_millis(10), ()),
    ]));
    assert!(clock.elapsed() >= Duration::from_millis(10));
    // Not every future is polled each time, so there should only be 6 polls
    assert_eq!(count.get(), 6);
}

#[test]
fn macros_join() {
    let clock = Clock::new();
    let count = Cell::new(0);
    clock.block_on(join(vec![
        count_until(&clock, &count, Duration::from_millis(5), ()),
        count_until(&clock, &count, Duration::from_millis(2), ()),
        count_until(&clock, &count, Duration::from_millis(10), ()),
    ]));
    assert!(clock.elapsed() >= Duration::from_millis(10));
    // Not every future is polled each time, so there should only be 6 polls
    assert_eq!(count.get(), 6);
}

fn join_in_a_scope() -> Vec<i32> {
    let clock = Clock::new();
    clock.block_on(async {
        let joined = {
            let fut1 = async { 5 };
            let fut2 = async {
                sleep(&clock, Duration::from_nanos(1)).await;
                12
            };
            join(vec![Box::pin(fut1) as LocalFuture<'_, i32>, Box::pin(fut2)])
        };
        joined.await
    })
}

#[test]
fn join_scoping() {
    assert_eq!(join_in_a_scope(), [5, 12]);
}

#[test]
fn macros_scoping() {
    assert_eq!(join_in_a_scope(), [5, 12]);
}

#[test]
fn try_join() {
    let clock = Clock::new();
    let err = clock
        .block_on(try_join_all(vec![
            Box::pin(async { Err("error") }) as LocalFuture<'_, Result<(), &str>>,
            Box::pin(pending::<Result<(), &str>>()),
        ]))
        .unwrap_err();
    assert_eq!(err, "error");
}

#[test]
fn try_join_without_error() {
    let clock = Clock::new();
    let out: Result<Vec<u32>, i32> = clock.block_on(try_join_all(vec![
        Box::pin(async {
            sleep(&clock, Duration::from_millis(1)).await;
            Ok(10u32)
        }) as LocalFuture<'_, Result<u32, i32>>,
        Box::pin(async { Ok(11) }),
    ]));
    assert_eq!(out, Ok(vec![10, 11]));

    // An error comes out however many values are there
    let out: Result<Vec<u32>, i32> = clock.block_on(try_join_all(vec![
        Box::pin(async { Ok(10u32) }) as LocalFuture<'_, Result<u32, i32>>,
        Box::pin(async {
            sleep(&clock, Duration::from_millis(1)).await;
            Err(-1)
        }),
    ]));
    assert_eq!(out, Err(-1));
}

#[test]
fn switch_waker_join() {
    let clock = Clock::new();
    let waker1 = Arc::new(MockWaker::default());
    let waker2 = Arc::new(MockWaker::default());

    let mut fut = Box::pin(join(vec![
        Box::pin(sleep(&clock, Duration::from_millis(50))) as LocalFuture<'_, ()>,
        Box::pin(sleep(&clock, Duration::from_millis(100))),
    ]));

    // Poll future with waker1
    assert!(fut
        .as_mut()
        .poll(&mut Context::from_waker(&waker1.clone().into()))
        .is_pending());
    // Wait until the 50ms sleep is done, which should notify waker1
    clock.wait();
    assert_eq!(clock.elapsed().as_millis(), 50);
    assert!(waker1.get());

    // Poll future with waker2
    assert!(fut
        .as_mut()
        .poll(&mut Context::from_waker(&waker2.clone().into()))
        .is_pending());
    // Wait until the 100ms sleep is done, which should notify waker2 even though that sleep was
    // last polled before switching to waker2
    clock.wait();
    assert_eq!(clock.elapsed().as_millis(), 100);
    assert!(waker2.get());
}

#[test]
fn merge_futures() {
    let clock = Clock::new();
    clock.block_on(async {
        let merged: Vec<i32> = {
            let fut1 = async {
                sleep(&clock, Duration::from_millis(1)).await;
                12
            };
            let fut2 = async { 5 };
            let futures = vec![Box::pin(fut1) as LocalFuture<'_, i32>, Box::pin(fut2)];
            take(merge_all_futures(futures), usize::MAX).await
        };
        assert_eq!(merged, [5, 12]);

        let futures = vec![
            Box::pin(async { 1 }) as LocalFuture<'_, i32>,
            Box::pin(async { 2 }),
            Box::pin(async { 3 }),
        ];
        assert_eq!(
            take(merge_all_futures(futures), usize::MAX).await,
            &[1, 2, 3]
        );
    });
}

#[test]
fn merge_timers() {
    let clock = Clock::new();
    let count = Cell::new(0);
    let futures = vec![
        count_until(&clock, &count, Duration::from_millis(10), 1),
        count_until(&clock, &count, Duration::from_millis(20), 2),
        count_until(&clock, &count, Duration::from_millis(5), 3),
        count_until(&clock, &count, Duration::from_millis(25), 4),
        count_until(&clock, &count, Duration::from_millis(30), 5),
    ];
    let data = clock.block_on(take(merge_all_futures(futures), usize::MAX));
    assert_eq!(data, &[3, 1, 2, 4, 5]);
    // There should only be 10 polls, 2 for each future
    assert_eq!(count.get(), 10);
}

#[test]
fn merge_same_time() {
    let clock = Clock::new();
    clock.block_on(async {
        let a = sleep(&clock, Duration::from_millis(20));
        let b = sleep(&clock, Duration::from_millis(20));
        let futures = vec![Box::pin(a) as LocalFuture<'_, ()>, Box::pin(b)];
        let merged = take(merge_all_futures(futures), usize::MAX).await;
        assert_eq!(merged.len(), 2);
    });
}

#[test]
fn merge_periodic() {
    let clock = Clock::new();
    let streams = vec![
        ticks(&clock, 14, 1),
        ticks(&clock, 6, 2),
        Box::pin(Delayed {
            clock: clock.clone(),
            left: 2,
            delay: Duration::from_millis(5),
            value: 3,
            timer: None,
        }),
    ];
    assert_eq!(
        clock.block_on(take(merge_all_streams(streams), 8)),
        &[3, 2, 3, 2, 1, 2, 2, 1]
    );
}

#[test]
fn merge_two_periodic() {
    let clock = Clock::new();
    let streams = vec![ticks(&clock, 70, 1), ticks(&clock, 30, 2)];
    assert_eq!(
        clock.block_on(take(merge_all_streams(streams), 6)),
        &[2, 2, 1, 2, 2, 1]
    );
}

#[test]
fn single_entry() {
    let clock = Clock::new();
    clock.block_on(async {
        let futures = vec![Box::pin(async { 1 }) as LocalFuture<'_, i32>];
        assert_eq!(join(futures).await[0], 1);
        let futures = vec![Box::pin(async { 2 }) as LocalFuture<'_, i32>];
        assert_eq!(take(merge_all_futures(futures), usize::MAX).await, &[2]);
        let streams = vec![Box::pin(Items(vec![1, 2, 3].into_iter())) as LocalStream<'_, i32>];
        assert_eq!(
            take(merge_all_streams(streams), usize::MAX).await,
            &[1, 2, 3]
        );
    });
}
