use std::array;
use std::collections::BTreeMap;
use std::sync::atomic::{AtomicBool, Ordering};
use std::sync::Arc;
use std::task::{Wake, Waker};

use local_runtime::reactor::{EventData, Wakeup};
use local_runtime::{
    Duration, Filter, Interest, Reactor, ReactorError, Source, TimerQueue, WaitPlan, WithFlag,
};

#[derive(Debug, Default)]
struct MockWaker(AtomicBool);

impl Wake for MockWaker {
    fn wake(self: Arc<Self>) {
        self.0.store(true, Ordering::Relaxed);
    }
}

impl MockWaker {
    fn get(&self) -> bool {
        self.0.load(Ordering::Relaxed)
    }
}

/// A reactor on a poller that answers what it is told to.
struct MockReactor {
    reactor: Reactor<Waker>,
    notifier: WithFlag<u32>,
    now: u64,
    registrations: BTreeMap<Source, Filter>,
    poll_input: Vec<(Source, Filter)>,
    poll_output: Vec<(Source, Filter)>,
    polls: usize,
}

impl MockReactor {
    fn new() -> Self {
        MockReactor {
            reactor: Reactor::new(),
            notifier: WithFlag::new(7),
            now: 0,
            registrations: BTreeMap::new(),
            poll_input: vec![],
            poll_output: vec![],
            polls: 0,
        }
    }

    fn register_event(&mut self, source: Source) -> Result<(), ReactorError> {
        self.registrations.insert(source, Filter::default());
        self.reactor.register_event(source)
    }

    fn deregister_event(&mut self, source: Source) {
        self.registrations.remove(&source);
        self.reactor.deregister_event(source);
    }

    fn enable_event(&mut self, source: Source, interest: Interest, waker: &Arc<MockWaker>) {
        let filter = self
            .reactor
            .enable_event(source, interest, waker.clone().into());
        *self.registrations.get_mut(&source).unwrap() = filter;
    }

    fn wait(&mut self) {
        let mut events = vec![];
        match self
            .reactor
            .begin_wait(self.now, self.notifier.is_notified())
        {
            WaitPlan::Skip => {}
            WaitPlan::Poll { sources, .. } => {
                self.polls += 1;
                self.poll_input = sources;
                events = self.poll_output.clone();
                self.notifier.set_to_notified();
            }
        }
        let awoken = self.reactor.finish_wait(&events, self.now);
        for (source, interest) in awoken.events {
            self.reactor.waker(source, interest).unwrap().wake_by_ref();
        }
        for waker in awoken.timers {
            waker.wake();
        }
        self.notifier.clear(());
    }
}

/// Ends a wait, and tells the wakers that are to be called.
fn finish_wait(reactor: &mut Reactor<u32>, events: &Vec<(Source, Filter)>, now: u64) -> Vec<u32> {
    let awoken = reactor.finish_wait(events, now);
    let mut wakers: Vec<u32> = awoken
        .events
        .iter()
        .map(|(source, interest)| *reactor.waker(*source, *interest).unwrap())
        .collect();
    wakers.extend(awoken.timers);
    wakers
}

#[test]
fn flag_notifier() {
    let mut notifier = WithFlag::new(5u8);
    assert!(!notifier.is_notified());

    // Of ten notifications only the first uses the notifier
    let mut used = 0;
    for _ in 0..10 {
        if notifier.notify() {
            used += 1;
        }
    }
    assert!(notifier.is_notified());
    assert_eq!(used, 1);

    let res: Result<(), u8> = notifier.clear(Err(3));
    assert_eq!(res, Err(3));
    assert!(!notifier.is_notified());
    assert!(notifier.notify());
    notifier.clear(());
    notifier.set_to_notified();
    assert!(!notifier.notify());
    notifier.clear(());
    assert!(notifier.notify());
    assert!(!notifier.notify());
    assert_eq!(*notifier.get_inner(), 5);
}

#[test]
fn io_registration() {
    let mut reactor = MockReactor::new();
    assert_eq!(reactor.reactor.source_count(), 0);
    let waker1 = Arc::new(MockWaker::default());
    let waker2 = Arc::new(MockWaker::default());
    let waker3 = Arc::new(MockWaker::default());

    // Register
    reactor.register_event(100).unwrap();
    reactor.register_event(101).unwrap();
    assert_eq!(
        reactor.registrations.iter().collect::<Vec<_>>(),
        vec![(&100, &Filter::default()), (&101, &Filter::default())]
    );
    assert_eq!(reactor.reactor.filter(100), Some(Filter::default()));
    assert_eq!(reactor.reactor.filter(101), Some(Filter::default()));
    assert_eq!(reactor.reactor.source_count(), 2);

    // Enable event
    reactor.enable_event(100, Interest::Read, &waker1);
    reactor.enable_event(101, Interest::Read, &waker2);
    reactor.enable_event(101, Interest::Write, &waker3);
    assert_eq!(
        reactor.registrations.iter().collect::<Vec<_>>(),
        vec![(&100, &Filter::read()), (&101, &Filter::both())]
    );
    assert_eq!(reactor.reactor.filter(100), Some(Filter::read()));
    assert_eq!(reactor.reactor.filter(101), Some(Filter::both()));
    assert_eq!(reactor.reactor.source_count(), 2);

    // Events not ready yet
    assert!(!reactor.reactor.is_event_ready(100, Interest::Read));
    assert!(!reactor.reactor.is_event_ready(101, Interest::Read));
    assert!(!reactor.reactor.is_event_ready(101, Interest::Write));

    // Wait
    reactor.poll_output = vec![(100, Filter::read()), (101, Filter::write())];
    reactor.wait();
    assert_eq!(
        reactor.poll_input,
        vec![(100, Filter::read()), (101, Filter::both())]
    );
    // Check events ready
    assert!(reactor.reactor.is_event_ready(100, Interest::Read));
    assert!(!reactor.reactor.is_event_ready(101, Interest::Read));
    assert!(reactor.reactor.is_event_ready(101, Interest::Write));
    assert!(waker1.get());
    assert!(!waker2.get());
    assert!(waker3.get());
    // Make sure fired events are no longer registered
    assert_eq!(reactor.reactor.filter(100), Some(Filter::default()));
    assert_eq!(reactor.reactor.filter(101), Some(Filter::read()));

    // Deregister
    reactor.deregister_event(101);
    assert!(reactor.registrations.get(&100).is_some());
    assert_eq!(reactor.registrations.len(), 1);
    assert!(reactor.reactor.is_registered(100));
    assert!(!reactor.reactor.is_registered(101));
    assert_eq!(reactor.reactor.filter(101), None);
    assert_eq!(reactor.reactor.source_count(), 1);
}

#[test]
fn empty_wait() {
    let mut reactor = MockReactor::new();
    reactor.wait();
    assert!(reactor.poll_input.is_empty());
    assert!(reactor.registrations.is_empty());
    assert_eq!(reactor.reactor.source_count(), 0);
    assert!(reactor.reactor.is_empty());
}

#[test]
fn poll_no_output() {
    let waker = Arc::new(MockWaker::default());
    let mut reactor = MockReactor::new();

    reactor.register_event(100).unwrap();
    reactor.register_event(101).unwrap();
    reactor.enable_event(100, Interest::Read, &waker);
    reactor.enable_event(101, Interest::Read, &waker);

    // Poll returns nothing, so no event should have fired
    reactor.wait();
    assert!(!reactor.poll_input.is_empty());
    assert!(!reactor.reactor.is_event_ready(100, Interest::Read));
    assert!(!reactor.reactor.is_event_ready(101, Interest::Read));
    assert!(!waker.get());
}

#[test]
fn multiple_wakes() {
    let mut reactor = MockReactor::new();
    let events: [_; 5] = array::from_fn(|i| (i, Arc::new(MockWaker::default())));

    for (src, waker) in &events {
        reactor.register_event(*src as Source).unwrap();
        reactor.enable_event(*src as Source, Interest::Read, waker);
    }

    for i in [0, 1, 4] {
        reactor.poll_output = vec![(events[i].0 as Source, Filter::read())];
        reactor.wait();
        assert!(events[i].1.get());
    }
    assert!(!events[2].1.get());
    assert!(!events[3].1.get());
}

#[test]
fn modify_registration() {
    let mut reactor = MockReactor::new();
    let wakers: [_; 3] = array::from_fn(|_| Arc::new(MockWaker::default()));
    reactor.register_event(100).unwrap();
    reactor.poll_output = vec![(100, Filter::read())];

    reactor.enable_event(100, Interest::Read, &wakers[0]);
    reactor.wait();
    assert!(wakers[0].get());

    reactor.enable_event(100, Interest::Read, &wakers[1]);
    reactor.wait();
    assert!(wakers[1].get());

    reactor.enable_event(100, Interest::Read, &wakers[2]);
    reactor.wait();
    assert!(wakers[2].get());

    // Make sure event is deleted properly after multiple enables
    reactor.deregister_event(100);
    assert!(reactor.registrations.is_empty());
    assert!(reactor.reactor.is_empty());
}

#[test]
fn disable_event_after_poll() {
    let mut reactor = MockReactor::new();
    let waker = Arc::new(MockWaker::default());

    reactor.register_event(100).unwrap();
    reactor.enable_event(100, Interest::Read, &waker);
    reactor.enable_event(100, Interest::Write, &waker);

    // Both events are polled, but only the read event fires
    reactor.poll_output = vec![(100, Filter::read())];
    reactor.wait();
    assert_eq!(reactor.poll_input, vec![(100, Filter::both())]);

    // Now only the write event is polled
    reactor.wait();
    assert_eq!(reactor.poll_input, vec![(100, Filter::write())]);

    // Make sure event is deleted properly after multiple enables
    reactor.deregister_event(100);
    assert!(reactor.registrations.is_empty());
    assert!(reactor.reactor.is_empty());
}

#[test]
fn source_registered_twice() {
    let mut reactor: Reactor<u32> = Reactor::new();
    assert_eq!(reactor.register_event(5), Ok(()));
    reactor.enable_event(5, Interest::Read, 1);
    assert_eq!(
        reactor.register_event(5),
        Err(ReactorError::AlreadyRegistered)
    );
    // The first registration is left as it was
    assert_eq!(reactor.filter(5), Some(Filter::read()));
    assert_eq!(
        finish_wait(&mut reactor, &vec![(5, Filter::read())], 0),
        vec![1]
    );
}

#[test]
fn sources_polled_in_order() {
    let mut reactor: Reactor<u32> = Reactor::new();
    for source in [9, -3, 4, 7] {
        reactor.register_event(source).unwrap();
    }
    reactor.enable_event(7, Interest::Write, 1);
    match reactor.begin_wait(0, false) {
        WaitPlan::Poll { timeout, sources } => {
            assert_eq!(timeout, None);
            assert_eq!(
                sources,
                vec![
                    (-3, Filter::default()),
                    (4, Filter::default()),
                    (7, Filter::write()),
                    (9, Filter::default())
                ]
            );
        }
        WaitPlan::Skip => panic!("expected a poll"),
    }
}

#[test]
fn wakes_in_event_order_and_once() {
    let mut reactor: Reactor<u32> = Reactor::new();
    for source in [1, 2] {
        reactor.register_event(source).unwrap();
        reactor.enable_event(source, Interest::Read, 10 * source as u32);
        reactor.enable_event(source, Interest::Write, 10 * source as u32 + 1);
    }
    reactor.register_timer(5, 99);
    let events = vec![(2, Filter::both()), (1, Filter::write()), (2, Filter::read())];
    assert_eq!(
        finish_wait(&mut reactor, &events, 5),
        vec![20, 21, 11, 99]
    );
    // The same events wake nobody a second time
    assert_eq!(finish_wait(&mut reactor, &events, 5), vec![]);
    assert_eq!(reactor.filter(1), Some(Filter::read()));
    // The wakers stay
    assert_eq!(reactor.waker(2, Interest::Write), Some(&21));
    assert_eq!(reactor.waker(3, Interest::Write), None);
}

#[test]
fn wait_skipped_when_notified_or_expired() {
    let mut reactor = MockReactor::new();
    reactor.notifier.notify();
    reactor.wait();
    assert_eq!(reactor.polls, 0);
    // The flag was cleared by the wait
    reactor.wait();
    assert_eq!(reactor.polls, 1);

    let waker = Arc::new(MockWaker::default());
    reactor.now = 50;
    reactor.reactor.register_timer(50, waker.clone().into());
    reactor.wait();
    assert_eq!(reactor.polls, 1);
    assert!(waker.get());
    assert!(reactor.reactor.is_empty());
}

#[test]
fn poll_lasts_until_first_timer() {
    let mut reactor: Reactor<u32> = Reactor::new();
    reactor.register_timer(5_000_000_030, 1);
    let id = reactor.register_timer(2_000_000_030, 2);
    assert_eq!(id.get(), 2);
    let timeout = |reactor: &Reactor<u32>| match reactor.begin_wait(30, false) {
        WaitPlan::Poll { timeout, .. } => timeout,
        WaitPlan::Skip => panic!("expected a poll"),
    };
    assert_eq!(timeout(&reactor), Some(Duration { secs: 2, nanos: 0 }));
    reactor.modify_timer(id, 2_000_000_030, 3);
    reactor.cancel_timer(id, 2_000_000_030);
    assert_eq!(timeout(&reactor), Some(Duration { secs: 5, nanos: 0 }));
    // A timer that is gone is not modified
    reactor.modify_timer(id, 2_000_000_030, 3);
    assert_eq!(timeout(&reactor), Some(Duration { secs: 5, nanos: 0 }));
    assert_eq!(finish_wait(&mut reactor, &vec![], 5_000_000_029), vec![]);
    assert_eq!(finish_wait(&mut reactor, &vec![], 5_000_000_030), vec![1]);
    assert!(reactor.is_empty());
}

#[test]
fn timers_fire_in_order() {
    let mut timers: TimerQueue<&str> = TimerQueue::new();
    assert!(timers.is_empty());
    assert_eq!(timers.next_timeout(0), None);
    timers.register(30, "c");
    timers.register(10, "a");
    timers.register(30, "d");
    let late = timers.register(40, "e");
    let gone = timers.register(20, "b");
    timers.cancel(gone, 20);
    timers.modify(late, 40, "f");
    assert_eq!(timers.next_timeout(4), Some(Duration { secs: 0, nanos: 6 }));
    assert_eq!(timers.next_timeout(10), Some(Duration { secs: 0, nanos: 0 }));
    assert_eq!(timers.next_timeout(99), Some(Duration { secs: 0, nanos: 0 }));
    assert_eq!(timers.clear_expired(9), Vec::<&str>::new());
    assert_eq!(timers.clear_expired(30), vec!["a", "c", "d"]);
    assert_eq!(timers.clear_expired(u64::MAX), vec!["f"]);
    assert!(timers.is_empty());
}

#[test]
fn wakeup_fires_once() {
    let mut wakeup: Wakeup<u8> = Wakeup::default();
    assert_eq!(wakeup.wake(), None);
    wakeup.enable(1);
    wakeup.enable(2);
    assert_eq!(wakeup.wake(), Some(&2));
    // The waker stays, and is not told again
    assert!(!wakeup.enabled);
    assert_eq!(wakeup.waker, Some(2));
    assert_eq!(wakeup.wake(), None);

    let data = EventData {
        read: Wakeup::<u8>::default(),
        write: wakeup,
    };
    assert_eq!(data.filter(), Filter::default());
}
