use std::io::stderr;
use std::sync::atomic::{AtomicBool, Ordering};
use std::sync::Arc;
use std::task::{Wake, Waker};

use local_runtime::io::{connect, AdaptError, ConnectError};
use local_runtime::{
    Async, Attempt, EventWait, Filter, PollSet, PollTimeout, Progress, Reactor, ReactorError,
    Source, WaitPlan,
};
use rustix::event::{eventfd, poll, EventfdFlags, PollFd, PollFlags};
use rustix::fd::{AsRawFd, OwnedFd};
use rustix::io::Errno;
use rustix::pipe::{pipe_with, PipeFlags};

#[derive(Debug, Default)]
struct MockWaker(AtomicBool);

impl Wake for MockWaker {
    fn wake(self: Arc<Self>) {
        self.0.store(true, Ordering::Relaxed);
    }
}

impl MockWaker {
    fn get(&self) -> bool {
        self.0.load(Ordering::Relaxed)
    }
}

/// Waits for at most a millisecond, by the sources that are there.
fn wait(reactor: &mut Reactor<Waker>, sources: &[&OwnedFd]) {
    let notifier = eventfd(0, EventfdFlags::CLOEXEC | EventfdFlags::NONBLOCK).unwrap();
    let wanted = match reactor.begin_wait(0, false) {
        WaitPlan::Poll { sources, .. } => sources,
        WaitPlan::Skip => panic!("expected a poll"),
    };
    let set = PollSet::new(&wanted, notifier.as_raw_fd(), None);
    let mut fds: Vec<PollFd> = vec![];
    for entry in set.entries() {
        let fd = sources
            .iter()
            .copied()
            .chain([&notifier])
            .find(|fd| fd.as_raw_fd() == entry.fd)
            .unwrap();
        fds.push(PollFd::new(fd, PollFlags::from_bits_retain(entry.events)));
    }
    let millis = PollTimeout.set_timeout(Some(local_runtime::Duration {
        secs: 0,
        nanos: 1_000_000,
    }));
    let ready = poll(&mut fds, millis).unwrap();
    let revents: Vec<u16> = fds.iter().map(|fd| fd.revents().bits()).collect();
    let events = set.events(ready, &revents).unwrap_or_default();
    for (source, interest) in reactor.finish_wait(&events, 0).events {
        reactor.waker(source, interest).unwrap().wake_by_ref();
    }
}

/// Ends a wait, and tells the wakers that are to be called.
fn woken(reactor: &mut Reactor<u8>, events: &Vec<(Source, Filter)>) -> Vec<u8> {
    let awoken = reactor.finish_wait(events, 0);
    awoken
        .events
        .iter()
        .map(|(source, interest)| *reactor.waker(*source, *interest).unwrap())
        .collect()
}

fn poll_wait(reactor: &mut Reactor<Waker>, wait: &mut EventWait, waker: &Arc<MockWaker>) -> bool {
    matches!(
        wait.poll(reactor, waker.clone().into()),
        Progress::Ready(())
    )
}

#[test]
fn deregister_on_drop() {
    let mut reactor: Reactor<Waker> = Reactor::new();
    let io = Async::without_nonblocking(&mut reactor, stderr(), 2).unwrap();
    assert!(!reactor.is_empty());
    io.handle.release(&mut reactor);
    assert!(reactor.is_empty());
}

#[test]
fn deregister_into_inner() {
    let mut reactor: Reactor<Waker> = Reactor::new();
    let io = Async::without_nonblocking(&mut reactor, stderr(), 2).unwrap();
    assert!(!reactor.is_empty());
    let _inner = io.into_inner(&mut reactor);
    assert!(reactor.is_empty());
}

#[test]
fn writable_readable() {
    let wr_waker = Arc::new(MockWaker::default());
    let rd_waker = Arc::new(MockWaker::default());

    let (read, write) = pipe_with(PipeFlags::NONBLOCK).unwrap();
    let (read_fd, write_fd) = (read.as_raw_fd(), write.as_raw_fd());

    let mut reactor: Reactor<Waker> = Reactor::new();
    let reader = Async::new(&mut reactor, &read, read_fd, Ok::<(), Errno>(()))
        .ok()
        .unwrap();
    let writer = Async::new(&mut reactor, &write, write_fd, Ok::<(), Errno>(()))
        .ok()
        .unwrap();

    let mut writable = writer.writable();
    assert!(!poll_wait(&mut reactor, &mut writable, &wr_waker));
    wait(&mut reactor, &[&read, &write]);
    assert!(wr_waker.get());
    assert!(poll_wait(&mut reactor, &mut writable, &wr_waker));

    let mut readable = reader.readable();
    assert!(!poll_wait(&mut reactor, &mut readable, &wr_waker));
    wait(&mut reactor, &[&read, &write]);
    assert!(!rd_waker.get());

    assert!(!poll_wait(&mut reactor, &mut readable, &rd_waker));
    // Write one byte to pipe
    let attempt = match rustix::io::write(*writer.get_ref(), &[0]) {
        Ok(n) => Attempt::Done(n),
        Err(Errno::WOULDBLOCK) => Attempt::WouldBlock,
        Err(err) => Attempt::Failed(err),
    };
    assert!(matches!(
        writer.poll_write_with(&mut reactor, attempt, rd_waker.clone().into()),
        Progress::Ready(Ok(1))
    ));
    wait(&mut reactor, &[&read, &write]);
    assert!(rd_waker.get());
    assert!(poll_wait(&mut reactor, &mut readable, &rd_waker));
}

#[test]
fn adapting_can_fail() {
    let mut reactor: Reactor<u8> = Reactor::new();
    assert!(matches!(
        Async::new(&mut reactor, "io", 3, Err("mode")),
        Err(AdaptError::Blocking("mode"))
    ));
    assert!(reactor.is_empty());
    let io = Async::new(&mut reactor, "io", 3, Ok::<(), &str>(()))
        .ok()
        .unwrap();
    assert_eq!(*io.get_ref(), "io");
    assert!(matches!(
        Async::new(&mut reactor, "other", 3, Ok::<(), &str>(())),
        Err(AdaptError::Refused(ReactorError::AlreadyRegistered))
    ));
    assert!(matches!(
        Async::without_nonblocking(&mut reactor, "other", 3),
        Err(ReactorError::AlreadyRegistered)
    ));
    assert_eq!(io.into_inner(&mut reactor), "io");
    assert!(reactor.is_empty());
}

#[test]
fn blocked_read_waits_for_event() {
    let mut reactor: Reactor<u8> = Reactor::new();
    let mut io = Async::without_nonblocking(&mut reactor, 40, 3).unwrap();
    io.inner += 2;
    assert_eq!(*io.get_ref(), 42);

    assert!(matches!(
        io.poll_read_with(&mut reactor, Attempt::Done::<i32, &str>(5), 1),
        Progress::Ready(Ok(5))
    ));
    assert!(matches!(
        io.poll_read_with(&mut reactor, Attempt::Failed::<i32, &str>("broken"), 1),
        Progress::Ready(Err("broken"))
    ));
    assert_eq!(reactor.filter(3), Some(Filter::default()));
    assert!(matches!(
        io.poll_read_with(&mut reactor, Attempt::WouldBlock::<i32, &str>, 1),
        Progress::Pending(Filter {
            read: true,
            write: false
        })
    ));
    assert!(matches!(
        io.poll_write_with(&mut reactor, Attempt::WouldBlock::<i32, &str>, 2),
        Progress::Pending(Filter {
            read: true,
            write: true
        })
    ));
    assert_eq!(woken(&mut reactor, &vec![(3, Filter::read())]), vec![1]);
    assert_eq!(woken(&mut reactor, &vec![(3, Filter::both())]), vec![2]);
}

#[test]
fn event_wait_renews_its_waker() {
    let mut reactor: Reactor<u8> = Reactor::new();
    let io = Async::without_nonblocking(&mut reactor, (), 3).unwrap();
    let mut wait = io.readable();
    assert!(matches!(wait.poll(&mut reactor, 1), Progress::Pending(_)));
    // Polled without an event: the new waker takes the place of the old one
    assert!(matches!(wait.poll(&mut reactor, 2), Progress::Pending(_)));
    assert_eq!(woken(&mut reactor, &vec![(3, Filter::write())]), vec![]);
    assert!(matches!(wait.poll(&mut reactor, 3), Progress::Pending(_)));
    assert_eq!(woken(&mut reactor, &vec![(3, Filter::read())]), vec![3]);
    assert!(matches!(wait.poll(&mut reactor, 4), Progress::Ready(())));
}

#[test]
fn connection_in_progress_is_started() {
    assert_eq!(connect::<u8>(Ok(())), Ok(()));
    assert_eq!(connect::<u8>(Err(ConnectError::InProgress)), Ok(()));
    assert_eq!(connect::<u8>(Err(ConnectError::WouldBlock)), Ok(()));
    assert_eq!(connect(Err(ConnectError::Other(7u8))), Err(7));
}
