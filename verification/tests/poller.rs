use std::time::{Duration as StdDuration, Instant};

use local_runtime::io::{clear_notifier, Attempt};
use local_runtime::poller::{read_flags, write_flags};
use local_runtime::{Duration, Filter, PollEntry, PollSet, PollTimeout, Source, TimerSpec};
use rustix::event::{eventfd, poll, EventfdFlags, PollFd, PollFlags};
use rustix::fd::{AsRawFd, OwnedFd};
use rustix::io::Errno;
use rustix::pipe::{pipe_with, PipeFlags};
use rustix::time::{
    timerfd_create, timerfd_settime, Itimerspec, TimerfdClockId, TimerfdFlags, TimerfdTimerFlags,
    Timespec,
};

fn span(duration: StdDuration) -> Duration {
    Duration {
        secs: duration.as_secs(),
        nanos: duration.subsec_nanos(),
    }
}

fn new_eventfd() -> OwnedFd {
    eventfd(0, EventfdFlags::CLOEXEC | EventfdFlags::NONBLOCK).unwrap()
}

fn new_timerfd() -> OwnedFd {
    timerfd_create(
        TimerfdClockId::Monotonic,
        TimerfdFlags::NONBLOCK | TimerfdFlags::CLOEXEC,
    )
    .unwrap()
}

fn set_timerfd(fd: &OwnedFd, timeout: Option<StdDuration>) {
    let spec = TimerSpec::new(timeout.map(span));
    let setting = Itimerspec {
        it_interval: Timespec {
            tv_sec: 0,
            tv_nsec: 0,
        },
        it_value: Timespec {
            tv_sec: spec.tv_sec,
            tv_nsec: spec.tv_nsec,
        },
    };
    timerfd_settime(fd, TimerfdTimerFlags::empty(), &setting).unwrap();
}

/// Reads a notifier until it would block.
fn clear(fd: &OwnedFd) {
    let outcome = match rustix::io::read(fd, &mut [0u8; 8]) {
        Ok(n) => Attempt::Done(n),
        Err(Errno::WOULDBLOCK) => Attempt::WouldBlock,
        Err(err) => Attempt::Failed(err),
    };
    clear_notifier(outcome).unwrap();
}

/// Polls the sources next to a notifier that is never used, with the timeout argument of `poll`.
fn poll_sources(
    sources: &[(&OwnedFd, Filter)],
    timeout: Option<StdDuration>,
) -> Option<Vec<(Source, Filter)>> {
    let notifier = new_eventfd();
    let wanted: Vec<(Source, Filter)> = sources
        .iter()
        .map(|(fd, filter)| (fd.as_raw_fd(), *filter))
        .collect();
    let set = PollSet::new(&wanted, notifier.as_raw_fd(), None);
    let mut fds: Vec<PollFd> = vec![];
    for entry in set.entries() {
        let fd = sources
            .iter()
            .map(|(fd, _)| *fd)
            .chain([&notifier])
            .find(|fd| fd.as_raw_fd() == entry.fd)
            .unwrap();
        fds.push(PollFd::new(fd, PollFlags::from_bits_retain(entry.events)));
    }
    let millis = PollTimeout.set_timeout(timeout.map(span));
    let ready = poll(&mut fds, millis).unwrap();
    let revents: Vec<u16> = fds.iter().map(|fd| fd.revents().bits()).collect();
    set.events(ready, &revents)
}

#[test]
fn poll_timeout() {
    poll_sources(&[], Some(StdDuration::from_millis(0)));

    let start = Instant::now();
    poll_sources(&[], Some(StdDuration::from_millis(10)));
    assert!(start.elapsed() >= StdDuration::from_millis(10));

    let start = Instant::now();
    poll_sources(&[], Some(StdDuration::from_nanos(10)));
    // Expect time to round up to nearest millisecond
    assert!(start.elapsed() >= StdDuration::from_millis(1));
}

#[test]
fn timerfd_timeout() {
    let notifier = new_eventfd();
    let timer = new_timerfd();
    let wait = |timeout: StdDuration| {
        set_timerfd(&timer, Some(timeout));
        let set = PollSet::new(&vec![], notifier.as_raw_fd(), Some(timer.as_raw_fd()));
        assert_eq!(
            *set.entries(),
            vec![
                PollEntry {
                    fd: notifier.as_raw_fd(),
                    events: read_flags()
                },
                PollEntry {
                    fd: timer.as_raw_fd(),
                    events: read_flags()
                }
            ]
        );
        let mut fds = [
            PollFd::new(&notifier, PollFlags::from_bits_retain(read_flags())),
            PollFd::new(&timer, PollFlags::from_bits_retain(read_flags())),
        ];
        let ready = poll(&mut fds, -1).unwrap();
        let revents: Vec<u16> = fds.iter().map(|fd| fd.revents().bits()).collect();
        assert!(set.events(ready, &revents).is_none());
    };
    wait(StdDuration::from_millis(0));

    let start = Instant::now();
    wait(StdDuration::from_millis(10));
    assert!(start.elapsed() >= StdDuration::from_millis(10));

    let start = Instant::now();
    wait(StdDuration::from_nanos(10));
    let elapsed = start.elapsed();
    assert!(elapsed >= StdDuration::from_nanos(10) && elapsed < StdDuration::from_millis(1));
}

#[test]
fn clear_notifier_and_timerfd() {
    let efd = new_eventfd();
    let timerfd = new_timerfd();
    let (pipe_read, pipe_write) = pipe_with(PipeFlags::NONBLOCK).unwrap();
    let sources = [
        (&efd, Filter::read()),
        (&timerfd, Filter::read()),
        (&pipe_read, Filter::read()),
    ];
    let events = [
        (efd.as_raw_fd(), Filter::read()),
        (timerfd.as_raw_fd(), Filter::read()),
        (pipe_read.as_raw_fd(), Filter::read()),
    ];

    rustix::io::write(&efd, &1u64.to_ne_bytes()).unwrap();
    rustix::io::write(&pipe_write, &[0]).unwrap();
    set_timerfd(&timerfd, Some(StdDuration::ZERO));
    let revents = poll_sources(&sources, Some(StdDuration::from_millis(10)));
    assert_eq!(revents.unwrap(), &events);

    clear(&efd);
    clear(&pipe_read);
    set_timerfd(&timerfd, None);
    let revents = poll_sources(&sources, Some(StdDuration::from_millis(10)));
    assert!(revents.is_none());

    // Make sure clearing doesn't error even without notification
    clear(&efd);
    clear(&pipe_read);
}

#[test]
fn poll_flags() {
    assert_eq!(
        read_flags(),
        (PollFlags::IN | PollFlags::HUP | PollFlags::ERR | PollFlags::PRI).bits()
    );
    assert_eq!(
        write_flags(),
        (PollFlags::OUT | PollFlags::HUP | PollFlags::ERR).bits()
    );
    assert_eq!(Filter::default().pollflags(), 0);
    assert_eq!(Filter::read().pollflags(), read_flags());
    assert_eq!(Filter::write().pollflags(), write_flags());
    assert_eq!(Filter::both().pollflags(), read_flags() | write_flags());
    assert_eq!(
        Filter::from_pollflags(PollFlags::PRI.bits()),
        Filter::read()
    );
    assert_eq!(
        Filter::from_pollflags(PollFlags::OUT.bits()),
        Filter::write()
    );
    assert_eq!(Filter::from_pollflags(PollFlags::HUP.bits()), Filter::both());
    assert_eq!(
        Filter::from_pollflags(PollFlags::NVAL.bits()),
        Filter::default()
    );
}

#[test]
fn polls_only_sources_that_are_awaited() {
    let set = PollSet::new(
        &vec![(4, Filter::write()), (5, Filter::default()), (6, Filter::read())],
        7,
        Some(8),
    );
    let fds: Vec<Source> = set.entries().iter().map(|entry| entry.fd).collect();
    assert_eq!(fds, vec![4, 6, 7, 8]);
    assert_eq!(set.entries()[0].events, write_flags());
    assert_eq!(set.entries()[2].events, read_flags());

    let input = PollFlags::IN.bits();
    // Nothing is ready
    assert_eq!(set.events(0, &vec![0, 0, 0, 0]), None);
    // The notifier alone, the timer alone, or both
    assert_eq!(set.events(1, &vec![0, 0, input, 0]), None);
    assert_eq!(set.events(1, &vec![0, 0, 0, input]), None);
    assert_eq!(set.events(2, &vec![0, 0, input, input]), None);
    // An event source alone
    assert_eq!(
        set.events(1, &vec![0, input, 0, 0]),
        Some(vec![(6, Filter::read())])
    );
    // Two event sources
    assert_eq!(
        set.events(2, &vec![PollFlags::HUP.bits(), input, 0, 0]),
        Some(vec![(4, Filter::both()), (6, Filter::read())])
    );
    // An event source next to the notifier and the timer: all that is ready comes out
    assert_eq!(
        set.events(2, &vec![0, input, input, 0]),
        Some(vec![(6, Filter::read()), (7, Filter::read())])
    );
    assert_eq!(
        set.events(3, &vec![0, input, input, input]),
        Some(vec![
            (6, Filter::read()),
            (7, Filter::read()),
            (8, Filter::read())
        ])
    );
}

#[test]
fn poll_timeout_values() {
    let millis = |secs: u64, nanos: u32| PollTimeout.set_timeout(Some(Duration { secs, nanos }));
    assert_eq!(PollTimeout.set_timeout(None), -1);
    assert_eq!(millis(0, 0), 0);
    assert_eq!(millis(0, 10), 1);
    assert_eq!(millis(0, 999_999), 1);
    assert_eq!(millis(0, 10_000_000), 10);
    assert_eq!(millis(0, 10_000_001), 11);
    assert_eq!(millis(3, 500_000), 3001);
    assert_eq!(millis(2_147_483, 646_000_000), i32::MAX - 1);
    assert_eq!(millis(2_147_483, 646_000_001), i32::MAX);
    assert_eq!(millis(2_147_483, 647_000_000), i32::MAX);
    assert_eq!(millis(2_147_483, 647_000_001), i32::MAX);
    assert_eq!(millis(u64::MAX, 999_999_999), i32::MAX);
}

#[test]
fn timer_spec_values() {
    assert_eq!(
        TimerSpec::new(None),
        TimerSpec {
            tv_sec: 0,
            tv_nsec: 0
        }
    );
    let of = |secs: u64, nanos: u32| {
        let spec = TimerSpec::new(Some(Duration { secs, nanos }));
        (spec.tv_sec, spec.tv_nsec)
    };
    // A setting of zero would switch the timer off
    assert_eq!(of(0, 0), (0, 1));
    assert_eq!(of(5, 0), (5, 1));
    assert_eq!(of(5, 7), (5, 7));
    assert_eq!(of(u64::MAX, 999_999_999), (i64::MAX, 999_999_999));
}

#[test]
fn notifier_errors_are_passed_on() {
    assert_eq!(clear_notifier(Attempt::Failed("broken")), Err("broken"));
    assert_eq!(clear_notifier::<&str>(Attempt::WouldBlock), Ok(()));
    assert_eq!(clear_notifier::<&str>(Attempt::Done(8)), Ok(()));
}
