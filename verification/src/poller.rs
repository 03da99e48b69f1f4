//! What is handed to the operating system's `poll`, and how its answer is read.

use rustix::event::PollFlags;
use vstd::prelude::*;

use crate::reactor::{Filter, Source};
use crate::time::Duration;

verus! {

/// Reads `PollFlags::IN`, the flag for data to read. Its value is that of Linux, Apple's
/// systems and the BSDs.
#[verifier::external_body]
fn flag_in() -> (bits: u16)
    ensures
        bits == 0x01,
{
    PollFlags::IN.bits() as u16
}

/// Reads `PollFlags::PRI`, the flag for urgent data to read. Its value is that of Linux, Apple's
/// systems and the BSDs.
#[verifier::external_body]
fn flag_pri() -> (bits: u16)
    ensures
        bits == 0x02,
{
    PollFlags::PRI.bits() as u16
}

/// Reads `PollFlags::OUT`, the flag for room to write. Its value is that of Linux, Apple's
/// systems and the BSDs.
#[verifier::external_body]
fn flag_out() -> (bits: u16)
    ensures
        bits == 0x04,
{
    PollFlags::OUT.bits() as u16
}

/// Reads `PollFlags::ERR`, the flag for an error. Its value is that of Linux, Apple's
/// systems and the BSDs.
#[verifier::external_body]
fn flag_err() -> (bits: u16)
    ensures
        bits == 0x08,
{
    PollFlags::ERR.bits() as u16
}

/// Reads `PollFlags::HUP`, the flag for the other end having gone. Its value is that of Linux,
/// Apple's systems and the BSDs.
#[verifier::external_body]
fn flag_hup() -> (bits: u16)
    ensures
        bits == 0x10,
{
    PollFlags::HUP.bits() as u16
}

/// The flags that someone who reads waits for: data, urgent data, an error, or the other end
/// having gone.
pub const READ_FLAGS: u16 = 0x1b;

/// The flags that someone who writes waits for: room, an error, or the other end having gone.
pub const WRITE_FLAGS: u16 = 0x1c;

/// The flags that someone who reads waits for.
pub fn read_flags() -> (bits: u16)
    ensures
        bits == READ_FLAGS,
{
    assert(0x01u16 | 0x10u16 | 0x08u16 | 0x02u16 == 0x1bu16) by (bit_vector);
    flag_in() | flag_hup() | flag_err() | flag_pri()
}

/// The flags that someone who writes waits for.
pub fn write_flags() -> (bits: u16)
    ensures
        bits == WRITE_FLAGS,
{
    assert(0x04u16 | 0x10u16 | 0x08u16 == 0x1cu16) by (bit_vector);
    flag_out() | flag_hup() | flag_err()
}

/// The flags to poll for these kinds of events.
pub open spec fn flags_for(filter: Filter) -> u16 {
    (if filter.read {
        READ_FLAGS
    } else {
        0
    }) | (if filter.write {
        WRITE_FLAGS
    } else {
        0
    })
}

/// The kinds of events that flags stand for.
pub open spec fn events_of(flags: u16) -> Filter {
    Filter { read: flags & READ_FLAGS != 0, write: flags & WRITE_FLAGS != 0 }
}

impl Filter {
    /// The flags to poll for these kinds of events.
    pub fn pollflags(self) -> (bits: u16)
        ensures
            bits == flags_for(self),
    {
        let mut flags: u16 = 0;
        if self.read {
            flags = flags | read_flags();
        }
        if self.write {
            flags = flags | write_flags();
        }
        assert(0u16 | 0x1bu16 == 0x1bu16 | 0u16) by (bit_vector);
        assert(0u16 | 0x1bu16 == 0x1bu16) by (bit_vector);
        assert(0u16 | 0u16 == 0u16) by (bit_vector);
        flags
    }

    /// The kinds of events that flags stand for.
    pub fn from_pollflags(flags: u16) -> (filter: Filter)
        ensures
            filter == events_of(flags),
    {
        Filter { read: flags & read_flags() != 0, write: flags & write_flags() != 0 }
    }
}

/// One entry of what is polled.
#[derive(Debug, Clone, Copy, PartialEq, Eq, Structural)]
pub struct PollEntry {
    /// The source.
    pub fd: Source,
    /// The flags to poll for.
    pub events: u16,
}

/// The entries for the sources for which someone waits, in order.
pub open spec fn entries_for(sources: Seq<(Source, Filter)>) -> Seq<PollEntry>
    decreases sources.len(),
{
    if sources.len() == 0 {
        Seq::empty()
    } else {
        let (fd, filter) = sources.last();
        let front = entries_for(sources.drop_last());
        if filter.read || filter.write {
            front.push(PollEntry { fd, events: flags_for(filter) })
        } else {
            front
        }
    }
}

/// The entries for the notifier and, if there is one, the timer.
pub open spec fn entries_without_waker(notifier: Source, timer: Option<Source>) -> Seq<PollEntry> {
    let first = seq![PollEntry { fd: notifier, events: READ_FLAGS }];
    match timer {
        Some(fd) => first.push(PollEntry { fd, events: READ_FLAGS }),
        None => first,
    }
}

/// How many of the answers are not empty.
pub open spec fn answered(revents: Seq<u16>) -> nat
    decreases revents.len(),
{
    if revents.len() == 0 {
        0
    } else {
        answered(revents.drop_last()) + if revents.last() != 0 {
            1nat
        } else {
            0nat
        }
    }
}

/// The sources whose answers are not empty, with the kinds of events that came, in order.
pub open spec fn ready_events(entries: Seq<PollEntry>, revents: Seq<u16>) -> Seq<(Source, Filter)>
    decreases entries.len(),
{
    if entries.len() == 0 || revents.len() != entries.len() {
        Seq::empty()
    } else {
        let front = ready_events(entries.drop_last(), revents.drop_last());
        if revents.last() != 0 {
            front.push((entries.last().fd, events_of(revents.last())))
        } else {
            front
        }
    }
}

/// What is polled: the event sources, then the notifier, then the timer.
pub struct PollSet {
    entries: Vec<PollEntry>,
    event_len: usize,
}

impl PollSet {
    /// The entries.
    pub closed spec fn view(&self) -> Seq<PollEntry> {
        self.entries@
    }

    /// How many of the entries are event sources.
    pub closed spec fn event_len(&self) -> nat {
        self.event_len as nat
    }

    /// The event sources come first.
    pub open spec fn wf(&self) -> bool {
        self.event_len() <= self@.len()
    }

    /// The set is what is polled for these sources, this notifier and this timer.
    pub open spec fn polls(
        &self,
        sources: Seq<(Source, Filter)>,
        notifier: Source,
        timer: Option<Source>,
    ) -> bool {
        &&& self@ == entries_for(sources) + entries_without_waker(notifier, timer)
        &&& self.event_len() == entries_for(sources).len()
    }

    /// What answered, with the kinds of events that came: event sources, and the notifier and the
    /// timer if they did.
    pub open spec fn reported(&self, revents: Seq<u16>) -> Seq<(Source, Filter)> {
        ready_events(self@, revents)
    }

    /// How the answers of a poll that found `ready` entries ready are read.
    pub open spec fn reads(
        &self,
        ready: usize,
        revents: Seq<u16>,
        events: Option<Vec<(Source, Filter)>>,
    ) -> bool {
        let only_without_waker = (ready == 1 || ready == 2) && answered(
            revents.skip(self.event_len() as int),
        ) == ready;
        match events {
            None => ready == 0 || only_without_waker,
            Some(events) => {
                &&& ready != 0
                &&& !only_without_waker
                &&& events@ == self.reported(revents)
            },
        }
    }

    /// Puts together what is polled. A source for which nobody waits is left out.
    pub fn new(
        sources: &Vec<(Source, Filter)>,
        notifier: Source,
        timer: Option<Source>,
    ) -> (set: PollSet)
        ensures
            set.wf(),
            set.polls(sources@, notifier, timer),
    {
        let mut entries: Vec<PollEntry> = Vec::new();
        let mut k: usize = 0;
        while k < sources.len()
            invariant
                k <= sources.len(),
                entries@ == entries_for(sources@.take(k as int)),
            decreases sources.len() - k,
        {
            let (fd, filter) = sources[k];
            let events = filter.pollflags();
            proof {
                assert(sources@.take(k + 1).drop_last() =~= sources@.take(k as int));
                lemma_flags_nonzero(filter);
            }
            if events != 0 {
                entries.push(PollEntry { fd, events });
            }
            k = k + 1;
        }
        assert(sources@.take(k as int) =~= sources@);
        let event_len = entries.len();
        entries.push(PollEntry { fd: notifier, events: read_flags() });
        if let Some(fd) = timer {
            entries.push(PollEntry { fd, events: read_flags() });
        }
        assert(entries@ =~= entries_for(sources@) + entries_without_waker(notifier, timer));
        PollSet { entries, event_len }
    }

    /// The entries.
    pub fn entries(&self) -> (entries: &Vec<PollEntry>)
        ensures
            entries@ == self@,
    {
        &self.entries
    }

    /// How many of the answers are not empty that came for entries without a waker.
    fn answered_without_waker(&self, revents: &Vec<u16>) -> (n: usize)
        requires
            self.wf(),
            revents.len() == self@.len(),
        ensures
            n == answered(revents@.skip(self.event_len() as int)),
    {
        let mut n: usize = 0;
        let mut k: usize = self.event_len;
        assert(revents@.subrange(k as int, k as int) =~= Seq::empty());
        while k < revents.len()
            invariant
                self.event_len <= k <= revents.len(),
                n <= k - self.event_len,
                n == answered(revents@.subrange(self.event_len as int, k as int)),
            decreases revents.len() - k,
        {
            assert(revents@.subrange(self.event_len as int, k + 1).drop_last()
                =~= revents@.subrange(self.event_len as int, k as int));
            if revents[k] != 0 {
                n = n + 1;
            }
            k = k + 1;
        }
        assert(revents@.subrange(self.event_len as int, k as int) =~= revents@.skip(
            self.event_len as int,
        ));
        n
    }

    /// Reads the answers of a poll that found `ready` entries ready. There are no events if it
    /// timed out, or if only entries without a waker are ready. Next to an event source these are
    /// among the events.
    pub fn events(&self, ready: usize, revents: &Vec<u16>) -> (events: Option<
        Vec<(Source, Filter)>,
    >)
        requires
            self.wf(),
            revents.len() == self@.len(),
        ensures
            self.reads(ready, revents@, events),
    {
        if ready == 0 {
            return None;
        }
        if (ready == 1 || ready == 2) && self.answered_without_waker(revents) == ready {
            return None;
        }
        let mut events: Vec<(Source, Filter)> = Vec::new();
        let mut k: usize = 0;
        while k < revents.len()
            invariant
                k <= revents.len() == self@.len(),
                events@ == ready_events(self@.take(k as int), revents@.take(k as int)),
            decreases revents.len() - k,
        {
            assert(self@.take(k + 1).drop_last() =~= self@.take(k as int));
            assert(revents@.take(k + 1).drop_last() =~= revents@.take(k as int));
            let flags = revents[k];
            if flags != 0 {
                events.push((self.entries[k].fd, Filter::from_pollflags(flags)));
            }
            k = k + 1;
        }
        assert(self@.take(k as int) =~= self@);
        assert(revents@.take(k as int) =~= revents@);
        Some(events)
    }
}

/// The timeout of `poll`, in milliseconds: the span rounded up to the nearest millisecond, cut off
/// at what the argument can hold, and -1 without a timeout.
pub open spec fn poll_timeout(timeout: Option<Duration>) -> int {
    match timeout {
        Some(span) => {
            let millis = (span.total_nanos() as int + 999_999) / 1_000_000;
            if millis <= i32::MAX {
                millis
            } else {
                i32::MAX as int
            }
        },
        None => -1,
    }
}

/// Handles timers by the timeout argument of `poll`, which has a precision of a millisecond.
pub struct PollTimeout;

impl PollTimeout {
    /// The timeout argument of `poll`.
    pub fn set_timeout(&self, timeout: Option<Duration>) -> (millis: i32)
        requires
            timeout matches Some(span) ==> span.wf(),
        ensures
            millis == poll_timeout(timeout),
    {
        match timeout {
            Some(span) => {
                let millis: u128 = span.secs as u128 * 1_000 + ((span.nanos + 999_999)
                    / 1_000_000) as u128;
                if millis <= i32::MAX as u128 {
                    millis as i32
                } else {
                    i32::MAX
                }
            },
            None => -1,
        }
    }
}

/// When a timer of the operating system is to go off, from now on.
#[derive(Debug, Clone, Copy, PartialEq, Eq, Structural)]
pub struct TimerSpec {
    /// Whole seconds.
    pub tv_sec: i64,
    /// The nanoseconds on top of them.
    pub tv_nsec: i64,
}

/// The setting of a timer for a timeout: the timeout, at least a nanosecond, cut off at the seconds
/// that the setting can hold, and zero without a timeout.
pub open spec fn sets_timer(timeout: Option<Duration>, spec: TimerSpec) -> bool {
    match timeout {
        Some(span) => {
            &&& spec.tv_sec == if span.secs <= i64::MAX {
                span.secs as int
            } else {
                i64::MAX as int
            }
            &&& spec.tv_nsec == if span.nanos > 0 {
                span.nanos as int
            } else {
                1
            }
        },
        None => spec.tv_sec == 0 && spec.tv_nsec == 0,
    }
}

impl TimerSpec {
    /// The setting for a timeout. Without one the timer is switched off, which a setting of zero
    /// does, so that a timeout is at least a nanosecond.
    pub fn new(timeout: Option<Duration>) -> (spec: TimerSpec)
        ensures
            sets_timer(timeout, spec),
    {
        match timeout {
            Some(span) => TimerSpec {
                tv_sec: if span.secs <= i64::MAX as u64 {
                    span.secs as i64
                } else {
                    i64::MAX
                },
                tv_nsec: if span.nanos > 0 {
                    span.nanos as i64
                } else {
                    1
                },
            },
            None => TimerSpec { tv_sec: 0, tv_nsec: 0 },
        }
    }
}

/// A poll is never over before its timeout, nor a millisecond or more after it, unless the timeout
/// is more than the argument can hold, in which case it lasts as long as that. It does not wait at
/// all exactly if the timeout is empty, and has no limit exactly if there is no timeout.
pub proof fn law_poll_timeout_not_early(timeout: Option<Duration>)
    ensures
        timeout is None ==> poll_timeout(timeout) == -1,
        timeout matches Some(span) ==> {
            let nanos = span.secs * 1_000_000_000 + span.nanos;
            let millis = poll_timeout(timeout);
            &&& 0 <= millis <= i32::MAX
            &&& millis == 0 <==> nanos == 0
            &&& nanos <= i32::MAX * 1_000_000 ==> {
                &&& nanos <= millis * 1_000_000
                &&& millis * 1_000_000 < nanos + 1_000_000
            }
            &&& nanos > i32::MAX * 1_000_000 ==> millis == i32::MAX
        },
{
}

/// The timer is never over before its timeout, nor more than a nanosecond after it, unless the
/// timeout is more than the setting can hold. It is switched off exactly if there is no timeout.
pub proof fn law_timer_not_early(timeout: Option<Duration>, spec: TimerSpec)
    requires
        sets_timer(timeout, spec),
    ensures
        timeout is None <==> spec.tv_sec == 0 && spec.tv_nsec == 0,
        spec.tv_sec >= 0,
        spec.tv_nsec >= 0,
        timeout matches Some(span) ==> {
            let nanos = span.secs * 1_000_000_000 + span.nanos;
            let set = spec.tv_sec * 1_000_000_000 + spec.tv_nsec;
            &&& span.nanos < 1_000_000_000 ==> spec.tv_nsec < 1_000_000_000
            &&& span.secs <= i64::MAX ==> nanos <= set <= nanos + 1
            &&& span.secs <= i64::MAX && span.nanos > 0 ==> set == nanos
            &&& span.secs > i64::MAX ==> spec.tv_sec == i64::MAX
        },
{
}

/// Reading waits for data, urgent data, an error and the other end having gone, and writing for
/// room, an error and the other end having gone. No other flag is polled for.
pub proof fn law_flags_polled_for(filter: Filter)
    ensures
        flags_for(filter) & 0x01 != 0 <==> filter.read,
        flags_for(filter) & 0x02 != 0 <==> filter.read,
        flags_for(filter) & 0x04 != 0 <==> filter.write,
        flags_for(filter) & 0x08 != 0 <==> filter.read || filter.write,
        flags_for(filter) & 0x10 != 0 <==> filter.read || filter.write,
        flags_for(filter) & 0xffe0 == 0,
        flags_for(filter) != 0 <==> filter.read || filter.write,
{
    lemma_flags_nonzero(filter);
    let flags = flags_for(filter);
    assert(0x1bu16 | 0x1cu16 == 0x1fu16) by (bit_vector);
    assert(0x1bu16 | 0u16 == 0x1bu16) by (bit_vector);
    assert(0u16 | 0x1cu16 == 0x1cu16) by (bit_vector);
    assert(0u16 | 0u16 == 0u16) by (bit_vector);
    assert(flags == 0x1fu16 || flags == 0x1bu16 || flags == 0x1cu16 || flags == 0u16);
    assert((flags == 0x1fu16 ==> flags & 0x01 != 0 && flags & 0x02 != 0 && flags & 0x04 != 0
        && flags & 0x08 != 0 && flags & 0x10 != 0 && flags & 0xffe0 == 0) && (flags == 0x1bu16
        ==> flags & 0x01 != 0 && flags & 0x02 != 0 && flags & 0x04 == 0 && flags & 0x08 != 0
        && flags & 0x10 != 0 && flags & 0xffe0 == 0) && (flags == 0x1cu16 ==> flags & 0x01 == 0
        && flags & 0x02 == 0 && flags & 0x04 != 0 && flags & 0x08 != 0 && flags & 0x10 != 0
        && flags & 0xffe0 == 0) && (flags == 0u16 ==> flags & 0x01 == 0 && flags & 0x02 == 0
        && flags & 0x04 == 0 && flags & 0x08 == 0 && flags & 0x10 == 0 && flags & 0xffe0 == 0))
        by (bit_vector);
}

/// An answer is of interest to a reader if it has data, urgent data, an error or the other end
/// having gone, and to a writer if it has room, an error or the other end having gone. What is
/// polled for is what is answered for: someone who waits is awoken by each of the flags that were
/// polled for.
pub proof fn law_kinds_answered(flags: u16, filter: Filter)
    ensures
        events_of(flags).read <==> flags & 0x01 != 0 || flags & 0x02 != 0 || flags & 0x08 != 0
            || flags & 0x10 != 0,
        events_of(flags).write <==> flags & 0x04 != 0 || flags & 0x08 != 0 || flags & 0x10 != 0,
        filter.read || filter.write ==> {
            &&& filter.read ==> events_of(flags_for(filter)).read
            &&& filter.write ==> events_of(flags_for(filter)).write
        },
{
    assert(flags & 0x1b != 0 <==> flags & 0x01 != 0 || flags & 0x02 != 0 || flags & 0x08 != 0
        || flags & 0x10 != 0) by (bit_vector);
    assert(flags & 0x1c != 0 <==> flags & 0x04 != 0 || flags & 0x08 != 0 || flags & 0x10 != 0)
        by (bit_vector);
    law_flags_polled_for(filter);
    let polled = flags_for(filter);
    assert(polled & 0x1b != 0 <==> polled & 0x01 != 0 || polled & 0x02 != 0 || polled & 0x08 != 0
        || polled & 0x10 != 0) by (bit_vector);
    assert(polled & 0x1c != 0 <==> polled & 0x04 != 0 || polled & 0x08 != 0 || polled & 0x10 != 0)
        by (bit_vector);
}

/// What is polled: the awaited event sources, in their order and each as often as it is listed,
/// then the notifier, then the timer if there is one. The sources can be put together piece by
/// piece.
pub proof fn law_layout_of_what_is_polled(
    first: Seq<(Source, Filter)>,
    second: Seq<(Source, Filter)>,
    notifier: Source,
    timer: Option<Source>,
    set: PollSet,
)
    requires
        set.polls(first + second, notifier, timer),
    ensures
        entries_for(first + second) == entries_for(first) + entries_for(second),
        second.len() == 1 ==> entries_for(second) == if second[0].1.read || second[0].1.write {
            seq![PollEntry { fd: second[0].0, events: flags_for(second[0].1) }]
        } else {
            Seq::<PollEntry>::empty()
        },
        set@.len() == set.event_len() + if timer is Some {
            2int
        } else {
            1int
        },
        set.event_len() == entries_for(first).len() + entries_for(second).len(),
        forall|i: int|
            0 <= i < set.event_len() ==> #[trigger] set@[i] == entries_for(first + second)[i],
        set@[set.event_len() as int].fd == notifier,
        set@[set.event_len() as int].events == 0x1b,
        timer matches Some(fd) ==> {
            &&& set@[set.event_len() as int + 1].fd == fd
            &&& set@[set.event_len() as int + 1].events == 0x1b
        },
{
    lemma_entries_joined(first, second);
    if second.len() == 1 {
        assert(second.drop_last() =~= Seq::<(Source, Filter)>::empty());
        reveal_with_fuel(entries_for, 2);
        assert(entries_for(second) =~= if second[0].1.read || second[0].1.write {
            seq![PollEntry { fd: second[0].0, events: flags_for(second[0].1) }]
        } else {
            Seq::<PollEntry>::empty()
        });
    }
}

/// The entries for two listings together.
proof fn lemma_entries_joined(first: Seq<(Source, Filter)>, second: Seq<(Source, Filter)>)
    ensures
        entries_for(first + second) == entries_for(first) + entries_for(second),
    decreases second.len(),
{
    if second.len() == 0 {
        assert(first + second =~= first);
        assert(entries_for(first) + entries_for(second) =~= entries_for(first));
    } else {
        lemma_entries_joined(first, second.drop_last());
        assert((first + second).drop_last() =~= first + second.drop_last());
        assert(entries_for(first + second) =~= entries_for(first) + entries_for(second));
    }
}

/// Every answer is reported, in the order of the entries, with the entry's source and the kinds of
/// events that came, and nothing else is. The answers can be read piece by piece.
pub proof fn law_every_answer_is_reported(
    first: Seq<PollEntry>,
    second: Seq<PollEntry>,
    revents1: Seq<u16>,
    revents2: Seq<u16>,
)
    requires
        revents1.len() == first.len(),
        revents2.len() == second.len(),
    ensures
        ready_events(first + second, revents1 + revents2) == ready_events(first, revents1)
            + ready_events(second, revents2),
        second.len() == 1 ==> {
            let flags = revents2[0];
            let reader = flags & 0x01 != 0 || flags & 0x02 != 0 || flags & 0x08 != 0 || flags & 0x10
                != 0;
            let writer = flags & 0x04 != 0 || flags & 0x08 != 0 || flags & 0x10 != 0;
            ready_events(second, revents2) == if flags != 0 {
                seq![(second[0].fd, Filter { read: reader, write: writer })]
            } else {
                Seq::<(Source, Filter)>::empty()
            }
        },
    decreases second.len(),
{
    if second.len() == 0 {
        assert(first + second =~= first);
        assert(revents1 + revents2 =~= revents1);
        assert(ready_events(first, revents1) + ready_events(second, revents2) =~= ready_events(
            first,
            revents1,
        ));
    } else {
        law_every_answer_is_reported(
            first,
            second.drop_last(),
            revents1,
            revents2.drop_last(),
        );
        assert((first + second).drop_last() =~= first + second.drop_last());
        assert((revents1 + revents2).drop_last() =~= revents1 + revents2.drop_last());
        assert(ready_events(first + second, revents1 + revents2) =~= ready_events(first, revents1)
            + ready_events(second, revents2));
        if second.len() == 1 {
            assert(second.drop_last() =~= Seq::<PollEntry>::empty());
            reveal_with_fuel(ready_events, 2);
            law_kinds_answered(revents2[0], Filter { read: false, write: false });
            assert(second.last() == second[0] && revents2.last() == revents2[0]);
        }
    }
}

/// How many of the answers are not empty.
pub open spec fn nonempty(revents: Seq<u16>) -> nat {
    revents.filter(|flags: u16| flags != 0).len()
}

/// No event is missed. If `ready` is how many entries answered, then there are events exactly if an
/// event source answered, and every event source that answered is among them.
pub proof fn law_no_event_missed(
    sources: Seq<(Source, Filter)>,
    notifier: Source,
    timer: Option<Source>,
    set: PollSet,
    ready: usize,
    revents: Seq<u16>,
    events: Option<Vec<(Source, Filter)>>,
)
    requires
        set.polls(sources, notifier, timer),
        revents.len() == set@.len(),
        ready == nonempty(revents),
        set.reads(ready, revents, events),
    ensures
        events is Some <==> exists|i: int|
            0 <= i < set.event_len() && #[trigger] revents[i] != 0,
        events matches Some(events) ==> forall|i: int|
            0 <= i < set@.len() && #[trigger] revents[i] != 0 ==> exists|k: int|
                0 <= k < events@.len() && (#[trigger] events@[k]).0 == set@[i].fd,
{
    let n = set.event_len() as int;
    let front = revents.take(n);
    let tail = revents.skip(n);
    assert(front + tail =~= revents);
    lemma_answered(revents);
    lemma_answered(front);
    lemma_answered(tail);
    lemma_answered_joined(front, tail);
    assert(tail.len() <= 2);
    if exists|i: int| 0 <= i < n && #[trigger] revents[i] != 0 {
        let i = choose|i: int| 0 <= i < n && #[trigger] revents[i] != 0;
        assert(front[i] != 0);
    } else {
        assert forall|i: int| 0 <= i < front.len() implies front[i] == 0 by {
            assert(revents[i] == 0);
        }
    }
    if let Some(events) = events {
        assert forall|i: int| 0 <= i < set@.len() && #[trigger] revents[i] != 0 implies exists|k: int|
            0 <= k < events@.len() && (#[trigger] events@[k]).0 == set@[i].fd by {
            lemma_answer_reported(set@, revents, i);
        }
    }
}

/// The count of answers that are not empty.
proof fn lemma_answered(revents: Seq<u16>)
    ensures
        answered(revents) == nonempty(revents),
        answered(revents) <= revents.len(),
        answered(revents) == 0 <==> forall|i: int| 0 <= i < revents.len() ==> revents[i] == 0,
    decreases revents.len(),
{
    reveal(Seq::filter);
    if revents.len() > 0 {
        let front = revents.drop_last();
        lemma_answered(front);
        assert(front.filter(|flags: u16| flags != 0).len() == answered(front));
        if answered(revents) == 0 {
            assert forall|i: int| 0 <= i < revents.len() implies revents[i] == 0 by {
                if i < front.len() {
                    assert(front[i] == 0);
                }
            }
        }
        if forall|i: int| 0 <= i < revents.len() ==> revents[i] == 0 {
            assert forall|i: int| 0 <= i < front.len() implies front[i] == 0 by {
                assert(revents[i] == 0);
            }
        }
    }
}

/// The count of answers in two pieces.
proof fn lemma_answered_joined(first: Seq<u16>, second: Seq<u16>)
    ensures
        answered(first + second) == answered(first) + answered(second),
    decreases second.len(),
{
    if second.len() == 0 {
        assert(first + second =~= first);
    } else {
        lemma_answered_joined(first, second.drop_last());
        assert((first + second).drop_last() =~= first + second.drop_last());
    }
}

/// An entry that answered is reported.
proof fn lemma_answer_reported(entries: Seq<PollEntry>, revents: Seq<u16>, i: int)
    requires
        revents.len() == entries.len(),
        0 <= i < entries.len(),
        revents[i] != 0,
    ensures
        exists|k: int|
            0 <= k < ready_events(entries, revents).len() && (#[trigger] ready_events(
                entries,
                revents,
            )[k]).0 == entries[i].fd,
    decreases entries.len(),
{
    let front = ready_events(entries.drop_last(), revents.drop_last());
    let all = ready_events(entries, revents);
    if i < entries.len() - 1 {
        lemma_answer_reported(entries.drop_last(), revents.drop_last(), i);
        let k = choose|k: int|
            0 <= k < front.len() && (#[trigger] front[k]).0 == entries.drop_last()[i].fd;
        assert(all[k].0 == entries[i].fd);
    } else {
        assert(all[front.len() as int].0 == entries[i].fd);
    }
}

/// Whether someone waits for a source, as an entry to poll.
pub open spec fn asks_for(wanted: (Source, Filter), entry: PollEntry) -> bool {
    &&& wanted.1.read || wanted.1.write
    &&& entry == PollEntry { fd: wanted.0, events: flags_for(wanted.1) }
}

/// A source is polled exactly if someone waits for it, and for what is waited for.
pub proof fn law_polls_what_is_awaited(sources: Seq<(Source, Filter)>, entry: PollEntry)
    ensures
        entries_for(sources).contains(entry) <==> exists|k: int|
            0 <= k < sources.len() && asks_for(#[trigger] sources[k], entry),
    decreases sources.len(),
{
    let entries = entries_for(sources);
    if sources.len() > 0 {
        let front = entries_for(sources.drop_last());
        law_polls_what_is_awaited(sources.drop_last(), entry);
        if front.contains(entry) {
            let i = choose|i: int| 0 <= i < front.len() && front[i] == entry;
            assert(entries[i] == entry);
            let k = choose|k: int|
                0 <= k < sources.drop_last().len() && asks_for(
                    #[trigger] sources.drop_last()[k],
                    entry,
                );
            assert(asks_for(sources[k], entry));
        }
        if asks_for(sources.last(), entry) {
            assert(asks_for(sources[sources.len() - 1], entry));
            assert(entries[front.len() as int] == entry);
        }
        if exists|k: int| 0 <= k < sources.len() && asks_for(#[trigger] sources[k], entry) {
            let k = choose|k: int|
                0 <= k < sources.len() && asks_for(#[trigger] sources[k], entry);
            if k < sources.len() - 1 {
                assert(asks_for(sources.drop_last()[k], entry));
            }
        }
    }
}

/// Every event that a poll gives is of the notifier, of the timer, or of a registered source that
/// someone waits for. So as long as the notifier and the timer do not answer, all are of registered
/// sources.
pub proof fn law_events_are_of_registered<W>(
    registered: Map<Source, crate::reactor::EventData<W>>,
    sources: Seq<(Source, Filter)>,
    notifier: Source,
    timer: Option<Source>,
    set: PollSet,
    revents: Seq<u16>,
)
    requires
        crate::reactor::lists_sources(registered, sources),
        set.polls(sources, notifier, timer),
        revents.len() == set@.len(),
    ensures
        forall|k: int|
            0 <= k < set.reported(revents).len() ==> {
                let source = (#[trigger] set.reported(revents)[k]).0;
                ||| source == notifier
                ||| timer == Some(source)
                ||| awaited(registered, source)
            },
        (forall|i: int| set.event_len() <= i < revents.len() ==> revents[i] == 0) ==> {
            &&& crate::reactor::of_registered(registered, set.reported(revents))
            &&& forall|k: int|
                0 <= k < set.reported(revents).len() ==> awaited(
                    registered,
                    (#[trigger] set.reported(revents)[k]).0,
                )
        },
{
    let events = set.reported(revents);
    let silent = forall|i: int| set.event_len() <= i < revents.len() ==> revents[i] == 0;
    assert forall|k: int| 0 <= k < events.len() implies {
        ||| awaited(registered, (#[trigger] events[k]).0)
        ||| !silent && (events[k].0 == notifier || timer == Some(events[k].0))
    } by {
        lemma_reported(sources, notifier, timer, set, revents, k);
        if asked_for(sources, events[k].0) {
            let m = choose|m: int|
                0 <= m < sources.len() && (#[trigger] sources[m]).0 == events[k].0 && (
                sources[m].1.read || sources[m].1.write);
            assert(registered.contains_key(sources[m].0));
        }
    }
}

/// Whether a source is registered and someone waits for it.
pub open spec fn awaited<W>(
    registered: Map<Source, crate::reactor::EventData<W>>,
    source: Source,
) -> bool {
    let wanted = crate::reactor::wanted(registered[source]);
    registered.contains_key(source) && (wanted.read || wanted.write)
}

/// Whether a source is listed and someone waits for it.
pub open spec fn asked_for(sources: Seq<(Source, Filter)>, source: Source) -> bool {
    exists|m: int|
        0 <= m < sources.len() && (#[trigger] sources[m]).0 == source && (sources[m].1.read
            || sources[m].1.write)
}

/// A source that nobody waits for is neither polled nor reported, whatever is polled besides and
/// whatever the answers. The notifier and the timer are polled in any case.
pub proof fn law_unawaited_is_left_alone(
    sources: Seq<(Source, Filter)>,
    notifier: Source,
    timer: Option<Source>,
    set: PollSet,
    revents: Seq<u16>,
    source: Source,
)
    requires
        set.polls(sources, notifier, timer),
        revents.len() == set@.len(),
        !asked_for(sources, source),
        source != notifier,
        timer != Some(source),
    ensures
        forall|i: int| 0 <= i < set@.len() ==> (#[trigger] set@[i]).fd != source,
        forall|k: int|
            0 <= k < set.reported(revents).len() ==> (#[trigger] set.reported(revents)[k]).0
                != source,
{
    assert forall|i: int| 0 <= i < set@.len() implies (#[trigger] set@[i]).fd != source by {
        lemma_polled(sources, notifier, timer, set, i);
    }
    assert forall|k: int| 0 <= k < set.reported(revents).len() implies (
    #[trigger] set.reported(revents)[k]).0 != source by {
        lemma_reported(sources, notifier, timer, set, revents, k);
    }
}

/// What is polled.
proof fn lemma_polled(
    sources: Seq<(Source, Filter)>,
    notifier: Source,
    timer: Option<Source>,
    set: PollSet,
    i: int,
)
    requires
        set.polls(sources, notifier, timer),
        0 <= i < set@.len(),
    ensures
        if i < set.event_len() {
            asked_for(sources, set@[i].fd)
        } else {
            set@[i].fd == notifier || timer == Some(set@[i].fd)
        },
{
    if i < set.event_len() {
        let entry = entries_for(sources)[i];
        assert(set@[i] == entry);
        assert(entries_for(sources).contains(entry));
        law_polls_what_is_awaited(sources, entry);
        let m = choose|m: int| 0 <= m < sources.len() && asks_for(#[trigger] sources[m], entry);
        assert(sources[m].0 == entry.fd);
    }
}

/// What is reported: what is polled and answered.
proof fn lemma_reported(
    sources: Seq<(Source, Filter)>,
    notifier: Source,
    timer: Option<Source>,
    set: PollSet,
    revents: Seq<u16>,
    k: int,
)
    requires
        set.polls(sources, notifier, timer),
        revents.len() == set@.len(),
        0 <= k < set.reported(revents).len(),
    ensures
        ({
            let source = set.reported(revents)[k].0;
            ||| asked_for(sources, source)
            ||| {
                &&& source == notifier || timer == Some(source)
                &&& exists|i: int| set.event_len() <= i < revents.len() && revents[i] != 0
            }
        }),
{
    lemma_event_of_entry(set@, revents, k);
    let i = choose|i: int|
        0 <= i < set@.len() && #[trigger] revents[i] != 0 && set.reported(revents)[k] == (
            set@[i].fd,
            events_of(revents[i]),
        );
    lemma_polled(sources, notifier, timer, set, i);
}

/// Every event is that of an entry with an answer.
proof fn lemma_event_of_entry(entries: Seq<PollEntry>, revents: Seq<u16>, k: int)
    requires
        revents.len() == entries.len(),
        0 <= k < ready_events(entries, revents).len(),
    ensures
        exists|i: int|
            0 <= i < entries.len() && #[trigger] revents[i] != 0 && ready_events(
                entries,
                revents,
            )[k] == (entries[i].fd, events_of(revents[i])),
    decreases entries.len(),
{
    if entries.len() > 0 {
        let front = ready_events(entries.drop_last(), revents.drop_last());
        if k < front.len() {
            lemma_event_of_entry(entries.drop_last(), revents.drop_last(), k);
            let i = choose|i: int|
                0 <= i < entries.drop_last().len() && #[trigger] revents.drop_last()[i] != 0
                    && front[k] == (
                    entries.drop_last()[i].fd,
                    events_of(revents.drop_last()[i]),
                );
            assert(revents[i] != 0);
        } else {
            assert(revents[revents.len() - 1] != 0);
        }
    }
}

/// There are flags to poll for exactly if someone waits.
proof fn lemma_flags_nonzero(filter: Filter)
    ensures
        flags_for(filter) != 0 <==> filter.read || filter.write,
{
    assert(0x1bu16 | 0x1cu16 != 0) by (bit_vector);
    assert(0x1bu16 | 0u16 != 0) by (bit_vector);
    assert(0u16 | 0x1cu16 != 0) by (bit_vector);
    assert(0u16 | 0u16 == 0) by (bit_vector);
}

} // verus!
