//! The reactor: which wakers are due when an event source or a timer is.

use std::collections::BTreeMap;

use vstd::prelude::*;
use vstd::std_specs::cmp::OrdSpec;
use vstd::std_specs::iter::IteratorSpec;

use crate::id::Id;
use crate::time::{Duration, TimerQueue};

verus! {

broadcast use vstd::laws_cmp::group_laws_cmp;

/// The operating system's number for an event source.
pub type Source = i32;

/// The kind of event that someone waits for.
#[derive(Debug, Clone, Copy, PartialEq, Eq, Structural)]
pub enum Interest {
    Read,
    Write,
}

/// Which kinds of events.
#[derive(Debug, Clone, Copy, PartialEq, Eq, Structural)]
pub struct Filter {
    pub read: bool,
    pub write: bool,
}

impl Default for Filter {
    /// No kind.
    fn default() -> (filter: Filter)
        ensures
            filter == (Filter { read: false, write: false }),
    {
        Filter { read: false, write: false }
    }
}

impl Filter {
    /// Reading alone.
    pub fn read() -> (filter: Filter)
        ensures
            filter == (Filter { read: true, write: false }),
    {
        Filter { read: true, write: false }
    }

    /// Writing alone.
    pub fn write() -> (filter: Filter)
        ensures
            filter == (Filter { read: false, write: true }),
    {
        Filter { read: false, write: true }
    }

    /// Reading and writing.
    pub fn both() -> (filter: Filter)
        ensures
            filter == (Filter { read: true, write: true }),
    {
        Filter { read: true, write: true }
    }
}

/// Who is to be awoken by one kind of event.
pub struct Wakeup<W> {
    /// Whether someone waits.
    pub enabled: bool,
    /// Who waits, or last waited.
    pub waker: Option<W>,
}

/// What an event does to who waits for it: nobody waits any more, and the waker stays to be called.
pub open spec fn woken<W>(wakeup: Wakeup<W>) -> Wakeup<W> {
    if wakeup.enabled && wakeup.waker is Some {
        Wakeup { enabled: false, waker: wakeup.waker }
    } else {
        wakeup
    }
}

/// Who is awoken by an event.
pub open spec fn due<W>(wakeup: Wakeup<W>) -> Option<W> {
    if wakeup.enabled {
        wakeup.waker
    } else {
        None
    }
}

/// With this waker waiting.
pub open spec fn waiting<W>(waker: W) -> Wakeup<W> {
    Wakeup { enabled: true, waker: Some(waker) }
}

/// With nobody waiting.
pub open spec fn nobody<W>() -> Wakeup<W> {
    Wakeup { enabled: false, waker: None }
}

impl<W> Default for Wakeup<W> {
    fn default() -> (wakeup: Wakeup<W>)
        ensures
            wakeup == nobody::<W>(),
    {
        Wakeup { enabled: false, waker: None }
    }
}

impl<W> Wakeup<W> {
    /// Tells the waker to be called, if someone waits. It is not told again until someone waits
    /// again.
    pub fn wake(&mut self) -> (wake: Option<&W>)
        ensures
            match wake {
                Some(waker) => due(*old(self)) == Some(*waker),
                None => due(*old(self)) is None,
            },
            *final(self) == woken(*old(self)),
    {
        if self.enabled && self.waker.is_some() {
            self.enabled = false;
            self.waker.as_ref()
        } else {
            None
        }
    }

    /// Leaves a waker, in the place of one that is there.
    pub fn enable(&mut self, waker: W)
        ensures
            *final(self) == waiting(waker),
    {
        self.enabled = true;
        self.waker = Some(waker);
    }
}

/// Who is to be awoken by the events of one source.
pub struct EventData<W> {
    pub read: Wakeup<W>,
    pub write: Wakeup<W>,
}

impl<W> Default for EventData<W> {
    fn default() -> (data: EventData<W>)
        ensures
            data == idle::<W>(),
    {
        EventData { read: Wakeup::default(), write: Wakeup::default() }
    }
}

/// With nobody waiting for either kind.
pub open spec fn idle<W>() -> EventData<W> {
    EventData { read: nobody(), write: nobody() }
}

/// The kinds of events that someone waits for.
pub open spec fn wanted<W>(data: EventData<W>) -> Filter {
    Filter { read: data.read.enabled, write: data.write.enabled }
}

/// With this waker waiting for one kind.
pub open spec fn enabled<W>(data: EventData<W>, interest: Interest, waker: W) -> EventData<W> {
    match interest {
        Interest::Read => EventData { read: waiting(waker), ..data },
        Interest::Write => EventData { write: waiting(waker), ..data },
    }
}

/// Who waits for one kind.
pub open spec fn direction<W>(data: EventData<W>, interest: Interest) -> Wakeup<W> {
    match interest {
        Interest::Read => data.read,
        Interest::Write => data.write,
    }
}

/// After events of these kinds.
pub open spec fn fired<W>(data: EventData<W>, filter: Filter) -> EventData<W> {
    EventData {
        read: if filter.read {
            woken(data.read)
        } else {
            data.read
        },
        write: if filter.write {
            woken(data.write)
        } else {
            data.write
        },
    }
}

/// Who is awoken by events of these kinds of a source, readers first.
pub open spec fn due_for<W>(
    source: Source,
    data: EventData<W>,
    filter: Filter,
) -> Seq<(Source, Interest)> {
    let readers = if filter.read && due(data.read) is Some {
        seq![(source, Interest::Read)]
    } else {
        Seq::empty()
    };
    let writers = if filter.write && due(data.write) is Some {
        seq![(source, Interest::Write)]
    } else {
        Seq::empty()
    };
    readers + writers
}

impl<W> EventData<W> {
    /// The kinds of events that someone waits for.
    pub fn filter(&self) -> (filter: Filter)
        ensures
            filter == wanted(*self),
    {
        Filter { read: self.read.enabled, write: self.write.enabled }
    }

    /// Notes who is to be awoken by events of these kinds of the source.
    fn fire(&mut self, source: Source, filter: Filter, awoken: &mut Vec<(Source, Interest)>)
        ensures
            *final(self) == fired(*old(self), filter),
            final(awoken)@ == old(awoken)@ + due_for(source, *old(self), filter),
    {
        if filter.read && self.read.wake().is_some() {
            awoken.push((source, Interest::Read));
        }
        if filter.write && self.write.wake().is_some() {
            awoken.push((source, Interest::Write));
        }
    }
}

/// A way to interrupt the reactor, with a flag that keeps it from being used more than once at a
/// time.
pub struct WithFlag<N> {
    inner: N,
    is_notified: bool,
}

/// What a notification does: it sets the flag, and is the first if the flag was clear.
pub open spec fn notifies<N>(before: WithFlag<N>, after: WithFlag<N>, first: bool) -> bool {
    &&& first == !before.notified()
    &&& after.notified()
    &&& after.inner() == before.inner()
}

/// What setting the flag does.
pub open spec fn sets<N>(before: WithFlag<N>, after: WithFlag<N>) -> bool {
    after.notified() && after.inner() == before.inner()
}

/// What clearing does.
pub open spec fn clears<N>(before: WithFlag<N>, after: WithFlag<N>) -> bool {
    !after.notified() && after.inner() == before.inner()
}

impl<N> WithFlag<N> {
    /// The way to interrupt the reactor.
    pub closed spec fn inner(&self) -> N {
        self.inner
    }

    /// Whether the reactor was interrupted.
    pub closed spec fn notified(&self) -> bool {
        self.is_notified
    }

    /// With the flag clear.
    pub fn new(inner: N) -> (notifier: WithFlag<N>)
        ensures
            notifier.inner() == inner,
            !notifier.notified(),
    {
        WithFlag { inner, is_notified: false }
    }

    /// The way to interrupt the reactor.
    pub fn get_inner(&self) -> (inner: &N)
        ensures
            *inner == self.inner(),
    {
        &self.inner
    }

    /// Clears the flag, after the notifier itself was cleared, and passes on how that went.
    pub fn clear<R>(&mut self, cleared: R) -> (res: R)
        ensures
            res == cleared,
            clears(*old(self), *final(self)),
    {
        self.is_notified = false;
        cleared
    }

    /// Sets the flag, so that the notifier is not used.
    pub fn set_to_notified(&mut self)
        ensures
            sets(*old(self), *final(self)),
    {
        self.is_notified = true;
    }

    /// Whether the flag is set.
    pub fn is_notified(&self) -> (notified: bool)
        ensures
            notified == self.notified(),
    {
        self.is_notified
    }

    /// Sets the flag. Says whether the notifier itself is to be used, which is the case if the
    /// flag was clear.
    pub fn notify(&mut self) -> (first: bool)
        ensures
            notifies(*old(self), *final(self), first),
    {
        let first = !self.is_notified;
        self.is_notified = true;
        first
    }
}

/// Why the reactor refuses a source.
#[derive(Debug, Clone, Copy, PartialEq, Eq, Structural)]
pub enum ReactorError {
    /// The source is already registered.
    AlreadyRegistered,
}

/// How the reactor waits.
pub enum WaitPlan {
    /// Not at all: a wakeup is due at once.
    Skip,
    /// By polling the sources for these kinds of events, for no longer than the timeout.
    Poll { timeout: Option<Duration>, sources: Vec<(Source, Filter)> },
}

/// Who is to be awoken after a wait.
pub struct Awoken<W> {
    /// By events, in their order: whoever waited for this kind of event of this source. The reactor
    /// keeps the waker: see [`Reactor::waker`].
    pub events: Vec<(Source, Interest)>,
    /// By timers, in the order in which they expire.
    pub timers: Vec<W>,
}

/// Whether `sources` lists every registered source with the kinds of events that someone waits
/// for, in ascending order.
pub open spec fn lists_sources<W>(
    registered: Map<Source, EventData<W>>,
    sources: Seq<(Source, Filter)>,
) -> bool {
    &&& forall|i: int, j: int| 0 <= i < j < sources.len() ==> sources[i].0 < sources[j].0
    &&& forall|i: int|
        0 <= i < sources.len() ==> {
            &&& registered.contains_key((#[trigger] sources[i]).0)
            &&& sources[i].1 == wanted(registered[sources[i].0])
        }
    &&& forall|source: Source| #[trigger]
        registered.contains_key(source) ==> sources.contains(
            (source, wanted(registered[source])),
        )
}

/// After a run of events.
pub open spec fn after_events<W>(
    registered: Map<Source, EventData<W>>,
    events: Seq<(Source, Filter)>,
) -> Map<Source, EventData<W>>
    decreases events.len(),
{
    if events.len() == 0 {
        registered
    } else {
        let before = after_events(registered, events.drop_last());
        let (source, filter) = events.last();
        before.insert(source, fired(before[source], filter))
    }
}

/// Who is awoken by a run of events, in order: whoever waits for this kind of event of this source.
pub open spec fn awoken_by<W>(
    registered: Map<Source, EventData<W>>,
    events: Seq<(Source, Filter)>,
) -> Seq<(Source, Interest)>
    decreases events.len(),
{
    if events.len() == 0 {
        Seq::empty()
    } else {
        let before = after_events(registered, events.drop_last());
        let (source, filter) = events.last();
        awoken_by(registered, events.drop_last()) + due_for(source, before[source], filter)
    }
}

/// Whether every event is of a registered source.
pub open spec fn of_registered<W>(
    registered: Map<Source, EventData<W>>,
    events: Seq<(Source, Filter)>,
) -> bool {
    forall|i: int| 0 <= i < events.len() ==> registered.contains_key((#[trigger] events[i]).0)
}

/// What registering a source does: one that is registered already is refused and left as it is, and
/// another is there with nobody waiting.
pub open spec fn registers<W>(
    registered: Map<Source, EventData<W>>,
    source: Source,
    res: Result<(), ReactorError>,
    registered2: Map<Source, EventData<W>>,
) -> bool {
    if registered.contains_key(source) {
        &&& res == Err::<(), ReactorError>(ReactorError::AlreadyRegistered)
        &&& registered2 == registered
    } else {
        &&& res is Ok
        &&& registered2 == registered.insert(source, idle())
    }
}

/// What removing a source does.
pub open spec fn deregisters<W>(
    registered: Map<Source, EventData<W>>,
    source: Source,
    registered2: Map<Source, EventData<W>>,
) -> bool {
    registered2 == registered.remove(source)
}

/// What letting a waker wait does.
pub open spec fn enables<W>(
    registered: Map<Source, EventData<W>>,
    source: Source,
    interest: Interest,
    waker: W,
    filter: Filter,
    registered2: Map<Source, EventData<W>>,
) -> bool {
    &&& registered2 == registered.insert(source, enabled(registered[source], interest, waker))
    &&& filter == wanted(registered2[source])
}

/// Whether an event came since someone was last let wait for it.
pub open spec fn event_ready<W>(
    registered: Map<Source, EventData<W>>,
    source: Source,
    interest: Interest,
) -> bool {
    !direction(registered[source], interest).enabled
}

/// Which waker is kept for one kind of event of a source.
pub open spec fn kept_waker<W>(
    registered: Map<Source, EventData<W>>,
    source: Source,
    interest: Interest,
) -> Option<W> {
    if registered.contains_key(source) {
        direction(registered[source], interest).waker
    } else {
        None
    }
}

/// How the reactor waits.
pub open spec fn plans<W>(
    registered: Map<Source, EventData<W>>,
    timers: Map<(u64, usize), W>,
    now: u64,
    notified: bool,
    plan: WaitPlan,
) -> bool {
    match plan {
        WaitPlan::Skip => notified || exists|expiry: u64| #[trigger]
            crate::time::first_expiry(timers, expiry) && expiry <= now,
        WaitPlan::Poll { timeout, sources } => {
            &&& !notified
            &&& lists_sources(registered, sources@)
            &&& match timeout {
                Some(span) => {
                    &&& span.wf()
                    &&& exists|expiry: u64| #[trigger]
                        crate::time::first_expiry(timers, expiry) && expiry > now
                            && span.total_nanos() == expiry - now
                },
                None => timers == Map::<(u64, usize), W>::empty(),
            }
        },
    }
}

/// Keeps track of who waits for which event source and for which timer.
pub struct Reactor<W> {
    event_sources: BTreeMap<Source, EventData<W>>,
    timer_queue: TimerQueue<W>,
}

impl<W> Reactor<W> {
    /// The registered sources, with who waits for them.
    pub closed spec fn sources(&self) -> Map<Source, EventData<W>> {
        self.event_sources@
    }

    /// The timers.
    pub closed spec fn timer_queue(&self) -> TimerQueue<W> {
        self.timer_queue
    }

    /// Everyone who is said to wait left a waker.
    pub open spec fn wf(&self) -> bool {
        wakers_left(self.sources())
    }

    /// A reactor without sources and timers.
    pub fn new() -> (reactor: Reactor<W>)
        ensures
            reactor.wf(),
            reactor.sources() == Map::<Source, EventData<W>>::empty(),
            reactor.timer_queue().timers() == Map::<(u64, usize), W>::empty(),
            reactor.timer_queue().current_id().number() == 1,
    {
        Reactor { event_sources: BTreeMap::new(), timer_queue: TimerQueue::new() }
    }

    /// Registers a source, for which nobody waits yet. One that is registered already is left as
    /// it is.
    pub fn register_event(&mut self, source: Source) -> (res: Result<(), ReactorError>)
        requires
            old(self).wf(),
        ensures
            final(self).wf(),
            final(self).timer_queue() == old(self).timer_queue(),
            registers(old(self).sources(), source, res, final(self).sources()),
    {
        if let Some(prev) = self.event_sources.insert(source, EventData::default()) {
            self.event_sources.insert(source, prev);
            assert(self.sources() =~= old(self).sources());
            return Err(ReactorError::AlreadyRegistered);
        }
        proof {
            lemma_source_keeps_wakers(old(self).sources(), source, idle());
        }
        Ok(())
    }

    /// Removes a source.
    pub fn deregister_event(&mut self, source: Source)
        requires
            old(self).wf(),
            old(self).sources().contains_key(source),
        ensures
            final(self).wf(),
            deregisters(old(self).sources(), source, final(self).sources()),
            final(self).timer_queue() == old(self).timer_queue(),
    {
        self.event_sources.remove(&source);
        proof {
            let before = old(self).sources();
            let after = self.sources();
            assert forall|s: Source, d: Interest|
                after.contains_key(s) && direction(#[trigger] after[s], d).enabled implies (
            #[trigger] direction(after[s], d)).waker is Some by {
                assert(before[s] == after[s]);
            }
        }
    }

    /// Whether a source is registered.
    pub fn is_registered(&self, source: Source) -> (registered: bool)
        ensures
            registered == self.sources().contains_key(source),
    {
        self.event_sources.contains_key(&source)
    }

    /// Lets a waker wait for one kind of event of a source. Tells which kinds are waited for then.
    pub fn enable_event(&mut self, source: Source, interest: Interest, waker: W) -> (filter:
        Filter)
        requires
            old(self).wf(),
            old(self).sources().contains_key(source),
        ensures
            final(self).wf(),
            enables(
                old(self).sources(),
                source,
                interest,
                waker,
                filter,
                final(self).sources(),
            ),
            final(self).timer_queue() == old(self).timer_queue(),
    {
        let mut data = self.event_sources.remove(&source).unwrap();
        match interest {
            Interest::Read => data.read.enable(waker),
            Interest::Write => data.write.enable(waker),
        }
        let filter = data.filter();
        self.event_sources.insert(source, data);
        assert(self.sources() =~= old(self).sources().insert(source, data));
        proof {
            let prev = old(self).sources()[source];
            assert(direction(prev, Interest::Read).enabled ==> direction(
                prev,
                Interest::Read,
            ).waker is Some);
            assert(direction(prev, Interest::Write).enabled ==> direction(
                prev,
                Interest::Write,
            ).waker is Some);
            lemma_source_keeps_wakers(old(self).sources(), source, data);
        }
        filter
    }

    /// Whether an event came since someone was last let wait for it.
    pub fn is_event_ready(&self, source: Source, interest: Interest) -> (ready: bool)
        requires
            self.sources().contains_key(source),
        ensures
            ready == event_ready(self.sources(), source, interest),
    {
        let data = self.event_sources.get(&source).unwrap();
        match interest {
            Interest::Read => !data.read.enabled,
            Interest::Write => !data.write.enabled,
        }
    }

    /// The registered sources with the kinds of events that someone waits for.
    fn filters(&self) -> (sources: Vec<(Source, Filter)>)
        ensures
            lists_sources(self.sources(), sources@),
    {
        let mut sources: Vec<(Source, Filter)> = Vec::new();
        let iter = self.event_sources.iter();
        let ghost listing = iter.remaining();
        proof {
            let firsts = listing.map_values(|kv: (&Source, &EventData<W>)| *kv.0);
            assert(vstd::std_specs::btree::increasing_seq(firsts));
            assert forall|i: int, j: int| 0 <= i < j < listing.len() implies *listing[i].0
                < *listing[j].0 by {
                assert(firsts[i].cmp_spec(&firsts[j]) is Less);
            }
        }
        for (source, data) in it: iter
            invariant
                it.seq() == listing,
                sources@.len() == it.index(),
                forall|i: int|
                    0 <= i < sources.len() ==> #[trigger] sources@[i] == (
                        *listing[i].0,
                        wanted(*listing[i].1),
                    ),
        {
            sources.push((*source, data.filter()));
        }
        proof {
            let m = self.event_sources@;
            assert forall|source: Source| #[trigger] m.contains_key(source) implies sources@.contains(
                (source, wanted(m[source])),
            ) by {
                assert(listing.contains((&source, &m[source])));
                let i = choose|i: int|
                    0 <= i < listing.len() && listing[i] == (&source, &m[source]);
                assert(sources@[i] == (source, wanted(m[source])));
            }
            assert forall|i: int| 0 <= i < sources@.len() implies {
                &&& m.contains_key((#[trigger] sources@[i]).0)
                &&& sources@[i].1 == wanted(m[sources@[i].0])
            } by {
                assert(m.contains_key(*listing[i].0));
            }
        }
        sources
    }

    /// Starts to wait. There is nothing to wait for if a timer has expired or the reactor was
    /// interrupted.
    pub fn begin_wait(&self, now: u64, notified: bool) -> (plan: WaitPlan)
        ensures
            plans(self.sources(), self.timer_queue().timers(), now, notified, plan),
    {
        let timeout = self.timer_queue.next_timeout(now);
        assert(self.timer_queue() == self.timer_queue);
        let instant = match timeout {
            Some(span) => span.is_zero(),
            None => false,
        };
        if instant || notified {
            WaitPlan::Skip
        } else {
            WaitPlan::Poll { timeout, sources: self.filters() }
        }
    }

    /// Ends a wait, with the events that came of it. Tells everyone who is to be awoken, first by
    /// the events, then by the timers that have expired.
    pub fn finish_wait(&mut self, events: &Vec<(Source, Filter)>, now: u64) -> (awoken: Awoken<W>)
        requires
            old(self).wf(),
            of_registered(old(self).sources(), events@),
        ensures
            final(self).wf(),
            final(self).sources() == after_events(old(self).sources(), events@),
            final(self).timer_queue().timers() == crate::time::unexpired(
                old(self).timer_queue().timers(),
                now,
            ),
            final(self).timer_queue().current_id() == old(self).timer_queue().current_id(),
            awoken.events@ == awoken_by(old(self).sources(), events@),
            crate::time::wakes_expired(old(self).timer_queue().timers(), now, awoken.timers@),
    {
        let mut awoken: Vec<(Source, Interest)> = Vec::new();
        let mut k: usize = 0;
        while k < events.len()
            invariant
                k <= events.len(),
                of_registered(old(self).sources(), events@),
                self.sources() == after_events(old(self).sources(), events@.take(k as int)),
                self.sources().dom() == old(self).sources().dom(),
                awoken@ == awoken_by(old(self).sources(), events@.take(k as int)),
                self.timer_queue() == old(self).timer_queue(),
            decreases events.len() - k,
        {
            let (source, filter) = events[k];
            assert(events@.take(k + 1).drop_last() =~= events@.take(k as int));
            assert(old(self).sources().contains_key(events@[k as int].0));
            assert(self.sources().dom().contains(source));
            let mut data = self.event_sources.remove(&source).unwrap();
            data.fire(source, filter, &mut awoken);
            self.event_sources.insert(source, data);
            assert(self.sources() =~= after_events(old(self).sources(), events@.take(k + 1)));
            assert(self.sources().dom() =~= old(self).sources().dom());
            k = k + 1;
        }
        assert(events@.take(k as int) =~= events@);
        proof {
            law_events_keep_sources(old(self).sources(), events@);
        }
        Awoken { events: awoken, timers: self.timer_queue.clear_expired(now) }
    }

    /// Who waits or last waited for one kind of event of a source.
    pub fn waker(&self, source: Source, interest: Interest) -> (waker: Option<&W>)
        ensures
            match waker {
                Some(waker) => kept_waker(self.sources(), source, interest) == Some(*waker),
                None => kept_waker(self.sources(), source, interest) is None,
            },
    {
        match self.event_sources.get(&source) {
            Some(data) => match interest {
                Interest::Read => data.read.waker.as_ref(),
                Interest::Write => data.write.waker.as_ref(),
            },
            None => None,
        }
    }

    /// Adds a timer, and tells its number.
    pub fn register_timer(&mut self, expiry: u64, waker: W) -> (id: Id)
        ensures
            id == old(self).timer_queue().current_id(),
            crate::time::adds(
                old(self).timer_queue().timers(),
                expiry,
                id.number(),
                waker,
                final(self).timer_queue().timers(),
            ),
            crate::id::succeeds(
                id.number(),
                final(self).timer_queue().current_id().number(),
            ),
            final(self).sources() == old(self).sources(),
    {
        self.timer_queue.register(expiry, waker)
    }

    /// Removes a timer, if it is still there.
    pub fn cancel_timer(&mut self, id: Id, expiry: u64)
        ensures
            crate::time::removes(
                old(self).timer_queue().timers(),
                expiry,
                id.number(),
                final(self).timer_queue().timers(),
            ),
            final(self).timer_queue().current_id() == old(self).timer_queue().current_id(),
            final(self).sources() == old(self).sources(),
    {
        self.timer_queue.cancel(id, expiry);
    }

    /// Replaces the waker of a timer, if it is still there.
    pub fn modify_timer(&mut self, id: Id, expiry: u64, waker: W)
        ensures
            crate::time::replaces(
                old(self).timer_queue().timers(),
                expiry,
                id.number(),
                waker,
                final(self).timer_queue().timers(),
            ),
            final(self).timer_queue().current_id() == old(self).timer_queue().current_id(),
            final(self).sources() == old(self).sources(),
    {
        self.timer_queue.modify(id, expiry, waker);
    }

    /// Whether there are neither sources nor timers.
    pub fn is_empty(&self) -> (empty: bool)
        ensures
            empty == (self.sources() == Map::<Source, EventData<W>>::empty()
                && self.timer_queue().timers() == Map::<(u64, usize), W>::empty()),
    {
        let no_sources = self.event_sources.is_empty();
        assert(self.event_sources@.is_empty() ==> self.event_sources@ =~= Map::empty());
        self.timer_queue.is_empty() && no_sources
    }

    /// The number of registered sources.
    pub fn source_count(&self) -> (n: usize)
        ensures
            n == self.sources().len(),
    {
        self.event_sources.len()
    }

    /// The kinds of events of a source that someone waits for.
    pub fn filter(&self, source: Source) -> (filter: Option<Filter>)
        ensures
            filter == if self.sources().contains_key(source) {
                Some(wanted(self.sources()[source]))
            } else {
                None
            },
    {
        match self.event_sources.get(&source) {
            Some(data) => Some(data.filter()),
            None => None,
        }
    }
}

/// Whether everyone who is said to wait left a waker.
pub open spec fn wakers_left<W>(registered: Map<Source, EventData<W>>) -> bool {
    forall|source: Source, interest: Interest|
        registered.contains_key(source) && direction(
            #[trigger] registered[source],
            interest,
        ).enabled ==> (#[trigger] direction(registered[source], interest)).waker is Some
}

/// Whether a filter has this kind of event.
pub open spec fn has(filter: Filter, interest: Interest) -> bool {
    match interest {
        Interest::Read => filter.read,
        Interest::Write => filter.write,
    }
}

/// Whether a run of events has one of this kind of this source.
pub open spec fn among(
    events: Seq<(Source, Filter)>,
    source: Source,
    interest: Interest,
) -> bool {
    exists|i: int|
        0 <= i < events.len() && (#[trigger] events[i]).0 == source && has(events[i].1, interest)
}

/// Letting a waker wait for one kind of event makes it wait for that kind, in the place of another
/// that did, and leaves who waits for the other kind of event of that source as it was. Other
/// sources are left alone. The filter that comes back tells the kinds that are waited for, and the
/// event is not ready.
pub proof fn law_enable_leaves_the_other_kind<W>(
    registered: Map<Source, EventData<W>>,
    source: Source,
    interest: Interest,
    waker: W,
    filter: Filter,
    registered2: Map<Source, EventData<W>>,
)
    requires
        registered.contains_key(source),
        enables(registered, source, interest, waker, filter, registered2),
    ensures
        registered2.contains_key(source),
        match interest {
            Interest::Read => {
                &&& registered2[source].read.enabled
                &&& registered2[source].read.waker == Some(waker)
                &&& registered2[source].write.enabled == registered[source].write.enabled
                &&& registered2[source].write.waker == registered[source].write.waker
                &&& filter.read
                &&& filter.write == registered[source].write.enabled
            },
            Interest::Write => {
                &&& registered2[source].write.enabled
                &&& registered2[source].write.waker == Some(waker)
                &&& registered2[source].read.enabled == registered[source].read.enabled
                &&& registered2[source].read.waker == registered[source].read.waker
                &&& filter.write
                &&& filter.read == registered[source].read.enabled
            },
        },
        !event_ready(registered2, source, interest),
        forall|other: Source|
            other != source ==> {
                &&& #[trigger] registered2.contains_key(other) <==> registered.contains_key(other)
                &&& registered2[other] == registered[other]
            },
{
}

/// An event is ready exactly if nobody waits for it any more, and the waker that is told for it is
/// the one that waits or last waited for that kind of event of that source.
pub proof fn law_ready_and_waker_of_a_kind<W>(
    registered: Map<Source, EventData<W>>,
    source: Source,
)
    requires
        registered.contains_key(source),
    ensures
        event_ready(registered, source, Interest::Read) <==> !registered[source].read.enabled,
        event_ready(registered, source, Interest::Write) <==> !registered[source].write.enabled,
        kept_waker(registered, source, Interest::Read) == registered[source].read.waker,
        kept_waker(registered, source, Interest::Write) == registered[source].write.waker,
{
}

/// A source that is newly registered has nobody waiting. Registering it again is refused and
/// changes nothing. Other sources are left alone.
pub proof fn law_registered_source_is_idle<W>(
    registered: Map<Source, EventData<W>>,
    source: Source,
    res: Result<(), ReactorError>,
    registered2: Map<Source, EventData<W>>,
    res2: Result<(), ReactorError>,
    registered3: Map<Source, EventData<W>>,
)
    requires
        registers(registered, source, res, registered2),
        registers(registered2, source, res2, registered3),
    ensures
        res is Ok <==> !registered.contains_key(source),
        registered2.contains_key(source),
        res is Ok ==> {
            &&& !registered2[source].read.enabled
            &&& registered2[source].read.waker is None
            &&& !registered2[source].write.enabled
            &&& registered2[source].write.waker is None
        },
        res is Err ==> registered2 == registered,
        res2 == Err::<(), ReactorError>(ReactorError::AlreadyRegistered),
        registered3 == registered2,
        forall|other: Source|
            other != source ==> {
                &&& #[trigger] registered2.contains_key(other) <==> registered.contains_key(other)
                &&& registered2[other] == registered[other]
            },
{
}

/// What one event does: it wakes who waits for its kinds, the reader first, and these do not wait
/// any more. Wakers stay, the other kind stays as it was, and so do all other sources.
pub proof fn law_one_event<W>(
    registered: Map<Source, EventData<W>>,
    source: Source,
    filter: Filter,
    other: Source,
)
    requires
        registered.contains_key(source),
    ensures
        ({
            let data = registered[source];
            let reader = filter.read && data.read.enabled && data.read.waker is Some;
            let writer = filter.write && data.write.enabled && data.write.waker is Some;
            let after = after_events(registered, seq![(source, filter)]);
            let awoken = awoken_by(registered, seq![(source, filter)]);
            &&& awoken == if reader && writer {
                seq![(source, Interest::Read), (source, Interest::Write)]
            } else if reader {
                seq![(source, Interest::Read)]
            } else if writer {
                seq![(source, Interest::Write)]
            } else {
                Seq::<(Source, Interest)>::empty()
            }
            &&& after[source].read.enabled == (data.read.enabled && !reader)
            &&& after[source].read.waker == data.read.waker
            &&& after[source].write.enabled == (data.write.enabled && !writer)
            &&& after[source].write.waker == data.write.waker
            &&& after.contains_key(other) <==> registered.contains_key(other)
            &&& other != source ==> after[other] == registered[other]
        }),
{
    let events = seq![(source, filter)];
    assert(events.drop_last() =~= Seq::<(Source, Filter)>::empty());
    reveal_with_fuel(after_events, 2);
    reveal_with_fuel(awoken_by, 2);
    assert(awoken_by(registered, events) =~= due_for(source, registered[source], filter));
}

/// A run of events does what its events do one after the other.
pub proof fn law_events_one_after_the_other<W>(
    registered: Map<Source, EventData<W>>,
    first: Seq<(Source, Filter)>,
    second: Seq<(Source, Filter)>,
)
    ensures
        after_events(registered, first + second) == after_events(
            after_events(registered, first),
            second,
        ),
        awoken_by(registered, first + second) == awoken_by(registered, first) + awoken_by(
            after_events(registered, first),
            second,
        ),
    decreases second.len(),
{
    let middle = after_events(registered, first);
    if second.len() == 0 {
        assert(first + second =~= first);
        assert(awoken_by(registered, first) + awoken_by(middle, second) =~= awoken_by(
            registered,
            first,
        ));
    } else {
        law_events_one_after_the_other(registered, first, second.drop_last());
        assert((first + second).drop_last() =~= first + second.drop_last());
        let (source, filter) = second.last();
        let before = after_events(middle, second.drop_last());
        assert(awoken_by(registered, first + second) =~= awoken_by(registered, first) + (awoken_by(
            middle,
            second.drop_last(),
        ) + due_for(source, before[source], filter)));
    }
}

/// The listing that a poll is made from has every registered source once, in ascending order, with
/// exactly the kinds of events that someone waits for.
pub proof fn law_listing_is_complete<W>(
    registered: Map<Source, EventData<W>>,
    sources: Seq<(Source, Filter)>,
    source: Source,
)
    requires
        lists_sources(registered, sources),
    ensures
        registered.contains_key(source) <==> exists|i: int|
            0 <= i < sources.len() && (#[trigger] sources[i]).0 == source,
        forall|i: int|
            0 <= i < sources.len() && (#[trigger] sources[i]).0 == source ==> {
                &&& sources[i].1.read == registered[source].read.enabled
                &&& sources[i].1.write == registered[source].write.enabled
            },
        forall|i: int, j: int|
            0 <= i < j < sources.len() ==> (#[trigger] sources[i]).0 < (#[trigger] sources[j]).0,
{
    if registered.contains_key(source) {
        let entry = (source, wanted(registered[source]));
        assert(sources.contains(entry));
        let i = choose|i: int| 0 <= i < sources.len() && sources[i] == entry;
        assert(sources[i].0 == source);
    }
}

/// The reactor does not wait exactly if it was notified or a timer has expired. If it waits, it
/// polls every registered source, for no longer than until the first timer expires, and without a
/// limit exactly if there are no timers.
pub proof fn law_waits_unless_something_is_due<W>(
    registered: Map<Source, EventData<W>>,
    timers: Map<(u64, usize), W>,
    now: u64,
    notified: bool,
    plan: WaitPlan,
)
    requires
        plans(registered, timers, now, notified, plan),
    ensures
        plan is Skip <==> notified || exists|key: (u64, usize)| #[trigger]
            timers.contains_key(key) && key.0 <= now,
        plan matches WaitPlan::Poll { timeout, sources } ==> {
            &&& lists_sources(registered, sources@)
            &&& timeout is None <==> forall|key: (u64, usize)| !(#[trigger] timers.contains_key(
                key,
            ))
            &&& timeout matches Some(span) ==> {
                let nanos = span.secs * 1_000_000_000 + span.nanos;
                &&& span.nanos < 1_000_000_000
                &&& exists|key: (u64, usize)| #[trigger]
                    timers.contains_key(key) && key.0 == now + nanos
                &&& forall|key: (u64, usize)| #[trigger]
                    timers.contains_key(key) ==> now + nanos <= key.0
            }
        },
{
    match plan {
        WaitPlan::Skip => {
            if !notified {
                let expiry = choose|expiry: u64| #[trigger]
                    crate::time::first_expiry(timers, expiry) && expiry <= now;
                let key = choose|key: (u64, usize)| #[trigger]
                    timers.contains_key(key) && key.0 == expiry;
                assert(timers.contains_key(key));
            }
        },
        WaitPlan::Poll { timeout, sources } => {
            if let Some(span) = timeout {
                let expiry = choose|expiry: u64| #[trigger]
                    crate::time::first_expiry(timers, expiry) && expiry > now
                        && span.total_nanos() == expiry - now;
                let key = choose|key: (u64, usize)| #[trigger]
                    timers.contains_key(key) && key.0 == expiry;
                assert(timers.contains_key(key));
                assert(span.total_nanos() == span.secs * 1_000_000_000 + span.nanos);
            }
        },
    }
}

/// In a run of events no source comes or goes, and everyone who is still said to wait has a waker.
pub proof fn law_events_keep_sources<W>(
    registered: Map<Source, EventData<W>>,
    events: Seq<(Source, Filter)>,
)
    requires
        of_registered(registered, events),
    ensures
        after_events(registered, events).dom() == registered.dom(),
        wakers_left(registered) ==> wakers_left(after_events(registered, events)),
    decreases events.len(),
{
    if events.len() > 0 {
        let front = events.drop_last();
        lemma_front_of_registered(registered, events);
        law_events_keep_sources(registered, front);
        let before = after_events(registered, front);
        let after = after_events(registered, events);
        assert(before.dom().contains(events.last().0));
        assert(after.dom() =~= registered.dom());
        if wakers_left(registered) {
            assert forall|s: Source, d: Interest|
                after.contains_key(s) && direction(#[trigger] after[s], d).enabled implies (
            #[trigger] direction(after[s], d)).waker is Some by {
                assert(before.contains_key(s));
                assert(direction(before[s], d).enabled ==> direction(before[s], d).waker is Some);
            }
        }
    }
}

/// A run of events of registered sources without its last one is another.
proof fn lemma_front_of_registered<W>(
    registered: Map<Source, EventData<W>>,
    events: Seq<(Source, Filter)>,
)
    requires
        events.len() > 0,
        of_registered(registered, events),
    ensures
        of_registered(registered, events.drop_last()),
        registered.contains_key(events.last().0),
{
    let front = events.drop_last();
    assert(registered.contains_key(events[events.len() - 1].0));
    assert forall|i: int| 0 <= i < front.len() implies registered.contains_key(
        (#[trigger] front[i]).0,
    ) by {
        assert(registered.contains_key(events[i].0));
    }
}

/// What a run of events leaves of who waits: an event of the awaited kind leaves nobody waiting,
/// and without one nothing changes. The waker stays in any case.
pub proof fn law_events_end_the_wait<W>(
    registered: Map<Source, EventData<W>>,
    events: Seq<(Source, Filter)>,
    source: Source,
    interest: Interest,
)
    requires
        of_registered(registered, events),
        wakers_left(registered),
        registered.contains_key(source),
    ensures
        among(events, source, interest) ==> !direction(
            after_events(registered, events)[source],
            interest,
        ).enabled,
        !among(events, source, interest) ==> direction(
            after_events(registered, events)[source],
            interest,
        ) == direction(registered[source], interest),
        direction(after_events(registered, events)[source], interest).waker == direction(
            registered[source],
            interest,
        ).waker,
    decreases events.len(),
{
    if events.len() > 0 {
        let front = events.drop_last();
        lemma_front_of_registered(registered, events);
        law_events_end_the_wait(registered, front, source, interest);
        law_events_keep_sources(registered, front);
        let before = after_events(registered, front);
        lemma_among_last(events, source, interest);
        assert(before.dom().contains(source));
        assert(direction(before[source], interest).enabled ==> direction(
            before[source],
            interest,
        ).waker is Some);
    }
}

/// Events wake exactly those who wait for them, each once however many of the events they wait for.
/// The waker that was left is there to be called.
pub proof fn law_event_wakes_who_waits<W>(
    registered: Map<Source, EventData<W>>,
    events: Seq<(Source, Filter)>,
    source: Source,
    interest: Interest,
)
    requires
        of_registered(registered, events),
        wakers_left(registered),
        registered.contains_key(source),
    ensures
        awoken_by(registered, events).contains((source, interest)) <==> {
            &&& direction(registered[source], interest).enabled
            &&& among(events, source, interest)
        },
        awoken_by(registered, events).no_duplicates(),
        direction(after_events(registered, events)[source], interest).waker == direction(
            registered[source],
            interest,
        ).waker,
    decreases events.len(),
{
    law_events_end_the_wait(registered, events, source, interest);
    if events.len() > 0 {
        let front = events.drop_last();
        lemma_front_of_registered(registered, events);
        lemma_among_last(events, source, interest);
        law_events_end_the_wait(registered, front, source, interest);
        law_events_keep_sources(registered, front);
        law_event_wakes_who_waits(registered, front, source, interest);
        let early = awoken_by(registered, front);
        let before = after_events(registered, front);
        let (last, filter) = events.last();
        let late = due_for(last, before[last], filter);
        assert(before.dom().contains(last));
        lemma_due_for(last, before[last], filter);
        vstd::seq_lib::lemma_seq_concat_contains_all_elements(early, late, (source, interest));
        assert(direction(registered[source], interest).enabled ==> direction(
            registered[source],
            interest,
        ).waker is Some);
        assert((early + late).no_duplicates()) by {
            assert forall|i: int, j: int|
                0 <= i < early.len() && 0 <= j < late.len() implies early[i] != late[j] by {
                let (s, d) = late[j];
                assert(late.contains(late[j]));
                assert(s == last);
                if early.contains((s, d)) {
                    law_event_wakes_who_waits(registered, front, s, d);
                    law_events_end_the_wait(registered, front, s, d);
                }
                assert(early.contains(early[i]));
            }
        }
    }
}

/// Who is awoken by events of one source, one by one.
proof fn lemma_due_for<W>(source: Source, data: EventData<W>, filter: Filter)
    ensures
        due_for(source, data, filter).no_duplicates(),
        forall|s: Source, d: Interest| #[trigger]
            due_for(source, data, filter).contains((s, d)) <==> {
                &&& s == source
                &&& has(filter, d)
                &&& due(direction(data, d)) is Some
            },
{
    let all = due_for(source, data, filter);
    if has(filter, Interest::Read) && due(direction(data, Interest::Read)) is Some {
        assert(all[0] == (source, Interest::Read));
    }
    if has(filter, Interest::Write) && due(direction(data, Interest::Write)) is Some {
        assert(all[all.len() - 1] == (source, Interest::Write));
    }
}

/// A waker that was left is told once, however often its event comes after that, and stays.
pub proof fn law_wakeup_fires_once<W>(waker: W, states: Seq<Wakeup<W>>)
    requires
        states.len() > 0,
        states[0] == waiting(waker),
        forall|i: int, j: int|
            #![trigger states[i], states[j]]
            0 <= i < states.len() && j == i + 1 && j < states.len() ==> states[j] == woken(
                states[i],
            ),
    ensures
        due(states[0]) == Some(waker),
        forall|k: int|
            0 < k < states.len() ==> {
                &&& due(#[trigger] states[k]) is None
                &&& !states[k].enabled
                &&& states[k].waker == Some(waker)
            },
{
    assert forall|k: int| 0 < k < states.len() implies states[k] == (Wakeup {
        enabled: false,
        waker: Some(waker),
    }) by {
        lemma_wakeup_after(waker, states, k);
    }
}

/// What a wakeup is after its first event.
proof fn lemma_wakeup_after<W>(waker: W, states: Seq<Wakeup<W>>, k: int)
    requires
        0 < k < states.len(),
        states[0] == waiting(waker),
        forall|i: int, j: int|
            #![trigger states[i], states[j]]
            0 <= i < states.len() && j == i + 1 && j < states.len() ==> states[j] == woken(
                states[i],
            ),
    ensures
        states[k] == (Wakeup { enabled: false, waker: Some(waker) }),
    decreases k,
{
    if k > 1 {
        lemma_wakeup_after(waker, states, k - 1);
    }
    assert(states[k] == woken(states[k - 1]));
}

/// Whoever was awoken is not awoken again by the same events, unless it waits again.
pub proof fn law_no_second_wakeup<W>(
    registered: Map<Source, EventData<W>>,
    events: Seq<(Source, Filter)>,
)
    requires
        of_registered(registered, events),
        wakers_left(registered),
    ensures
        awoken_by(after_events(registered, events), events) == Seq::<(Source, Interest)>::empty(),
{
    let after = after_events(registered, events);
    law_events_keep_sources(registered, events);
    assert forall|i: int| 0 <= i < events.len() implies quiet(after, #[trigger] events[i]) by {
        let source = events[i].0;
        assert(registered.contains_key(source));
        assert(after.dom().contains(source));
        law_events_end_the_wait(registered, events, source, Interest::Read);
        law_events_end_the_wait(registered, events, source, Interest::Write);
    }
    lemma_quiet(after, events);
}

/// Whether nobody waits for the kinds of this event.
spec fn quiet<W>(registered: Map<Source, EventData<W>>, event: (Source, Filter)) -> bool {
    &&& registered.contains_key(event.0)
    &&& event.1.read ==> !registered[event.0].read.enabled
    &&& event.1.write ==> !registered[event.0].write.enabled
}

/// Events that nobody waits for change nothing and wake nobody.
proof fn lemma_quiet<W>(registered: Map<Source, EventData<W>>, events: Seq<(Source, Filter)>)
    requires
        forall|i: int| 0 <= i < events.len() ==> quiet(registered, #[trigger] events[i]),
    ensures
        after_events(registered, events) == registered,
        awoken_by(registered, events) == Seq::<(Source, Interest)>::empty(),
    decreases events.len(),
{
    if events.len() > 0 {
        let front = events.drop_last();
        assert forall|i: int| 0 <= i < front.len() implies quiet(registered, #[trigger] front[i]) by {
            assert(quiet(registered, events[i]));
        }
        lemma_quiet(registered, front);
        assert(quiet(registered, events[events.len() - 1]));
        assert(after_events(registered, events) =~= registered);
        assert(awoken_by(registered, events) =~= Seq::<(Source, Interest)>::empty());
    }
}

/// Whether a run of events has one, by its last event and those before it.
proof fn lemma_among_last(events: Seq<(Source, Filter)>, source: Source, interest: Interest)
    requires
        events.len() > 0,
    ensures
        among(events, source, interest) <==> {
            ||| among(events.drop_last(), source, interest)
            ||| events.last().0 == source && has(events.last().1, interest)
        },
{
    let front = events.drop_last();
    if among(front, source, interest) {
        let i = choose|i: int|
            0 <= i < front.len() && (#[trigger] front[i]).0 == source && has(front[i].1, interest);
        assert(events[i].0 == source && has(events[i].1, interest));
    }
    if events.last().0 == source && has(events.last().1, interest) {
        assert(events[events.len() - 1].0 == source);
    }
    if among(events, source, interest) {
        let i = choose|i: int|
            0 <= i < events.len() && (#[trigger] events[i]).0 == source && has(
                events[i].1,
                interest,
            );
        if i < front.len() {
            assert(front[i].0 == source && has(front[i].1, interest));
        }
    }
}

/// Letting a waker wait for an event makes the event not ready, and keeps everyone who is said to
/// wait with a waker.
pub proof fn law_enabled_is_not_ready<W>(
    registered: Map<Source, EventData<W>>,
    source: Source,
    interest: Interest,
    waker: W,
)
    requires
        registered.contains_key(source),
        wakers_left(registered),
    ensures
        ({
            let data = enabled(registered[source], interest, waker);
            &&& direction(data, interest) == waiting(waker)
            &&& has(wanted(data), interest)
            &&& wakers_left(registered.insert(source, data))
        }),
{
    let prev = registered[source];
    assert(direction(prev, Interest::Read).enabled ==> direction(prev, Interest::Read).waker is Some);
    assert(direction(prev, Interest::Write).enabled ==> direction(
        prev,
        Interest::Write,
    ).waker is Some);
    lemma_source_keeps_wakers(registered, source, enabled(prev, interest, waker));
}

/// A source for which everyone who is said to wait left a waker keeps it so for all.
proof fn lemma_source_keeps_wakers<W>(
    registered: Map<Source, EventData<W>>,
    source: Source,
    data: EventData<W>,
)
    requires
        wakers_left(registered),
        data.read.enabled ==> data.read.waker is Some,
        data.write.enabled ==> data.write.waker is Some,
    ensures
        wakers_left(registered.insert(source, data)),
{
    let after = registered.insert(source, data);
    assert forall|s: Source, d: Interest|
        after.contains_key(s) && direction(#[trigger] after[s], d).enabled implies (
    #[trigger] direction(after[s], d)).waker is Some by {
        if s != source {
            assert(registered.contains_key(s));
            assert(direction(registered[s], d).enabled ==> direction(
                registered[s],
                d,
            ).waker is Some);
        }
    }
}

/// What happens to a notifier with a flag.
pub ghost enum NotifierStep {
    /// A notification, which uses the notifier itself or not.
    Notify { first: bool },
    /// The flag is set without a notification.
    Mark,
    /// The notifier and the flag are cleared.
    Clear,
}

/// Whether a step leads from one state of the notifier to the next.
pub open spec fn notifier_steps_to<N>(
    before: WithFlag<N>,
    step: NotifierStep,
    after: WithFlag<N>,
) -> bool {
    match step {
        NotifierStep::Notify { first } => notifies(before, after, first),
        NotifierStep::Mark => sets(before, after),
        NotifierStep::Clear => clears(before, after),
    }
}

/// Whether the flag is cleared after step `j` and before step `k`.
pub open spec fn cleared_between(steps: Seq<NotifierStep>, j: int, k: int) -> bool {
    exists|c: int| j < c < k && 0 <= c && #[trigger] steps[c] is Clear
}

/// Whether the flag has not been set by the first `k` steps since it was last cleared. `start` says
/// whether it was set to begin with.
pub open spec fn none_since_clear(start: bool, steps: Seq<NotifierStep>, k: int) -> bool {
    &&& start ==> cleared_between(steps, -1, k)
    &&& forall|j: int|
        0 <= j < k && steps[j] !is Clear ==> #[trigger] cleared_between(steps, j, k)
}

/// A notification uses the notifier exactly if the flag has not been set since it was last cleared:
/// of any number of notifications in between, the first alone.
pub proof fn law_notified_once<N>(states: Seq<WithFlag<N>>, steps: Seq<NotifierStep>)
    requires
        states.len() == steps.len() + 1,
        forall|i: int, j: int|
            #![trigger states[i], states[j]]
            0 <= i < steps.len() && j == i + 1 ==> notifier_steps_to(
                states[i],
                steps[i],
                states[j],
            ),
    ensures
        forall|k: int|
            0 <= k < states.len() ==> ((#[trigger] states[k]).notified() <==> !none_since_clear(
                states[0].notified(),
                steps,
                k,
            )),
        forall|k: int|
            0 <= k < steps.len() ==> (#[trigger] steps[k] matches NotifierStep::Notify {
                first,
            } ==> first == none_since_clear(states[0].notified(), steps, k)),
        forall|k: int| 0 <= k < states.len() ==> (#[trigger] states[k]).inner() == states[0].inner(),
{
    let start = states[0].notified();
    assert forall|k: int| 0 <= k < states.len() implies {
        &&& (#[trigger] states[k]).notified() <==> !none_since_clear(start, steps, k)
        &&& states[k].inner() == states[0].inner()
    } by {
        lemma_flag_after(states, steps, k);
    }
    assert forall|k: int| 0 <= k < steps.len() implies (#[trigger] steps[k] matches NotifierStep::Notify {
        first,
    } ==> first == none_since_clear(start, steps, k)) by {
        assert(notifier_steps_to(states[k], steps[k], states[k + 1]));
    }
}

/// The flag after some steps.
proof fn lemma_flag_after<N>(states: Seq<WithFlag<N>>, steps: Seq<NotifierStep>, k: int)
    requires
        states.len() == steps.len() + 1,
        0 <= k < states.len(),
        forall|i: int, j: int|
            #![trigger states[i], states[j]]
            0 <= i < steps.len() && j == i + 1 ==> notifier_steps_to(
                states[i],
                steps[i],
                states[j],
            ),
    ensures
        states[k].notified() <==> !none_since_clear(states[0].notified(), steps, k),
        states[k].inner() == states[0].inner(),
    decreases k,
{
    if k > 0 {
        lemma_flag_after(states, steps, k - 1);
        assert(notifier_steps_to(states[k - 1], steps[k - 1], states[k]));
        if steps[k - 1] is Clear {
            assert(cleared_between(steps, -1, k));
            assert forall|j: int| 0 <= j < k && steps[j] !is Clear implies #[trigger]
                cleared_between(steps, j, k) by {
                assert(steps[k - 1] is Clear);
            }
        } else {
            assert(!cleared_between(steps, k - 1, k));
        }
    }
}

/// A source that was removed is not registered any more, and other sources are left alone.
pub proof fn law_deregistered_source_is_gone<W>(
    registered: Map<Source, EventData<W>>,
    source: Source,
    registered2: Map<Source, EventData<W>>,
)
    requires
        deregisters(registered, source, registered2),
    ensures
        !registered2.contains_key(source),
        forall|other: Source|
            other != source ==> {
                &&& #[trigger] registered2.contains_key(other) <==> registered.contains_key(other)
                &&& registered2[other] == registered[other]
            },
{
}

/// Registering a source and removing it again leaves the sources as they were.
pub proof fn law_deregister_undoes_register<W>(
    registered: Map<Source, EventData<W>>,
    source: Source,
    res: Result<(), ReactorError>,
    registered2: Map<Source, EventData<W>>,
    registered3: Map<Source, EventData<W>>,
)
    requires
        !registered.contains_key(source),
        registers(registered, source, res, registered2),
        deregisters(registered2, source, registered3),
    ensures
        res is Ok,
        registered3 == registered,
{
    assert(registered3 =~= registered);
}

} // verus!
