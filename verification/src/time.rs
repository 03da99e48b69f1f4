//! Timers.
//!
//! A point in time is a number of nanoseconds since some fixed moment.

use std::collections::BTreeMap;

use vstd::prelude::*;
use vstd::std_specs::cmp::OrdSpec;
use vstd::std_specs::iter::IteratorSpec;

use crate::id::Id;

verus! {

broadcast use vstd::laws_cmp::group_laws_cmp;

/// The nanoseconds in a second.
pub const NANOS_PER_SEC: u64 = 1_000_000_000;

/// A span of time.
#[derive(Debug, Clone, Copy, PartialEq, Eq, Structural)]
pub struct Duration {
    /// Whole seconds.
    pub secs: u64,
    /// The nanoseconds on top of them.
    pub nanos: u32,
}

impl Duration {
    /// The nanoseconds on top of the whole seconds make less than a second.
    pub open spec fn wf(self) -> bool {
        self.nanos < NANOS_PER_SEC
    }

    /// The span in nanoseconds.
    pub open spec fn total_nanos(self) -> nat {
        self.secs as nat * NANOS_PER_SEC as nat + self.nanos as nat
    }

    /// The span of this many nanoseconds.
    pub fn from_nanos(nanos: u64) -> (span: Duration)
        ensures
            span.wf(),
            span.total_nanos() == nanos,
    {
        Duration { secs: nanos / NANOS_PER_SEC, nanos: (nanos % NANOS_PER_SEC) as u32 }
    }

    /// Whether the span has no length.
    pub fn is_zero(&self) -> (zero: bool)
        ensures
            zero == (self.total_nanos() == 0),
    {
        self.secs == 0 && self.nanos == 0
    }
}

/// The order of timers: by expiry, and by number among those that expire together.
pub open spec fn sooner(a: (u64, usize), b: (u64, usize)) -> bool {
    a.0 < b.0 || (a.0 == b.0 && a.1 < b.1)
}

/// Whether `keys` lists the timers that have expired at `now`, in order.
pub open spec fn lists_expired<W>(
    timers: Map<(u64, usize), W>,
    now: u64,
    keys: Seq<(u64, usize)>,
) -> bool {
    &&& forall|i: int, j: int| 0 <= i < j < keys.len() ==> sooner(keys[i], keys[j])
    &&& forall|key: (u64, usize)| #[trigger]
        keys.contains(key) <==> timers.contains_key(key) && key.0 <= now
}

/// The timers that have not expired at `now`.
pub open spec fn unexpired<W>(timers: Map<(u64, usize), W>, now: u64) -> Map<(u64, usize), W> {
    Map::new(
        |key: (u64, usize)| timers.contains_key(key) && key.0 > now,
        |key: (u64, usize)| timers[key],
    )
}

/// Whether `wakers` are those of the timers that have expired at `now`, in the order in which the
/// timers expire.
pub open spec fn wakes_expired<W>(
    timers: Map<(u64, usize), W>,
    now: u64,
    wakers: Seq<W>,
) -> bool {
    exists|keys: Seq<(u64, usize)>| #[trigger]
        lists_expired(timers, now, keys) && wakers == keys.map_values(
            |key: (u64, usize)| timers[key],
        )
}

/// Whether `expiry` is when the first of the timers expires.
pub open spec fn first_expiry<W>(timers: Map<(u64, usize), W>, expiry: u64) -> bool {
    &&& exists|key: (u64, usize)| #[trigger] timers.contains_key(key) && key.0 == expiry
    &&& forall|key: (u64, usize)| #[trigger] timers.contains_key(key) ==> expiry <= key.0
}

/// How many nanoseconds it takes from `now` until `expiry`, which may have passed.
pub open spec fn until(expiry: u64, now: u64) -> nat {
    if expiry > now {
        (expiry - now) as nat
    } else {
        0
    }
}

/// What adding a timer does.
pub open spec fn adds<W>(
    timers: Map<(u64, usize), W>,
    expiry: u64,
    number: usize,
    waker: W,
    timers2: Map<(u64, usize), W>,
) -> bool {
    timers2 == timers.insert((expiry, number), waker)
}

/// What removing a timer does.
pub open spec fn removes<W>(
    timers: Map<(u64, usize), W>,
    expiry: u64,
    number: usize,
    timers2: Map<(u64, usize), W>,
) -> bool {
    timers2 == timers.remove((expiry, number))
}

/// What replacing the waker of a timer does, which may be gone.
pub open spec fn replaces<W>(
    timers: Map<(u64, usize), W>,
    expiry: u64,
    number: usize,
    waker: W,
    timers2: Map<(u64, usize), W>,
) -> bool {
    timers2 == if timers.contains_key((expiry, number)) {
        timers.insert((expiry, number), waker)
    } else {
        timers
    }
}

/// How long it takes from `now` until the first timer expires, if there is one.
pub open spec fn times_out<W>(
    timers: Map<(u64, usize), W>,
    now: u64,
    timeout: Option<Duration>,
) -> bool {
    match timeout {
        Some(span) => {
            &&& span.wf()
            &&& exists|expiry: u64| #[trigger]
                first_expiry(timers, expiry) && span.total_nanos() == until(expiry, now)
        },
        None => timers == Map::<(u64, usize), W>::empty(),
    }
}

/// The timers of a reactor.
pub struct TimerQueue<W> {
    timers: BTreeMap<(u64, usize), W>,
    current_id: Id,
}

impl<W> TimerQueue<W> {
    /// The wakers of the timers, by expiry and number.
    pub closed spec fn timers(&self) -> Map<(u64, usize), W> {
        self.timers@
    }

    /// The number that the next timer gets.
    pub closed spec fn current_id(&self) -> Id {
        self.current_id
    }

    /// A queue without timers.
    pub fn new() -> (queue: TimerQueue<W>)
        ensures
            queue.timers() == Map::<(u64, usize), W>::empty(),
            queue.current_id().number() == 1,
    {
        TimerQueue { timers: BTreeMap::new(), current_id: Id::new(1) }
    }

    /// Whether there are no timers.
    pub fn is_empty(&self) -> (empty: bool)
        ensures
            empty == (self.timers() == Map::<(u64, usize), W>::empty()),
    {
        let empty = self.timers.is_empty();
        assert(self.timers@.is_empty() ==> self.timers@ =~= Map::empty());
        empty
    }

    /// Adds a timer, and tells its number.
    pub fn register(&mut self, expiry: u64, waker: W) -> (id: Id)
        ensures
            id == old(self).current_id(),
            adds(old(self).timers(), expiry, id.number(), waker, final(self).timers()),
            crate::id::succeeds(id.number(), final(self).current_id().number()),
    {
        let id = self.current_id;
        self.current_id = id.overflowing_incr();
        self.timers.insert((expiry, id.get()), waker);
        id
    }

    /// Removes a timer, if it is still there.
    pub fn cancel(&mut self, id: Id, expiry: u64)
        ensures
            removes(old(self).timers(), expiry, id.number(), final(self).timers()),
            final(self).current_id() == old(self).current_id(),
    {
        self.timers.remove(&(expiry, id.get()));
    }

    /// Replaces the waker of a timer, if it is still there.
    pub fn modify(&mut self, id: Id, expiry: u64, waker: W)
        ensures
            replaces(old(self).timers(), expiry, id.number(), waker, final(self).timers()),
            final(self).current_id() == old(self).current_id(),
    {
        let key = (expiry, id.get());
        if self.timers.contains_key(&key) {
            self.timers.insert(key, waker);
        }
    }

    /// How long it takes from `now` until the first timer expires, if there is one.
    pub fn next_timeout(&self, now: u64) -> (timeout: Option<Duration>)
        ensures
            times_out(self.timers(), now, timeout),
    {
        let iter = self.timers.iter();
        let ghost listing = iter.remaining();
        let mut first: Option<u64> = None;
        for (key, _waker) in it: iter
            invariant
                it.seq() == listing,
                match first {
                    Some(expiry) => {
                        &&& it.index() > 0
                        &&& exists|m: int|
                            0 <= m < listing.len() && (*(#[trigger] listing[m]).0).0 == expiry
                        &&& forall|m: int|
                            0 <= m < it.index() ==> expiry <= (*(#[trigger] listing[m]).0).0
                    },
                    None => it.index() == 0,
                },
        {
            let sooner = match first {
                Some(expiry) => key.0 < expiry,
                None => true,
            };
            if sooner {
                first = Some(key.0);
                assert((*listing[it.index()].0).0 == key.0);
            }
        }
        match first {
            Some(expiry) => {
                proof {
                    let m = choose|m: int|
                        0 <= m < listing.len() && (*(#[trigger] listing[m]).0).0 == expiry;
                    assert(self.timers@.contains_key(*listing[m].0));
                    assert forall|key: (u64, usize)| #[trigger]
                        self.timers@.contains_key(key) implies expiry <= key.0 by {
                        let pair = (&key, &self.timers@[key]);
                        assert(listing.contains(pair));
                    }
                    assert(first_expiry(self.timers(), expiry));
                }
                if expiry > now {
                    Some(Duration::from_nanos(expiry - now))
                } else {
                    Some(Duration::from_nanos(0))
                }
            },
            None => {
                proof {
                    assert forall|key: (u64, usize)| !(#[trigger] self.timers@.contains_key(
                        key,
                    )) by {
                        if self.timers@.contains_key(key) {
                            assert(listing.contains((&key, &self.timers@[key])));
                        }
                    }
                    assert(self.timers() =~= Map::empty());
                }
                None
            },
        }
    }

    /// Removes the timers that have expired at `now`. Their wakers come back to be called.
    pub fn clear_expired(&mut self, now: u64) -> (wakers: Vec<W>)
        ensures
            wakes_expired(old(self).timers(), now, wakers@),
            final(self).timers() == unexpired(old(self).timers(), now),
            final(self).current_id() == old(self).current_id(),
    {
        let keys = self.expired_keys(now);
        let mut wakers: Vec<W> = Vec::new();
        let mut k: usize = 0;
        while k < keys.len()
            invariant
                k <= keys.len(),
                wakers.len() == k,
                lists_expired(old(self).timers(), now, keys@),
                self.current_id() == old(self).current_id(),
                forall|i: int| 0 <= i < k ==> wakers@[i] == old(self).timers()[#[trigger] keys@[i]],
                forall|key: (u64, usize)|
                    {
                        &&& #[trigger] self.timers().contains_key(key) <==> {
                            &&& old(self).timers().contains_key(key)
                            &&& !keys@.take(k as int).contains(key)
                        }
                        &&& self.timers().contains_key(key) ==> self.timers()[key] == old(
                            self,
                        ).timers()[key]
                    },
            decreases keys.len() - k,
        {
            let key = keys[k];
            proof {
                assert(keys@.contains(key));
                lemma_take_one_more(keys@, k as int);
                if keys@.take(k as int).contains(key) {
                    let done = keys@.take(k as int);
                    let i = choose|i: int| 0 <= i < done.len() && done[i] == key;
                    assert(sooner(keys@[i], keys@[k as int]));
                }
                assert(self.timers().contains_key(key));
            }
            let ghost before = self.timers();
            if let Some(waker) = self.timers.remove(&key) {
                wakers.push(waker);
            }
            assert(self.timers() == before.remove(key));
            k = k + 1;
        }
        proof {
            assert(keys@.take(k as int) =~= keys@);
            assert(wakers@ =~= keys@.map_values(|key: (u64, usize)| old(self).timers()[key]));
            assert(self.timers() =~= unexpired(old(self).timers(), now));
        }
        wakers
    }

    /// The keys of the timers that have expired at `now`, in order.
    fn expired_keys(&self, now: u64) -> (keys: Vec<(u64, usize)>)
        ensures
            lists_expired(self.timers(), now, keys@),
    {
        let mut keys: Vec<(u64, usize)> = Vec::new();
        let iter = self.timers.iter();
        let ghost listing = iter.remaining();
        proof {
            let firsts = listing.map_values(|kv: (&(u64, usize), &W)| *kv.0);
            assert(vstd::std_specs::btree::increasing_seq(firsts));
            assert forall|i: int, j: int| 0 <= i < j < listing.len() implies sooner(
                *listing[i].0,
                *listing[j].0,
            ) by {
                assert(firsts[i].cmp_spec(&firsts[j]) is Less);
            }
        }
        for (key, _waker) in it: iter
            invariant
                it.seq() == listing,
                forall|i: int, j: int|
                    0 <= i < j < listing.len() ==> sooner(*listing[i].0, *listing[j].0),
                forall|i: int, j: int| 0 <= i < j < keys.len() ==> sooner(keys@[i], keys@[j]),
                forall|i: int, m: int|
                    0 <= i < keys.len() && it.index() <= m < listing.len() ==> sooner(
                        #[trigger] keys@[i],
                        *(#[trigger] listing[m]).0,
                    ),
                forall|i: int|
                    0 <= i < keys.len() ==> (#[trigger] keys@[i]).0 <= now && exists|m: int|
                        0 <= m < listing.len() && *(#[trigger] listing[m]).0 == keys@[i],
                forall|m: int|
                    0 <= m < it.index() && (*(#[trigger] listing[m]).0).0 <= now
                        ==> keys@.contains(*listing[m].0),
        {
            let ghost keys0 = keys@;
            if key.0 <= now {
                keys.push(*key);
                assert(keys@.last() == *key);
                assert forall|m: int| 0 <= m < it.index() && (*(#[trigger] listing[m]).0).0
                    <= now implies keys@.contains(*listing[m].0) by {
                    let i = choose|i: int| 0 <= i < keys0.len() && keys0[i] == *listing[m].0;
                    assert(keys@[i] == *listing[m].0);
                }
            }
        }
        proof {
            assert forall|key: (u64, usize)| #[trigger] keys@.contains(key) <==> self.timers(
            ).contains_key(key) && key.0 <= now by {
                if keys@.contains(key) {
                    let i = choose|i: int| 0 <= i < keys@.len() && keys@[i] == key;
                    let m = choose|m: int| 0 <= m < listing.len() && *(#[trigger] listing[m]).0
                        == keys@[i];
                    assert(self.timers@.contains_key(*listing[m].0));
                }
                if self.timers@.contains_key(key) && key.0 <= now {
                    let pair = (&key, &self.timers@[key]);
                    assert(listing.contains(pair));
                    let m = choose|m: int| 0 <= m < listing.len() && listing[m] == pair;
                    assert(*listing[m].0 == key);
                }
            }
        }
        keys
    }
}

/// A timer is left alone until it expires. Once it has expired, its waker is among those that come
/// back, and it is gone.
pub proof fn law_timer_fires_once_expired<W>(
    timers: Map<(u64, usize), W>,
    key: (u64, usize),
    now: u64,
    wakers: Seq<W>,
)
    requires
        timers.contains_key(key),
        wakes_expired(timers, now, wakers),
    ensures
        key.0 <= now ==> wakers.contains(timers[key]) && !unexpired(timers, now).contains_key(key),
        key.0 > now ==> unexpired(timers, now).contains_key(key) && unexpired(timers, now)[key]
            == timers[key],
        forall|other: (u64, usize)| #[trigger]
            unexpired(timers, now).contains_key(other) ==> timers.contains_key(other) && other.0
                > now,
{
    let keys = choose|keys: Seq<(u64, usize)>| #[trigger]
        lists_expired(timers, now, keys) && wakers == keys.map_values(
            |key: (u64, usize)| timers[key],
        );
    if key.0 <= now {
        assert(keys.contains(key));
        let i = choose|i: int| 0 <= i < keys.len() && keys[i] == key;
        assert(wakers[i] == timers[key]);
    }
}

/// As many wakers come back as timers have expired: a timer that was cancelled wakes nobody.
pub proof fn law_one_waker_per_expired_timer<W>(
    timers: Map<(u64, usize), W>,
    now: u64,
    wakers: Seq<W>,
)
    requires
        wakes_expired(timers, now, wakers),
    ensures
        wakers.len() == Set::new(
            |key: (u64, usize)| timers.contains_key(key) && key.0 <= now,
        ).len(),
{
    let keys = choose|keys: Seq<(u64, usize)>| #[trigger]
        lists_expired(timers, now, keys) && wakers == keys.map_values(
            |key: (u64, usize)| timers[key],
        );
    assert(keys.no_duplicates()) by {
        assert forall|i: int, j: int| 0 <= i < j < keys.len() implies keys[i] != keys[j] by {
            assert(sooner(keys[i], keys[j]));
        }
    }
    keys.unique_seq_to_set();
    assert(keys.to_set() =~= Set::new(
        |key: (u64, usize)| timers.contains_key(key) && key.0 <= now,
    )) by {
        assert forall|key: (u64, usize)| keys.to_set().contains(key) <==> timers.contains_key(
            key,
        ) && key.0 <= now by {
            assert(keys.to_set().contains(key) <==> keys.contains(key));
        }
    }
}

/// The wakers come back in the order in which their timers expire, and of timers that expire
/// together in the order of their numbers. None is left out, and none comes from elsewhere.
pub proof fn law_wakers_in_order_of_expiry<W>(
    timers: Map<(u64, usize), W>,
    now: u64,
    wakers: Seq<W>,
)
    requires
        wakes_expired(timers, now, wakers),
    ensures
        exists|keys: Seq<(u64, usize)>|
            #![trigger keys.len()]
            {
                &&& keys.len() == wakers.len()
                &&& forall|i: int|
                    0 <= i < keys.len() ==> {
                        &&& timers.contains_key(#[trigger] keys[i])
                        &&& keys[i].0 <= now
                        &&& wakers[i] == timers[keys[i]]
                    }
                &&& forall|i: int, j: int|
                    0 <= i < j < keys.len() ==> {
                        ||| (#[trigger] keys[i]).0 < (#[trigger] keys[j]).0
                        ||| keys[i].0 == keys[j].0 && keys[i].1 < keys[j].1
                    }
                &&& forall|key: (u64, usize)| #[trigger]
                    timers.contains_key(key) && key.0 <= now ==> keys.contains(key)
            },
{
    let keys = choose|keys: Seq<(u64, usize)>| #[trigger]
        lists_expired(timers, now, keys) && wakers == keys.map_values(
            |key: (u64, usize)| timers[key],
        );
    assert forall|i: int| 0 <= i < keys.len() implies {
        &&& timers.contains_key(#[trigger] keys[i])
        &&& keys[i].0 <= now
        &&& wakers[i] == timers[keys[i]]
    } by {
        assert(keys.contains(keys[i]));
    }
    assert forall|i: int, j: int| 0 <= i < j < keys.len() implies {
        ||| (#[trigger] keys[i]).0 < (#[trigger] keys[j]).0
        ||| keys[i].0 == keys[j].0 && keys[i].1 < keys[j].1
    } by {
        assert(sooner(keys[i], keys[j]));
    }
    assert(keys.len() == wakers.len());
}

/// Waiting for as long as the queue says is waiting exactly until the first timer expires, or not
/// at all if one has. There is nothing to wait for exactly if there are no timers.
pub proof fn law_timeout_reaches_first_timer<W>(
    timers: Map<(u64, usize), W>,
    now: u64,
    timeout: Option<Duration>,
)
    requires
        times_out(timers, now, timeout),
    ensures
        timeout is None <==> forall|key: (u64, usize)| !(#[trigger] timers.contains_key(key)),
        timeout matches Some(span) ==> {
            let nanos = span.secs * 1_000_000_000 + span.nanos;
            &&& span.nanos < 1_000_000_000
            &&& exists|key: (u64, usize)| #[trigger]
                timers.contains_key(key) && key.0 <= now + nanos
            &&& nanos > 0 ==> forall|key: (u64, usize)| #[trigger]
                timers.contains_key(key) ==> now + nanos <= key.0
        },
{
    if let Some(span) = timeout {
        let expiry = choose|expiry: u64| #[trigger]
            first_expiry(timers, expiry) && span.total_nanos() == until(expiry, now);
        let key = choose|key: (u64, usize)| #[trigger] timers.contains_key(key) && key.0 == expiry;
        assert(timers.contains_key(key));
        assert(span.total_nanos() == span.secs * 1_000_000_000 + span.nanos);
    }
}

/// A timer that was added fires once it has expired, with the waker that it was added with. All
/// other timers stay as they are.
pub proof fn law_added_timer_fires<W>(
    timers: Map<(u64, usize), W>,
    expiry: u64,
    number: usize,
    waker: W,
    timers2: Map<(u64, usize), W>,
    now: u64,
    wakers: Seq<W>,
)
    requires
        adds(timers, expiry, number, waker, timers2),
        wakes_expired(timers2, now, wakers),
    ensures
        expiry <= now ==> wakers.contains(waker),
        expiry > now ==> unexpired(timers2, now).contains_key((expiry, number)) && unexpired(
            timers2,
            now,
        )[(expiry, number)] == waker,
        forall|other: (u64, usize)|
            other != (expiry, number) ==> {
                &&& #[trigger] timers2.contains_key(other) <==> timers.contains_key(other)
                &&& timers2[other] == timers[other]
            },
{
    law_timer_fires_once_expired(timers2, (expiry, number), now, wakers);
}

/// A timer that was removed is not there any more, and all other timers stay as they are.
pub proof fn law_removed_timer_is_gone<W>(
    timers: Map<(u64, usize), W>,
    expiry: u64,
    number: usize,
    timers2: Map<(u64, usize), W>,
)
    requires
        removes(timers, expiry, number, timers2),
    ensures
        !timers2.contains_key((expiry, number)),
        forall|other: (u64, usize)|
            other != (expiry, number) ==> {
                &&& #[trigger] timers2.contains_key(other) <==> timers.contains_key(other)
                &&& timers2[other] == timers[other]
            },
{
}

/// A timer whose waker was replaced fires with the new one. A timer that is gone does not come back
/// by that, and all other timers stay as they are.
pub proof fn law_replaced_waker_is_called<W>(
    timers: Map<(u64, usize), W>,
    expiry: u64,
    number: usize,
    waker: W,
    timers2: Map<(u64, usize), W>,
    now: u64,
    wakers: Seq<W>,
)
    requires
        replaces(timers, expiry, number, waker, timers2),
        wakes_expired(timers2, now, wakers),
    ensures
        timers2.contains_key((expiry, number)) <==> timers.contains_key((expiry, number)),
        timers.contains_key((expiry, number)) && expiry <= now ==> wakers.contains(waker),
        timers.contains_key((expiry, number)) ==> timers2[(expiry, number)] == waker,
        forall|other: (u64, usize)|
            other != (expiry, number) ==> {
                &&& #[trigger] timers2.contains_key(other) <==> timers.contains_key(other)
                &&& timers2[other] == timers[other]
            },
{
    if timers.contains_key((expiry, number)) {
        law_timer_fires_once_expired(timers2, (expiry, number), now, wakers);
    }
}

/// A span is its seconds and nanoseconds, and empty exactly if both are zero. Of two spans that
/// keep the nanoseconds below a second, the same length means the same span.
pub proof fn law_span_in_nanoseconds(a: Duration, b: Duration)
    ensures
        a.total_nanos() == a.secs * 1_000_000_000 + a.nanos,
        a.total_nanos() == 0 <==> a.secs == 0 && a.nanos == 0,
        a.wf() <==> a.nanos < 1_000_000_000,
        a.wf() && b.wf() && a.total_nanos() == b.total_nanos() ==> a == b,
{
}

/// Removing a timer that was just added leaves the timers as they were, if no other had its expiry
/// and its number.
pub proof fn law_cancel_undoes_register<W>(
    timers: Map<(u64, usize), W>,
    expiry: u64,
    number: usize,
    waker: W,
    timers2: Map<(u64, usize), W>,
    timers3: Map<(u64, usize), W>,
)
    requires
        !timers.contains_key((expiry, number)),
        adds(timers, expiry, number, waker, timers2),
        removes(timers2, expiry, number, timers3),
    ensures
        timers3 == timers,
{
    assert(timers3 =~= timers);
}

/// What the first keys of a list contain with one more.
proof fn lemma_take_one_more(keys: Seq<(u64, usize)>, k: int)
    requires
        0 <= k < keys.len(),
    ensures
        forall|key: (u64, usize)| #[trigger]
            keys.take(k + 1).contains(key) <==> keys.take(k).contains(key) || key == keys[k],
{
    let more = keys.take(k + 1);
    let fewer = keys.take(k);
    assert(more =~= fewer.push(keys[k]));
    assert forall|key: (u64, usize)| #[trigger] more.contains(key) <==> fewer.contains(key) || key
        == keys[k] by {
        if fewer.contains(key) {
            let i = choose|i: int| 0 <= i < fewer.len() && fewer[i] == key;
            assert(more[i] == key);
        }
        assert(more[k] == keys[k]);
    }
}

} // verus!
