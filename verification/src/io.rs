//! I/O objects that wait on the reactor.

use vstd::prelude::*;

use crate::reactor::{Filter, Interest, Reactor, ReactorError, Source};

verus! {

/// How an attempt at a non-blocking operation went.
pub enum Attempt<P, E> {
    /// It was done.
    Done(P),
    /// It could not be done without blocking.
    WouldBlock,
    /// It failed.
    Failed(E),
}

/// How far an operation got.
pub enum Progress<T> {
    /// It is over.
    Ready(T),
    /// The reactor wakes whoever waits for it. The poller is to be told that these kinds of events
    /// of the source are waited for.
    Pending(Filter),
}

/// A source that is registered until it is released.
pub struct GuardedHandle(pub Source);

impl GuardedHandle {
    /// Removes the source from the reactor.
    pub fn release<W>(self, reactor: &mut Reactor<W>)
        requires
            old(reactor).wf(),
            old(reactor).sources().contains_key(self.0),
        ensures
            final(reactor).wf(),
            crate::reactor::deregisters(
                old(reactor).sources(),
                self.0,
                final(reactor).sources(),
            ),
            final(reactor).timer_queue() == old(reactor).timer_queue(),
    {
        reactor.deregister_event(self.0);
    }

    /// Takes how an attempt at an operation on the source went. One that would block is repeated
    /// once the source is ready.
    pub fn poll_event<P, E, W>(
        &self,
        reactor: &mut Reactor<W>,
        interest: Interest,
        attempt: Attempt<P, E>,
        waker: W,
    ) -> (progress: Progress<Result<P, E>>)
        requires
            old(reactor).wf(),
            old(reactor).sources().contains_key(self.0),
        ensures
            final(reactor).wf(),
            attempted(
                *old(reactor),
                self.0,
                interest,
                attempt,
                waker,
                *final(reactor),
                progress,
            ),
    {
        match attempt {
            Attempt::Done(value) => Progress::Ready(Ok(value)),
            Attempt::Failed(err) => Progress::Ready(Err(err)),
            Attempt::WouldBlock => Progress::Pending(
                reactor.enable_event(self.0, interest, waker),
            ),
        }
    }
}

/// Why an I/O object cannot be adapted.
pub enum AdaptError<E> {
    /// It could not be set to non-blocking mode.
    Blocking(E),
    /// The reactor refuses it.
    Refused(ReactorError),
}

/// An I/O object that is registered on the reactor.
pub struct Async<T> {
    /// The source that the I/O object is registered as.
    pub handle: GuardedHandle,
    /// The I/O object.
    pub inner: T,
}

/// What an operation on an I/O object comes to, given how the attempt at it went: an attempt that
/// would block leaves the waker with the reactor, and any other ends the operation.
pub open spec fn attempted<P, E, W>(
    before: Reactor<W>,
    source: Source,
    interest: Interest,
    attempt: Attempt<P, E>,
    waker: W,
    after: Reactor<W>,
    progress: Progress<Result<P, E>>,
) -> bool {
    match attempt {
        Attempt::Done(value) => {
            &&& progress == Progress::Ready(Ok::<P, E>(value))
            &&& after == before
        },
        Attempt::Failed(err) => {
            &&& progress == Progress::Ready(Err::<P, E>(err))
            &&& after == before
        },
        Attempt::WouldBlock => {
            &&& after.sources() == before.sources().insert(
                source,
                crate::reactor::enabled(before.sources()[source], interest, waker),
            )
            &&& after.timer_queue() == before.timer_queue()
            &&& progress == Progress::<Result<P, E>>::Pending(
                crate::reactor::wanted(after.sources()[source]),
            )
        },
    }
}

/// What adapting an I/O object does, given how setting it to non-blocking mode went.
pub open spec fn adapts<T, W, E>(
    before: Reactor<W>,
    inner: T,
    source: Source,
    nonblocking: Result<(), E>,
    res: Result<Async<T>, AdaptError<E>>,
    after: Reactor<W>,
) -> bool {
    match nonblocking {
        Err(err) => {
            &&& res == Err::<Async<T>, AdaptError<E>>(AdaptError::Blocking(err))
            &&& after.sources() == before.sources()
        },
        Ok(()) if before.sources().contains_key(source) => {
            &&& res == Err::<Async<T>, AdaptError<E>>(
                AdaptError::Refused(ReactorError::AlreadyRegistered),
            )
            &&& after.sources() == before.sources()
        },
        Ok(()) => {
            &&& res is Ok
            &&& res->Ok_0.source() == source
            &&& res->Ok_0.inner == inner
            &&& after.sources() == before.sources().insert(source, crate::reactor::idle())
        },
    }
}

impl<T> Async<T> {
    /// The source that the I/O object is registered as.
    pub open spec fn source(&self) -> Source {
        self.handle.0
    }

    /// Adapts an I/O object that is in non-blocking mode already: registers it on the reactor.
    pub fn without_nonblocking<W>(
        reactor: &mut Reactor<W>,
        inner: T,
        source: Source,
    ) -> (res: Result<Async<T>, ReactorError>)
        requires
            old(reactor).wf(),
        ensures
            final(reactor).wf(),
            final(reactor).timer_queue() == old(reactor).timer_queue(),
            match res {
                Ok(io) => {
                    &&& !old(reactor).sources().contains_key(source)
                    &&& io.source() == source
                    &&& io.inner == inner
                    &&& final(reactor).sources() == old(reactor).sources().insert(
                        source,
                        crate::reactor::idle(),
                    )
                },
                Err(err) => {
                    &&& old(reactor).sources().contains_key(source)
                    &&& err == ReactorError::AlreadyRegistered
                    &&& final(reactor).sources() == old(reactor).sources()
                },
            },
    {
        match reactor.register_event(source) {
            Ok(()) => Ok(Async { handle: GuardedHandle(source), inner }),
            Err(err) => Err(err),
        }
    }

    /// Adapts an I/O object, given how setting it to non-blocking mode went: registers it on the
    /// reactor if that succeeded.
    pub fn new<W, E>(
        reactor: &mut Reactor<W>,
        inner: T,
        source: Source,
        nonblocking: Result<(), E>,
    ) -> (res: Result<Async<T>, AdaptError<E>>)
        requires
            old(reactor).wf(),
        ensures
            final(reactor).wf(),
            final(reactor).timer_queue() == old(reactor).timer_queue(),
            adapts(*old(reactor), inner, source, nonblocking, res, *final(reactor)),
    {
        if let Err(err) = nonblocking {
            return Err(AdaptError::Blocking(err));
        }
        match Async::without_nonblocking(reactor, inner, source) {
            Ok(io) => Ok(io),
            Err(err) => Err(AdaptError::Refused(err)),
        }
    }

    /// The I/O object.
    pub fn get_ref(&self) -> (inner: &T)
        ensures
            *inner == self.inner,
    {
        &self.inner
    }

    /// Removes the I/O object from the reactor and hands it back.
    pub fn into_inner<W>(self, reactor: &mut Reactor<W>) -> (inner: T)
        requires
            old(reactor).wf(),
            old(reactor).sources().contains_key(self.source()),
        ensures
            inner == self.inner,
            final(reactor).wf(),
            crate::reactor::deregisters(
                old(reactor).sources(),
                self.source(),
                final(reactor).sources(),
            ),
            final(reactor).timer_queue() == old(reactor).timer_queue(),
    {
        self.handle.release(reactor);
        self.inner
    }

    /// Takes how an attempt at an operation went. One that would block is repeated once the source
    /// is ready.
    pub fn poll_event<P, E, W>(
        &self,
        reactor: &mut Reactor<W>,
        interest: Interest,
        attempt: Attempt<P, E>,
        waker: W,
    ) -> (progress: Progress<Result<P, E>>)
        requires
            old(reactor).wf(),
            old(reactor).sources().contains_key(self.source()),
        ensures
            final(reactor).wf(),
            attempted(
                *old(reactor),
                self.source(),
                interest,
                attempt,
                waker,
                *final(reactor),
                progress,
            ),
    {
        self.handle.poll_event(reactor, interest, attempt, waker)
    }

    /// Takes how an attempt at reading went. One that would block is repeated once there is
    /// something to read.
    pub fn poll_read_with<P, E, W>(
        &self,
        reactor: &mut Reactor<W>,
        attempt: Attempt<P, E>,
        waker: W,
    ) -> (progress: Progress<Result<P, E>>)
        requires
            old(reactor).wf(),
            old(reactor).sources().contains_key(self.source()),
        ensures
            final(reactor).wf(),
            attempted(
                *old(reactor),
                self.source(),
                Interest::Read,
                attempt,
                waker,
                *final(reactor),
                progress,
            ),
    {
        self.poll_event(reactor, Interest::Read, attempt, waker)
    }

    /// Takes how an attempt at writing went. One that would block is repeated once there is room to
    /// write.
    pub fn poll_write_with<P, E, W>(
        &self,
        reactor: &mut Reactor<W>,
        attempt: Attempt<P, E>,
        waker: W,
    ) -> (progress: Progress<Result<P, E>>)
        requires
            old(reactor).wf(),
            old(reactor).sources().contains_key(self.source()),
        ensures
            final(reactor).wf(),
            attempted(
                *old(reactor),
                self.source(),
                Interest::Write,
                attempt,
                waker,
                *final(reactor),
                progress,
            ),
    {
        self.poll_event(reactor, Interest::Write, attempt, waker)
    }

    /// Starts to wait until an event comes.
    pub fn wait_for_event_ready(&self, interest: Interest) -> (wait: EventWait)
        ensures
            wait == (EventWait { source: self.source(), interest, first_call: true }),
    {
        EventWait { source: self.handle.0, interest, first_call: true }
    }

    /// Starts to wait until there is room to write.
    pub fn writable(&self) -> (wait: EventWait)
        ensures
            wait == (EventWait {
                source: self.source(),
                interest: Interest::Write,
                first_call: true,
            }),
    {
        self.wait_for_event_ready(Interest::Write)
    }

    /// Starts to wait until there is something to read.
    pub fn readable(&self) -> (wait: EventWait)
        ensures
            wait == (EventWait {
                source: self.source(),
                interest: Interest::Read,
                first_call: true,
            }),
    {
        self.wait_for_event_ready(Interest::Read)
    }
}

/// A wait until an event comes.
pub struct EventWait {
    /// The source.
    pub source: Source,
    /// The kind of event.
    pub interest: Interest,
    /// Whether the wait was never polled.
    pub first_call: bool,
}

/// What polling a wait does. It is over if the event came since the last poll, and is never over at
/// the first. Until then it leaves the waker with the reactor.
pub open spec fn awaits<W>(
    before: EventWait,
    reactor: Reactor<W>,
    waker: W,
    after: EventWait,
    reactor2: Reactor<W>,
    progress: Progress<()>,
) -> bool {
    let data = reactor.sources()[before.source];
    &&& after == EventWait { first_call: false, ..before }
    &&& if !before.first_call && !crate::reactor::direction(data, before.interest).enabled {
        &&& progress == Progress::Ready(())
        &&& reactor2 == reactor
    } else {
        &&& reactor2.sources() == reactor.sources().insert(
            before.source,
            crate::reactor::enabled(data, before.interest, waker),
        )
        &&& reactor2.timer_queue() == reactor.timer_queue()
        &&& progress == Progress::<()>::Pending(
            crate::reactor::wanted(reactor2.sources()[before.source]),
        )
    }
}

impl EventWait {
    /// Polls the wait.
    pub fn poll<W>(&mut self, reactor: &mut Reactor<W>, waker: W) -> (progress: Progress<()>)
        requires
            old(reactor).wf(),
            old(reactor).sources().contains_key(old(self).source),
        ensures
            final(reactor).wf(),
            awaits(*old(self), *old(reactor), waker, *final(self), *final(reactor), progress),
    {
        if self.first_call {
            self.first_call = false;
        } else if reactor.is_event_ready(self.source, self.interest) {
            return Progress::Ready(());
        }
        Progress::Pending(reactor.enable_event(self.source, self.interest, waker))
    }
}

/// How starting a connection can fail.
pub enum ConnectError<E> {
    /// The connection is being made.
    InProgress,
    /// The connection cannot be made without blocking.
    WouldBlock,
    /// The connection cannot be made.
    Other(E),
}

/// Whether a connection was started, given how starting it went.
pub open spec fn connects<E>(outcome: Result<(), ConnectError<E>>, res: Result<(), E>) -> bool {
    res == match outcome {
        Err(ConnectError::Other(err)) => Err::<(), E>(err),
        _ => Ok::<(), E>(()),
    }
}

/// Whether a notifier was cleared, given how reading from it went.
pub open spec fn clears<E>(outcome: Attempt<usize, E>, res: Result<(), E>) -> bool {
    res == match outcome {
        Attempt::Failed(err) => Err::<(), E>(err),
        _ => Ok::<(), E>(()),
    }
}

/// Whether a connection was started: it is if it was made at once or is being made.
pub fn connect<E>(outcome: Result<(), ConnectError<E>>) -> (res: Result<(), E>)
    ensures
        connects(outcome, res),
{
    match outcome {
        Ok(()) => Ok(()),
        Err(ConnectError::InProgress) => Ok(()),
        Err(ConnectError::WouldBlock) => Ok(()),
        Err(ConnectError::Other(err)) => Err(err),
    }
}

/// Whether a notifier was cleared: it is if there was something to read from it, and also if there
/// was not.
pub fn clear_notifier<E>(outcome: Attempt<usize, E>) -> (res: Result<(), E>)
    ensures
        clears(outcome, res),
{
    match outcome {
        Attempt::Done(_) => Ok(()),
        Attempt::WouldBlock => Ok(()),
        Attempt::Failed(err) => Err(err),
    }
}

/// An operation is pending exactly if its attempt would block, for reading and writing alike. An
/// attempt that was done gives its value, and one that failed gives its error, at once and without
/// anyone being left waiting. An attempt that would block leaves the waker to wait for that kind of
/// event of that source, and nothing else changes.
pub proof fn law_pending_exactly_if_it_would_block<P, E, W>(
    before: Reactor<W>,
    source: Source,
    interest: Interest,
    attempt: Attempt<P, E>,
    waker: W,
    after: Reactor<W>,
    progress: Progress<Result<P, E>>,
)
    requires
        before.sources().contains_key(source),
        attempted(before, source, interest, attempt, waker, after, progress),
    ensures
        progress is Pending <==> attempt is WouldBlock,
        attempt matches Attempt::Done(value) ==> progress == Progress::Ready(Ok::<P, E>(value)),
        attempt matches Attempt::Failed(err) ==> progress == Progress::Ready(Err::<P, E>(err)),
        attempt !is WouldBlock ==> after == before,
        after.timer_queue() == before.timer_queue(),
        attempt is WouldBlock ==> {
            let data = before.sources()[source];
            let data2 = after.sources()[source];
            &&& after.sources().contains_key(source)
            &&& match interest {
                Interest::Read => {
                    &&& data2.read.enabled
                    &&& data2.read.waker == Some(waker)
                    &&& data2.write == data.write
                    &&& progress->Pending_0.read
                    &&& progress->Pending_0.write == data.write.enabled
                },
                Interest::Write => {
                    &&& data2.write.enabled
                    &&& data2.write.waker == Some(waker)
                    &&& data2.read == data.read
                    &&& progress->Pending_0.write
                    &&& progress->Pending_0.read == data.read.enabled
                },
            }
        },
        forall|other: Source|
            other != source ==> {
                &&& #[trigger] after.sources().contains_key(other)
                    <==> before.sources().contains_key(other)
                &&& after.sources()[other] == before.sources()[other]
            },
{
}

/// What one poll of a wait does. It is over exactly if it was polled before and nobody waits for
/// the event any more, and then changes nothing. Otherwise it leaves its waker to wait for that
/// kind of event of that source, and nothing else changes.
pub proof fn law_wait_is_never_over_at_first<W>(
    before: EventWait,
    reactor: Reactor<W>,
    waker: W,
    after: EventWait,
    reactor2: Reactor<W>,
    progress: Progress<()>,
)
    requires
        reactor.sources().contains_key(before.source),
        awaits(before, reactor, waker, after, reactor2, progress),
    ensures
        ({
            let data = reactor.sources()[before.source];
            let data2 = reactor2.sources()[before.source];
            &&& before.first_call ==> progress is Pending
            &&& !after.first_call
            &&& after.source == before.source
            &&& after.interest == before.interest
            &&& progress is Ready ==> reactor2 == reactor
            &&& match before.interest {
                Interest::Read => {
                    &&& !before.first_call ==> (progress is Ready <==> !data.read.enabled)
                    &&& progress is Pending ==> {
                        &&& data2.read.enabled
                        &&& data2.read.waker == Some(waker)
                        &&& data2.write == data.write
                        &&& progress->Pending_0.read
                        &&& progress->Pending_0.write == data.write.enabled
                    }
                },
                Interest::Write => {
                    &&& !before.first_call ==> (progress is Ready <==> !data.write.enabled)
                    &&& progress is Pending ==> {
                        &&& data2.write.enabled
                        &&& data2.write.waker == Some(waker)
                        &&& data2.read == data.read
                        &&& progress->Pending_0.write
                        &&& progress->Pending_0.read == data.read.enabled
                    }
                },
            }
            &&& reactor2.timer_queue() == reactor.timer_queue()
            &&& forall|other: Source|
                other != before.source ==> {
                    &&& #[trigger] reactor2.sources().contains_key(other)
                        <==> reactor.sources().contains_key(other)
                    &&& reactor2.sources()[other] == reactor.sources()[other]
                }
        }),
{
}

/// Adapting an I/O object registers its source, which is refused exactly if it is registered
/// already and not tried if the object could not be set to non-blocking mode. Giving it up again
/// leaves the sources as they were.
pub proof fn law_giving_up_undoes_adapting<T, W, E>(
    before: Reactor<W>,
    inner: T,
    source: Source,
    nonblocking: Result<(), E>,
    res: Result<Async<T>, AdaptError<E>>,
    after: Reactor<W>,
    released: Reactor<W>,
)
    requires
        adapts(before, inner, source, nonblocking, res, after),
        crate::reactor::deregisters(after.sources(), source, released.sources()),
    ensures
        res is Ok <==> nonblocking is Ok && !before.sources().contains_key(source),
        nonblocking matches Err(err) ==> res == Err::<Async<T>, AdaptError<E>>(
            AdaptError::Blocking(err),
        ),
        res is Err ==> after.sources() == before.sources(),
        res matches Ok(io) ==> {
            &&& io.inner == inner
            &&& io.handle.0 == source
            &&& after.sources().contains_key(source)
            &&& !after.sources()[source].read.enabled
            &&& !after.sources()[source].write.enabled
            &&& released.sources() == before.sources()
        },
{
    if res is Ok {
        assert(released.sources() =~= before.sources());
    }
}

/// A connection is started unless it cannot be made: one that is being made, or cannot be made
/// without blocking, is. A notifier is cleared unless reading from it failed: with nothing to read
/// it is.
pub proof fn law_only_real_errors_count<E>(
    outcome: Result<(), ConnectError<E>>,
    res: Result<(), E>,
    read: Attempt<usize, E>,
    cleared: Result<(), E>,
)
    requires
        connects(outcome, res),
        clears(read, cleared),
    ensures
        res is Err <==> (outcome matches Err(err) && err is Other),
        outcome matches Err(ConnectError::Other(err)) ==> res == Err::<(), E>(err),
        cleared is Err <==> read is Failed,
        read matches Attempt::Failed(err) ==> cleared == Err::<(), E>(err),
{
}

/// A wait that left its waker is over at the next poll exactly if the event came in between.
pub proof fn law_wait_ends_with_event<W>(
    before: EventWait,
    reactor: Reactor<W>,
    waker: W,
    waiting: EventWait,
    reactor2: Reactor<W>,
    progress: Progress<()>,
    events: Seq<(Source, Filter)>,
    reactor3: Reactor<W>,
    waker2: W,
    after: EventWait,
    reactor4: Reactor<W>,
    progress2: Progress<()>,
)
    requires
        reactor.wf(),
        reactor.sources().contains_key(before.source),
        awaits(before, reactor, waker, waiting, reactor2, progress),
        progress is Pending,
        crate::reactor::of_registered(reactor2.sources(), events),
        reactor3.sources() == crate::reactor::after_events(reactor2.sources(), events),
        awaits(waiting, reactor3, waker2, after, reactor4, progress2),
    ensures
        progress2 is Ready <==> crate::reactor::among(events, before.source, before.interest),
{
    crate::reactor::law_enabled_is_not_ready(
        reactor.sources(),
        before.source,
        before.interest,
        waker,
    );
    crate::reactor::law_events_end_the_wait(
        reactor2.sources(),
        events,
        before.source,
        before.interest,
    );
}

/// An operation that would block wakes its task as soon as the event comes that it waits for.
pub proof fn law_blocked_operation_is_woken<P, E, W>(
    reactor: Reactor<W>,
    source: Source,
    interest: Interest,
    waker: W,
    reactor2: Reactor<W>,
    progress: Progress<Result<P, E>>,
    events: Seq<(Source, Filter)>,
)
    requires
        reactor.wf(),
        reactor.sources().contains_key(source),
        attempted(
            reactor,
            source,
            interest,
            Attempt::<P, E>::WouldBlock,
            waker,
            reactor2,
            progress,
        ),
        crate::reactor::of_registered(reactor2.sources(), events),
        crate::reactor::among(events, source, interest),
    ensures
        crate::reactor::awoken_by(reactor2.sources(), events).contains((source, interest)),
        crate::reactor::direction(
            crate::reactor::after_events(reactor2.sources(), events)[source],
            interest,
        ).waker == Some(waker),
{
    crate::reactor::law_enabled_is_not_ready(reactor.sources(), source, interest, waker);
    crate::reactor::law_event_wakes_who_waits(reactor2.sources(), events, source, interest);
}

} // verus!
