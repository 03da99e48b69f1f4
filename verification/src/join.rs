//! Waiting for several futures at once.
//!
//! One poll of a joined future is a pass over the futures in order. A future is polled only if it
//! was awoken and is not done. The pass alternates between [`JoinFuture::next_poll`], which says
//! which future is to be polled, and `settle`, which takes what polling it gave; `finish` ends it.

use vstd::prelude::*;

use crate::waker::FlagWaker;
use crate::Poll;

verus! {

/// A future on its way to its output.
pub enum Inflight<P, T> {
    /// The future has not completed.
    Fut(P),
    /// The future has completed with this output.
    Done(T),
}

impl<P, T> Inflight<P, T> {
    /// The output of a future that has completed.
    pub fn unwrap_done(self) -> (output: T)
        requires
            self is Done,
        ensures
            self == Inflight::<P, T>::Done(output),
    {
        match self {
            Inflight::Fut(_) => vstd::pervasive::unreached(),
            Inflight::Done(output) => output,
        }
    }
}

/// Whether the future at `i` is to be polled when a pass comes to it: it is not done, and it was
/// awoken.
pub open spec fn due<P, T>(
    inflight: Seq<Inflight<P, T>>,
    flags: Seq<FlagWaker>,
    i: int,
) -> bool {
    inflight[i] is Fut && flags[i].awoken
}

/// Whether every future has completed.
pub open spec fn all_done<P, T>(inflight: Seq<Inflight<P, T>>) -> bool {
    forall|i: int| 0 <= i < inflight.len() ==> (#[trigger] inflight[i]) is Done
}

/// The outputs of futures that have all completed, in the order of the futures.
pub open spec fn outputs<P, T>(inflight: Seq<Inflight<P, T>>) -> Seq<T> {
    Seq::new(inflight.len(), |i: int| inflight[i]->Done_0)
}

/// What is there once polling the future at `i` gave `polled`.
pub open spec fn joined<P, T>(
    inflight: Seq<Inflight<P, T>>,
    i: int,
    polled: Poll<T>,
) -> Seq<Inflight<P, T>> {
    match polled {
        Poll::Ready(output) => inflight.update(i, Inflight::Done(output)),
        Poll::Pending => inflight,
    }
}

/// What a search for a future to poll does that starts at `from`: it finds the first that is to be
/// polled, if there is one, and clears its flag.
pub open spec fn found<P, T>(
    inflight: Seq<Inflight<P, T>>,
    flags: Seq<FlagWaker>,
    from: int,
    next: Option<usize>,
    flags2: Seq<FlagWaker>,
) -> bool {
    match next {
        Some(i) => {
            &&& from <= i < inflight.len()
            &&& due(inflight, flags, i as int)
            &&& forall|j: int| from <= j < i ==> !due(inflight, flags, j)
            &&& flags2 == flags.update(i as int, FlagWaker { awoken: false })
        },
        None => {
            &&& forall|j: int| from <= j < inflight.len() ==> !due(inflight, flags, j)
            &&& flags2 == flags
        },
    }
}

/// What a pass ends with: the outputs in the order of the futures if all have completed, and
/// nothing yet if not.
pub open spec fn finishes<P, T>(inflight: Seq<Inflight<P, T>>, polled: Poll<Vec<T>>) -> bool {
    match polled {
        Poll::Ready(values) => all_done(inflight) && values@ == outputs(inflight),
        Poll::Pending => !all_done(inflight),
    }
}

/// Several futures whose outputs are handed out together once all have completed.
pub struct JoinFuture<P, T> {
    /// The futures, until the outputs have been handed out.
    pub inflight: Option<Vec<Inflight<P, T>>>,
}

impl<P, T> JoinFuture<P, T> {
    /// The futures and the outputs that are there.
    pub open spec fn view(&self) -> Seq<Inflight<P, T>> {
        self.inflight->Some_0@
    }

    /// Whether the outputs have been handed out.
    pub open spec fn over(&self) -> bool {
        self.inflight is None
    }

    /// Joins the futures.
    pub fn new(futures: Vec<P>) -> (join: JoinFuture<P, T>)
        ensures
            !join.over(),
            join@ == Seq::new(futures@.len(), |i: int| Inflight::<P, T>::Fut(futures@[i])),
    {
        let ghost given = futures@;
        let mut inflight: Vec<Inflight<P, T>> = Vec::new();
        for future in it: futures
            invariant
                it.seq() == given,
                inflight@ == Seq::new(
                    it.index() as nat,
                    |i: int| Inflight::<P, T>::Fut(given[i]),
                ),
        {
            inflight.push(Inflight::Fut(future));
        }
        JoinFuture { inflight: Some(inflight) }
    }

    /// The number of futures.
    pub fn len(&self) -> (n: usize)
        requires
            !self.over(),
        ensures
            n == self@.len(),
    {
        self.inflight.as_ref().unwrap().len()
    }

    /// The next future, from `from` on, that a pass has to poll. Its flag is cleared.
    pub fn next_poll(&self, from: usize, flags: &mut Vec<FlagWaker>) -> (next: Option<usize>)
        requires
            !self.over(),
            old(flags).len() == self@.len(),
        ensures
            found(self@, old(flags)@, from as int, next, final(flags)@),
    {
        let inflight = self.inflight.as_ref().unwrap();
        let mut i = from;
        while i < inflight.len()
            invariant
                inflight@ == self@,
                flags@ == old(flags)@,
                flags.len() == inflight.len(),
                from <= i,
                forall|j: int| from <= j < i && j < self@.len() ==> !due(self@, old(flags)@, j),
            decreases inflight.len() - i,
        {
            if let Inflight::Fut(_) = &inflight[i] {
                let mut flag = flags[i];
                let awoken = flag.check_awoken();
                flags.set(i, flag);
                if awoken {
                    return Some(i);
                }
                assert(flags@ =~= old(flags)@);
            }
            i = i + 1;
        }
        None
    }

    /// Gives access to the future at `i`, for polling it.
    pub fn future_mut(&mut self, i: usize) -> (future: &mut P)
        requires
            !old(self).over(),
            i < old(self)@.len(),
            old(self)@[i as int] is Fut,
        ensures
            Inflight::<P, T>::Fut(*future) == old(self)@[i as int],
            !final(self).over(),
            final(self)@ == old(self)@.update(i as int, Inflight::Fut(*final(future))),
    {
        match &mut self.inflight.as_mut().unwrap()[i] {
            Inflight::Fut(future) => future,
            Inflight::Done(_) => vstd::pervasive::unreached(),
        }
    }

    /// Takes what polling the future at `i` gave.
    pub fn settle(&mut self, i: usize, polled: Poll<T>)
        requires
            !old(self).over(),
            i < old(self)@.len(),
            old(self)@[i as int] is Fut,
        ensures
            !final(self).over(),
            final(self)@ == joined(old(self)@, i as int, polled),
    {
        if let Poll::Ready(output) = polled {
            self.inflight.as_mut().unwrap().set(i, Inflight::Done(output));
        }
    }

    /// Ends a pass: once every future has completed, hands out the outputs.
    pub fn finish(&mut self) -> (polled: Poll<Vec<T>>)
        requires
            !old(self).over(),
        ensures
            finishes(old(self)@, polled),
            polled is Ready ==> final(self).over(),
            polled is Pending ==> *final(self) == *old(self),
    {
        let inflight = self.inflight.as_ref().unwrap();
        let n = inflight.len();
        let mut k: usize = 0;
        while k < n
            invariant
                k <= n == inflight.len(),
                inflight@ == old(self)@,
                *self == *old(self),
                forall|i: int| 0 <= i < k ==> old(self)@[i] is Done,
            decreases n - k,
        {
            if let Inflight::Fut(_) = &inflight[k] {
                return Poll::Pending;
            }
            k = k + 1;
        }
        let ghost done = old(self)@;
        let mut values: Vec<T> = Vec::new();
        for inflight in it: self.inflight.take().unwrap()
            invariant
                it.seq() == done,
                all_done(done),
                values@ == Seq::new(it.index() as nat, |i: int| done[i]->Done_0),
        {
            values.push(inflight.unwrap_done());
        }
        Poll::Ready(values)
    }
}

/// The error of a result that is one.
pub fn unwrap_err<T, E>(res: Result<T, E>) -> (err: E)
    requires
        res is Err,
    ensures
        res == Err::<T, E>(err),
{
    match res {
        Ok(_) => vstd::pervasive::unreached(),
        Err(err) => err,
    }
}

/// The values of outputs that are all `Ok`, in the order of the futures.
pub open spec fn ok_outputs<P, T, E>(inflight: Seq<Inflight<P, Result<T, E>>>) -> Seq<T> {
    Seq::new(inflight.len(), |i: int| inflight[i]->Done_0->Ok_0)
}

/// What a poll of the future at `i` comes to: an error is what the wait ends with, and any other
/// outcome is taken in.
pub open spec fn try_settles<P, T, E>(
    inflight: Seq<Inflight<P, Result<T, E>>>,
    i: int,
    polled: Poll<Result<T, E>>,
    inflight2: Seq<Inflight<P, Result<T, E>>>,
    stop: Option<E>,
) -> bool {
    match polled {
        Poll::Ready(Err(err)) => stop == Some(err) && inflight2 == inflight,
        _ => stop is None && inflight2 == joined(inflight, i, polled),
    }
}

/// What a pass without an error ends with: the values in the order of the futures if all have
/// completed, and nothing yet if not.
pub open spec fn try_finishes<P, T, E>(
    inflight: Seq<Inflight<P, Result<T, E>>>,
    polled: Poll<Vec<T>>,
) -> bool {
    match polled {
        Poll::Ready(values) => all_done(inflight) && values@ == ok_outputs(inflight),
        Poll::Pending => !all_done(inflight),
    }
}

/// Several fallible futures whose values are handed out together once all have completed. The
/// first error ends the wait.
pub struct TryJoinFuture<P, T, E>(pub JoinFuture<P, Result<T, E>>);

impl<P, T, E> TryJoinFuture<P, T, E> {
    /// The futures and the outputs that are there.
    pub open spec fn view(&self) -> Seq<Inflight<P, Result<T, E>>> {
        self.0@
    }

    /// No error is kept: what has completed has a value.
    pub open spec fn wf(&self) -> bool {
        !self.0.over() ==> forall|i: int|
            0 <= i < self@.len() && (#[trigger] self@[i]) is Done ==> self@[i]->Done_0 is Ok
    }

    /// Joins the futures.
    pub fn new(futures: Vec<P>) -> (join: TryJoinFuture<P, T, E>)
        ensures
            join.wf(),
            !join.0.over(),
            join@ == Seq::new(
                futures@.len(),
                |i: int| Inflight::<P, Result<T, E>>::Fut(futures@[i]),
            ),
    {
        TryJoinFuture(JoinFuture::new(futures))
    }

    /// Takes what polling the future at `i` gave. An error is handed back, and is what the joined
    /// future completes with.
    pub fn settle(&mut self, i: usize, polled: Poll<Result<T, E>>) -> (stop: Option<E>)
        requires
            old(self).wf(),
            !old(self).0.over(),
            i < old(self)@.len(),
            old(self)@[i as int] is Fut,
        ensures
            final(self).wf(),
            !final(self).0.over(),
            try_settles(old(self)@, i as int, polled, final(self)@, stop),
    {
        if let Poll::Ready(res) = polled {
            if res.is_err() {
                return Some(unwrap_err(res));
            }
            self.0.settle(i, Poll::Ready(res));
        }
        None
    }

    /// Ends a pass: once every future has completed, hands out the values.
    pub fn finish(&mut self) -> (polled: Poll<Vec<T>>)
        requires
            old(self).wf(),
            !old(self).0.over(),
        ensures
            final(self).wf(),
            try_finishes(old(self)@, polled),
            polled is Ready ==> final(self).0.over(),
            polled is Pending ==> *final(self) == *old(self),
    {
        let ghost done = self@;
        match self.0.finish() {
            Poll::Pending => Poll::Pending,
            Poll::Ready(results) => {
                let ghost given = results@;
                let mut values: Vec<T> = Vec::new();
                for result in it: results
                    invariant
                        it.seq() == given,
                        given == outputs(done),
                        all_done(done),
                        forall|i: int| 0 <= i < done.len() ==> (#[trigger] done[i])->Done_0 is Ok,
                        values@ == Seq::new(it.index() as nat, |i: int| done[i]->Done_0->Ok_0),
                {
                    match result {
                        Ok(value) => values.push(value),
                        Err(_) => vstd::pervasive::unreached(),
                    }
                }
                Poll::Ready(values)
            },
        }
    }
}

/// Whether nothing has completed or come back from one state to the other: polling may change a
/// future, and nothing else.
pub open spec fn same_progress<P, T>(a: Seq<Inflight<P, T>>, b: Seq<Inflight<P, T>>) -> bool {
    &&& a.len() == b.len()
    &&& forall|i: int|
        0 <= i < a.len() ==> {
            &&& #[trigger] a[i] is Done ==> b[i] == a[i]
            &&& a[i] is Fut ==> b[i] is Fut
        }
}

/// One poll of a joined future, with the search that led to it.
pub ghost struct JoinRecord<P, T> {
    /// Where the search started.
    pub from: int,
    /// Which futures were awoken since the last search.
    pub woken: Set<int>,
    /// The flags and the futures at the search, and the flags after it.
    pub flags: Seq<FlagWaker>,
    pub searched: Seq<Inflight<P, T>>,
    pub flags2: Seq<FlagWaker>,
    /// The future that was polled, and what it gave.
    pub at: usize,
    pub polled: Poll<T>,
    /// The futures once it was polled, and once what it gave was taken in.
    pub before: Seq<Inflight<P, T>>,
    pub after: Seq<Inflight<P, T>>,
}

impl<P, T> JoinRecord<P, T> {
    /// The future that was polled is the one that the search found.
    pub open spec fn finds(self) -> bool {
        &&& 0 <= self.from
        &&& found(self.searched, self.flags, self.from, Some(self.at), self.flags2)
        &&& same_progress(self.searched, self.before)
    }

    /// What the future gave was taken in.
    pub open spec fn takes_in(self) -> bool {
        self.after == joined(self.before, self.at as int, self.polled)
    }

    /// The search starts with what the last poll left, and with the flags of those that were awoken
    /// since.
    pub open spec fn follows(self, last: JoinRecord<P, T>) -> bool {
        &&& same_progress(last.after, self.searched)
        &&& forall|i: int|
            0 <= i < self.searched.len() ==> (#[trigger] self.flags[i].awoken <==> {
                ||| last.flags2[i].awoken
                ||| self.woken.contains(i)
            })
    }
}

/// A run of polls of joined futures over any number of calls, none of which had completed at
/// `start`.
pub open spec fn join_history<P, T>(
    start: Seq<Inflight<P, T>>,
    polls: Seq<JoinRecord<P, T>>,
) -> bool {
    &&& forall|i: int| 0 <= i < start.len() ==> start[i] is Fut
    &&& forall|k: int| 0 <= k < polls.len() ==> (#[trigger] polls[k]).finds()
    &&& polls.len() > 0 ==> same_progress(start, polls[0].searched)
    &&& forall|i: int, j: int|
        #![trigger polls[i], polls[j]]
        0 <= i < polls.len() && j == i + 1 && j < polls.len() ==> polls[j].follows(polls[i])
}

/// The polls of one call: the first search starts with the first future, and each other one behind
/// the future that was last polled.
pub open spec fn one_call<P, T>(polls: Seq<JoinRecord<P, T>>) -> bool {
    &&& polls.len() > 0 ==> polls[0].from == 0
    &&& forall|i: int, j: int|
        #![trigger polls[i], polls[j]]
        0 <= i < polls.len() && j == i + 1 && j < polls.len() ==> polls[j].from == polls[i].at + 1
}

/// What the futures have come to after a run of polls.
pub open spec fn reached<P, T>(
    start: Seq<Inflight<P, T>>,
    polls: Seq<JoinRecord<P, T>>,
) -> Seq<Inflight<P, T>> {
    if polls.len() == 0 {
        start
    } else {
        polls.last().after
    }
}

/// Whether a poll of the run gave this output of the future at `i`.
pub open spec fn gave<P, T>(polls: Seq<JoinRecord<P, T>>, i: int, output: T) -> bool {
    exists|k: int|
        0 <= k < polls.len() && (#[trigger] polls[k]).at == i && polls[k].polled == Poll::Ready(
            output,
        )
}

/// Whether the future at `i` completed in the run.
pub open spec fn completed<P, T>(polls: Seq<JoinRecord<P, T>>, i: int) -> bool {
    exists|k: int|
        0 <= k < polls.len() && (#[trigger] polls[k]).at == i && polls[k].polled is Ready
}

/// Joined futures hand out their outputs at the end of a pass exactly if each of them has completed
/// by then, in whatever order and over however many calls. Each place holds what its own future
/// completed with.
pub proof fn law_each_output_in_its_place<P, T>(
    start: Seq<Inflight<P, T>>,
    polls: Seq<JoinRecord<P, T>>,
    last: Seq<Inflight<P, T>>,
    result: Poll<Vec<T>>,
)
    requires
        join_history(start, polls),
        forall|k: int| 0 <= k < polls.len() ==> (#[trigger] polls[k]).takes_in(),
        same_progress(reached(start, polls), last),
        finishes(last, result),
    ensures
        result is Ready <==> forall|i: int|
            0 <= i < start.len() ==> #[trigger] completed(polls, i),
        result matches Poll::Ready(values) ==> {
            &&& values@.len() == start.len()
            &&& forall|i: int| 0 <= i < start.len() ==> gave(polls, i, #[trigger] values@[i])
        },
{
    lemma_reached(start, polls);
    let now = reached(start, polls);
    if result is Ready {
        assert forall|i: int| 0 <= i < start.len() implies #[trigger] completed(polls, i) && gave(
            polls,
            i,
            last[i]->Done_0,
        ) by {
            assert(last[i] is Done);
            assert(now[i] is Done);
            let output = now[i]->Done_0;
            assert(gave(polls, i, output));
            let k = choose|k: int|
                0 <= k < polls.len() && (#[trigger] polls[k]).at == i && polls[k].polled
                    == Poll::Ready(output);
            assert(polls[k].polled is Ready);
        }
    } else {
        let i = choose|i: int| 0 <= i < last.len() && !((#[trigger] last[i]) is Done);
        assert(now[i] is Fut);
        if completed(polls, i) {
            let k = choose|k: int|
                0 <= k < polls.len() && (#[trigger] polls[k]).at == i && polls[k].polled is Ready;
            assert(gave(polls, i, polls[k].polled->Ready_0));
            assert(false);
        }
    }
}

/// A call polls each future at most once, in order, and only one that has not completed and was
/// awoken.
pub proof fn law_polled_once_per_call<P, T>(
    start: Seq<Inflight<P, T>>,
    polls: Seq<JoinRecord<P, T>>,
)
    requires
        join_history(start, polls),
        one_call(polls),
    ensures
        forall|i: int, j: int|
            0 <= i < j < polls.len() ==> (#[trigger] polls[i]).at < (#[trigger] polls[j]).at,
        forall|k: int|
            0 <= k < polls.len() ==> {
                &&& (#[trigger] polls[k]).searched[polls[k].at as int] is Fut
                &&& polls[k].flags[polls[k].at as int].awoken
            },
{
    assert forall|k: int| 0 <= k < polls.len() implies {
        &&& (#[trigger] polls[k]).searched[polls[k].at as int] is Fut
        &&& polls[k].flags[polls[k].at as int].awoken
    } by {
        assert(polls[k].finds());
    }
    assert forall|i: int, j: int| 0 <= i < j < polls.len() implies (#[trigger] polls[i]).at < (
    #[trigger] polls[j]).at by {
        lemma_polled_in_order(polls, i, j);
    }
}

/// A future that was polled is polled again only if it was awoken in between.
pub proof fn law_polled_again_only_if_awoken<P, T>(
    start: Seq<Inflight<P, T>>,
    polls: Seq<JoinRecord<P, T>>,
    k: int,
    j: int,
)
    requires
        join_history(start, polls),
        forall|m: int|
            0 <= m < polls.len() ==> (#[trigger] polls[m]).flags.len() == start.len()
                && polls[m].searched.len() == start.len(),
        0 <= k < j < polls.len(),
        polls[k].at == polls[j].at,
    ensures
        exists|m: int| k < m <= j && (#[trigger] polls[m]).woken.contains(polls[k].at as int),
{
    let at = polls[k].at as int;
    assert(polls[k].finds());
    assert(polls[j].finds());
    if !(exists|m: int| k < m <= j && (#[trigger] polls[m]).woken.contains(at)) {
        lemma_stays_asleep(start, polls, k, j, at);
        assert(polls[j].flags[at].awoken);
    }
}

/// The first poll that gives an error ends the wait with that error: until then no poll gives one.
/// In its call, which are the polls from `call` on, the future is the first in order that gives
/// one, and none behind it is polled.
pub proof fn law_first_error_ends_the_wait<P, T, E>(
    start: Seq<Inflight<P, Result<T, E>>>,
    polls: Seq<JoinRecord<P, Result<T, E>>>,
    stops: Seq<Option<E>>,
    call: int,
)
    requires
        join_history(start, polls),
        stops.len() == polls.len(),
        forall|k: int|
            0 <= k < polls.len() ==> try_settles(
                (#[trigger] polls[k]).before,
                polls[k].at as int,
                polls[k].polled,
                polls[k].after,
                stops[k],
            ),
        // Whoever is handed an error polls no more.
        forall|k: int| 0 <= k < polls.len() - 1 ==> #[trigger] stops[k] is None,
        0 <= call < polls.len(),
        one_call(polls.skip(call)),
    ensures
        forall|k: int|
            0 <= k < polls.len() ==> match (#[trigger] polls[k]).polled {
                Poll::Ready(Err(err)) => stops[k] == Some(err),
                _ => stops[k] is None,
            },
        forall|k: int|
            0 <= k < polls.len() - 1 ==> !((#[trigger] polls[k]).polled matches Poll::Ready(
                Err(_),
            )),
        forall|k: int|
            call <= k < polls.len() - 1 ==> (#[trigger] polls[k]).at < polls.last().at,
{
    assert forall|k: int| 0 <= k < polls.len() - 1 implies !((
    #[trigger] polls[k]).polled matches Poll::Ready(Err(_))) by {
        assert(stops[k] is None);
    }
    let own = polls.skip(call);
    assert forall|k: int| 0 <= k < own.len() implies (#[trigger] own[k]).finds() by {
        assert(polls[call + k].finds());
    }
    assert forall|k: int| call <= k < polls.len() - 1 implies (#[trigger] polls[k]).at
        < polls.last().at by {
        lemma_polled_in_order(own, k - call, own.len() - 1);
    }
}

/// Without an error, joined fallible futures hand out their values at the end of a pass exactly if
/// each of them has completed by then, in whatever order and over however many calls. Each place
/// holds the value that its own future completed with.
pub proof fn law_each_value_in_its_place<P, T, E>(
    start: Seq<Inflight<P, Result<T, E>>>,
    polls: Seq<JoinRecord<P, Result<T, E>>>,
    last: Seq<Inflight<P, Result<T, E>>>,
    result: Poll<Vec<T>>,
)
    requires
        join_history(start, polls),
        forall|k: int|
            0 <= k < polls.len() ==> try_settles(
                (#[trigger] polls[k]).before,
                polls[k].at as int,
                polls[k].polled,
                polls[k].after,
                None,
            ),
        same_progress(reached(start, polls), last),
        try_finishes(last, result),
    ensures
        result is Ready <==> forall|i: int|
            0 <= i < start.len() ==> #[trigger] completed(polls, i),
        result matches Poll::Ready(values) ==> {
            &&& values@.len() == start.len()
            &&& forall|i: int|
                0 <= i < start.len() ==> gave(polls, i, Ok::<T, E>(#[trigger] values@[i]))
        },
{
    assert forall|k: int| 0 <= k < polls.len() implies (#[trigger] polls[k]).takes_in() by {
        assert(try_settles(
            polls[k].before,
            polls[k].at as int,
            polls[k].polled,
            polls[k].after,
            None,
        ));
    }
    lemma_reached(start, polls);
    let now = reached(start, polls);
    if result is Ready {
        assert forall|i: int| 0 <= i < start.len() implies #[trigger] completed(polls, i) && gave(
            polls,
            i,
            Ok::<T, E>(last[i]->Done_0->Ok_0),
        ) by {
            assert(last[i] is Done);
            assert(now[i] is Done);
            let output = now[i]->Done_0;
            assert(gave(polls, i, output));
            let k = choose|k: int|
                0 <= k < polls.len() && (#[trigger] polls[k]).at == i && polls[k].polled
                    == Poll::Ready(output);
            assert(polls[k].polled is Ready);
            assert(output is Ok);
        }
        let values = result->Ready_0@;
        assert forall|i: int| 0 <= i < start.len() implies gave(
            polls,
            i,
            Ok::<T, E>(#[trigger] values[i]),
        ) by {
            assert(completed(polls, i));
        }
    } else {
        let i = choose|i: int| 0 <= i < last.len() && !((#[trigger] last[i]) is Done);
        assert(now[i] is Fut);
        if completed(polls, i) {
            let k = choose|k: int|
                0 <= k < polls.len() && (#[trigger] polls[k]).at == i && polls[k].polled is Ready;
            assert(gave(polls, i, polls[k].polled->Ready_0));
            assert(false);
        }
    }
}

/// A future that has completed is never polled again, and its output stays as it is whatever
/// polling another one gives.
pub proof fn law_done_is_kept<P, T>(
    inflight: Seq<Inflight<P, T>>,
    flags: Seq<FlagWaker>,
    done: int,
    other: int,
    polled: Poll<T>,
)
    requires
        0 <= done < inflight.len(),
        inflight[done] is Done,
        0 <= other < inflight.len(),
        inflight[other] is Fut,
    ensures
        forall|from: int, next: Option<usize>, flags2: Seq<FlagWaker>| #[trigger]
            found(inflight, flags, from, next, flags2) ==> (next matches Some(at) ==> at != done),
        joined(inflight, other, polled)[done] == inflight[done],
{
}

/// What a search finds: the first future from `from` on that has not completed and was awoken. It
/// clears that one's flag and no other. It finds none exactly if every future from there on has
/// completed or was not awoken.
pub proof fn law_search_finds_first_awoken<P, T>(
    inflight: Seq<Inflight<P, T>>,
    flags: Seq<FlagWaker>,
    from: int,
    next: Option<usize>,
    flags2: Seq<FlagWaker>,
)
    requires
        0 <= from,
        flags.len() == inflight.len(),
        found(inflight, flags, from, next, flags2),
    ensures
        flags2.len() == flags.len(),
        match next {
            Some(at) => {
                &&& from <= at < inflight.len()
                &&& inflight[at as int] is Fut
                &&& flags[at as int].awoken
                &&& !flags2[at as int].awoken
                &&& forall|j: int|
                    from <= j < at ==> inflight[j] is Done || !(#[trigger] flags[j]).awoken
                &&& forall|j: int|
                    0 <= j < flags.len() && j != at ==> #[trigger] flags2[j] == flags[j]
            },
            None => {
                &&& forall|j: int|
                    from <= j < inflight.len() ==> inflight[j] is Done || !(
                    #[trigger] flags[j]).awoken
                &&& forall|j: int| 0 <= j < flags.len() ==> #[trigger] flags2[j] == flags[j]
            },
        },
{
    if next is Some {
        let at = next->Some_0;
        assert forall|j: int| from <= j < at implies inflight[j] is Done || !(
        #[trigger] flags[j]).awoken by {
            assert(!due(inflight, flags, j));
        }
    } else {
        assert forall|j: int| from <= j < inflight.len() implies inflight[j] is Done || !(
        #[trigger] flags[j]).awoken by {
            assert(!due(inflight, flags, j));
        }
    }
}

/// What polling a future does to what is there: a future that completes leaves its output in its
/// place, and nothing else changes.
pub proof fn law_poll_touches_its_place_alone<P, T>(
    inflight: Seq<Inflight<P, T>>,
    i: int,
    polled: Poll<T>,
    other: int,
)
    requires
        0 <= i < inflight.len(),
        inflight[i] is Fut,
        0 <= other < inflight.len(),
    ensures
        joined(inflight, i, polled).len() == inflight.len(),
        match polled {
            Poll::Ready(output) => joined(inflight, i, polled)[i] == Inflight::<P, T>::Done(output),
            Poll::Pending => joined(inflight, i, polled)[i] == inflight[i],
        },
        other != i ==> joined(inflight, i, polled)[other] == inflight[other],
{
}

/// One call of a joined future: its polls, and the search at its end that finds nothing more.
pub ghost struct JoinCall<P, T> {
    pub polls: Seq<JoinRecord<P, T>>,
    pub last: JoinSearch<P, T>,
}

/// The search at the end of a call.
pub ghost struct JoinSearch<P, T> {
    /// Where the search started.
    pub from: int,
    /// Which futures were awoken since the search before.
    pub woken: Set<int>,
    /// The flags and the futures at the search, and the flags after it.
    pub flags: Seq<FlagWaker>,
    pub searched: Seq<Inflight<P, T>>,
    pub flags2: Seq<FlagWaker>,
}

impl<P, T> JoinCall<P, T> {
    /// The call goes through `len` futures in order. Each search starts with what the last poll
    /// left, and with the flags of those that were awoken since.
    pub open spec fn valid(self, len: int) -> bool {
        let n = self.polls.len() as int;
        &&& one_call(self.polls)
        &&& forall|k: int|
            0 <= k < n ==> {
                &&& (#[trigger] self.polls[k]).finds()
                &&& self.polls[k].takes_in()
                &&& self.polls[k].searched.len() == self.polls[k].flags.len() == len
            }
        &&& forall|i: int, j: int|
            #![trigger self.polls[i], self.polls[j]]
            0 <= i < n && j == i + 1 && j < n ==> self.polls[j].follows(self.polls[i])
        &&& self.last.searched.len() == self.last.flags.len() == len
        &&& found(self.last.searched, self.last.flags, self.last.from, None, self.last.flags2)
        &&& if n > 0 {
            &&& self.last.from == self.polls[n - 1].at + 1
            &&& same_progress(self.polls[n - 1].after, self.last.searched)
            &&& forall|i: int|
                0 <= i < len ==> (#[trigger] self.last.flags[i].awoken <==> {
                    ||| self.polls[n - 1].flags2[i].awoken
                    ||| self.last.woken.contains(i)
                })
        } else {
            self.last.from == 0
        }
    }

    /// The futures before the call.
    pub open spec fn before(self) -> Seq<Inflight<P, T>> {
        if self.polls.len() > 0 {
            self.polls[0].searched
        } else {
            self.last.searched
        }
    }

    /// The flags before the call.
    pub open spec fn flags(self) -> Seq<FlagWaker> {
        if self.polls.len() > 0 {
            self.polls[0].flags
        } else {
            self.last.flags
        }
    }

    /// Whether the call polls the future at `i`.
    pub open spec fn polled(self, i: int) -> bool {
        exists|k: int| 0 <= k < self.polls.len() && (#[trigger] self.polls[k]).at == i
    }
}

/// A call polls every future that has not completed and was awoken before it: it passes over
/// nobody. So if all that had not completed were awoken, and every one that is polled completes,
/// then the call hands out the outputs.
pub proof fn law_no_awoken_future_passed_over<P, T>(
    call: JoinCall<P, T>,
    len: int,
    result: Poll<Vec<T>>,
)
    requires
        call.valid(len),
        finishes(call.last.searched, result),
    ensures
        forall|i: int|
            0 <= i < len && call.before()[i] is Fut && (#[trigger] call.flags()[i]).awoken
                ==> call.polled(i),
        (forall|i: int|
            0 <= i < len && call.before()[i] is Fut ==> (#[trigger] call.flags()[i]).awoken) && (
        forall|k: int| 0 <= k < call.polls.len() ==> (#[trigger] call.polls[k]).polled is Ready)
            ==> result is Ready,
{
    let n = call.polls.len() as int;
    assert forall|i: int|
        0 <= i < len && call.before()[i] is Fut && (
        #[trigger] call.flags()[i]).awoken implies call.polled(i) by {
        if !call.polled(i) {
            lemma_still_due(call, len, n, i);
            assert(due(call.last.searched, call.last.flags, i));
        }
    }
    if (forall|i: int|
        0 <= i < len && call.before()[i] is Fut ==> (#[trigger] call.flags()[i]).awoken) && (
    forall|k: int| 0 <= k < n ==> (#[trigger] call.polls[k]).polled is Ready) {
        assert forall|i: int| 0 <= i < call.last.searched.len() implies (
        #[trigger] call.last.searched[i]) is Done by {
            if call.before()[i] is Fut {
                assert(call.flags()[i].awoken);
                let k = choose|k: int| 0 <= k < n && (#[trigger] call.polls[k]).at == i;
                lemma_done_stays(call, len, k, n, i);
            } else {
                lemma_done_stays(call, len, -1, n, i);
            }
        }
    }
}

/// A future that was awoken before a call and that the call does not poll is still due at each of
/// its searches, and the call has not come to it.
proof fn lemma_still_due<P, T>(call: JoinCall<P, T>, len: int, k: int, i: int)
    requires
        call.valid(len),
        0 <= k <= call.polls.len(),
        0 <= i < len,
        call.before()[i] is Fut,
        call.flags()[i].awoken,
        !call.polled(i),
    ensures
        k < call.polls.len() ==> {
            &&& call.polls[k].searched[i] is Fut
            &&& call.polls[k].flags[i].awoken
            &&& call.polls[k].from <= i
        },
        k == call.polls.len() ==> {
            &&& call.last.searched[i] is Fut
            &&& call.last.flags[i].awoken
            &&& call.last.from <= i
        },
    decreases k,
{
    if k > 0 {
        let last = call.polls[k - 1];
        lemma_still_due(call, len, k - 1, i);
        assert(call.polls[k - 1].finds());
        assert(call.polls[k - 1].takes_in());
        assert(last.at != i);
        if i < last.at {
            assert(!due(last.searched, last.flags, i));
        }
        assert(last.before[i] is Fut);
        assert(last.after[i] is Fut);
        assert(last.flags2[i].awoken);
        if k < call.polls.len() {
            assert(call.polls[k].follows(call.polls[k - 1]));
            assert(call.polls[k].from == call.polls[k - 1].at + 1);
            assert(call.polls[k].flags[i].awoken);
        } else {
            assert(call.last.flags[i].awoken);
        }
    }
}

/// A future that completes in a call, or before it, is done at its later searches.
proof fn lemma_done_stays<P, T>(call: JoinCall<P, T>, len: int, k: int, m: int, i: int)
    requires
        call.valid(len),
        -1 <= k < m <= call.polls.len(),
        0 <= i < len,
        if k >= 0 {
            call.polls[k].at == i && call.polls[k].polled is Ready
        } else {
            call.before()[i] is Done
        },
    ensures
        m < call.polls.len() ==> call.polls[m].searched[i] is Done,
        m == call.polls.len() ==> call.last.searched[i] is Done,
    decreases m,
{
    if m > 0 {
        let last = call.polls[m - 1];
        assert(call.polls[m - 1].finds());
        assert(call.polls[m - 1].takes_in());
        if k < m - 1 {
            lemma_done_stays(call, len, k, m - 1, i);
            assert(last.before[i] is Done);
        }
        assert(last.after[i] is Done);
        if m < call.polls.len() {
            assert(call.polls[m].follows(call.polls[m - 1]));
        }
    }
}

/// What a run of polls comes to: each place is done with what its own future gave.
proof fn lemma_reached<P, T>(start: Seq<Inflight<P, T>>, polls: Seq<JoinRecord<P, T>>)
    requires
        join_history(start, polls),
        forall|k: int| 0 <= k < polls.len() ==> (#[trigger] polls[k]).takes_in(),
    ensures
        reached(start, polls).len() == start.len(),
        forall|i: int, output: T|
            0 <= i < start.len() ==> (reached(start, polls)[i] == Inflight::<P, T>::Done(output)
                <==> #[trigger] gave(polls, i, output)),
    decreases polls.len(),
{
    if polls.len() > 0 {
        let front = polls.drop_last();
        let n = polls.len() - 1;
        let last = polls[n];
        lemma_earlier_polls(start, polls);
        lemma_reached(start, front);
        let before = reached(start, front);
        assert(last.finds());
        assert(last.takes_in());
        assert(same_progress(before, last.searched)) by {
            if front.len() > 0 {
                assert(front.last() == polls[n - 1]);
                assert(polls[n].follows(polls[n - 1]));
            }
        }
        assert forall|i: int, output: T| 0 <= i < start.len() implies (reached(start, polls)[i]
            == Inflight::<P, T>::Done(output) <==> #[trigger] gave(polls, i, output)) by {
            assert(before[i] == Inflight::<P, T>::Done(output) <==> gave(front, i, output));
            assert(before[i] is Done ==> last.searched[i] == before[i]);
            assert(last.searched[i] is Done ==> last.before[i] == last.searched[i]);
            assert(last.searched[last.at as int] is Fut);
            if gave(front, i, output) {
                let k = choose|k: int|
                    0 <= k < front.len() && (#[trigger] front[k]).at == i && front[k].polled
                        == Poll::Ready(output);
                assert(polls[k].at == i);
            }
            if gave(polls, i, output) {
                let k = choose|k: int|
                    0 <= k < polls.len() && (#[trigger] polls[k]).at == i && polls[k].polled
                        == Poll::Ready(output);
                if k < n {
                    assert(front[k].at == i);
                }
            }
            if last.at == i && last.polled == Poll::Ready(output) {
                assert(polls[n].at == i);
            }
        }
    }
}

/// A run of polls without its last one is a run of polls.
proof fn lemma_earlier_polls<P, T>(start: Seq<Inflight<P, T>>, polls: Seq<JoinRecord<P, T>>)
    requires
        polls.len() > 0,
        join_history(start, polls),
        forall|k: int| 0 <= k < polls.len() ==> (#[trigger] polls[k]).takes_in(),
    ensures
        join_history(start, polls.drop_last()),
        forall|k: int|
            0 <= k < polls.drop_last().len() ==> (#[trigger] polls.drop_last()[k]).takes_in(),
{
    let front = polls.drop_last();
    assert forall|k: int| 0 <= k < front.len() implies (#[trigger] front[k]).finds()
        && front[k].takes_in() by {
        assert(polls[k].finds() && polls[k].takes_in());
    }
    assert forall|i: int, j: int|
        #![trigger front[i], front[j]]
        0 <= i < front.len() && j == i + 1 && j < front.len() implies front[j].follows(front[i]) by {
        assert(polls[j].follows(polls[i]));
    }
}

/// In one call the polls go through the futures in order.
proof fn lemma_polled_in_order<P, T>(polls: Seq<JoinRecord<P, T>>, i: int, j: int)
    requires
        forall|k: int| 0 <= k < polls.len() ==> (#[trigger] polls[k]).finds(),
        one_call(polls),
        0 <= i < j < polls.len(),
    ensures
        polls[i].at < polls[j].at,
    decreases j - i,
{
    assert(polls[j].finds());
    assert(polls[j].from == polls[j - 1].at + 1);
    if i < j - 1 {
        lemma_polled_in_order(polls, i, j - 1);
    }
}

/// The flag of a future that was polled stays clear as long as the future is not awoken.
proof fn lemma_stays_asleep<P, T>(
    start: Seq<Inflight<P, T>>,
    polls: Seq<JoinRecord<P, T>>,
    k: int,
    j: int,
    at: int,
)
    requires
        join_history(start, polls),
        forall|m: int|
            0 <= m < polls.len() ==> (#[trigger] polls[m]).flags.len() == start.len()
                && polls[m].searched.len() == start.len(),
        0 <= k < j < polls.len(),
        polls[k].at == at,
        forall|m: int| k < m <= j ==> !(#[trigger] polls[m]).woken.contains(at),
    ensures
        0 <= at < start.len(),
        !polls[j].flags[at].awoken,
    decreases j - k,
{
    assert(polls[k].finds());
    assert(polls[j - 1].finds());
    assert(polls[j].follows(polls[j - 1]));
    assert(!polls[j].woken.contains(at));
    if k < j - 1 {
        lemma_stays_asleep(start, polls, k, j - 1, at);
    }
    assert(!polls[j - 1].flags2[at].awoken);
}

} // verus!
