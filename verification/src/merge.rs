//! Merging several futures or streams into one stream.
//!
//! One poll of the merged stream is a pass over the pollers in rotation, starting where the last
//! pass stopped. A poller is polled only if it was awoken. The pass alternates between
//! [`Merged::next_poll`], which says which poller is to be polled, and `settle`, which takes what
//! polling it gave.

use vstd::prelude::*;

use crate::waker::FlagWaker;
use crate::Poll;

verus! {

/// What polling one of the merged futures or streams gave.
pub enum Outcome<T> {
    /// Nothing yet.
    Pending,
    /// A value or none, and whether the poller is through.
    Ready { value: Option<T>, finished: bool },
}

/// What a pass asks for next.
#[derive(Debug, Clone, Copy, PartialEq, Eq, Structural)]
pub enum MergeStep {
    /// Poll the poller at this position.
    Poll(usize),
    /// The merged stream has ended.
    End,
    /// The pass is over without a value.
    Pending,
}

/// How a pass goes on after a poll.
#[derive(Debug)]
pub enum Turn<T> {
    /// The merged stream yields this value, and the pass is over.
    Item(T),
    /// The merged stream has ended, and the pass is over.
    End,
    /// The pass goes on.
    Continue,
}

/// A pass over the pollers.
pub struct MergePass {
    /// How many pollers the pass has not looked at.
    pub left: usize,
}

/// The number of pollers that are through.
pub open spec fn ended<P>(pollers: Seq<Option<P>>) -> nat
    decreases pollers.len(),
{
    if pollers.len() == 0 {
        0
    } else {
        ended(pollers.drop_last()) + if pollers.last() is None {
            1nat
        } else {
            0nat
        }
    }
}

/// Whether the poller at `i` is to be polled when a pass comes to it: it is not through, and it
/// was awoken.
pub open spec fn due<P>(pollers: Seq<Option<P>>, flags: Seq<FlagWaker>, i: int) -> bool {
    pollers[i] is Some && flags[i].awoken
}

/// The position `steps` after `idx` in a rotation over `len` positions.
pub open spec fn rotated(idx: int, steps: int, len: int) -> int {
    (idx + steps) % len
}

/// What a pass does that starts at `idx` with `left` pollers to look at: `step` says what it came
/// to, and `flags2`, `idx2` and `left2` are what it leaves behind.
pub open spec fn scanned<P>(
    pollers: Seq<Option<P>>,
    flags: Seq<FlagWaker>,
    idx: int,
    left: int,
    step: MergeStep,
    flags2: Seq<FlagWaker>,
    idx2: int,
    left2: int,
) -> bool {
    let n = pollers.len() as int;
    match step {
        MergeStep::Poll(i) => {
            &&& 0 < left2 <= left
            &&& i == idx2 == rotated(idx, left - left2, n)
            &&& due(pollers, flags, i as int)
            &&& forall|j: int|
                0 <= j < left - left2 ==> !due(pollers, flags, #[trigger] rotated(idx, j, n))
            &&& flags2 == flags.update(i as int, FlagWaker { awoken: false })
        },
        MergeStep::End => {
            &&& left > 0
            &&& ended(pollers) == n
            &&& left2 == left - 1
            &&& idx2 == rotated(idx, 1, n)
            &&& flags2 == flags
        },
        MergeStep::Pending => {
            &&& left > 0 ==> ended(pollers) < n
            &&& left2 == 0
            &&& idx2 == if n > 0 {
                rotated(idx, left, n)
            } else {
                idx
            }
            &&& forall|j: int|
                0 <= j < left ==> !due(pollers, flags, #[trigger] rotated(idx, j, n))
            &&& flags2 == flags
        },
    }
}

/// What becomes of a pass once polling the poller at `idx` gave `outcome`: `turn` says how it
/// goes on, and `pollers2`, `flags2`, `idx2` and `left2` are what is left behind.
pub open spec fn settled<P, T>(
    pollers: Seq<Option<P>>,
    flags: Seq<FlagWaker>,
    idx: int,
    left: int,
    outcome: Outcome<T>,
    turn: Turn<T>,
    pollers2: Seq<Option<P>>,
    flags2: Seq<FlagWaker>,
    idx2: int,
    left2: int,
) -> bool {
    let n = pollers.len() as int;
    &&& pollers2 == if outcome matches Outcome::Ready { finished, .. } && finished {
        pollers.update(idx, None)
    } else {
        pollers
    }
    &&& match outcome {
        Outcome::Ready { value: Some(item), .. } => {
            &&& turn == Turn::Item(item)
            &&& flags2 == flags.update(idx, FlagWaker { awoken: true })
            &&& idx2 == idx
            &&& left2 == left
        },
        _ => {
            &&& turn == if ended(pollers2) == n {
                Turn::<T>::End
            } else {
                Turn::<T>::Continue
            }
            &&& flags2 == flags
            &&& idx2 == rotated(idx, 1, n)
            &&& left2 == left - 1
        },
    }
}

/// The pollers of a merged stream.
pub struct Merged<P> {
    /// The pollers. One that is through has left its place empty.
    pub pollers: Vec<Option<P>>,
    /// The position at which the next pass starts.
    pub idx: usize,
    /// The number of pollers that are through.
    pub none_count: usize,
}

impl<P> Merged<P> {
    /// The position is one of the pollers, and the pollers that are through have been counted.
    pub open spec fn wf(self) -> bool {
        &&& self.idx < self.pollers.len() || self.idx == self.pollers.len() == 0
        &&& self.none_count == ended(self.pollers@)
    }

    /// Merges the pollers, of which none is through.
    pub fn new(pollers: Vec<P>) -> (merged: Merged<P>)
        ensures
            merged.wf(),
            merged.pollers@ == Seq::new(pollers@.len(), |i: int| Some(pollers@[i])),
            merged.idx == 0,
            merged.none_count == 0,
    {
        let ghost given = pollers@;
        let mut places: Vec<Option<P>> = Vec::new();
        for poller in it: pollers
            invariant
                it.seq() == given,
                places@ == Seq::new(it.index() as nat, |i: int| Some(given[i])),
        {
            places.push(Some(poller));
        }
        proof {
            lemma_none_ended(places@);
        }
        Merged { pollers: places, idx: 0, none_count: 0 }
    }

    /// Starts a pass, which looks at every poller once.
    pub fn begin(&self) -> (pass: MergePass)
        ensures
            pass.left == self.pollers.len(),
    {
        MergePass { left: self.pollers.len() }
    }

    /// Goes on with a pass until it comes to a poller that is to be polled, or to its end. The
    /// poller's flag is cleared.
    pub fn next_poll(&mut self, pass: &mut MergePass, flags: &mut Vec<FlagWaker>) -> (step:
        MergeStep)
        requires
            old(self).wf(),
            old(flags).len() == old(self).pollers.len(),
            old(pass).left <= old(self).pollers.len(),
        ensures
            final(self).wf(),
            final(self).pollers@ == old(self).pollers@,
            final(self).none_count == old(self).none_count,
            final(pass).left <= old(pass).left,
            final(flags)@.len() == old(flags)@.len(),
            scanned(
                old(self).pollers@,
                old(flags)@,
                old(self).idx as int,
                old(pass).left as int,
                step,
                final(flags)@,
                final(self).idx as int,
                final(pass).left as int,
            ),
    {
        let ghost idx0 = self.idx as int;
        let ghost left0 = pass.left as int;
        let n = self.pollers.len();
        proof {
            if n > 0 {
                vstd::arithmetic::div_mod::lemma_small_mod(idx0 as nat, n as nat);
            }
        }
        while pass.left > 0
            invariant
                n == self.pollers.len() == flags.len(),
                self.wf(),
                self.pollers@ == old(self).pollers@,
                self.none_count == old(self).none_count,
                flags@ == old(flags)@,
                idx0 == old(self).idx,
                left0 == old(pass).left,
                pass.left <= left0 <= n,
                n > 0 ==> self.idx == rotated(idx0, left0 - pass.left, n as int),
                n == 0 ==> self.idx == idx0,
                forall|j: int|
                    0 <= j < left0 - pass.left ==> !due(
                        old(self).pollers@,
                        old(flags)@,
                        #[trigger] rotated(idx0, j, n as int),
                    ),
                pass.left < left0 ==> self.none_count < n,
            decreases pass.left,
        {
            let i = self.idx;
            if self.pollers[i].is_some() {
                let mut flag = flags[i];
                let awoken = flag.check_awoken();
                flags.set(i, flag);
                if awoken {
                    return MergeStep::Poll(i);
                }
                assert(flags@ =~= old(flags)@);
            }
            proof {
                lemma_rotated_add(idx0, left0 - pass.left, 1, n as int);
                lemma_all_ended(self.pollers@);
            }
            self.idx = (self.idx + 1) % n;
            pass.left = pass.left - 1;
            if self.none_count == n {
                return MergeStep::End;
            }
        }
        MergeStep::Pending
    }

    /// Takes what polling the poller gave that the pass came to.
    pub fn settle<T>(
        &mut self,
        pass: &mut MergePass,
        flags: &mut Vec<FlagWaker>,
        outcome: Outcome<T>,
    ) -> (turn: Turn<T>)
        requires
            old(self).wf(),
            old(flags).len() == old(self).pollers.len(),
            0 < old(pass).left,
            old(self).idx < old(self).pollers.len(),
            old(self).pollers@[old(self).idx as int] is Some,
        ensures
            final(self).wf(),
            settled(
                old(self).pollers@,
                old(flags)@,
                old(self).idx as int,
                old(pass).left as int,
                outcome,
                turn,
                final(self).pollers@,
                final(flags)@,
                final(self).idx as int,
                final(pass).left as int,
            ),
    {
        let i = self.idx;
        let n = self.pollers.len();
        proof {
            lemma_all_ended(self.pollers@);
            lemma_one_more_ended(self.pollers@, i as int);
            lemma_all_ended(self.pollers@.update(i as int, None));
        }
        match outcome {
            Outcome::Pending => {},
            Outcome::Ready { value, finished } => {
                if finished {
                    self.pollers.set(i, None);
                    self.none_count = self.none_count + 1;
                }
                if let Some(item) = value {
                    // The next pass starts with the poller that just yielded a value.
                    let mut flag = flags[i];
                    flag.set_awoken();
                    flags.set(i, flag);
                    return Turn::Item(item);
                }
            },
        }
        self.idx = (self.idx + 1) % n;
        pass.left = pass.left - 1;
        if self.none_count == n {
            Turn::End
        } else {
            Turn::Continue
        }
    }

    /// Gives access to the poller at `i`, for polling it.
    pub fn poller_mut(&mut self, i: usize) -> (poller: &mut P)
        requires
            old(self).wf(),
            i < old(self).pollers.len(),
            old(self).pollers@[i as int] is Some,
        ensures
            Some(*poller) == old(self).pollers@[i as int],
            final(self).pollers@ == old(self).pollers@.update(i as int, Some(*final(poller))),
            final(self).idx == old(self).idx,
            final(self).none_count == old(self).none_count,
    {
        self.pollers[i].as_mut().unwrap()
    }
}

/// A stream of the outputs of several futures, in the order in which they complete.
pub struct MergeFutureStream<P> {
    /// The futures and the state of the rotation.
    pub merged: Merged<P>,
}

/// What polling a future means to the merged stream: its output is a value, and the last one.
pub open spec fn of_future<T>(polled: Poll<T>) -> Outcome<T> {
    match polled {
        Poll::Ready(output) => Outcome::Ready { value: Some(output), finished: true },
        Poll::Pending => Outcome::Pending,
    }
}

impl<P> MergeFutureStream<P> {
    /// Merges the futures.
    pub fn new(futures: Vec<P>) -> (stream: MergeFutureStream<P>)
        ensures
            stream.merged.wf(),
            stream.merged.pollers@ == Seq::new(futures@.len(), |i: int| Some(futures@[i])),
            stream.merged.idx == 0,
            stream.merged.none_count == 0,
    {
        MergeFutureStream { merged: Merged::new(futures) }
    }

    /// Takes what polling the future gave that the pass came to.
    pub fn settle<T>(
        &mut self,
        pass: &mut MergePass,
        flags: &mut Vec<FlagWaker>,
        polled: Poll<T>,
    ) -> (turn: Turn<T>)
        requires
            old(self).merged.wf(),
            old(flags).len() == old(self).merged.pollers.len(),
            0 < old(pass).left,
            old(self).merged.idx < old(self).merged.pollers.len(),
            old(self).merged.pollers@[old(self).merged.idx as int] is Some,
        ensures
            final(self).merged.wf(),
            settled(
                old(self).merged.pollers@,
                old(flags)@,
                old(self).merged.idx as int,
                old(pass).left as int,
                of_future(polled),
                turn,
                final(self).merged.pollers@,
                final(flags)@,
                final(self).merged.idx as int,
                final(pass).left as int,
            ),
    {
        let outcome = match polled {
            Poll::Ready(output) => Outcome::Ready { value: Some(output), finished: true },
            Poll::Pending => Outcome::Pending,
        };
        self.merged.settle(pass, flags, outcome)
    }
}

/// A stream of the items of several streams, as they become available.
pub struct MergeStream<P> {
    /// The streams and the state of the rotation.
    pub merged: Merged<P>,
}

/// What polling a stream means to the merged stream: an item is a value, and the stream's end is
/// none and the last.
pub open spec fn of_stream<T>(polled: Poll<Option<T>>) -> Outcome<T> {
    match polled {
        Poll::Ready(item) => Outcome::Ready { value: item, finished: item is None },
        Poll::Pending => Outcome::Pending,
    }
}

impl<P> MergeStream<P> {
    /// Merges the streams.
    pub fn new(streams: Vec<P>) -> (stream: MergeStream<P>)
        ensures
            stream.merged.wf(),
            stream.merged.pollers@ == Seq::new(streams@.len(), |i: int| Some(streams@[i])),
            stream.merged.idx == 0,
            stream.merged.none_count == 0,
    {
        MergeStream { merged: Merged::new(streams) }
    }

    /// Takes what polling the stream gave that the pass came to.
    pub fn settle<T>(
        &mut self,
        pass: &mut MergePass,
        flags: &mut Vec<FlagWaker>,
        polled: Poll<Option<T>>,
    ) -> (turn: Turn<T>)
        requires
            old(self).merged.wf(),
            old(flags).len() == old(self).merged.pollers.len(),
            0 < old(pass).left,
            old(self).merged.idx < old(self).merged.pollers.len(),
            old(self).merged.pollers@[old(self).merged.idx as int] is Some,
        ensures
            final(self).merged.wf(),
            settled(
                old(self).merged.pollers@,
                old(flags)@,
                old(self).merged.idx as int,
                old(pass).left as int,
                of_stream(polled),
                turn,
                final(self).merged.pollers@,
                final(flags)@,
                final(self).merged.idx as int,
                final(pass).left as int,
            ),
    {
        let outcome = match polled {
            Poll::Ready(item) => {
                let finished = item.is_none();
                Outcome::Ready { value: item, finished }
            },
            Poll::Pending => Outcome::Pending,
        };
        self.merged.settle(pass, flags, outcome)
    }
}

/// One poll of a merged future or stream, with the state before and after it.
pub ghost struct PollRecord<P, T> {
    pub pollers: Seq<Option<P>>,
    pub flags: Seq<FlagWaker>,
    pub idx: int,
    pub left: int,
    pub outcome: Outcome<T>,
    pub turn: Turn<T>,
    pub pollers2: Seq<Option<P>>,
    pub flags2: Seq<FlagWaker>,
    pub idx2: int,
    pub left2: int,
}

impl<P, T> PollRecord<P, T> {
    /// The poll was of a poller that is still there, and was settled.
    pub open spec fn valid(self) -> bool {
        &&& 0 <= self.idx < self.pollers.len()
        &&& self.pollers[self.idx] is Some
        &&& settled(
            self.pollers,
            self.flags,
            self.idx,
            self.left,
            self.outcome,
            self.turn,
            self.pollers2,
            self.flags2,
            self.idx2,
            self.left2,
        )
    }
}

/// Whether the same pollers are still there: a poll may change the poller, not its presence.
pub open spec fn same_presence<P>(a: Seq<Option<P>>, b: Seq<Option<P>>) -> bool {
    &&& a.len() == b.len()
    &&& forall|i: int| 0 <= i < a.len() ==> (#[trigger] a[i] is Some <==> b[i] is Some)
}

/// A run of polls, each of which starts with the pollers that the last one left.
pub open spec fn poll_history<P, T>(polls: Seq<PollRecord<P, T>>) -> bool {
    &&& forall|k: int| 0 <= k < polls.len() ==> (#[trigger] polls[k]).valid()
    &&& forall|k: int|
        0 < k < polls.len() ==> same_presence(polls[k - 1].pollers2, (#[trigger] polls[k]).pollers)
}

/// The number of polls that made the merged stream yield a value.
pub open spec fn items<P, T>(polls: Seq<PollRecord<P, T>>) -> nat
    decreases polls.len(),
{
    if polls.len() == 0 {
        0
    } else {
        items(polls.drop_last()) + if polls.last().turn is Item {
            1nat
        } else {
            0nat
        }
    }
}

/// A merge of futures yields one value for each future that is through, so as many as there are
/// futures by the time it ends, and never more.
pub proof fn law_one_item_per_future<P, T>(polls: Seq<PollRecord<P, T>>)
    requires
        polls.len() > 0,
        poll_history(polls),
        forall|i: int| 0 <= i < polls[0].pollers.len() ==> polls[0].pollers[i] is Some,
        forall|k: int|
            0 <= k < polls.len() ==> exists|polled: Poll<T>|
                (#[trigger] polls[k]).outcome == of_future(polled),
    ensures
        items(polls) == ended(polls.last().pollers2),
        items(polls) <= polls[0].pollers.len(),
        polls.last().pollers2.len() == polls[0].pollers.len(),
    decreases polls.len(),
{
    let last = polls.last();
    assert(polls[polls.len() - 1].valid());
    let before = polls.drop_last();
    if before.len() > 0 {
        assert forall|k: int| 0 <= k < before.len() implies (#[trigger] before[k]).valid() by {
            assert(polls[k].valid());
        }
        assert forall|k: int| 0 < k < before.len() implies same_presence(
            before[k - 1].pollers2,
            (#[trigger] before[k]).pollers,
        ) by {
            assert(same_presence(polls[k - 1].pollers2, polls[k].pollers));
        }
        assert forall|k: int| 0 <= k < before.len() implies exists|polled: Poll<T>|
            (#[trigger] before[k]).outcome == of_future(polled) by {
            let polled = choose|polled: Poll<T>| polls[k].outcome == of_future(polled);
            assert(before[k].outcome == of_future(polled));
        }
        law_one_item_per_future(before);
        lemma_same_ended(before.last().pollers2, last.pollers);
    } else {
        lemma_none_ended(last.pollers);
        assert(items(before) == 0);
    }
    lemma_one_more_ended(last.pollers, last.idx);
    lemma_all_ended(last.pollers2);
}

/// Each future's output is handed on by the poll that gave it, and by no other, and the future is
/// not polled after that.
pub proof fn law_output_handed_on_at_once<P, T>(polls: Seq<PollRecord<P, T>>)
    requires
        poll_history(polls),
        forall|k: int|
            0 <= k < polls.len() ==> exists|polled: Poll<T>|
                (#[trigger] polls[k]).outcome == of_future(polled),
    ensures
        forall|k: int, polled: Poll<T>|
            0 <= k < polls.len() && (#[trigger] polls[k]).outcome == #[trigger] of_future(polled)
                ==> match polled {
                Poll::Ready(output) => polls[k].turn == Turn::Item(output),
                Poll::Pending => polls[k].turn !is Item,
            },
        forall|k: int, j: int|
            0 <= k < j < polls.len() && (#[trigger] polls[k]).turn is Item ==> (
            #[trigger] polls[j]).idx != polls[k].idx,
{
    assert forall|k: int, polled: Poll<T>|
        0 <= k < polls.len() && (#[trigger] polls[k]).outcome == #[trigger] of_future(
            polled,
        ) implies match polled {
        Poll::Ready(output) => polls[k].turn == Turn::Item(output),
        Poll::Pending => polls[k].turn !is Item,
    } by {
        assert(polls[k].valid());
    }
    assert forall|k: int, j: int|
        0 <= k < j < polls.len() && (#[trigger] polls[k]).turn is Item implies (
    #[trigger] polls[j]).idx != polls[k].idx by {
        assert(polls[k].valid());
        assert(polls[j].valid());
        let polled = choose|polled: Poll<T>| polls[k].outcome == of_future(polled);
        lemma_gone_for_good(polls, k, j, polls[k].idx);
    }
}

/// A poll leaves all other pollers and their flags as they are.
pub proof fn law_poll_touches_its_poller_alone<P, T>(poll: PollRecord<P, T>, i: int)
    requires
        poll.valid(),
        0 <= i < poll.pollers.len(),
        poll.flags.len() == poll.pollers.len(),
        i != poll.idx,
    ensures
        poll.pollers2.len() == poll.pollers.len(),
        poll.flags2.len() == poll.flags.len(),
        poll.pollers2[i] == poll.pollers[i],
        poll.flags2[i] == poll.flags[i],
{
}

/// What polling one of several futures does. If the future completes, its output is yielded at
/// once, the future is through, and the next call starts there with its flag set. If not, nothing
/// changes but that the pass goes on with the next one.
pub proof fn law_future_polled<P, T>(poll: PollRecord<P, T>, polled: Poll<T>)
    requires
        poll.valid(),
        poll.outcome == of_future(polled),
        poll.flags.len() == poll.pollers.len(),
    ensures
        match polled {
            Poll::Ready(output) => {
                &&& poll.turn == Turn::Item(output)
                &&& poll.pollers2[poll.idx] is None
                &&& poll.flags2[poll.idx].awoken
                &&& poll.idx2 == poll.idx
            },
            Poll::Pending => {
                &&& poll.turn is Continue
                &&& poll.pollers2 == poll.pollers
                &&& poll.flags2 == poll.flags
                &&& poll.left2 == poll.left - 1
                &&& poll.idx2 == if poll.idx == poll.pollers.len() - 1 {
                    0
                } else {
                    poll.idx + 1
                }
            },
        },
{
    lemma_next_position(poll.idx, poll.pollers.len() as int);
    lemma_all_ended(poll.pollers);
}

/// What polling one of several streams does. An item is yielded at once, and the next call starts
/// there with the stream's flag set. A stream that ends is through, and the merge ends if it was
/// the last one. Otherwise the pass goes on with the next one, and nothing else changes.
pub proof fn law_stream_polled<P, T>(poll: PollRecord<P, T>, polled: Poll<Option<T>>)
    requires
        poll.valid(),
        poll.outcome == of_stream(polled),
        poll.flags.len() == poll.pollers.len(),
    ensures
        match polled {
            Poll::Ready(Some(item)) => {
                &&& poll.turn == Turn::Item(item)
                &&& poll.pollers2 == poll.pollers
                &&& poll.flags2[poll.idx].awoken
                &&& poll.idx2 == poll.idx
            },
            Poll::Ready(None) => {
                &&& poll.turn is End || poll.turn is Continue
                &&& poll.turn is End <==> forall|i: int|
                    0 <= i < poll.pollers.len() && i != poll.idx ==> poll.pollers[i] is None
                &&& poll.pollers2[poll.idx] is None
                &&& poll.flags2 == poll.flags
                &&& poll.left2 == poll.left - 1
                &&& poll.idx2 == if poll.idx == poll.pollers.len() - 1 {
                    0
                } else {
                    poll.idx + 1
                }
            },
            Poll::Pending => {
                &&& poll.turn is Continue
                &&& poll.pollers2 == poll.pollers
                &&& poll.flags2 == poll.flags
                &&& poll.left2 == poll.left - 1
                &&& poll.idx2 == if poll.idx == poll.pollers.len() - 1 {
                    0
                } else {
                    poll.idx + 1
                }
            },
        },
{
    lemma_next_position(poll.idx, poll.pollers.len() as int);
    lemma_all_ended(poll.pollers);
    lemma_all_ended(poll.pollers2);
    if forall|i: int| 0 <= i < poll.pollers2.len() ==> poll.pollers2[i] is None {
        lemma_every_one_ended(poll.pollers2);
    }
    if poll.turn is End {
        assert forall|i: int| 0 <= i < poll.pollers.len() && i != poll.idx implies poll.pollers[i]
            is None by {
            assert(poll.pollers2[i] == poll.pollers[i]);
        }
    }
}

/// The position after another in a rotation.
proof fn lemma_next_position(idx: int, len: int)
    requires
        0 <= idx < len,
    ensures
        rotated(idx, 1, len) == if idx == len - 1 {
            0
        } else {
            idx + 1
        },
{
    if idx == len - 1 {
        vstd::arithmetic::div_mod::lemma_mod_self_0(len);
    } else {
        vstd::arithmetic::div_mod::lemma_small_mod((idx + 1) as nat, len as nat);
    }
}

/// The items that polling the poller at `i` gave, in order.
pub open spec fn given<P, T>(polls: Seq<PollRecord<P, T>>, i: int) -> Seq<T>
    decreases polls.len(),
{
    if polls.len() == 0 {
        Seq::empty()
    } else {
        let front = given(polls.drop_last(), i);
        match polls.last().outcome {
            Outcome::Ready { value: Some(item), .. } if polls.last().idx == i => front.push(item),
            _ => front,
        }
    }
}

/// The items that the merged stream yielded by polls of the poller at `i`, in order.
pub open spec fn handed_on<P, T>(polls: Seq<PollRecord<P, T>>, i: int) -> Seq<T>
    decreases polls.len(),
{
    if polls.len() == 0 {
        Seq::empty()
    } else {
        let front = handed_on(polls.drop_last(), i);
        match polls.last().turn {
            Turn::Item(item) if polls.last().idx == i => front.push(item),
            _ => front,
        }
    }
}

/// A merge of streams yields each stream's items in their order, and loses none. A stream that has
/// ended is not polled again, and the merge ends exactly once every stream has.
pub proof fn law_stream_items_in_order<P, T>(polls: Seq<PollRecord<P, T>>, i: int)
    requires
        poll_history(polls),
        forall|k: int|
            0 <= k < polls.len() ==> exists|polled: Poll<Option<T>>|
                (#[trigger] polls[k]).outcome == of_stream(polled),
    ensures
        handed_on(polls, i) == given(polls, i),
        forall|k: int, j: int|
            0 <= k < j < polls.len() && (#[trigger] polls[k]).outcome == of_stream(
                Poll::Ready(None::<T>),
            ) ==> (#[trigger] polls[j]).idx != polls[k].idx,
        forall|k: int|
            0 <= k < polls.len() && (#[trigger] polls[k]).turn !is Item ==> (polls[k].turn is End
                <==> forall|p: int|
                0 <= p < polls[k].pollers2.len() ==> polls[k].pollers2[p] is None),
{
    lemma_items_handed_on(polls, i);
    assert forall|k: int, j: int|
        0 <= k < j < polls.len() && (#[trigger] polls[k]).outcome == of_stream(
            Poll::Ready(None::<T>),
        ) implies (#[trigger] polls[j]).idx != polls[k].idx by {
        assert(polls[k].valid());
        assert(polls[j].valid());
        lemma_gone_for_good(polls, k, j, polls[k].idx);
    }
    assert forall|k: int| 0 <= k < polls.len() && (#[trigger] polls[k]).turn !is Item implies (
    polls[k].turn is End <==> forall|p: int|
        0 <= p < polls[k].pollers2.len() ==> polls[k].pollers2[p] is None) by {
        assert(polls[k].valid());
        lemma_all_ended(polls[k].pollers2);
        if forall|p: int| 0 <= p < polls[k].pollers2.len() ==> polls[k].pollers2[p] is None {
            lemma_every_one_ended(polls[k].pollers2);
        }
    }
}

/// What a poll gives is what it makes the merged stream yield.
proof fn lemma_items_handed_on<P, T>(polls: Seq<PollRecord<P, T>>, i: int)
    requires
        forall|k: int| 0 <= k < polls.len() ==> (#[trigger] polls[k]).valid(),
    ensures
        handed_on(polls, i) == given(polls, i),
    decreases polls.len(),
{
    if polls.len() > 0 {
        let front = polls.drop_last();
        assert forall|k: int| 0 <= k < front.len() implies (#[trigger] front[k]).valid() by {
            assert(polls[k].valid());
        }
        lemma_items_handed_on(front, i);
        assert(polls[polls.len() - 1].valid());
    }
}

/// A poller that is through stays so.
proof fn lemma_gone_for_good<P, T>(polls: Seq<PollRecord<P, T>>, k: int, j: int, i: int)
    requires
        poll_history(polls),
        0 <= k < j < polls.len(),
        0 <= i < polls[k].pollers2.len(),
        polls[k].pollers2[i] is None,
    ensures
        i < polls[j].pollers.len(),
        polls[j].pollers[i] is None,
    decreases j - k,
{
    let last = polls[j - 1];
    assert(last.valid());
    assert(same_presence(polls[j - 1].pollers2, polls[j].pollers));
    if k < j - 1 {
        lemma_gone_for_good(polls, k, j - 1, i);
        assert(last.pollers2[i] is None);
    }
    assert(last.pollers2[i] is Some <==> polls[j].pollers[i] is Some);
}

/// With no poller left, all have ended.
proof fn lemma_every_one_ended<P>(pollers: Seq<Option<P>>)
    requires
        forall|i: int| 0 <= i < pollers.len() ==> pollers[i] is None,
    ensures
        ended(pollers) == pollers.len(),
    decreases pollers.len(),
{
    if pollers.len() > 0 {
        lemma_every_one_ended(pollers.drop_last());
    }
}

/// A poller that yields a value and is not through is the first that the next pass polls.
pub proof fn law_next_pass_resumes<P, T>(
    poll: PollRecord<P, T>,
    pollers: Seq<Option<P>>,
    flags: Seq<FlagWaker>,
    step: MergeStep,
    flags3: Seq<FlagWaker>,
    idx3: int,
    left3: int,
)
    requires
        poll.valid(),
        poll.turn is Item,
        poll.pollers2[poll.idx] is Some,
        same_presence(poll.pollers2, pollers),
        poll.flags.len() == flags.len() == pollers.len(),
        forall|i: int| 0 <= i < flags.len() && poll.flags2[i].awoken ==> flags[i].awoken,
        scanned(pollers, flags, poll.idx2, pollers.len() as int, step, flags3, idx3, left3),
    ensures
        step == MergeStep::Poll(poll.idx as usize),
        step->Poll_0 == poll.idx,
{
    let n = pollers.len() as int;
    vstd::arithmetic::div_mod::lemma_small_mod(poll.idx as nat, n as nat);
    assert(rotated(poll.idx, 0, n) == poll.idx);
    assert(due(pollers, flags, rotated(poll.idx, 0, n)));
    lemma_all_ended(pollers);
}

/// One search for a poller to poll, with the state before and after it.
pub ghost struct ScanRecord<P> {
    pub pollers: Seq<Option<P>>,
    pub flags: Seq<FlagWaker>,
    pub idx: int,
    pub left: int,
    pub step: MergeStep,
    pub flags2: Seq<FlagWaker>,
    pub idx2: int,
    pub left2: int,
}

impl<P> ScanRecord<P> {
    /// The search went the way that a pass goes.
    pub open spec fn valid(self) -> bool {
        scanned(
            self.pollers,
            self.flags,
            self.idx,
            self.left,
            self.step,
            self.flags2,
            self.idx2,
            self.left2,
        )
    }

    /// The search found the poller that was polled then, of `len` pollers.
    pub open spec fn finds<T>(self, poll: PollRecord<P, T>, len: int) -> bool {
        &&& self.valid()
        &&& self.step is Poll
        &&& poll.valid()
        &&& self.pollers.len() == poll.pollers.len() == len
        &&& poll.idx == self.idx2
        &&& poll.left == self.left2
    }

    /// The search goes on with the pass after a poll that did not end it.
    pub open spec fn follows<T>(self, poll: PollRecord<P, T>) -> bool {
        &&& poll.turn is Continue
        &&& self.idx == poll.idx2
        &&& self.left == poll.left2
    }
}

/// The polls of one pass over `len` pollers, each with the search that led to it.
pub open spec fn one_pass<P, T>(
    scans: Seq<ScanRecord<P>>,
    polls: Seq<PollRecord<P, T>>,
    len: int,
) -> bool {
    &&& scans.len() == polls.len()
    &&& scans.len() > 0 ==> 0 <= scans[0].idx < len && scans[0].left == len
    &&& forall|k: int| 0 <= k < polls.len() ==> (#[trigger] scans[k]).finds(polls[k], len)
    &&& forall|i: int, j: int|
        #![trigger polls[i], scans[j]]
        0 <= i < polls.len() && j == i + 1 && j < polls.len() ==> scans[j].follows(polls[i])
}

/// In one pass no poller is polled twice.
pub proof fn law_each_poller_once_per_pass<P, T>(
    scans: Seq<ScanRecord<P>>,
    polls: Seq<PollRecord<P, T>>,
    len: int,
)
    requires
        one_pass(scans, polls, len),
    ensures
        forall|i: int, j: int|
            0 <= i < j < polls.len() ==> (#[trigger] polls[i]).idx != (#[trigger] polls[j]).idx,
{
    assert forall|i: int, j: int| 0 <= i < j < polls.len() implies (#[trigger] polls[i]).idx != (
    #[trigger] polls[j]).idx by {
        lemma_place_in_pass(scans, polls, len, i, i);
        lemma_place_in_pass(scans, polls, len, i, j);
        lemma_different_places(scans[0].idx, len, polls[i].left, polls[j].left);
    }
}

/// How many steps of the rotation it is from position `idx` to position `i`.
pub open spec fn distance(idx: int, i: int, len: int) -> int {
    if idx <= i {
        i - idx
    } else {
        i + len - idx
    }
}

/// What a search for a poller to poll finds: the first in rotation that is there and was awoken,
/// among those that the pass has not looked at. It clears that one's flag and no other. If there is
/// none, it says so, and tells whether any poller is there at all.
pub proof fn law_search_finds_first_awoken<P>(scan: ScanRecord<P>, i: int)
    requires
        scan.valid(),
        0 <= scan.idx < scan.pollers.len(),
        0 <= scan.left <= scan.pollers.len(),
        scan.flags.len() == scan.pollers.len(),
        0 <= i < scan.pollers.len(),
    ensures
        ({
            let len = scan.pollers.len() as int;
            let away = distance(scan.idx, i, len);
            match scan.step {
                MergeStep::Poll(at) => {
                    &&& at < len
                    &&& scan.pollers[at as int] is Some
                    &&& scan.flags[at as int].awoken
                    &&& distance(scan.idx, at as int, len) < scan.left
                    &&& away < distance(scan.idx, at as int, len) ==> scan.pollers[i] is None
                        || !scan.flags[i].awoken
                    &&& scan.flags2.len() == len
                    &&& !scan.flags2[at as int].awoken
                    &&& i != at ==> scan.flags2[i] == scan.flags[i]
                },
                MergeStep::End => scan.left > 0 && scan.pollers[i] is None && scan.flags2
                    == scan.flags,
                MergeStep::Pending => {
                    &&& away < scan.left ==> scan.pollers[i] is None || !scan.flags[i].awoken
                    &&& scan.left > 0 ==> exists|p: int|
                        0 <= p < len && (#[trigger] scan.pollers[p]) is Some
                    &&& scan.flags2 == scan.flags
                },
            }
        }),
{
    let len = scan.pollers.len() as int;
    let away = distance(scan.idx, i, len);
    lemma_distance(scan.idx, i, len);
    lemma_all_ended(scan.pollers);
    match scan.step {
        MergeStep::Poll(at) => {
            let steps = scan.left - scan.left2;
            lemma_distance(scan.idx, at as int, len);
            lemma_position_in_range(scan.idx, steps, len);
            lemma_rotation_covers(scan.idx, steps, at as int, len);
        },
        MergeStep::End => {},
        MergeStep::Pending => {
            if forall|p: int| 0 <= p < len ==> scan.pollers[p] is None {
                lemma_every_one_ended(scan.pollers);
            }
        },
    }
}

/// Going round by the distance to a position comes to it.
proof fn lemma_distance(idx: int, i: int, len: int)
    requires
        0 <= idx < len,
        0 <= i < len,
    ensures
        0 <= distance(idx, i, len) < len,
        rotated(idx, distance(idx, i, len), len) == i,
{
    if idx <= i {
        vstd::arithmetic::div_mod::lemma_small_mod(i as nat, len as nat);
    } else {
        vstd::arithmetic::div_mod::lemma_mod_add_multiples_vanish(i, len);
        vstd::arithmetic::div_mod::lemma_small_mod(i as nat, len as nat);
    }
}

/// Going round by less than a full turn comes to the position that is as far away.
proof fn lemma_rotation_covers(idx: int, steps: int, i: int, len: int)
    requires
        0 <= idx < len,
        0 <= steps < len,
        i == rotated(idx, steps, len),
    ensures
        0 <= i < len,
        distance(idx, i, len) == steps,
{
    if idx + steps < len {
        vstd::arithmetic::div_mod::lemma_small_mod((idx + steps) as nat, len as nat);
    } else {
        vstd::arithmetic::div_mod::lemma_mod_add_multiples_vanish(idx + steps - len, len);
        vstd::arithmetic::div_mod::lemma_small_mod((idx + steps - len) as nat, len as nat);
    }
}

/// A pass that ends without a value leaves the rotation where it was, however many pollers it
/// polled.
pub proof fn law_pass_without_value_keeps_position<P, T>(
    scans: Seq<ScanRecord<P>>,
    polls: Seq<PollRecord<P, T>>,
    len: int,
    last: ScanRecord<P>,
)
    requires
        one_pass(scans, polls, len),
        polls.len() > 0,
        last.valid(),
        last.step is Pending,
        last.pollers.len() == len,
        last.follows(polls.last()),
    ensures
        last.idx2 == scans[0].idx,
{
    let start = scans[0].idx;
    let poll = polls[polls.len() - 1];
    lemma_place_in_pass(scans, polls, len, polls.len() - 1, polls.len() - 1);
    assert(scans[polls.len() - 1].finds(poll, len));
    lemma_rotated_add(start, len - poll.left, 1, len);
    lemma_rotated_add(start, len - last.left, last.left, len);
    vstd::arithmetic::div_mod::lemma_mod_add_multiples_vanish(start, len);
    vstd::arithmetic::div_mod::lemma_small_mod(start as nat, len as nat);
}

/// One call of a merged stream: the polls of its pass with the searches that led to them, and the
/// search that ended it, if it was not a poll that did.
pub ghost struct MergeCall<P, T> {
    pub scans: Seq<ScanRecord<P>>,
    pub polls: Seq<PollRecord<P, T>>,
    pub end: Option<ScanRecord<P>>,
}

impl<P, T> MergeCall<P, T> {
    /// The call is one pass over `len` pollers up to its end, each search and each poll starting
    /// with the pollers that the last one left.
    pub open spec fn valid(self, len: int) -> bool {
        let n = self.polls.len() as int;
        &&& len > 0
        &&& one_pass(self.scans, self.polls, len)
        &&& forall|k: int|
            0 <= k < n ==> same_presence(
                (#[trigger] self.scans[k]).pollers,
                self.polls[k].pollers,
            )
        &&& forall|i: int, j: int|
            #![trigger self.polls[i], self.scans[j]]
            0 <= i < n && j == i + 1 && j < n ==> same_presence(
                self.polls[i].pollers2,
                self.scans[j].pollers,
            )
        &&& match self.end {
            Some(scan) => {
                &&& scan.valid()
                &&& scan.step !is Poll
                &&& scan.pollers.len() == len
                &&& if n > 0 {
                    &&& scan.follows(self.polls[n - 1])
                    &&& same_presence(self.polls[n - 1].pollers2, scan.pollers)
                } else {
                    0 <= scan.idx < len && scan.left == len
                }
            },
            None => n > 0 && self.polls[n - 1].turn !is Continue,
        }
    }

    /// What the call gives.
    pub open spec fn result(self) -> Poll<Option<T>> {
        match self.end {
            Some(scan) => if scan.step is End {
                Poll::Ready(None)
            } else {
                Poll::Pending
            },
            None => match self.polls.last().turn {
                Turn::Item(item) => Poll::Ready(Some(item)),
                _ => Poll::Ready(None),
            },
        }
    }

    /// The pollers before the call.
    pub open spec fn pollers(self) -> Seq<Option<P>> {
        if self.polls.len() > 0 {
            self.scans[0].pollers
        } else {
            self.end->Some_0.pollers
        }
    }

    /// The position before the call.
    pub open spec fn idx(self) -> int {
        if self.polls.len() > 0 {
            self.scans[0].idx
        } else {
            self.end->Some_0.idx
        }
    }

    /// The pollers after the call.
    pub open spec fn pollers2(self) -> Seq<Option<P>> {
        match self.end {
            Some(scan) => scan.pollers,
            None => self.polls.last().pollers2,
        }
    }

    /// The position after the call.
    pub open spec fn idx2(self) -> int {
        match self.end {
            Some(scan) => scan.idx2,
            None => self.polls.last().idx2,
        }
    }
}

/// What a whole call of a merged stream does. A poller that is through stays so. The call ends the
/// stream exactly if it yields no value and every poller is through by then. If it gives nothing
/// yet, the position is where it was and some poller is not through. A value is that of the last
/// poll.
pub proof fn law_merge_call<P, T>(call: MergeCall<P, T>, len: int)
    requires
        call.valid(len),
    ensures
        call.pollers().len() == call.pollers2().len() == len,
        0 <= call.idx2() < len,
        forall|i: int|
            0 <= i < len && (#[trigger] call.pollers()[i]) is None ==> call.pollers2()[i] is None,
        call.result() == Poll::Ready(None::<T>) <==> {
            &&& forall|k: int| 0 <= k < call.polls.len() ==> (#[trigger] call.polls[k]).turn !is Item
            &&& forall|i: int| 0 <= i < len ==> (#[trigger] call.pollers2()[i]) is None
        },
        call.result() is Pending ==> {
            &&& call.idx2() == call.idx()
            &&& exists|i: int| 0 <= i < len && (#[trigger] call.pollers2()[i]) is Some
        },
        call.result() matches Poll::Ready(Some(item)) ==> call.polls.last().turn == Turn::Item(
            item,
        ),
{
    let n = call.polls.len() as int;
    if n > 0 {
        let poll = call.polls[n - 1];
        assert(call.scans[n - 1].finds(poll, len));
        assert(call.scans[0].finds(call.polls[0], len));
        assert forall|i: int| 0 <= i < len && (#[trigger] call.pollers()[i]) is None implies call
            .pollers2()[i] is None by {
            lemma_gone_in_call(call, len, n - 1, i);
            if call.end is Some {
                assert(poll.pollers2[i] is Some <==> call.end->Some_0.pollers[i] is Some);
            }
        }
        assert forall|k: int| 0 <= k < n - 1 implies (#[trigger] call.polls[k]).turn is Continue by {
            assert(call.scans[k + 1].follows(call.polls[k]));
        }
        lemma_all_ended(poll.pollers2);
        lemma_position_in_range(poll.idx, 1, len);
    }
    let pollers2 = call.pollers2();
    lemma_all_ended(pollers2);
    if forall|i: int| 0 <= i < len ==> (#[trigger] pollers2[i]) is None {
        lemma_every_one_ended(pollers2);
    }
    match call.end {
        Some(scan) => {
            if n > 0 {
                lemma_same_ended(call.polls[n - 1].pollers2, scan.pollers);
            }
            lemma_position_in_range(scan.idx, 1, len);
            lemma_position_in_range(scan.idx, scan.left, len);
            if scan.step is Pending {
                if n > 0 {
                    law_pass_without_value_keeps_position(call.scans, call.polls, len, scan);
                } else {
                    law_idle_pass_keeps_position(
                        scan.pollers,
                        scan.flags,
                        scan.idx,
                        scan.flags2,
                        scan.idx2,
                        scan.left2,
                    );
                }
            }
        },
        None => {},
    }
}

/// Whether the flags of a call change by its searches and polls, and by wakeups in between, which
/// set flags and clear none.
pub open spec fn flags_carried<P, T>(call: MergeCall<P, T>, len: int) -> bool {
    let n = call.polls.len() as int;
    &&& forall|k: int|
        0 <= k < n ==> {
            &&& (#[trigger] call.scans[k]).flags.len() == len
            &&& call.polls[k].flags.len() == len
        }
    &&& forall|k: int, i: int|
        #![trigger call.polls[k], call.scans[k].flags2[i]]
        0 <= k < n && 0 <= i < len && call.scans[k].flags2[i].awoken
            ==> call.polls[k].flags[i].awoken
    &&& forall|j: int, k: int, i: int|
        #![trigger call.polls[j].flags2[i], call.scans[k]]
        0 <= j < n && k == j + 1 && k < n && 0 <= i < len && call.polls[j].flags2[i].awoken
            ==> call.scans[k].flags[i].awoken
    &&& call.end matches Some(scan) ==> {
        &&& scan.flags.len() == len
        &&& n > 0 ==> forall|i: int|
            0 <= i < len && (#[trigger] call.polls[n - 1].flags2[i]).awoken
                ==> scan.flags[i].awoken
    }
}

/// A call that gives nothing yet has polled every poller that was there and awoken when it started:
/// it passes over nobody.
pub proof fn law_no_awoken_poller_passed_over<P, T>(call: MergeCall<P, T>, len: int, i: int)
    requires
        call.valid(len),
        flags_carried(call, len),
        call.result() is Pending,
        0 <= i < len,
        call.pollers()[i] is Some,
        if call.polls.len() > 0 {
            call.scans[0].flags[i].awoken
        } else {
            call.end->Some_0.flags[i].awoken
        },
    ensures
        exists|k: int| 0 <= k < call.polls.len() && (#[trigger] call.polls[k]).idx == i,
{
    let n = call.polls.len() as int;
    let end = call.end->Some_0;
    if !(exists|k: int| 0 <= k < n && (#[trigger] call.polls[k]).idx == i) {
        let start = call.idx();
        if n > 0 {
            assert(call.scans[0].finds(call.polls[0], len));
        }
        let away = distance(start, i, len);
        lemma_distance(start, i, len);
        if n > 0 {
            lemma_still_due(call, len, n - 1, i);
            let poll = call.polls[n - 1];
            lemma_place_in_pass(call.scans, call.polls, len, n - 1, n - 1);
            assert(call.scans[n - 1].finds(poll, len));
            lemma_rotated_add(start, len - poll.left, 1, len);
            lemma_rotated_add(start, len - end.left, away - (len - end.left), len);
            assert(poll.pollers2[i] is Some <==> end.pollers[i] is Some);
            assert(call.polls[n - 1].flags2[i].awoken);
        }
        let j = away - (len - end.left);
        assert(rotated(end.idx, j, len) == i);
        assert(due(end.pollers, end.flags, rotated(end.idx, j, len)));
        assert(false);
    }
}

/// A poller that is there and awoken when a call starts and that the call has not polled is still
/// there and awoken, and the pass has not come to it.
proof fn lemma_still_due<P, T>(call: MergeCall<P, T>, len: int, k: int, i: int)
    requires
        call.valid(len),
        flags_carried(call, len),
        call.end is Some,
        0 <= k < call.polls.len(),
        0 <= i < len,
        call.pollers()[i] is Some,
        call.scans[0].flags[i].awoken,
        forall|m: int| 0 <= m < call.polls.len() ==> (#[trigger] call.polls[m]).idx != i,
    ensures
        call.polls[k].pollers2.len() == len,
        call.polls[k].pollers2[i] is Some,
        call.polls[k].flags2[i].awoken,
        distance(call.scans[0].idx, i, len) >= len - call.polls[k].left2,
    decreases k,
{
    let start = call.scans[0].idx;
    let scan = call.scans[k];
    let poll = call.polls[k];
    let away = distance(start, i, len);
    assert(call.scans[0].finds(call.polls[0], len));
    lemma_distance(start, i, len);
    assert(call.scans[k].finds(poll, len));
    assert(poll.turn is Continue) by {
        if k + 1 < call.polls.len() {
            assert(call.scans[k + 1].follows(call.polls[k]));
        }
    }
    assert(same_presence(call.scans[k].pollers, call.polls[k].pollers));
    if k > 0 {
        let last = call.polls[k - 1];
        lemma_still_due(call, len, k - 1, i);
        assert(call.scans[k - 1].finds(last, len));
        assert(call.scans[k].follows(call.polls[k - 1]));
        assert(same_presence(call.polls[k - 1].pollers2, call.scans[k].pollers));
        assert(last.pollers2[i] is Some <==> scan.pollers[i] is Some);
        lemma_place_in_pass(call.scans, call.polls, len, k - 1, k - 1);
        lemma_rotated_add(start, len - last.left, 1, len);
        assert(call.polls[k - 1].flags2[i].awoken && call.scans[k].flags[i].awoken);
    } else {
        vstd::arithmetic::div_mod::lemma_small_mod(start as nat, len as nat);
    }
    assert(scan.idx == rotated(start, len - scan.left, len));
    assert(due(scan.pollers, scan.flags, i));
    lemma_place_in_pass(call.scans, call.polls, len, k, k);
    if away < len - poll.left {
        let j = away - (len - scan.left);
        lemma_rotated_add(start, len - scan.left, j, len);
        assert(due(scan.pollers, scan.flags, rotated(scan.idx, j, len)));
        assert(false);
    }
    assert(away != len - poll.left);
    assert(scan.pollers[i] is Some <==> poll.pollers[i] is Some);
    assert(scan.flags2[i].awoken);
    assert(call.scans[k].flags2[i].awoken ==> call.polls[k].flags[i].awoken);
}

/// A poller that is through before a call is so after each of its polls.
proof fn lemma_gone_in_call<P, T>(call: MergeCall<P, T>, len: int, k: int, i: int)
    requires
        call.valid(len),
        0 <= k < call.polls.len(),
        0 <= i < len,
        call.pollers()[i] is None,
    ensures
        call.polls[k].pollers2.len() == len,
        call.polls[k].pollers2[i] is None,
    decreases k,
{
    let scan = call.scans[k];
    let poll = call.polls[k];
    assert(call.scans[k].finds(poll, len));
    assert(same_presence(call.scans[k].pollers, call.polls[k].pollers));
    if k > 0 {
        lemma_gone_in_call(call, len, k - 1, i);
        assert(same_presence(call.polls[k - 1].pollers2, call.scans[k].pollers));
        assert(call.polls[k - 1].pollers2[i] is Some <==> scan.pollers[i] is Some);
    }
    assert(scan.pollers[i] is Some <==> poll.pollers[i] is Some);
}

/// A rotation stands at one of the positions.
proof fn lemma_position_in_range(idx: int, steps: int, len: int)
    requires
        len > 0,
    ensures
        0 <= rotated(idx, steps, len) < len,
{
    vstd::arithmetic::div_mod::lemma_mod_bound(idx + steps, len);
}

/// Where the rotation stands at a poll goes by where the pass started and by how many pollers it
/// has still to look at, and these get fewer from one poll to the next.
proof fn lemma_place_in_pass<P, T>(
    scans: Seq<ScanRecord<P>>,
    polls: Seq<PollRecord<P, T>>,
    len: int,
    i: int,
    j: int,
)
    requires
        one_pass(scans, polls, len),
        0 <= i <= j < polls.len(),
    ensures
        0 < polls[j].left <= len,
        polls[j].idx == rotated(scans[0].idx, len - polls[j].left, len),
        i < j ==> polls[j].left < polls[i].left,
    decreases j,
{
    let start = scans[0].idx;
    let scan = scans[j];
    assert(scans[j].finds(polls[j], len));
    if j == 0 {
        lemma_rotated_add(start, 0, len - scan.left2, len);
        vstd::arithmetic::div_mod::lemma_small_mod(start as nat, len as nat);
    } else {
        let before = polls[j - 1];
        if i < j - 1 {
            lemma_place_in_pass(scans, polls, len, i, j - 1);
        } else {
            lemma_place_in_pass(scans, polls, len, j - 1, j - 1);
        }
        assert(scans[j - 1].finds(polls[j - 1], len));
        assert(scans[j].follows(polls[j - 1]));
        assert(before.idx2 == rotated(before.idx, 1, len));
        lemma_rotated_add(start, len - before.left, 1, len);
        lemma_rotated_add(start, len - scan.left, scan.left - scan.left2, len);
    }
}

/// With more and with fewer pollers left to look at, the rotation stands at different ones.
proof fn lemma_different_places(start: int, len: int, left1: int, left2: int)
    requires
        0 <= start < len,
        0 < left2 < left1 <= len,
    ensures
        rotated(start, len - left1, len) != rotated(start, len - left2, len),
{
    let a = start + len - left1;
    let b = start + len - left2;
    if a % len == b % len {
        vstd::arithmetic::div_mod::lemma_fundamental_div_mod(a, len);
        vstd::arithmetic::div_mod::lemma_fundamental_div_mod(b, len);
        let q = b / len - a / len;
        assert(len * q == b - a) by (nonlinear_arith)
            requires
                a == len * (a / len) + a % len,
                b == len * (b / len) + b % len,
                a % len == b % len,
                q == b / len - a / len,
        ;
        assert(q != 0);
        assert(len * q >= len || len * q <= -len) by (nonlinear_arith)
            requires
                len > 0,
                q != 0,
        ;
    }
}

/// Going round in two stretches is going round in one.
proof fn lemma_rotated_add(start: int, first: int, second: int, len: int)
    requires
        len > 0,
    ensures
        rotated(rotated(start, first, len), second, len) == rotated(start, first + second, len),
{
    vstd::arithmetic::div_mod::lemma_add_mod_noop(start + first, second, len);
    vstd::arithmetic::div_mod::lemma_mod_twice(start + first, len);
    vstd::arithmetic::div_mod::lemma_add_mod_noop((start + first) % len, second, len);
}

/// A pass that finds no poller to poll leaves the rotation where it was.
pub proof fn law_idle_pass_keeps_position<P>(
    pollers: Seq<Option<P>>,
    flags: Seq<FlagWaker>,
    idx: int,
    flags2: Seq<FlagWaker>,
    idx2: int,
    left2: int,
)
    requires
        0 <= idx < pollers.len(),
        scanned(
            pollers,
            flags,
            idx,
            pollers.len() as int,
            MergeStep::Pending,
            flags2,
            idx2,
            left2,
        ),
    ensures
        idx2 == idx,
        flags2 == flags,
{
    let n = pollers.len() as int;
    vstd::arithmetic::div_mod::lemma_mod_add_multiples_vanish(idx, n);
    vstd::arithmetic::div_mod::lemma_small_mod(idx as nat, n as nat);
}

/// With every poller still there, none has ended.
proof fn lemma_none_ended<P>(pollers: Seq<Option<P>>)
    requires
        forall|i: int| 0 <= i < pollers.len() ==> pollers[i] is Some,
    ensures
        ended(pollers) == 0,
    decreases pollers.len(),
{
    if pollers.len() > 0 {
        lemma_none_ended(pollers.drop_last());
    }
}

/// No more pollers can end than there are, and if all have, none is there any more.
proof fn lemma_all_ended<P>(pollers: Seq<Option<P>>)
    ensures
        ended(pollers) <= pollers.len(),
        ended(pollers) == pollers.len() ==> forall|i: int|
            0 <= i < pollers.len() ==> pollers[i] is None,
    decreases pollers.len(),
{
    if pollers.len() > 0 {
        lemma_all_ended(pollers.drop_last());
        if ended(pollers) == pollers.len() {
            assert forall|i: int| 0 <= i < pollers.len() implies pollers[i] is None by {
                if i < pollers.len() - 1 {
                    assert(pollers.drop_last()[i] is None);
                }
            }
        }
    }
}

/// A poller that ends is counted once.
proof fn lemma_one_more_ended<P>(pollers: Seq<Option<P>>, i: int)
    requires
        0 <= i < pollers.len(),
        pollers[i] is Some,
    ensures
        ended(pollers.update(i, None)) == ended(pollers) + 1,
    decreases pollers.len(),
{
    let after = pollers.update(i, None);
    if i == pollers.len() - 1 {
        assert(after.drop_last() =~= pollers.drop_last());
    } else {
        assert(after.drop_last() =~= pollers.drop_last().update(i, None));
        lemma_one_more_ended(pollers.drop_last(), i);
    }
}

/// The count of those that ended goes by who is still there.
proof fn lemma_same_ended<P>(a: Seq<Option<P>>, b: Seq<Option<P>>)
    requires
        same_presence(a, b),
    ensures
        ended(a) == ended(b),
    decreases a.len(),
{
    if a.len() > 0 {
        assert forall|i: int| 0 <= i < a.len() - 1 implies (#[trigger] a.drop_last()[i] is Some
            <==> b.drop_last()[i] is Some) by {
            assert(a[i] is Some <==> b[i] is Some);
        }
        lemma_same_ended(a.drop_last(), b.drop_last());
        assert(a[a.len() - 1] is Some <==> b[b.len() - 1] is Some);
    }
}

} // verus!
