//! The flag that tells whether one of several futures was awoken.

use vstd::prelude::*;

verus! {

/// Remembers that a future was awoken since it was last looked at.
#[derive(Debug, Clone, Copy, PartialEq, Eq, Structural)]
pub struct FlagWaker {
    /// Whether the future was awoken.
    pub awoken: bool,
}

/// What looking at a flag does: it tells whether the flag was set, and clears it.
pub open spec fn checks(before: FlagWaker, awoken: bool, after: FlagWaker) -> bool {
    awoken == before.awoken && !after.awoken
}

impl FlagWaker {
    /// A flag that is set, so that the future gets polled the first time.
    pub fn new() -> (flag: FlagWaker)
        ensures
            flag.awoken,
    {
        FlagWaker { awoken: true }
    }

    /// Tells whether the flag was set, and clears it.
    pub fn check_awoken(&mut self) -> (awoken: bool)
        ensures
            checks(*old(self), awoken, *final(self)),
    {
        let awoken = self.awoken;
        self.awoken = false;
        awoken
    }

    /// Sets the flag.
    pub fn set_awoken(&mut self)
        ensures
            final(self).awoken,
    {
        self.awoken = true;
    }

    /// One set flag for each of `n` futures.
    pub fn for_each(n: usize) -> (flags: Vec<FlagWaker>)
        ensures
            flags@ == Seq::new(n as nat, |i: int| FlagWaker { awoken: true }),
    {
        let mut flags: Vec<FlagWaker> = Vec::new();
        while flags.len() < n
            invariant
                flags.len() <= n,
                forall|i: int| 0 <= i < flags.len() ==> flags@[i].awoken,
            decreases n - flags.len(),
        {
            flags.push(FlagWaker::new());
        }
        flags
    }
}

/// What happens to a flag.
pub ghost enum FlagStep {
    /// It is looked at.
    Check { awoken: bool },
    /// It is set.
    Wake,
}

/// Whether a step leads from one state of the flag to the next.
pub open spec fn flag_steps_to(before: FlagWaker, step: FlagStep, after: FlagWaker) -> bool {
    match step {
        FlagStep::Check { awoken } => checks(before, awoken, after),
        FlagStep::Wake => after.awoken,
    }
}

/// Whether the flag is looked at after step `j` and before step `k`.
pub open spec fn checked_between(steps: Seq<FlagStep>, j: int, k: int) -> bool {
    exists|c: int| j < c < k && 0 <= c && #[trigger] steps[c] is Check
}

/// Whether, before step `k`, the flag was made or set since it was last looked at.
pub open spec fn set_since_check(steps: Seq<FlagStep>, k: int) -> bool {
    ||| !checked_between(steps, -1, k)
    ||| exists|j: int| 0 <= j < k && steps[j] is Wake && !#[trigger] checked_between(steps, j, k)
}

/// A flag tells, when it is looked at, exactly whether it was made or set since it was last looked
/// at, and is clear after that.
pub proof fn law_awoken_iff_set_since_check(states: Seq<FlagWaker>, steps: Seq<FlagStep>)
    requires
        states.len() == steps.len() + 1,
        states[0].awoken,
        forall|i: int, j: int|
            #![trigger states[i], states[j]]
            0 <= i < steps.len() && j == i + 1 ==> flag_steps_to(states[i], steps[i], states[j]),
    ensures
        forall|k: int|
            0 <= k < states.len() ==> ((#[trigger] states[k]).awoken <==> set_since_check(
                steps,
                k,
            )),
        forall|k: int|
            0 <= k < steps.len() ==> (#[trigger] steps[k] matches FlagStep::Check { awoken } ==> {
                &&& awoken == set_since_check(steps, k)
                &&& !states[k + 1].awoken
            }),
{
    assert forall|k: int| 0 <= k < states.len() implies ((#[trigger] states[k]).awoken
        <==> set_since_check(steps, k)) by {
        if k > 0 {
            assert(flag_steps_to(states[k - 1], steps[k - 1], states[k]));
            if steps[k - 1] is Wake {
                assert(!checked_between(steps, k - 1, k));
            } else {
                assert forall|j: int| -1 <= j < k - 1 implies #[trigger] checked_between(
                    steps,
                    j,
                    k,
                ) by {
                    assert(steps[k - 1] is Check);
                }
                assert(checked_between(steps, -1, k));
            }
        }
    }
    assert forall|k: int| 0 <= k < steps.len() implies (#[trigger] steps[k] matches FlagStep::Check {
        awoken,
    } ==> awoken == set_since_check(steps, k) && !states[k + 1].awoken) by {
        assert(flag_steps_to(states[k], steps[k], states[k + 1]));
    }
}

} // verus!
