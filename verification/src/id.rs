//! Identifiers that are never zero.

use vstd::prelude::*;

verus! {

/// A nonzero identifier.
#[derive(Debug, Clone, Copy, PartialEq, Eq, Structural, Hash)]
pub struct Id(usize);

/// Whether one number comes after another among identifiers: after the largest comes 1.
pub open spec fn succeeds(n: usize, next: usize) -> bool {
    next == if n == usize::MAX {
        1
    } else {
        n + 1
    }
}

impl Id {
    /// The number that the identifier stands for.
    pub closed spec fn number(self) -> usize {
        self.0
    }

    /// No identifier is zero.
    #[verifier::type_invariant]
    spec fn nonzero(self) -> bool {
        self.0 != 0
    }

    /// The identifier with number `n`.
    pub fn new(n: usize) -> (id: Id)
        requires
            n != 0,
        ensures
            id.number() == n,
    {
        Id(n)
    }

    /// The number that the identifier stands for.
    pub fn get(&self) -> (n: usize)
        ensures
            n == self.number(),
            n != 0,
    {
        proof {
            use_type_invariant(self);
        }
        self.0
    }

    /// The next identifier, which is 1 after the largest.
    pub fn overflowing_incr(&self) -> (next: Id)
        ensures
            succeeds(self.number(), next.number()),
    {
        match self.0.checked_add(1) {
            Some(next) => Id(next),
            None => Id::new(1),
        }
    }
}

/// The next identifier is another one and not zero. Over any run of identifiers that does not come
/// to the largest, none comes twice.
pub proof fn law_identifiers_differ(numbers: Seq<usize>)
    requires
        numbers.len() > 0,
        forall|i: int, j: int|
            #![trigger numbers[i], numbers[j]]
            0 <= i < numbers.len() && j == i + 1 && j < numbers.len() ==> succeeds(
                numbers[i],
                numbers[j],
            ),
    ensures
        forall|j: int| 0 < j < numbers.len() ==> #[trigger] numbers[j] != 0,
        numbers[0] + numbers.len() - 1 <= usize::MAX ==> forall|j: int|
            0 <= j < numbers.len() ==> #[trigger] numbers[j] == numbers[0] + j,
        numbers.len() > 1 && numbers[0] == usize::MAX ==> numbers[1] == 1,
{
    assert forall|j: int| 0 < j < numbers.len() implies #[trigger] numbers[j] != 0 by {
        assert(succeeds(numbers[j - 1], numbers[j]));
    }
    if numbers[0] + numbers.len() - 1 <= usize::MAX {
        assert forall|j: int| 0 <= j < numbers.len() implies #[trigger] numbers[j] == numbers[0]
            + j by {
            lemma_number_after(numbers, j);
        }
    }
    if numbers.len() > 1 {
        assert(succeeds(numbers[0], numbers[1]));
    }
}

/// The identifier that comes `j` after the first.
proof fn lemma_number_after(numbers: Seq<usize>, j: int)
    requires
        0 <= j < numbers.len(),
        numbers[0] + numbers.len() - 1 <= usize::MAX,
        forall|i: int, j: int|
            #![trigger numbers[i], numbers[j]]
            0 <= i < numbers.len() && j == i + 1 && j < numbers.len() ==> succeeds(
                numbers[i],
                numbers[j],
            ),
    ensures
        numbers[j] == numbers[0] + j,
    decreases j,
{
    if j > 0 {
        lemma_number_after(numbers, j - 1);
        assert(succeeds(numbers[j - 1], numbers[j]));
    }
}

} // verus!
