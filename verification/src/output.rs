//! Candidate answers and the order in which they replace one another.

use vstd::prelude::*;

verus! {

/// A starting value together with the number of Collatz steps it needs to
/// reach 1.
#[derive(Debug, Clone, Copy, PartialEq, Eq, Structural)]
pub struct Output {
    pub start: i128,
    pub count: i16,
}

/// The result of one scanned block, labelled with the block's index.
#[derive(Debug, Clone, Copy, PartialEq, Eq, Structural)]
pub struct ThreadOutput {
    pub output: Output,
    pub block: i64,
}

impl Output {
    /// Longer chains come first; of two chains of one length, the larger
    /// start comes first.
    pub open spec fn better_than(self, other: Output) -> bool {
        self.count > other.count || (self.count == other.count && self.start > other.start)
    }

    pub fn is_better_than(&self, other: &Output) -> (better: bool)
        ensures
            better == self.better_than(*other),
    {
        (self.count > other.count) || (self.count == other.count && self.start > other.start)
    }
}

/// `better_than` is a strict total order: no candidate beats itself, of two
/// different candidates exactly one beats the other, and beating carries
/// over a chain of three.
pub proof fn lemma_better_than_is_strict_total_order(a: Output, b: Output, c: Output)
    ensures
        !a.better_than(a),
        a != b ==> (a.better_than(b) <==> !b.better_than(a)),
        a == b ==> !a.better_than(b),
        a.better_than(b) && b.better_than(c) ==> a.better_than(c),
{
}

} // verus!
