//! Merging the results of blocks that arrive in any order: nothing is acted
//! on before every block below it has arrived.

use std::collections::HashMap;
use vstd::prelude::*;
use crate::output::{Output, ThreadOutput};

verus! {

broadcast use vstd::std_specs::hash::group_hash_axioms;

/// What the caller is to do after a result has been taken in.
#[derive(Debug, Clone, Copy, PartialEq, Eq, Structural)]
pub enum Action {
    /// Nothing has changed: wait for the next result.
    Wait,
    /// The best known candidate has been raised to this one: make it known
    /// to the workers.
    Publish(Output),
    /// The search is over, and this is its answer.
    Finish(Output),
}

/// The blocks `0 .. len` have all arrived, none with a count above the
/// target.
pub open spec fn quiet_prefix(received: Map<i64, Output>, target: int, len: int) -> bool {
    forall|b: i64|
        0 <= b < len ==> #[trigger] received.contains_key(b) && received[b].count <= target
}

/// `at` is where acting on the results stops: at the first block that has
/// not arrived or whose count is above the target, or behind the last block
/// there can be.
pub open spec fn stops_at(received: Map<i64, Output>, target: int, at: int) -> bool {
    &&& 0 <= at <= i64::MAX + 1
    &&& quiet_prefix(received, target, at)
    &&& at <= i64::MAX ==> !received.contains_key(at as i64) || received[at as i64].count > target
}

/// The index at which acting on the results stops.
pub open spec fn stop_index(received: Map<i64, Output>, target: int) -> int {
    choose|at: int| stops_at(received, target, at)
}

/// The answer that the results hold: the result of the lowest block whose
/// count is above the target, once every block below it has arrived.
pub open spec fn answer(received: Map<i64, Output>, target: int) -> Option<Output> {
    let at = stop_index(received, target);
    if at <= i64::MAX && received.contains_key(at as i64) {
        Some(received[at as i64])
    } else {
        None
    }
}

/// The best candidate after the results of the blocks `0 .. len` have been
/// taken in order, each one replacing the best so far where it is better.
pub open spec fn merged_best(received: Map<i64, Output>, seed: Output, len: nat) -> Output
    decreases len,
{
    if len == 0 {
        seed
    } else {
        let before = merged_best(received, seed, (len - 1) as nat);
        let result = received[(len - 1) as i64];
        if result.better_than(before) {
            result
        } else {
            before
        }
    }
}

/// The action that goes with an answer, or with the best candidate before
/// and after.
pub open spec fn action_for(answer: Option<Output>, before: Output, after: Output) -> Action {
    match answer {
        Some(output) => Action::Finish(output),
        None => if after != before {
            Action::Publish(after)
        } else {
            Action::Wait
        },
    }
}

proof fn lemma_stop_exists_from(received: Map<i64, Output>, target: int, at: int)
    requires
        0 <= at <= i64::MAX + 1,
        quiet_prefix(received, target, at),
    ensures
        exists|s: int| stops_at(received, target, s),
    decreases i64::MAX + 1 - at,
{
    if at <= i64::MAX && received.contains_key(at as i64) && received[at as i64].count <= target {
        lemma_stop_exists_from(received, target, at + 1);
    } else {
        assert(stops_at(received, target, at));
    }
}

/// Acting on the results stops at exactly one index.
pub proof fn lemma_stop_index(received: Map<i64, Output>, target: int)
    ensures
        stops_at(received, target, stop_index(received, target)),
        forall|at: int| #[trigger]
            stops_at(received, target, at) ==> at == stop_index(received, target),
{
    lemma_stop_exists_from(received, target, 0);
    let stop = stop_index(received, target);
    assert forall|at: int| #[trigger] stops_at(received, target, at) implies at == stop by {
        if at < stop {
            assert(received.contains_key(at as i64));
        } else if stop < at {
            assert(received.contains_key(stop as i64));
        }
    }
}

/// The answer is the result of the lowest block that qualifies. Where some
/// block has a count above the target and every block below it has
/// arrived, there is an answer, and it is the result of a block at or below
/// that one, above the target, with no block below it above the target.
pub proof fn lemma_answer_is_lowest_qualifying_block(
    received: Map<i64, Output>,
    target: int,
    block: i64,
)
    requires
        0 <= block,
        forall|b: i64| 0 <= b <= block ==> received.contains_key(b),
        received[block].count > target,
    ensures
        answer(received, target) is Some,
        exists|low: i64|
            {
                &&& 0 <= low <= block
                &&& answer(received, target) == Some(#[trigger] received[low])
                &&& received[low].count > target
                &&& forall|b: i64| 0 <= b < low ==> received[b].count <= target
            },
{
    lemma_stop_index(received, target);
    let stop = stop_index(received, target);
    if stop > block {
        assert(received.contains_key(block));
        assert(received[block].count <= target);
    }
    let low = stop as i64;
    assert(received.contains_key(low));
    assert(answer(received, target) == Some(received[low]));
    assert forall|b: i64| 0 <= b < low implies received[b].count <= target by {
        assert(received.contains_key(b));
    }
}

/// An answer does not depend on what arrives later: results of further
/// blocks, none of them replacing one that is there, leave it as it is.
pub proof fn lemma_answer_is_stable(
    received: Map<i64, Output>,
    later: Map<i64, Output>,
    target: int,
)
    requires
        forall|b: i64| received.contains_key(b) ==> later.contains_key(b) && later[b] == received[b],
        answer(received, target) is Some,
    ensures
        answer(later, target) == answer(received, target),
{
    lemma_stop_index(received, target);
    lemma_stop_index(later, target);
    let stop = stop_index(received, target);
    assert(received.contains_key(stop as i64));
    assert(stops_at(later, target, stop)) by {
        assert forall|b: i64| 0 <= b < stop implies later.contains_key(b) && later[b].count
            <= target by {
            assert(received.contains_key(b));
        }
    }
}

/// An answer does not depend on the order of arrival. Two runs in which
/// every block that arrives in both has the same result, each far enough to
/// hold an answer, hold the same answer.
pub proof fn lemma_answer_is_independent_of_order(
    first: Map<i64, Output>,
    second: Map<i64, Output>,
    target: int,
)
    requires
        forall|b: i64| first.contains_key(b) && second.contains_key(b) ==> first[b] == second[b],
        answer(first, target) is Some,
        answer(second, target) is Some,
    ensures
        answer(first, target) == answer(second, target),
{
    lemma_stop_index(first, target);
    lemma_stop_index(second, target);
    let one = stop_index(first, target);
    let two = stop_index(second, target);
    assert(first.contains_key(one as i64));
    assert(second.contains_key(two as i64));
    if one < two {
        assert(second.contains_key(one as i64));
        assert(second[one as i64].count <= target);
    } else if two < one {
        assert(first.contains_key(two as i64));
        assert(first[two as i64].count <= target);
    }
}

/// The merged best candidate is the seed or one of the results merged, and
/// none of them is better than it.
pub proof fn lemma_merged_best_is_maximal(
    received: Map<i64, Output>,
    seed: Output,
    len: nat,
    b: i64,
)
    requires
        0 <= b < len <= i64::MAX + 1,
    ensures
        !seed.better_than(merged_best(received, seed, len)),
        !received[b].better_than(merged_best(received, seed, len)),
        merged_best(received, seed, len) == seed || exists|from: i64|
            0 <= from < len && merged_best(received, seed, len) == #[trigger] received[from],
    decreases len,
{
    lemma_merged_best_from(received, seed, (len - 1) as nat);
    if b < len - 1 {
        lemma_merged_best_is_maximal(received, seed, (len - 1) as nat, b);
    }
    let last = (len - 1) as i64;
    assert(merged_best(received, seed, len) == received[last] || merged_best(received, seed, len)
        == merged_best(received, seed, (len - 1) as nat));
}

/// Results of which none is better than the seed leave the seed as it is.
pub proof fn lemma_merged_best_keeps_seed(received: Map<i64, Output>, seed: Output, len: nat)
    requires
        len <= i64::MAX + 1,
        forall|b: i64| 0 <= b < len ==> !(#[trigger] received[b]).better_than(seed),
    ensures
        merged_best(received, seed, len) == seed,
    decreases len,
{
    if len > 0 {
        lemma_merged_best_keeps_seed(received, seed, (len - 1) as nat);
        let last = (len - 1) as i64;
        assert(!received[last].better_than(seed));
    }
}

/// Results that arrive in block order are acted on one at a time. When the
/// blocks below `block` have arrived, none with a count above the target
/// and none better than `best`, the result of `block` is the answer where
/// its count is above the target; otherwise there is no answer yet, and the
/// merged best candidate is the better of `best` and that result.
pub proof fn lemma_arrival_in_order(
    before: Map<i64, Output>,
    best: Output,
    target: int,
    block: i64,
    result: Output,
)
    requires
        0 <= block,
        forall|b: i64| before.contains_key(b) <==> 0 <= b < block,
        quiet_prefix(before, target, block as int),
        forall|b: i64| 0 <= b < block ==> !(#[trigger] before[b]).better_than(best),
    ensures
        ({
            let received = before.insert(block, result);
            let merged = merged_best(received, best, stop_index(received, target) as nat);
            let better = if result.better_than(best) {
                result
            } else {
                best
            };
            &&& forall|b: i64| received.contains_key(b) <==> 0 <= b < block + 1
            &&& result.count > target ==> answer(received, target) == Some(result) && merged
                == best
            &&& result.count <= target ==> {
                &&& answer(received, target) is None
                &&& merged == better
                &&& quiet_prefix(received, target, block + 1)
                &&& forall|b: i64| 0 <= b < block + 1 ==> !(#[trigger] received[b]).better_than(better)
            }
        }),
{
    let received = before.insert(block, result);
    lemma_stop_index(received, target);
    assert forall|b: i64| 0 <= b < block implies #[trigger] received.contains_key(b)
        && received[b].count <= target && !received[b].better_than(best) by {
        assert(before.contains_key(b));
        assert(received[b] == before[b]);
    }
    lemma_merged_best_keeps_seed(received, best, block as nat);
    if result.count > target {
        assert(stops_at(received, target, block as int));
    } else {
        assert(received[block] == result);
        assert(quiet_prefix(received, target, block + 1));
        if block < i64::MAX {
            assert(!before.contains_key((block + 1) as i64));
        }
        assert(stops_at(received, target, block + 1));
        assert(merged_best(received, best, (block + 1) as nat) == (if result.better_than(
            merged_best(received, best, block as nat),
        ) {
            result
        } else {
            merged_best(received, best, block as nat)
        }));
    }
}

proof fn lemma_merged_best_from(received: Map<i64, Output>, seed: Output, len: nat)
    requires
        len <= i64::MAX + 1,
    ensures
        !seed.better_than(merged_best(received, seed, len)),
        merged_best(received, seed, len) == seed || exists|from: i64|
            0 <= from < len && merged_best(received, seed, len) == #[trigger] received[from],
    decreases len,
{
    if len > 0 {
        lemma_merged_best_from(received, seed, (len - 1) as nat);
        let last = (len - 1) as i64;
        assert(merged_best(received, seed, len) == received[last] || merged_best(
            received,
            seed,
            len,
        ) == merged_best(received, seed, (len - 1) as nat));
    }
}

/// The buffer of block results and the best candidate known so far.
pub struct Aggregator {
    target: i16,
    best: Output,
    outputs: HashMap<i64, Output>,
}

/// What an aggregator holds.
pub struct AggregatorView {
    pub target: int,
    pub best: Output,
    pub received: Map<i64, Output>,
}

impl View for Aggregator {
    type V = AggregatorView;

    closed spec fn view(&self) -> AggregatorView {
        AggregatorView { target: self.target as int, best: self.best, received: self.outputs@ }
    }
}

impl Aggregator {
    /// An aggregator that has received nothing. Its best candidate is the
    /// start 0 with count 0.
    pub fn new(target: i16) -> (made: Aggregator)
        ensures
            made@.target == target,
            made@.best == (Output { start: 0, count: 0 }),
            made@.received == Map::<i64, Output>::empty(),
    {
        Aggregator { target: target, best: Output { start: 0, count: 0 }, outputs: HashMap::new() }
    }

    /// The best candidate known so far.
    pub fn best(&self) -> (best: Output)
        ensures
            best == self@.best,
    {
        self.best
    }

    /// Takes in the result of one block, then acts on the results from
    /// block 0 upwards for as long as they are there. A result with a count
    /// above the target ends the search; any other replaces the best
    /// candidate where it is better.
    pub fn accept(&mut self, message: ThreadOutput) -> (action: Action)
        ensures
            final(self)@.target == old(self)@.target,
            final(self)@.received == old(self)@.received.insert(message.block, message.output),
            final(self)@.best == merged_best(
                final(self)@.received,
                old(self)@.best,
                stop_index(final(self)@.received, old(self)@.target) as nat,
            ),
            action == action_for(
                answer(final(self)@.received, old(self)@.target),
                old(self)@.best,
                final(self)@.best,
            ),
    {
        let before = self.best;
        self.outputs.insert(message.block, message.output);
        let ghost received = self.outputs@;
        let ghost target = self.target as int;
        proof {
            lemma_stop_index(received, target);
        }
        let mut i: u64 = 0;
        while i <= i64::MAX as u64
            invariant
                0 <= i <= i64::MAX + 1,
                self.outputs@ == received,
                received == old(self).outputs@.insert(message.block, message.output),
                before == old(self).best,
                self.target == target,
                self.target == old(self).target,
                quiet_prefix(received, target, i as int),
                self.best == merged_best(received, before, i as nat),
                forall|at: int| #[trigger]
                    stops_at(received, target, at) ==> at == stop_index(received, target),
            ensures
                stops_at(received, target, i as int),
                i <= i64::MAX ==> !received.contains_key(i as i64),
            decreases i64::MAX + 1 - i,
        {
            match self.outputs.get(&(i as i64)) {
                Some(result) => {
                    if result.count > self.target {
                        assert(stops_at(received, target, i as int));
                        return Action::Finish(*result);
                    } else if result.is_better_than(&self.best) {
                        self.best = *result;
                    }
                },
                None => {
                    break ;
                },
            }
            i += 1;
        }
        if self.best != before {
            Action::Publish(self.best)
        } else {
            Action::Wait
        }
    }
}

} // verus!
