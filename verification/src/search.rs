//! The search over blocks: where each block lies, what one worker does with
//! a block, and the search that takes the blocks in order.

use vstd::prelude::*;
use crate::aggregate::{lemma_arrival_in_order, quiet_prefix, Action, Aggregator};
use crate::evaluation::RangeError;
use crate::output::{Output, ThreadOutput};
use crate::problem::Problem;
use crate::scan::{is_counted, lemma_scan_is_sound, scan};

verus! {

/// The result of the block with index `block`, scanned with the best
/// candidate `best`.
pub open spec fn block_scan(
    k: nat,
    bound: int,
    target: int,
    block_size: int,
    block: int,
    best: Output,
) -> Result<Output, RangeError> {
    scan(k, bound, target, block * block_size, (block + 1) * block_size, best)
}

/// The search that takes the blocks from `block` up to `blocks` in order.
/// Each block is scanned with the best candidate that the blocks before it
/// have left. The first result with a count above the target is the answer;
/// any other replaces the best candidate where it is better.
pub open spec fn search_from(
    k: nat,
    bound: int,
    target: int,
    block_size: int,
    block: int,
    blocks: int,
    best: Output,
) -> Result<Option<Output>, RangeError>
    decreases
            (if block < blocks {
                blocks - block
            } else {
                0
            }),
{
    if block >= blocks {
        Ok(None)
    } else {
        match block_scan(k, bound, target, block_size, block, best) {
            Err(e) => Err(e),
            Ok(found) => if found.count > target {
                Ok(Some(found))
            } else {
                search_from(
                    k,
                    bound,
                    target,
                    block_size,
                    block + 1,
                    blocks,
                    if found.better_than(best) {
                        found
                    } else {
                        best
                    },
                )
            },
        }
    }
}

/// The search over the first `blocks` blocks, from a best candidate with
/// start 0 and count 0.
pub open spec fn search(k: nat, bound: int, target: int, block_size: int, blocks: int) -> Result<
    Option<Output>,
    RangeError,
> {
    search_from(k, bound, target, block_size, 0, blocks, Output { start: 0, count: 0 })
}

/// An answer of the search is never made up: it is a start below the end
/// of the last block, with its own count, and that count is above the
/// target.
pub proof fn lemma_search_is_sound(
    problem: Problem,
    target: int,
    block_size: int,
    block: int,
    blocks: int,
    best: Output,
)
    requires
        problem.wf(),
        0 <= block,
        0 <= block_size,
        blocks * block_size <= i128::MAX,
        is_counted(best),
        best.start == 0 || best.start < blocks * block_size,
    ensures
        search_from(
            problem.window(),
            problem.cache_bound(),
            target,
            block_size,
            block,
            blocks,
            best,
        ) matches Ok(Some(found)) ==> {
            &&& found.count > target
            &&& is_counted(found)
            &&& found.start == 0 || found.start < blocks * block_size
        },
    decreases
            (if block < blocks {
                blocks - block
            } else {
                0
            }),
{
    if block < blocks {
        let k = problem.window();
        let bound = problem.cache_bound();
        let min = block * block_size;
        let max = (block + 1) * block_size;
        assert(0 <= min && max <= blocks * block_size) by (nonlinear_arith)
            requires
                0 <= block < blocks,
                0 <= block_size,
                min == block * block_size,
                max == (block + 1) * block_size,
        ;
        lemma_scan_is_sound(problem, target, min, max, best);
        match block_scan(k, bound, target, block_size, block, best) {
            Err(e) => {},
            Ok(found) => {
                if found.count <= target {
                    let next = if found.better_than(best) {
                        found
                    } else {
                        best
                    };
                    lemma_search_is_sound(problem, target, block_size, block + 1, blocks, next);
                }
            },
        }
    }
}

/// Where the block with index `block` begins and where it ends.
pub fn block_range(block: i64, block_size: i64) -> (range: (i128, i128))
    ensures
        range.0 == block * block_size,
        range.1 == (block + 1) * block_size,
{
    assert(-0x4000_0000_0000_0000_0000_0000_0000_0000 <= block * block_size
        <= 0x4000_0000_0000_0000_0000_0000_0000_0000) by (nonlinear_arith)
        requires
            -0x8000_0000_0000_0000 <= block <= 0x7fff_ffff_ffff_ffff,
            -0x8000_0000_0000_0000 <= block_size <= 0x7fff_ffff_ffff_ffff,
    ;
    assert((block + 1) * block_size == block * block_size + block_size) by (nonlinear_arith);
    let min = (block as i128) * (block_size as i128);
    (min, min + block_size as i128)
}

impl Problem {
    /// What a worker does with one block: it scans the block, with the best
    /// candidate it was given, and labels the result with the block's index.
    pub fn solve_block(&self, target: i16, block_size: i64, block: i64, best_output: Output) -> (sent:
        Result<ThreadOutput, RangeError>)
        requires
            self.wf(),
            block >= 0,
            block_size >= 0,
        ensures
            sent == (match block_scan(
                self.window(),
                self.cache_bound(),
                target as int,
                block_size as int,
                block as int,
                best_output,
            ) {
                Ok(found) => Ok(ThreadOutput { output: found, block: block }),
                Err(e) => Err(e),
            }),
    {
        let (min, max) = block_range(block, block_size);
        assert(min >= 0) by (nonlinear_arith)
            requires
                min == block * block_size,
                block >= 0,
                block_size >= 0,
        ;
        match self._solve(target, min, max, best_output) {
            Ok(found) => Ok(ThreadOutput { output: found, block: block }),
            Err(e) => Err(e),
        }
    }

    /// Searches the first `blocks` blocks in order, handing each result to
    /// an aggregator, and returns the answer if one of them holds it.
    pub fn solve_in_order(&self, target: i16, block_size: i64, blocks: i64) -> (found: Result<
        Option<Output>,
        RangeError,
    >)
        requires
            self.wf(),
            block_size >= 0,
        ensures
            found == search(
                self.window(),
                self.cache_bound(),
                target as int,
                block_size as int,
                blocks as int,
            ),
            found matches Ok(Some(output)) ==> output.count > target && is_counted(output),
    {
        let ghost k = self.window();
        let ghost bound = self.cache_bound();
        let ghost goal = search(k, bound, target as int, block_size as int, blocks as int);
        proof {
            assert(blocks * block_size <= i128::MAX) by (nonlinear_arith)
                requires
                    blocks <= 0x7fff_ffff_ffff_ffff,
                    0 <= block_size <= 0x7fff_ffff_ffff_ffff,
            ;
            lemma_search_is_sound(
                *self,
                target as int,
                block_size as int,
                0,
                blocks as int,
                Output { start: 0, count: 0 },
            );
        }
        let mut aggregator = Aggregator::new(target);
        let mut block: i64 = 0;
        while block < blocks
            invariant
                self.wf(),
                k == self.window(),
                bound == self.cache_bound(),
                block_size >= 0,
                0 <= block,
                aggregator@.target == target,
                forall|b: i64| aggregator@.received.contains_key(b) <==> 0 <= b < block,
                quiet_prefix(aggregator@.received, target as int, block as int),
                forall|b: i64|
                    0 <= b < block ==> !(#[trigger] aggregator@.received[b]).better_than(
                        aggregator@.best,
                    ),
                goal == search(k, bound, target as int, block_size as int, blocks as int),
                goal matches Ok(Some(output)) ==> output.count > target && is_counted(output),
                goal == search_from(
                    k,
                    bound,
                    target as int,
                    block_size as int,
                    block as int,
                    blocks as int,
                    aggregator@.best,
                ),
            decreases blocks - block,
        {
            let ghost before = aggregator@;
            let message = match self.solve_block(target, block_size, block, aggregator.best()) {
                Ok(message) => message,
                Err(e) => {
                    return Err(e);
                },
            };
            let action = aggregator.accept(message);
            proof {
                lemma_arrival_in_order(
                    before.received,
                    before.best,
                    target as int,
                    block,
                    message.output,
                );
            }
            match action {
                Action::Finish(output) => {
                    return Ok(Some(output));
                },
                _ => {},
            }
            block += 1;
        }
        Ok(None)
    }
}

} // verus!
