//! The search for the first power of two whose decimal numeral holds every window value
//! `0..TARGET`, one block of exponents at a time; blocks that run side by side share a
//! stop mark, the least exponent found so far.
use vstd::prelude::*;
use vstd::arithmetic::power::pow;
use std::sync::atomic::{AtomicUsize, Ordering};
use crate::digits::{
    all_windows, canonical, is_window, le_value, lemma_canonical_unique, lemma_mul2_canonical,
    mark_windows, mul2, value_has_all_windows, MSlice, TARGET,
};

verus! {

/// How a block of exponents ended.
#[derive(Debug, Clone, Copy, PartialEq, Eq, Structural)]
pub enum BlockEnd {
    /// The stop mark was below this exponent, which was not tried.
    Stopped(u32),
    /// This exponent gives a numeral with every window value.
    Found(u32),
    /// No exponent of the block does.
    Finished,
}

/// The stop mark, as read now: other blocks may lower it at any time.
pub fn stop_mark(stop: &AtomicUsize) -> usize {
    stop.load(Ordering::Relaxed)
}

/// Lowers the stop mark to `k` if it is above.
fn lower_stop_mark(stop: &AtomicUsize, k: usize) {
    stop.fetch_min(k, Ordering::SeqCst);
}

/// None of the numbers `n * 2^j`, `1 <= j <= t`, has a numeral with every window value.
pub open spec fn none_found(n: int, t: int) -> bool {
    forall|j: int| 1 <= j <= t ==> !#[trigger] value_has_all_windows(n * pow(2, j as nat))
}

/// A read of the stop mark `stop` may have given `v`.
pub open spec fn mark_read(stop: &AtomicUsize, v: usize) -> bool {
    call_ensures(stop_mark, (stop,), v)
}

/// How the block of exponents `first..first + size` over the numeral of `n` may end, with
/// `stop` the shared stop mark: `Found(k)` at the first exponent whose numeral holds every
/// window value, after a read of the mark that was not below `k`; `Stopped(k)` before any
/// such exponent, only after a read of the mark below `k`; `Finished` when no exponent of the
/// block has such a numeral, the last one tried after a read not below it.
pub open spec fn block_end_ok(stop: &AtomicUsize, first: int, size: int, n: int, r: BlockEnd) -> bool {
    match r {
        BlockEnd::Found(k) => first <= k < first + size && none_found(n, k - first)
            && value_has_all_windows(n * pow(2, (k - first + 1) as nat))
            && exists|v: usize| #[trigger] mark_read(stop, v) && v >= k,
        BlockEnd::Stopped(k) => first <= k < first + size && none_found(n, k - first)
            && exists|v: usize| #[trigger] mark_read(stop, v) && v < k,
        BlockEnd::Finished => none_found(n, size)
            && (size > 0 ==> exists|v: usize| #[trigger] mark_read(stop, v) && v >= first + size - 1),
    }
}

/// A block ends at a stop only because a read of the stop mark was below the exponent it
/// stopped at: where no read of the mark can be below the block's exponents, the block ends
/// with the first exponent whose numeral holds every window value, or finishes when none
/// does.
pub proof fn lemma_block_unstopped(stop: &AtomicUsize, first: int, size: int, n: int, r: BlockEnd)
    requires
        block_end_ok(stop, first, size, n, r),
        forall|v: usize| #[trigger] mark_read(stop, v) ==> v >= first + size,
    ensures
        r !is Stopped,
        r matches BlockEnd::Found(k) ==> first <= k < first + size
            && value_has_all_windows(n * pow(2, (k - first + 1) as nat))
            && forall|j: int| 1 <= j <= k - first ==> !#[trigger] value_has_all_windows(n * pow(2, j as nat)),
        r is Finished ==> forall|j: int| 1 <= j <= size ==> !#[trigger] value_has_all_windows(n * pow(2, j as nat)),
{
    if let BlockEnd::Stopped(k) = r {
        let v = choose|v: usize| #[trigger] mark_read(stop, v) && v < k;
        assert(v >= first + size);
    }
}

/// What a block does at one exponent.
pub enum BlockStep {
    /// The stop mark was below the exponent: nothing was computed.
    Stop,
    /// The doubled numeral, which has every window value.
    Found(Vec<u8>),
    /// The doubled numeral, which lacks some window value.
    Next(Vec<u8>),
}

/// One exponent `k` of a block, with `mark` the stop mark as read: stops when the mark is
/// below `k`; else doubles `digits`, the numeral of `2^(k-1)` (little-endian), and tells
/// whether the numeral of the result, more than `TARGET` digits long, holds every window
/// value. `mask` starts and ends clear.
pub fn block_step(mark: usize, k: u32, digits: Vec<u8>, mask: &mut MSlice) -> (r: BlockStep)
    requires
        canonical(digits@),
        old(mask).wf(),
        old(mask)@ == Seq::new(TARGET as nat, |i: int| 0u8),
    ensures
        final(mask).wf(),
        final(mask)@ == Seq::new(TARGET as nat, |i: int| 0u8),
        r is Stop <==> mark < k,
        r matches BlockStep::Found(d) ==> canonical(d@) && le_value(d@) == 2 * le_value(digits@)
            && value_has_all_windows(le_value(d@)),
        r matches BlockStep::Next(d) ==> canonical(d@) && le_value(d@) == 2 * le_value(digits@)
            && !value_has_all_windows(le_value(d@)),
{
    if mark < k as usize {
        return BlockStep::Stop;
    }
    let ghost before = digits@;
    let doubled = mul2(digits);
    proof {
        lemma_mul2_canonical(before, doubled@);
    }
    let mut complete = false;
    if doubled.len() > TARGET as usize {
        mark_windows(&doubled, mask);
        let ghost marked = mask@;
        complete = mask.check_and_reset();
        proof {
            assert(complete == all_windows(doubled@)) by {
                if complete {
                    assert forall|v: int| 0 <= v < TARGET implies is_window(doubled@, v) by {
                    }
                } else {
                    if all_windows(doubled@) {
                        assert forall|v: int| 0 <= v < TARGET implies #[trigger] marked[v] != 0 by {
                            assert(is_window(doubled@, v));
                        }
                    }
                }
            }
        }
    }
    proof {
        if !complete && value_has_all_windows(le_value(doubled@)) {
            let s = choose|s: Seq<u8>| canonical(s) && le_value(s) == le_value(doubled@) && #[trigger] all_windows(s);
            lemma_canonical_unique(s, doubled@);
        }
    }
    if complete {
        BlockStep::Found(doubled)
    } else {
        BlockStep::Next(doubled)
    }
}

/// Doubles `num`, the numeral of `2^(cur_block_idx * block_size)`, through the block of
/// exponents `cur_block_idx * block_size + 1 ..= (cur_block_idx + 1) * block_size`, and stops
/// at the first exponent whose numeral, more than `TARGET` digits long, holds every window
/// value (lowering the shared stop mark to it), or before an exponent above the stop mark.
/// Each exponent is settled by [`block_step`] on the stop mark as read at that exponent; which
/// value a read gives depends on the other blocks, so the end is stated through the reads
/// that may have given it ([`block_end_ok`]): a stop only after a read below the exponent.
/// `num` is little-endian, least significant digit first; `mask` starts and ends clear.
pub fn inner_block(block_size: u32, cur_block_idx: u32, num: Vec<u8>, mask: &mut MSlice, stop: &AtomicUsize) -> (r: BlockEnd)
    requires
        cur_block_idx * block_size + block_size < u32::MAX,
        canonical(num@),
        old(mask).wf(),
        old(mask)@ == Seq::new(TARGET as nat, |i: int| 0u8),
    ensures
        final(mask).wf(),
        final(mask)@ == Seq::new(TARGET as nat, |i: int| 0u8),
        block_end_ok(stop, cur_block_idx * block_size + 1, block_size as int, le_value(num@), r),
{
    let first: u32 = cur_block_idx * block_size + 1;
    let end: u32 = first + block_size;
    let ghost n = le_value(num@);
    let mut digits = num;
    let mut curidx: u32 = first;
    proof {
        reveal(pow);
        assert(n * pow(2, 0) == n) by {
            assert(pow(2, 0) == 1);
        }
    }
    while curidx < end
        invariant
            first == cur_block_idx * block_size + 1,
            n == le_value(num@),
            first <= curidx <= end,
            end == first + block_size,
            end <= u32::MAX,
            canonical(digits@),
            le_value(digits@) == n * pow(2, (curidx - first) as nat),
            none_found(n, curidx - first),
            mask.wf(),
            mask@ == Seq::new(TARGET as nat, |i: int| 0u8),
            curidx > first ==> exists|v: usize| #[trigger] mark_read(stop, v) && v >= curidx - 1,
        decreases end - curidx,
    {
        let ghost before = digits@;
        let mark = stop_mark(stop);
        proof {
            assert(mark_read(stop, mark));
        }
        let step = block_step(mark, curidx, digits, mask);
        let j: Ghost<int> = Ghost(curidx + 1 - first);
        proof {
            reveal(pow);
            assert(pow(2, j@ as nat) == 2 * pow(2, (curidx - first) as nat));
            assert(2 * le_value(before) == n * pow(2, j@ as nat)) by (nonlinear_arith)
                requires
                    le_value(before) == n * pow(2, (curidx - first) as nat),
                    pow(2, j@ as nat) == 2 * pow(2, (curidx - first) as nat),
            ;
        }
        match step {
            BlockStep::Stop => {
                return BlockEnd::Stopped(curidx);
            }
            BlockStep::Found(d) => {
                lower_stop_mark(stop, curidx as usize);
                return BlockEnd::Found(curidx);
            }
            BlockStep::Next(d) => {
                proof {
                    assert forall|i: int| 1 <= i <= j@ implies !#[trigger] value_has_all_windows(n * pow(2, i as nat)) by {
                        if i < j@ {
                        }
                    }
                }
                digits = d;
            }
        }
        curidx += 1;
    }
    BlockEnd::Finished
}

} // verus!
