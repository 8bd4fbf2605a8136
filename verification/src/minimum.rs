//! Searching the index at which a cost function is least: by a scan where the
//! range is short, and else by sampling ever narrower brackets.

use vstd::prelude::*;

verus! {

/// A cost beyond every cost that is ever computed.
pub const LARGE_COST: u64 = 0xffff_ffff_ffff_ffff;

/// Ranges shorter than this are scanned.
pub const SCAN_LIMIT: usize = 1024;

/// Number of samples taken in a bracket.
pub const NUM_SAMPLES: usize = 9;

/// The first index in `start..end` at which `cost` is least.
pub open spec fn first_min(cost: spec_fn(int) -> u64, start: int, end: int) -> int
    decreases end - start,
{
    if end - start <= 1 {
        start
    } else {
        let best = first_min(cost, start, end - 1);
        if cost(end - 1) < cost(best) {
            end - 1
        } else {
            best
        }
    }
}

/// Sample `i` of the bracket `start..end`: the samples lie a tenth of the
/// bracket apart, the first one a tenth of the bracket after `start`.
pub open spec fn sample_point(start: int, end: int, i: int) -> int {
    start + (i + 1) * ((end - start) / 10)
}

/// The cost at each sample of a bracket.
pub open spec fn sample_costs(cost: spec_fn(int) -> u64, start: int, end: int) -> spec_fn(
    int,
) -> u64 {
    |i: int| cost(sample_point(start, end, i))
}

/// Number of the first sample at which the cost is least.
pub open spec fn best_sample(cost: spec_fn(int) -> u64, start: int, end: int) -> int {
    first_min(sample_costs(cost, start, end), 0, 9)
}

/// The search by samples, from the bracket `start..end`, where `pos` with the
/// cost `lastbest` is the best sample of the round before.
///
/// A bracket of at most 9 indices is scanned. In a wider one 9 samples are
/// taken. If the best of them is not better than `lastbest`, the search ends
/// with `pos`; else it goes on between the two samples next to the best one.
pub open spec fn coarse_search(
    cost: spec_fn(int) -> u64,
    start: int,
    end: int,
    pos: int,
    lastbest: u64,
) -> (int, u64)
    decreases end - start,
{
    if end - start <= 9 {
        (first_min(cost, start, end), cost(first_min(cost, start, end)))
    } else {
        let b = best_sample(cost, start, end);
        let best = cost(sample_point(start, end, b));
        if best >= lastbest {
            (pos, lastbest)
        } else {
            proof {
                lemma_first_min(sample_costs(cost, start, end), 0, 9);
                lemma_samples_inside(start, end, b);
                if b > 0 {
                    lemma_samples_inside(start, end, b - 1);
                }
                if b < 8 {
                    lemma_samples_inside(start, end, b + 1);
                }
            }
            coarse_search(
                cost,
                if b == 0 {
                    start
                } else {
                    sample_point(start, end, b - 1)
                },
                if b == 8 {
                    end
                } else {
                    sample_point(start, end, b + 1)
                },
                sample_point(start, end, b),
                best,
            )
        }
    }
}

/// What the search for the minimum of `cost` in `start..end` gives: an index
/// and the cost there.
pub open spec fn minimum_search(cost: spec_fn(int) -> u64, start: int, end: int) -> (int, u64) {
    if end - start < 1024 {
        (first_min(cost, start, end), cost(first_min(cost, start, end)))
    } else {
        coarse_search(cost, start, end, start, LARGE_COST)
    }
}

/// `cost` is what `f` computes with `context`: whatever a call returns is the
/// value of `cost` at the index.
pub open spec fn computes_cost<C, F: Fn(usize, &C) -> u64>(
    f: &F,
    context: &C,
    cost: spec_fn(int) -> u64,
) -> bool {
    forall|i: usize, v: u64| #[trigger] call_ensures(f, (i, context), v) ==> v == cost(i as int)
}

/// The first minimum lies in the range, nothing in the range costs less, and
/// nothing before it costs as little.
pub proof fn lemma_first_min(cost: spec_fn(int) -> u64, start: int, end: int)
    requires
        start < end,
    ensures
        start <= first_min(cost, start, end) < end,
        forall|j: int| start <= j < end ==> cost(first_min(cost, start, end)) <= #[trigger] cost(j),
        forall|j: int|
            start <= j < first_min(cost, start, end) ==> cost(first_min(cost, start, end))
                < #[trigger] cost(j),
    decreases end - start,
{
    if end - start > 1 {
        lemma_first_min(cost, start, end - 1);
    }
}

/// The samples of a bracket wider than 9 lie inside it, in ascending order.
pub proof fn lemma_samples_inside(start: int, end: int, i: int)
    requires
        end - start > 9,
        0 <= i < 9,
    ensures
        (end - start) / 10 >= 1,
        sample_point(start, end, i) == start + (i + 1) * ((end - start) / 10),
        start < sample_point(start, end, i) < end,
        sample_point(start, end, i) + (end - start) / 10 <= end,
        i < 8 ==> sample_point(start, end, i + 1) == sample_point(start, end, i) + (end - start)
            / 10,
{
    let step = (end - start) / 10;
    assert(step >= 1);
    assert(10 * step <= end - start);
    assert((i + 1) * step <= 9 * step) by (nonlinear_arith)
        requires
            0 <= i < 9,
            step >= 1,
    ;
    assert((i + 1) * step >= step) by (nonlinear_arith)
        requires
            0 <= i < 9,
            step >= 1,
    ;
    assert((i + 2) * step == (i + 1) * step + step) by (nonlinear_arith);
}

/// Scans `start..end` for the first index of least cost.
fn scan<C, F: Fn(usize, &C) -> u64>(f: &F, context: &C, start: usize, end: usize) -> (r: (
    usize,
    u64,
))
    requires
        start < end,
        forall|i: usize| start <= i < end ==> call_requires(f, (i, context)),
    ensures
        start <= r.0 < end,
        forall|cost: spec_fn(int) -> u64| #[trigger]
            computes_cost(f, context, cost) ==> r.0 == first_min(cost, start as int, end as int)
                && r.1 == cost(r.0 as int),
{
    let mut best = LARGE_COST;
    let mut result = start;
    let mut i = start;
    while i < end
        invariant
            start <= i <= end,
            start <= result < end,
            result <= i,
            forall|i: usize| start <= i < end ==> call_requires(f, (i, context)),
            forall|cost: spec_fn(int) -> u64| #[trigger]
                computes_cost(f, context, cost) ==> (if i == start {
                    result == start && best == LARGE_COST
                } else {
                    result == first_min(cost, start as int, i as int) && best == cost(result as int)
                }),
        decreases end - i,
    {
        let v = f(i, context);
        let ghost old_result = result;
        let ghost old_best = best;
        let take = v < best;
        if take {
            best = v;
            result = i;
        }
        proof {
            assert forall|cost: spec_fn(int) -> u64| #[trigger]
                computes_cost(f, context, cost) implies result == first_min(
                cost,
                start as int,
                i + 1,
            ) && best == cost(result as int) by {
                assert(v == cost(i as int));
                if i == start {
                } else {
                    assert(old_result == first_min(cost, start as int, i as int));
                }
            }
        }
        i += 1;
    }
    (result, best)
}

/// Finds the minimum of `f(i, context)` for `i` in `start..end`. Returns the
/// index and the value there.
///
/// A range of fewer than `SCAN_LIMIT` indices is scanned, and the first index
/// of least value is found. A longer range is searched by samples, which finds
/// the minimum of a function with a single valley, and of others what
/// `minimum_search` says.
#[allow(non_snake_case)]
pub fn FindMinimum<C, F: Fn(usize, &C) -> u64>(f: &F, context: &C, start: usize, end: usize) -> (r:
    (usize, u64))
    requires
        start < end,
        forall|i: usize| start <= i < end ==> call_requires(f, (i, context)),
    ensures
        start <= r.0 < end,
        forall|cost: spec_fn(int) -> u64| #[trigger]
            computes_cost(f, context, cost) ==> (r.0 as int, r.1) == minimum_search(
                cost,
                start as int,
                end as int,
            ),
{
    if end - start < SCAN_LIMIT {
        return scan(f, context, start, end);
    }
    let mut lo = start;
    let mut hi = end;
    let mut pos = start;
    let mut lastbest = LARGE_COST;
    while hi - lo > NUM_SAMPLES
        invariant
            start <= lo <= pos < hi <= end,
            forall|i: usize| start <= i < end ==> call_requires(f, (i, context)),
            forall|cost: spec_fn(int) -> u64| #[trigger]
                computes_cost(f, context, cost) ==> coarse_search(
                    cost,
                    lo as int,
                    hi as int,
                    pos as int,
                    lastbest,
                ) == minimum_search(cost, start as int, end as int),
        decreases hi - lo,
    {
        let step = (hi - lo) / (NUM_SAMPLES + 1);
        proof {
            lemma_samples_inside(lo as int, hi as int, 0);
        }
        let mut besti: usize = 0;
        let mut best = f(lo + step, context);
        let mut i: usize = 1;
        while i < NUM_SAMPLES
            invariant
                1 <= i <= 9,
                0 <= besti < i,
                start <= lo < hi <= end,
                hi - lo > 9,
                step == (hi - lo) / 10,
                forall|i: usize| start <= i < end ==> call_requires(f, (i, context)),
                forall|cost: spec_fn(int) -> u64| #[trigger]
                    computes_cost(f, context, cost) ==> besti == first_min(
                        sample_costs(cost, lo as int, hi as int),
                        0,
                        i as int,
                    ) && best == sample_costs(cost, lo as int, hi as int)(besti as int),
            decreases 9 - i,
        {
            proof {
                lemma_samples_inside(lo as int, hi as int, i as int);
            }
            let v = f(lo + (i + 1) * step, context);
            let ghost old_besti = besti;
            if v < best {
                best = v;
                besti = i;
            }
            proof {
                assert forall|cost: spec_fn(int) -> u64| #[trigger]
                    computes_cost(f, context, cost) implies besti == first_min(
                    sample_costs(cost, lo as int, hi as int),
                    0,
                    i + 1,
                ) && best == sample_costs(cost, lo as int, hi as int)(besti as int) by {
                    assert(v == cost(sample_point(lo as int, hi as int, i as int)));
                    assert(old_besti == first_min(
                        sample_costs(cost, lo as int, hi as int),
                        0,
                        i as int,
                    ));
                }
            }
            i += 1;
        }
        if best >= lastbest {
            return (pos, lastbest);
        }
        proof {
            lemma_samples_inside(lo as int, hi as int, besti as int);
            if besti > 0 {
                lemma_samples_inside(lo as int, hi as int, besti - 1);
            }
            if besti < 8 {
                lemma_samples_inside(lo as int, hi as int, besti + 1);
            }
        }
        let new_lo = if besti == 0 {
            lo
        } else {
            lo + besti * step
        };
        let new_hi = if besti == NUM_SAMPLES - 1 {
            hi
        } else {
            lo + (besti + 2) * step
        };
        pos = lo + (besti + 1) * step;
        lastbest = best;
        lo = new_lo;
        hi = new_hi;
    }
    scan(f, context, lo, hi)
}

} // verus!
