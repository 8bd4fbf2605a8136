//! Splitting a token stream into blocks: the stream is cut where a cost
//! estimate says that two blocks are cheaper than one, the widest block first.

use vstd::prelude::*;
use crate::lz77::{bytes_before, lemma_bytes_before_monotone, token_length, Lz77Store};
use crate::minimum::{computes_cost, minimum_search, FindMinimum};

verus! {

/// The largest cost that an estimate may give, so that two estimates can be
/// added.
pub const COST_LIMIT: u64 = 0x7fff_ffff_ffff_ffff;

/// Blocks of fewer tokens than this are not split.
pub const MIN_BLOCK: usize = 10;

/// `cost` is what `estimate` computes on the stream: whatever a call on a
/// range returns is the value of `cost` for the range.
pub open spec fn computes_block_cost<E: Fn(&Lz77Store, usize, usize) -> u64>(
    estimate: &E,
    lz77: &Lz77Store,
    cost: spec_fn(int, int) -> u64,
) -> bool {
    forall|s: usize, e: usize, v: u64| #[trigger]
        call_ensures(estimate, (lz77, s, e), v) ==> v == cost(s as int, e as int)
}

/// The estimator can be asked for every range of the stream, and gives no
/// cost beyond `COST_LIMIT`.
pub open spec fn estimates<E: Fn(&Lz77Store, usize, usize) -> u64>(
    estimate: &E,
    lz77: &Lz77Store,
) -> bool {
    &&& forall|s: usize, e: usize|
        s <= e <= lz77.spec_size() ==> #[trigger] call_requires(estimate, (lz77, s, e))
    &&& forall|s: usize, e: usize, v: u64| #[trigger]
        call_ensures(estimate, (lz77, s, e), v) ==> v <= COST_LIMIT
}

/// The cost of the two blocks that a split of `start..end` at `i` makes, as a
/// function of `i`.
pub open spec fn split_cost(cost: spec_fn(int, int) -> u64, start: int, end: int) -> spec_fn(
    int,
) -> u64 {
    |i: int| (cost(start, i) + cost(i, end)) as u64
}

/// Returns the estimated cost of the block `lstart..lend` in bits, as the
/// estimator gives it.
#[allow(non_snake_case)]
pub fn EstimateCost<E: Fn(&Lz77Store, usize, usize) -> u64>(
    estimate: &E,
    lz77: &Lz77Store,
    lstart: usize,
    lend: usize,
) -> (cost: u64)
    requires
        call_requires(estimate, (lz77, lstart, lend)),
    ensures
        call_ensures(estimate, (lz77, lstart, lend), cost),
{
    estimate(lz77, lstart, lend)
}

/// The block that is being split, and what its parts are estimated with.
pub struct SplitCostContext<'a, E> {
    pub estimate: &'a E,
    pub lz77: &'a Lz77Store,
    pub start: usize,
    pub end: usize,
}

/// `value` is the cost of the two blocks that a split of the context's block
/// at `i` makes, whatever block costs the estimator computes.
pub open spec fn is_split_cost<E: Fn(&Lz77Store, usize, usize) -> u64>(
    c: &SplitCostContext<E>,
    i: usize,
    value: u64,
) -> bool {
    forall|block_cost: spec_fn(int, int) -> u64| #[trigger]
        computes_block_cost(c.estimate, c.lz77, block_cost) ==> value == split_cost(
            block_cost,
            c.start as int,
            c.end as int,
        )(i as int)
}

/// Gets the cost which is the sum of the cost of the left and the right
/// section of the block, split at `i`.
#[allow(non_snake_case)]
pub fn SplitCost<E: Fn(&Lz77Store, usize, usize) -> u64>(i: usize, c: &SplitCostContext<E>) -> (cost:
    u64)
    requires
        estimates(c.estimate, c.lz77),
        c.start <= i <= c.end <= c.lz77.spec_size(),
    ensures
        is_split_cost(c, i, cost),
{
    let left = EstimateCost(c.estimate, c.lz77, c.start, i);
    let right = EstimateCost(c.estimate, c.lz77, i, c.end);
    left + right
}

/// Split points are in order, without repetition, and inside the stream.
pub open spec fn valid_points(points: Seq<usize>, size: int) -> bool {
    &&& forall|i: int, j: int| 0 <= i < j < points.len() ==> points[i] < points[j]
    &&& forall|i: int| 0 <= i < points.len() ==> 0 < #[trigger] points[i] < size
}

/// Start of block `i` of those that the split points make.
pub open spec fn segment_start(points: Seq<usize>, i: int) -> int {
    if i <= 0 {
        0
    } else {
        points[i - 1] as int
    }
}

/// End of block `i` of those that the split points make; the last block ends
/// at the last token.
pub open spec fn segment_end(size: int, points: Seq<usize>, i: int) -> int {
    if i >= points.len() {
        size - 1
    } else {
        points[i] as int
    }
}

/// The widest of the first `upto` blocks whose start is not marked done, the
/// first of them among equals: whether there is one, its start and its end.
/// Where there is none, the start and the end are `lstart` and `lend`.
pub open spec fn largest_splittable(
    size: int,
    done: Seq<u8>,
    points: Seq<usize>,
    lstart: int,
    lend: int,
    upto: int,
) -> (bool, int, int)
    decreases upto,
{
    if upto <= 0 {
        (false, lstart, lend)
    } else {
        let before = largest_splittable(size, done, points, lstart, lend, upto - 1);
        let start = segment_start(points, upto - 1);
        let end = segment_end(size, points, upto - 1);
        let longest = if before.0 {
            before.2 - before.1
        } else {
            0
        };
        if done[start] == 0 && end - start > longest {
            (true, start, end)
        } else {
            before
        }
    }
}

/// The block found is one of the blocks, wider than nothing, and not done.
pub proof fn lemma_largest_splittable(
    size: int,
    done: Seq<u8>,
    points: Seq<usize>,
    lstart: int,
    lend: int,
    upto: int,
)
    requires
        0 <= upto <= points.len() + 1,
    ensures
        ({
            let r = largest_splittable(size, done, points, lstart, lend, upto);
            if r.0 {
                exists|i: int|
                    0 <= i < upto && r.1 == segment_start(points, i) && r.2 == segment_end(
                        size,
                        points,
                        i,
                    ) && done[r.1] == 0 && r.1 < r.2
            } else {
                r.1 == lstart && r.2 == lend
            }
        }),
    decreases upto,
{
    if upto > 0 {
        lemma_largest_splittable(size, done, points, lstart, lend, upto - 1);
        let before = largest_splittable(size, done, points, lstart, lend, upto - 1);
        let r = largest_splittable(size, done, points, lstart, lend, upto);
        if r == before {
            if r.0 {
                let i = choose|i: int|
                    0 <= i < upto - 1 && r.1 == segment_start(points, i) && r.2 == segment_end(
                        size,
                        points,
                        i,
                    ) && done[r.1] == 0 && r.1 < r.2;
                assert(0 <= i < upto && r.1 == segment_start(points, i) && r.2 == segment_end(
                    size,
                    points,
                    i,
                ) && done[r.1] == 0 && r.1 < r.2);
            }
        } else {
            let i = upto - 1;
            assert(0 <= i < upto && r.1 == segment_start(points, i) && r.2 == segment_end(
                size,
                points,
                i,
            ) && done[r.1] == 0 && r.1 < r.2);
        }
    }
}

/// Finds next block to try to split, the largest of the available ones.
/// The largest is chosen to make sure that if only a limited amount of blocks
/// is requested, their sizes are spread evenly.
///
/// `lz77size` is the size of the stream, which is the size of the `done` array
/// here. `done` marks the blocks starting at that position that are no longer
/// splittable (splitting them increases rather than decreases cost).
/// `splitpoints` are the split points found so far. Returns whether a block
/// was found, with its start and its end; `lstart` and `lend` come back where
/// none was.
#[allow(non_snake_case)]
pub fn FindLargestSplittableBlock(
    lz77size: usize,
    done: &[u8],
    splitpoints: &[usize],
    lstart: usize,
    lend: usize,
) -> (r: (bool, usize, usize))
    requires
        lz77size >= 1,
        done@.len() == lz77size,
        valid_points(splitpoints@, lz77size as int),
    ensures
        (r.0, r.1 as int, r.2 as int) == largest_splittable(
            lz77size as int,
            done@,
            splitpoints@,
            lstart as int,
            lend as int,
            (splitpoints@.len() + 1) as int,
        ),
{
    let npoints = splitpoints.len();
    let mut longest: usize = 0;
    let mut found = false;
    let mut lstart = lstart;
    let mut lend = lend;
    let ghost first_start = lstart as int;
    let ghost first_end = lend as int;
    let mut i: usize = 0;
    proof {
        lemma_valid_points_len(splitpoints@, lz77size as int);
    }
    while i <= npoints
        invariant
            i <= npoints + 1,
            npoints < lz77size,
            lz77size >= 1,
            npoints == splitpoints@.len(),
            done@.len() == lz77size,
            valid_points(splitpoints@, lz77size as int),
            (found, lstart as int, lend as int) == largest_splittable(
                lz77size as int,
                done@,
                splitpoints@,
                first_start,
                first_end,
                i as int,
            ),
            longest == if found {
                lend - lstart
            } else {
                0
            },
            found ==> lstart <= lend,
        decreases npoints + 1 - i,
    {
        let start = if i == 0 {
            0
        } else {
            splitpoints[i - 1]
        };
        let end = if i == npoints {
            lz77size - 1
        } else {
            splitpoints[i]
        };
        if done[start] == 0 && end - start > longest {
            lstart = start;
            lend = end;
            found = true;
            longest = end - start;
        }
        i += 1;
    }
    (found, lstart, lend)
}

/// Index of the first element that is greater than `value`, or the length
/// where there is none.
pub open spec fn first_greater(s: Seq<usize>, value: usize) -> int
    decreases s.len(),
{
    if s.len() == 0 {
        0
    } else {
        let before = first_greater(s.drop_last(), value);
        if before < s.len() - 1 {
            before
        } else if s.last() > value {
            s.len() - 1
        } else {
            s.len() as int
        }
    }
}

/// `value` put in before the first element that is greater.
pub open spec fn add_sorted(s: Seq<usize>, value: usize) -> Seq<usize> {
    s.insert(first_greater(s, value), value)
}

/// Before the index that `first_greater` gives nothing is greater than
/// `value`, and the element at the index is.
pub proof fn lemma_first_greater(s: Seq<usize>, value: usize)
    ensures
        0 <= first_greater(s, value) <= s.len(),
        forall|j: int| 0 <= j < first_greater(s, value) ==> s[j] <= value,
        first_greater(s, value) < s.len() ==> s[first_greater(s, value)] > value,
    decreases s.len(),
{
    if s.len() > 0 {
        let t = s.drop_last();
        lemma_first_greater(t, value);
        assert forall|j: int| 0 <= j < first_greater(s, value) implies s[j] <= value by {
            if j < t.len() {
                assert(t[j] == s[j]);
            }
        }
    }
}

/// A value that lies strictly between two neighbouring boundaries of valid
/// points leaves the points valid.
pub proof fn lemma_add_sorted_valid(points: Seq<usize>, value: usize, size: int, i: int)
    requires
        valid_points(points, size),
        0 <= i <= points.len(),
        segment_start(points, i) < value,
        i < points.len() ==> value < points[i],
        0 < value < size,
    ensures
        valid_points(add_sorted(points, value), size),
        add_sorted(points, value) == points.insert(i, value),
        add_sorted(points, value).len() == points.len() + 1,
{
    lemma_first_greater(points, value);
    let p = first_greater(points, value);
    if p < i {
        assert(points[p] > value);
        assert(points[p] <= points[i - 1]);
    }
    if p > i {
        assert(points[i] <= value);
    }
    assert(p == i);
    let r = points.insert(i, value);
    assert forall|a: int, b: int| 0 <= a < b < r.len() implies r[a] < r[b] by {
        if b < i {
        } else if b == i {
            if a < i - 1 {
                assert(points[a] < points[i - 1]);
            }
        } else {
            if a < i {
                if i <= b - 1 && a < b - 1 {
                    assert(points[a] < points[b - 1]);
                }
                if a < i - 1 {
                    assert(points[a] < points[i - 1]);
                }
            } else if a == i {
                if i < b - 1 {
                    assert(points[i] < points[b - 1]);
                }
            } else {
                assert(points[a - 1] < points[b - 1]);
            }
        }
    }
    assert forall|a: int| 0 <= a < r.len() implies 0 < #[trigger] r[a] < size by {
        if a < i {
            assert(r[a] == points[a]);
        } else if a > i {
            assert(r[a] == points[a - 1]);
        }
    }
}

/// Puts `value` into `out` before the first element that is greater, so that
/// an ascending `out` stays so.
#[allow(non_snake_case)]
pub fn AddSorted(value: usize, out: &mut Vec<usize>)
    ensures
        final(out)@ == add_sorted(old(out)@, value),
{
    let mut i: usize = 0;
    while i < out.len() && out[i] <= value
        invariant
            i <= out.len(),
            out@ == old(out)@,
            forall|j: int| 0 <= j < i ==> out@[j] <= value,
        decreases out.len() - i,
    {
        i += 1;
    }
    proof {
        lemma_first_greater(out@, value);
        let p = first_greater(out@, value);
        if p < i {
            assert(out@[p] > value);
        }
        if p > i {
            assert(out@[i as int] <= value);
        }
    }
    out.insert(i, value);
}

/// Gives, for the split points of a stream, the places in the uncompressed
/// data where the blocks begin: the values that a report of the split points
/// shows, in decimal and in hexadecimal.
#[allow(non_snake_case)]
pub fn PrintBlockSplitPoints(lz77: &Lz77Store, lz77splitpoints: &[usize]) -> (splitpoints: Vec<
    usize,
>)
    requires
        lz77.wf(),
        lz77.byte_size() <= usize::MAX,
        forall|i: int, j: int|
            0 <= i < j < lz77splitpoints@.len() ==> lz77splitpoints@[i] < lz77splitpoints@[j],
        forall|i: int|
            0 <= i < lz77splitpoints@.len() ==> lz77splitpoints@[i] < lz77.spec_size(),
    ensures
        splitpoints@.len() == lz77splitpoints@.len(),
        forall|j: int|
            0 <= j < splitpoints@.len() ==> splitpoints@[j] == bytes_before(
                lz77.litlens@,
                lz77.dists@,
                lz77splitpoints@[j] as int,
            ),
{
    let nlz77points = lz77splitpoints.len();
    let mut splitpoints: Vec<usize> = Vec::new();
    // The input is given as lz77 indices, but we want to see the uncompressed
    // index values.
    let mut pos: usize = 0;
    if nlz77points > 0 {
        let size = lz77.size();
        let mut i: usize = 0;
        while i < size
            invariant
                lz77.wf(),
                size == lz77.spec_size(),
                lz77.byte_size() <= usize::MAX,
                nlz77points == lz77splitpoints@.len(),
                i <= size,
                pos == bytes_before(lz77.litlens@, lz77.dists@, i as int),
                splitpoints@.len() < nlz77points,
                lz77splitpoints@[splitpoints@.len() as int] >= i,
                forall|i: int, j: int|
                    0 <= i < j < lz77splitpoints@.len() ==> lz77splitpoints@[i]
                        < lz77splitpoints@[j],
                forall|i: int|
                    0 <= i < lz77splitpoints@.len() ==> lz77splitpoints@[i] < lz77.spec_size(),
                forall|j: int|
                    0 <= j < splitpoints@.len() ==> splitpoints@[j] == bytes_before(
                        lz77.litlens@,
                        lz77.dists@,
                        lz77splitpoints@[j] as int,
                    ),
            decreases size - i,
        {
            let length: usize = if lz77.dists[i] == 0 {
                1
            } else {
                lz77.litlens[i] as usize
            };
            proof {
                lemma_bytes_before_monotone(lz77.litlens@, lz77.dists@, i + 1, size as int);
                assert(length == token_length(lz77.litlens@[i as int], lz77.dists@[i as int]));
            }
            if lz77splitpoints[splitpoints.len()] == i {
                splitpoints.push(pos);
                if splitpoints.len() == nlz77points {
                    return splitpoints;
                }
            }
            pos += length;
            i += 1;
        }
    }
    splitpoints
}

/// Number of entries that are marked.
pub open spec fn done_count(done: Seq<u8>) -> int
    decreases done.len(),
{
    if done.len() == 0 {
        0
    } else {
        done_count(done.drop_last()) + if done.last() != 0 {
            1int
        } else {
            0int
        }
    }
}

proof fn lemma_done_count(done: Seq<u8>)
    ensures
        0 <= done_count(done) <= done.len(),
        forall|i: int| 0 <= i < done.len() && done[i] == 0 ==> done_count(done) < done.len(),
    decreases done.len(),
{
    if done.len() > 0 {
        lemma_done_count(done.drop_last());
        assert forall|i: int| 0 <= i < done.len() && done[i] == 0 implies done_count(done)
            < done.len() by {
            if i < done.len() - 1 {
                assert(done.drop_last()[i] == 0);
            }
        }
    }
}

proof fn lemma_done_count_mark(done: Seq<u8>, i: int)
    requires
        0 <= i < done.len(),
        done[i] == 0,
    ensures
        done_count(done.update(i, 1u8)) == done_count(done) + 1,
    decreases done.len(),
{
    let marked = done.update(i, 1u8);
    if i == done.len() - 1 {
        assert(marked.drop_last() =~= done.drop_last());
    } else {
        assert(marked.drop_last() =~= done.drop_last().update(i, 1u8));
        lemma_done_count_mark(done.drop_last(), i);
    }
}

/// Valid points are fewer than the tokens.
proof fn lemma_valid_points_len(points: Seq<usize>, size: int)
    requires
        valid_points(points, size),
    ensures
        points.len() == 0 || points.len() < size,
        forall|i: int| 0 <= i < points.len() ==> points[i] > i,
    decreases points.len(),
{
    if points.len() > 0 {
        let before = points.drop_last();
        assert(valid_points(before, size)) by {
            assert forall|i: int| 0 <= i < before.len() implies 0 < #[trigger] before[i] < size by {
                assert(before[i] == points[i]);
            }
        }
        lemma_valid_points_len(before, size);
        assert forall|i: int| 0 <= i < points.len() implies points[i] > i by {
            if i < points.len() - 1 {
                assert(before[i] > i);
            } else if i > 0 {
                assert(before[i - 1] > i - 1);
                assert(points[i - 1] < points[i]);
            }
        }
        assert(points[points.len() - 1] > points.len() - 1);
    }
}

/// Every element of the points with `value` put in is `value` or was there
/// before.
pub proof fn lemma_add_sorted_elements(points: Seq<usize>, value: usize)
    ensures
        add_sorted(points, value).len() == points.len() + 1,
        forall|j: int|
            0 <= j < points.len() + 1 ==> #[trigger] add_sorted(points, value)[j] == value
                || points.contains(add_sorted(points, value)[j]),
{
    lemma_first_greater(points, value);
    let p = first_greater(points, value);
    let r = add_sorted(points, value);
    assert forall|j: int| 0 <= j < points.len() + 1 implies #[trigger] r[j] == value
        || points.contains(r[j]) by {
        if j < p {
            assert(r[j] == points[j]);
        } else if j > p {
            assert(r[j] == points[j - 1]);
        }
    }
}

/// Whether the block `lstart..lend` is split, and where its cheapest split
/// lies. The block is left whole where the cheapest split costs no less than
/// the block itself, or is the block's first possible split point.
pub open spec fn split_choice(cost: spec_fn(int, int) -> u64, lstart: int, lend: int) -> (
    bool,
    int,
) {
    let found = minimum_search(split_cost(cost, lstart, lend), lstart + 1, lend);
    (!(found.1 >= cost(lstart, lend) || found.0 == lstart + 1 || found.0 == lend), found.0)
}

/// One round of the search on the block `lstart..lend`: the block's split
/// point is taken, or the block is marked done where it is left whole; then
/// the widest block not done is looked for. Gives the points and the marks
/// after the round, and what `largest_splittable` says of them.
pub open spec fn split_round(
    cost: spec_fn(int, int) -> u64,
    size: int,
    points: Seq<usize>,
    done: Seq<u8>,
    lstart: int,
    lend: int,
) -> (Seq<usize>, Seq<u8>, (bool, int, int)) {
    let choice = split_choice(cost, lstart, lend);
    let points2 = if choice.0 {
        add_sorted(points, choice.1 as usize)
    } else {
        points
    };
    let done2 = if choice.0 {
        done
    } else {
        done.update(lstart, 1u8)
    };
    (
        points2,
        done2,
        largest_splittable(size, done2, points2, lstart, lend, (points2.len() + 1) as int),
    )
}

/// The split points after at most `rounds` more rounds of the search, from
/// the state that `points`, `done` and the block `lstart..lend` make.
///
/// The search ends where `maxblocks` is not 0 and that many blocks are there;
/// else a round is made. After it the search ends where no block is left to
/// split, or where the widest one has fewer than `MIN_BLOCK` tokens.
pub open spec fn split_rounds(
    cost: spec_fn(int, int) -> u64,
    size: int,
    maxblocks: int,
    points: Seq<usize>,
    done: Seq<u8>,
    lstart: int,
    lend: int,
    rounds: nat,
) -> Seq<usize>
    decreases rounds,
{
    if rounds == 0 || (maxblocks > 0 && points.len() + 1 >= maxblocks) {
        points
    } else {
        let after = split_round(cost, size, points, done, lstart, lend);
        if !after.2.0 || after.2.2 - after.2.1 < 10 {
            after.0
        } else {
            split_rounds(
                cost,
                size,
                maxblocks,
                after.0,
                after.1,
                after.2.1,
                after.2.2,
                (rounds - 1) as nat,
            )
        }
    }
}

/// A sequence of `len` zeros.
pub open spec fn none_done(len: int) -> Seq<u8> {
    Seq::new(len as nat, |i: int| 0u8)
}

/// The split points of a stream of `size` tokens under the block costs `cost`,
/// with at most `maxblocks` blocks where `maxblocks` is not 0. A stream of
/// fewer than `MIN_BLOCK` tokens is not split. Every round of the search marks
/// a block or takes a point, so `2 * size` rounds are all there can be.
pub open spec fn block_splits(cost: spec_fn(int, int) -> u64, size: int, maxblocks: int) -> Seq<
    usize,
> {
    if size < 10 {
        Seq::empty()
    } else {
        split_rounds(
            cost,
            size,
            maxblocks,
            Seq::empty(),
            none_done(size),
            0,
            size,
            (2 * size) as nat,
        )
    }
}

/// The block `lstart..lend` is one of the blocks that the points make, or the
/// whole stream before any point was found.
pub open spec fn current_block(size: int, points: Seq<usize>, lstart: int, lend: int) -> bool {
    ||| (points.len() == 0 && lstart == 0 && lend == size)
    ||| exists|i: int|
        0 <= i <= points.len() && lstart == segment_start(points, i) && lend == segment_end(
            size,
            points,
            i,
        )
}

/// The state in which a round can be made: the points are in order, the
/// block `lstart..lend` is one of their blocks, wide enough and not done.
pub open spec fn round_ready(
    size: int,
    points: Seq<usize>,
    done: Seq<u8>,
    lstart: int,
    lend: int,
) -> bool {
    &&& valid_points(points, size)
    &&& forall|i: int| 0 <= i < points.len() ==> 1 < #[trigger] points[i]
    &&& done.len() == size
    &&& 0 <= lstart
    &&& lstart + 10 <= lend <= size
    &&& done[lstart] == 0
    &&& current_block(size, points, lstart, lend)
    &&& lend < size || (points.len() == 0 && lstart == 0)
}

/// The points, or the points with a new one inside the current block, are in
/// order, greater than 1 and, but for a new one at the end of the stream,
/// before the last token, if the old ones were.
proof fn lemma_new_points(size: int, points: Seq<usize>, lstart: int, lend: int, value: usize)
    requires
        valid_points(points, size),
        forall|i: int| 0 <= i < points.len() ==> 1 < #[trigger] points[i],
        current_block(size, points, lstart, lend),
        0 <= lstart,
        lstart + 1 < value < lend <= size,
    ensures
        valid_points(add_sorted(points, value), size),
        add_sorted(points, value).len() == points.len() + 1,
        forall|i: int|
            0 <= i < add_sorted(points, value).len() ==> 1 < #[trigger] add_sorted(
                points,
                value,
            )[i],
        (forall|i: int| 0 <= i < points.len() ==> #[trigger] points[i] < size - 1) && value < size
            - 1 ==> forall|i: int|
            0 <= i < add_sorted(points, value).len() ==> #[trigger] add_sorted(points, value)[i]
                < size - 1,
{
    if points.len() == 0 && lstart == 0 && lend == size {
        lemma_add_sorted_valid(points, value, size, 0);
    } else {
        let i = choose|i: int|
            0 <= i <= points.len() && lstart == segment_start(points, i) && lend == segment_end(
                size,
                points,
                i,
            );
        lemma_add_sorted_valid(points, value, size, i);
    }
    lemma_add_sorted_elements(points, value);
    let r = add_sorted(points, value);
    assert forall|i: int| 0 <= i < r.len() implies 1 < #[trigger] r[i] by {
        if r[i] != value {
            assert(points.contains(r[i]));
            let k = choose|k: int| 0 <= k < points.len() && points[k] == r[i];
            assert(1 < points[k]);
        }
    }
    if (forall|i: int| 0 <= i < points.len() ==> #[trigger] points[i] < size - 1) && value < size
        - 1 {
        assert forall|i: int| 0 <= i < r.len() implies #[trigger] r[i] < size - 1 by {
            if r[i] != value {
                assert(points.contains(r[i]));
                let k = choose|k: int| 0 <= k < points.len() && points[k] == r[i];
                assert(points[k] < size - 1);
            }
        }
    }
}

/// Nothing is marked in a sequence of zeros.
proof fn lemma_none_done(len: int)
    requires
        len >= 0,
    ensures
        done_count(none_done(len)) == 0,
    decreases len,
{
    if len > 0 {
        lemma_none_done(len - 1);
        assert(none_done(len).drop_last() =~= none_done(len - 1));
    }
}

/// A vector of `len` zeros.
fn unmarked(len: usize) -> (v: Vec<u8>)
    ensures
        v@ == none_done(len as int),
{
    let mut v: Vec<u8> = Vec::new();
    while v.len() < len
        invariant
            v.len() <= len,
            forall|i: int| 0 <= i < v.len() ==> v@[i] == 0,
        decreases len - v.len(),
    {
        v.push(0);
    }
    proof {
        assert(v@ =~= none_done(len as int));
    }
    v
}

/// Looks for the cheapest split of the block `lstart..lend`, and says whether
/// the block is split there.
fn split_block<E: Fn(&Lz77Store, usize, usize) -> u64>(
    estimate: &E,
    lz77: &Lz77Store,
    lstart: usize,
    lend: usize,
) -> (r: (bool, usize))
    requires
        lz77.wf(),
        estimates(estimate, lz77),
        lstart + 1 < lend <= lz77.spec_size(),
    ensures
        lstart < r.1 < lend,
        r.0 ==> lstart + 1 < r.1,
        forall|cost: spec_fn(int, int) -> u64| #[trigger]
            computes_block_cost(estimate, lz77, cost) ==> (r.0, r.1 as int) == split_choice(
                cost,
                lstart as int,
                lend as int,
            ),
{
    let c = SplitCostContext { estimate, lz77, start: lstart, end: lend };
    let found = FindMinimum(&SplitCost::<E>, &c, lstart + 1, lend);
    let llpos = found.0;
    let splitcost = found.1;
    let origcost = EstimateCost(estimate, lz77, lstart, lend);
    proof {
        assert forall|cost: spec_fn(int, int) -> u64| #[trigger]
            computes_block_cost(estimate, lz77, cost) implies (llpos as int, splitcost)
            == minimum_search(
            split_cost(cost, lstart as int, lend as int),
            lstart + 1,
            lend as int,
        ) && origcost == cost(lstart as int, lend as int) by {
            let f = split_cost(cost, lstart as int, lend as int);
            assert forall|i: usize, v: u64| #[trigger]
                call_ensures(&SplitCost::<E>, (i, &c), v) implies v == f(i as int) by {
                assert(is_split_cost(&c, i, v));
                assert(computes_block_cost(c.estimate, c.lz77, cost));
            }
            assert(computes_cost(&SplitCost::<E>, &c, f));
        }
    }
    (!(splitcost >= origcost || llpos == lstart + 1 || llpos == lend), llpos)
}

/// Makes one round of the search on the block `lstart..lend`, and looks for
/// the next block: whether there is one, its start and its end.
fn next_round<E: Fn(&Lz77Store, usize, usize) -> u64>(
    estimate: &E,
    lz77: &Lz77Store,
    splitpoints: &mut Vec<usize>,
    done: &mut Vec<u8>,
    numblocks: &mut usize,
    lstart: usize,
    lend: usize,
) -> (next: (bool, usize, usize))
    requires
        lz77.wf(),
        estimates(estimate, lz77),
        round_ready(
            lz77.spec_size(),
            old(splitpoints)@,
            old(done)@,
            lstart as int,
            lend as int,
        ),
        *old(numblocks) == old(splitpoints)@.len() + 1,
    ensures
        valid_points(final(splitpoints)@, lz77.spec_size()),
        forall|i: int| 0 <= i < final(splitpoints)@.len() ==> 1 < #[trigger] final(splitpoints)@[i],
        final(done)@.len() == lz77.spec_size(),
        *final(numblocks) == final(splitpoints)@.len() + 1,
        *final(numblocks) <= *old(numblocks) + 1,
        done_count(final(done)@) + final(splitpoints)@.len() == done_count(old(done)@) + old(
            splitpoints,
        )@.len() + 1,
        next.0 ==> next.1 < next.2 <= lz77.spec_size() - 1 && final(done)@[next.1 as int] == 0
            && current_block(
            lz77.spec_size(),
            final(splitpoints)@,
            next.1 as int,
            next.2 as int,
        ),
        !next.0 ==> next.1 == lstart && next.2 == lend,
        forall|cost: spec_fn(int, int) -> u64| #[trigger]
            computes_block_cost(estimate, lz77, cost) ==> (
                final(splitpoints)@,
                final(done)@,
                (next.0, next.1 as int, next.2 as int),
            ) == split_round(
                cost,
                lz77.spec_size(),
                old(splitpoints)@,
                old(done)@,
                lstart as int,
                lend as int,
            ),
        forall|cost: spec_fn(int, int) -> u64| #[trigger]
            computes_block_cost(estimate, lz77, cost) && split_choice(cost, 0, lz77.spec_size())
                != (true, lz77.spec_size() - 1) && (forall|i: int|
                0 <= i < old(splitpoints)@.len() ==> #[trigger] old(splitpoints)@[i]
                    < lz77.spec_size() - 1) ==> forall|i: int|
                0 <= i < final(splitpoints)@.len() ==> #[trigger] final(splitpoints)@[i]
                    < lz77.spec_size() - 1,
{
    let ghost n = lz77.spec_size();
    let size = lz77.size();
    let choice = split_block(estimate, lz77, lstart, lend);
    if !choice.0 {
        proof {
            lemma_done_count_mark(done@, lstart as int);
        }
        done.set(lstart, 1);
    } else {
        proof {
            lemma_new_points(n, splitpoints@, lstart as int, lend as int, choice.1);
        }
        AddSorted(choice.1, splitpoints);
        proof {
            lemma_valid_points_len(splitpoints@, n);
        }
        *numblocks = *numblocks + 1;
    }
    let next = FindLargestSplittableBlock(
        size,
        done.as_slice(),
        splitpoints.as_slice(),
        lstart,
        lend,
    );
    proof {
        lemma_largest_splittable(
            n,
            done@,
            splitpoints@,
            lstart as int,
            lend as int,
            (splitpoints@.len() + 1) as int,
        );
        if next.0 {
            let i = choose|i: int|
                0 <= i < splitpoints@.len() + 1 && next.1 == segment_start(splitpoints@, i)
                    && next.2 == segment_end(n, splitpoints@, i) && done@[next.1 as int] == 0
                    && next.1 < next.2;
            assert(0 <= i <= splitpoints@.len() && next.1 == segment_start(splitpoints@, i)
                && next.2 == segment_end(n, splitpoints@, i));
        }
    }
    next
}

/// Does blocksplitting on LZ77 data. The output are the split points, as
/// indices into the stream. `maxblocks` is the maximum number of blocks to
/// split into, or 0 for no limit.
///
/// The split points are those of `block_splits`, for the block costs that the
/// estimator computes. Whatever it computes, they ascend, there are fewer of
/// them than `maxblocks`, and a stream of fewer than `MIN_BLOCK` tokens has
/// none. They lie behind the second token and before the last one; only the
/// first split of the whole stream can lie at the last token.
#[allow(non_snake_case)]
pub fn ZopfliBlockSplitLZ77<E: Fn(&Lz77Store, usize, usize) -> u64>(
    estimate: &E,
    lz77: &Lz77Store,
    maxblocks: usize,
) -> (splitpoints: Vec<usize>)
    requires
        lz77.wf(),
        estimates(estimate, lz77),
    ensures
        valid_points(splitpoints@, lz77.spec_size()),
        lz77.spec_size() < 10 ==> splitpoints@.len() == 0,
        maxblocks > 0 ==> splitpoints@.len() <= maxblocks - 1,
        forall|i: int| 0 <= i < splitpoints@.len() ==> 1 < #[trigger] splitpoints@[i],
        forall|cost: spec_fn(int, int) -> u64| #[trigger]
            computes_block_cost(estimate, lz77, cost) ==> splitpoints@ == block_splits(
                cost,
                lz77.spec_size(),
                maxblocks as int,
            ),
        forall|cost: spec_fn(int, int) -> u64| #[trigger]
            computes_block_cost(estimate, lz77, cost) && split_choice(cost, 0, lz77.spec_size())
                != (true, lz77.spec_size() - 1) ==> forall|i: int|
                0 <= i < splitpoints@.len() ==> #[trigger] splitpoints@[i] < lz77.spec_size() - 1,
{
    let size = lz77.size();
    let mut splitpoints: Vec<usize> = Vec::new();
    if size < MIN_BLOCK {
        return splitpoints;  /* This code fails on tiny files. */
    }
    let mut numblocks: usize = 1;
    let mut done = unmarked(size);
    let mut lstart: usize = 0;
    let mut lend: usize = size;
    let mut going = true;
    let ghost n = size as int;
    proof {
        lemma_none_done(n);
    }
    while going
        invariant
            n == size == lz77.spec_size(),
            n >= 10,
            lz77.wf(),
            estimates(estimate, lz77),
            valid_points(splitpoints@, n),
            forall|i: int| 0 <= i < splitpoints@.len() ==> 1 < #[trigger] splitpoints@[i],
            done@.len() == n,
            numblocks == splitpoints@.len() + 1,
            maxblocks > 0 ==> numblocks <= maxblocks,
            going ==> round_ready(n, splitpoints@, done@, lstart as int, lend as int),
            forall|cost: spec_fn(int, int) -> u64| #[trigger]
                computes_block_cost(estimate, lz77, cost) ==> block_splits(cost, n, maxblocks as int)
                    == if going {
                    split_rounds(
                        cost,
                        n,
                        maxblocks as int,
                        splitpoints@,
                        done@,
                        lstart as int,
                        lend as int,
                        (2 * n - done_count(done@) - splitpoints@.len()) as nat,
                    )
                } else {
                    splitpoints@
                },
            forall|cost: spec_fn(int, int) -> u64| #[trigger]
                computes_block_cost(estimate, lz77, cost) && split_choice(cost, 0, n) != (
                    true,
                    n - 1,
                ) ==> forall|i: int|
                    0 <= i < splitpoints@.len() ==> #[trigger] splitpoints@[i] < n - 1,
        decreases 2 * n - done_count(done@) - splitpoints@.len() + if going {
            1int
        } else {
            0int
        },
    {
        proof {
            lemma_done_count(done@);
            lemma_valid_points_len(splitpoints@, n);
        }
        if maxblocks > 0 && numblocks >= maxblocks {
            going = false;
        } else {
            let ghost before_points = splitpoints@;
            let ghost before_done = done@;
            let ghost old_lstart = lstart as int;
            let ghost old_lend = lend as int;
            let ghost rounds = (2 * n - done_count(done@) - splitpoints@.len()) as nat;
            let next = next_round(
                estimate,
                lz77,
                &mut splitpoints,
                &mut done,
                &mut numblocks,
                lstart,
                lend,
            );
            lstart = next.1;
            lend = next.2;
            if !next.0 || lend - lstart < MIN_BLOCK {
                going = false;
            }
            proof {
                lemma_done_count(done@);
                lemma_valid_points_len(splitpoints@, n);
                assert forall|cost: spec_fn(int, int) -> u64| #[trigger]
                    computes_block_cost(estimate, lz77, cost) implies block_splits(
                    cost,
                    n,
                    maxblocks as int,
                ) == if going {
                    split_rounds(
                        cost,
                        n,
                        maxblocks as int,
                        splitpoints@,
                        done@,
                        lstart as int,
                        lend as int,
                        (2 * n - done_count(done@) - splitpoints@.len()) as nat,
                    )
                } else {
                    splitpoints@
                } by {
                    assert((splitpoints@, done@, (next.0, next.1 as int, next.2 as int))
                        == split_round(cost, n, before_points, before_done, old_lstart, old_lend));
                    assert(block_splits(cost, n, maxblocks as int) == split_rounds(
                        cost,
                        n,
                        maxblocks as int,
                        before_points,
                        before_done,
                        old_lstart,
                        old_lend,
                        rounds,
                    ));
                }
            }
        }
    }
    splitpoints
}

} // verus!
