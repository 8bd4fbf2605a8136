//! The package-merge code is a cheapest one: among all code lengths of at
//! most `bits` bits that meet the Kraft inequality, none costs less.
//!
//! The proof counts by levels. Level `i` stands for the code lengths of at
//! least `bits - i` bits: a leaf of such a length lies on the level, and takes
//! the width `2^i` there. Code lengths that meet the Kraft inequality take a
//! width of at least `(n - 1) * 2^bits` on all levels together; and the first
//! `p` items of a level of the package-merge construction are the cheapest
//! way to take the width `p * 2^level` on the levels up to that one.

use vstd::prelude::*;
use vstd::arithmetic::power2::{
    pow2, lemma_pow2_adds, lemma_pow2_pos, lemma_pow2_unfold, lemma2_to64,
};
use crate::package_merge::{
    ascending_weights, code_length, leaf_total, leaves_in, leaves_used, level_len, level_total,
    item_weight, package_weight, packages_in, selected,
};
use crate::package_merge_lemmas::{
    halved, lemma_code_length_range, lemma_leaf_total_monotone, lemma_level_len_bounds,
    lemma_level_len_halved, lemma_level_sorted, lemma_level_total, lemma_levels_holding,
    lemma_next_item, lemma_prefix_bounds, lemma_selected_fits,
};

verus! {

/// The cost of the code lengths `l` of the ranks below `upto`: the sum of
/// weight times length.
pub open spec fn rank_cost(w: Seq<int>, l: Seq<int>, upto: int) -> int
    decreases upto,
{
    if upto <= 0 {
        0
    } else {
        rank_cost(w, l, upto - 1) + w[upto - 1] * l[upto - 1]
    }
}

/// `2^bits` times the Kraft sum of the code lengths `l` of the ranks below
/// `upto`.
pub open spec fn rank_kraft(l: Seq<int>, bits: int, upto: int) -> int
    decreases upto,
{
    if upto <= 0 {
        0
    } else {
        rank_kraft(l, bits, upto - 1) + pow2((bits - l[upto - 1]) as nat)
    }
}

/// Number of leaves that the package-merge code takes on each level.
pub open spec fn package_merge_counts(w: Seq<int>, bits: int) -> Seq<int> {
    Seq::new(bits as nat, |i: int| leaves_used(w, bits, i))
}

/// The code lengths that the package-merge construction gives.
pub open spec fn package_merge_lengths(w: Seq<int>, bits: int) -> Seq<int> {
    Seq::new(w.len(), |r: int| code_length(w, bits, r))
}

/// Code lengths for the `n` ranks, each between 1 and `bits`, that meet the
/// Kraft inequality.
pub open spec fn prefix_code_lengths(l: Seq<int>, n: int, bits: int) -> bool {
    &&& l.len() == n
    &&& forall|r: int| 0 <= r < n ==> 1 <= #[trigger] l[r] <= bits
    &&& rank_kraft(l, bits, n) <= pow2(bits as nat)
}

/// Whether the rank `r` lies on `level`.
pub open spec fn on_level(l: Seq<int>, bits: int, level: int, r: int) -> bool {
    l[r] >= bits - level
}

/// Number of ranks below `upto` on `level`.
pub open spec fn level_count(l: Seq<int>, bits: int, level: int, upto: int) -> int
    decreases upto,
{
    if upto <= 0 {
        0
    } else {
        level_count(l, bits, level, upto - 1) + if on_level(l, bits, level, upto - 1) {
            1int
        } else {
            0int
        }
    }
}

/// Weight of the ranks below `upto` on `level`.
pub open spec fn level_weight(w: Seq<int>, l: Seq<int>, bits: int, level: int, upto: int) -> int
    decreases upto,
{
    if upto <= 0 {
        0
    } else {
        level_weight(w, l, bits, level, upto - 1) + if on_level(l, bits, level, upto - 1) {
            w[upto - 1]
        } else {
            0int
        }
    }
}

/// Weight of the ranks below `upto` on the levels below `levels`.
pub open spec fn weight_on_levels(w: Seq<int>, l: Seq<int>, bits: int, levels: int, upto: int) -> int
    decreases levels,
{
    if levels <= 0 {
        0
    } else {
        weight_on_levels(w, l, bits, levels - 1, upto) + level_weight(w, l, bits, levels - 1, upto)
    }
}

/// Width of the ranks below `upto` on the levels below `levels`.
pub open spec fn width_on_levels(l: Seq<int>, bits: int, levels: int, upto: int) -> int
    decreases levels,
{
    if levels <= 0 {
        0
    } else {
        width_on_levels(l, bits, levels - 1, upto) + level_count(l, bits, levels - 1, upto) * pow2(
            (levels - 1) as nat,
        )
    }
}

/// Cost of the cheapest leaves on the levels below `levels`, as many on each
/// level as `l` has there.
pub open spec fn cheapest_on_levels(w: Seq<int>, l: Seq<int>, bits: int, levels: int) -> int
    decreases levels,
{
    if levels <= 0 {
        0
    } else {
        cheapest_on_levels(w, l, bits, levels - 1) + leaf_total(
            w,
            level_count(l, bits, levels - 1, l.len() as int),
        )
    }
}

/// Number of the levels below `levels` on which a leaf of length `x` lies.
pub open spec fn levels_of(x: int, bits: int, levels: int) -> int {
    if levels <= bits - x {
        0
    } else if x >= bits {
        levels
    } else {
        levels - (bits - x)
    }
}

/// Width that a leaf of length `x` takes on the levels below `levels`.
pub open spec fn width_of(x: int, bits: int, levels: int) -> int {
    if levels <= bits - x {
        0
    } else {
        pow2(levels as nat) - pow2((bits - x) as nat)
    }
}

proof fn lemma_level_sums_step(w: Seq<int>, l: Seq<int>, bits: int, levels: int, upto: int)
    requires
        0 <= levels <= bits,
        upto >= 1,
        1 <= l[upto - 1] <= bits,
    ensures
        weight_on_levels(w, l, bits, levels, upto) == weight_on_levels(
            w,
            l,
            bits,
            levels,
            upto - 1,
        ) + w[upto - 1] * levels_of(l[upto - 1], bits, levels),
        width_on_levels(l, bits, levels, upto) == width_on_levels(l, bits, levels, upto - 1)
            + width_of(l[upto - 1], bits, levels),
    decreases levels,
{
    let x = l[upto - 1];
    let v = w[upto - 1];
    if levels > 0 {
        lemma_level_sums_step(w, l, bits, levels - 1, upto);
        let t = pow2((levels - 1) as nat) as int;
        let c = level_count(l, bits, levels - 1, upto - 1);
        lemma_pow2_unfold(levels as nat);
        if on_level(l, bits, levels - 1, upto - 1) {
            assert((c + 1) * t == c * t + t) by (nonlinear_arith);
            assert(v * (levels_of(x, bits, levels - 1) + 1) == v * levels_of(x, bits, levels - 1)
                + v) by (nonlinear_arith);
            if levels - 1 == bits - x {
                assert(v * 0 == 0);
            }
        }
    } else {
        assert(v * 0 == 0);
    }
}

/// The cost of code lengths is the weight that they put on all levels, and
/// their Kraft sum is the width that they leave free there.
proof fn lemma_level_sums(w: Seq<int>, l: Seq<int>, bits: int, upto: int)
    requires
        bits >= 1,
        0 <= upto <= l.len(),
        forall|r: int| 0 <= r < l.len() ==> 1 <= #[trigger] l[r] <= bits,
    ensures
        weight_on_levels(w, l, bits, bits, upto) == rank_cost(w, l, upto),
        width_on_levels(l, bits, bits, upto) == upto * pow2(bits as nat) - rank_kraft(
            l,
            bits,
            upto,
        ),
    decreases upto,
{
    let t = pow2(bits as nat) as int;
    if upto > 0 {
        lemma_level_sums(w, l, bits, upto - 1);
        lemma_level_sums_step(w, l, bits, bits, upto);
        assert(1 <= l[upto - 1] <= bits);
        assert((upto - 1) * t + t == upto * t) by (nonlinear_arith);
    } else {
        lemma_no_ranks(w, l, bits, bits);
        assert(0 * t == 0);
    }
}

proof fn lemma_no_ranks(w: Seq<int>, l: Seq<int>, bits: int, levels: int)
    ensures
        weight_on_levels(w, l, bits, levels, 0) == 0,
        width_on_levels(l, bits, levels, 0) == 0,
    decreases levels,
{
    if levels > 0 {
        lemma_no_ranks(w, l, bits, levels - 1);
        assert(0 * pow2((levels - 1) as nat) == 0);
    }
}

/// The leaves on a level weigh at least as much as equally many of the
/// lightest leaves.
proof fn lemma_level_weight(w: Seq<int>, l: Seq<int>, bits: int, level: int, upto: int)
    requires
        ascending_weights(w),
        0 <= upto <= w.len(),
    ensures
        0 <= level_count(l, bits, level, upto) <= upto,
        leaf_total(w, level_count(l, bits, level, upto)) <= level_weight(w, l, bits, level, upto),
    decreases upto,
{
    if upto > 0 {
        lemma_level_weight(w, l, bits, level, upto - 1);
        let c = level_count(l, bits, level, upto - 1);
        if on_level(l, bits, level, upto - 1) {
            assert(w[c] <= w[upto - 1]);
        }
    }
}

proof fn lemma_cheapest_on_levels(w: Seq<int>, l: Seq<int>, bits: int, levels: int)
    requires
        ascending_weights(w),
        l.len() == w.len(),
    ensures
        cheapest_on_levels(w, l, bits, levels) <= weight_on_levels(
            w,
            l,
            bits,
            levels,
            l.len() as int,
        ),
    decreases levels,
{
    if levels > 0 {
        lemma_cheapest_on_levels(w, l, bits, levels - 1);
        lemma_level_weight(w, l, bits, levels - 1, l.len() as int);
    }
}

/// A package that a level has taken is no heavier than the level's newest
/// item.
proof fn lemma_package_taken(w: Seq<int>, level: int, p: int)
    requires
        ascending_weights(w),
        level >= 1,
        1 <= p <= level_len(w.len() as int, level),
        packages_in(w, level, p) >= 1,
    ensures
        package_weight(w, level, packages_in(w, level, p) - 1) <= item_weight(w, level, p - 1),
    decreases p,
{
    lemma_next_item(w, level, p - 1);
    lemma_prefix_bounds(w, level, p - 1);
    if leaves_in(w, level, p) == leaves_in(w, level, p - 1) + 1 {
        lemma_package_taken(w, level, p - 1);
        lemma_level_sorted(w, level, p - 1);
    }
}

/// The packages of a level come in ascending order of weight.
proof fn lemma_package_monotone(w: Seq<int>, level: int, a: int, b: int)
    requires
        ascending_weights(w),
        level >= 1,
        0 <= a <= b,
        2 * b + 2 <= level_len(w.len() as int, level - 1),
    ensures
        package_weight(w, level, a) <= package_weight(w, level, b),
    decreases b - a,
{
    if a < b {
        lemma_package_monotone(w, level, a, b - 1);
        lemma_level_sorted(w, level - 1, 2 * b - 1);
        lemma_level_sorted(w, level - 1, 2 * b);
        lemma_level_sorted(w, level - 1, 2 * b + 1);
    }
}

/// What the packages from `a` up to `b` weigh together, against `b - a` times
/// a bound on the heaviest or on the lightest of them.
proof fn lemma_package_range(w: Seq<int>, level: int, a: int, b: int, x: int)
    requires
        ascending_weights(w),
        level >= 1,
        0 <= a <= b,
        2 * b <= level_len(w.len() as int, level - 1),
    ensures
        a < b && package_weight(w, level, b - 1) <= x ==> level_total(w, level - 1, 2 * b)
            - level_total(w, level - 1, 2 * a) <= (b - a) * x,
        a < b && package_weight(w, level, a) >= x ==> level_total(w, level - 1, 2 * b)
            - level_total(w, level - 1, 2 * a) >= (b - a) * x,
        a == b ==> level_total(w, level - 1, 2 * b) - level_total(w, level - 1, 2 * a) == (b - a)
            * x,
    decreases b - a,
{
    if a < b {
        lemma_package_range(w, level, a, b - 1, x);
        assert(level_total(w, level - 1, 2 * b) == level_total(w, level - 1, 2 * b - 1)
            + item_weight(w, level - 1, 2 * b - 1));
        assert(level_total(w, level - 1, 2 * b - 1) == level_total(w, level - 1, 2 * b - 2)
            + item_weight(w, level - 1, 2 * b - 2));
        assert(package_weight(w, level, b - 1) == item_weight(w, level - 1, 2 * (b - 1))
            + item_weight(w, level - 1, 2 * (b - 1) + 1));
        assert((b - a) * x == (b - 1 - a) * x + x) by (nonlinear_arith);
        if a < b - 1 {
            lemma_package_monotone(w, level, b - 2, b - 1);
            lemma_package_monotone(w, level, a, b - 1);
        }
    } else {
        assert(0 * x == 0);
    }
}

/// What the leaves from `a` up to `b` weigh together, against `b - a` times a
/// bound on the heaviest or on the lightest of them.
proof fn lemma_leaf_range(w: Seq<int>, a: int, b: int, x: int)
    requires
        ascending_weights(w),
        0 <= a <= b <= w.len(),
    ensures
        a < b && w[b - 1] <= x ==> leaf_total(w, b) - leaf_total(w, a) <= (b - a) * x,
        a < b && w[a] >= x ==> leaf_total(w, b) - leaf_total(w, a) >= (b - a) * x,
        a == b ==> leaf_total(w, b) - leaf_total(w, a) == (b - a) * x,
    decreases b - a,
{
    if a < b {
        lemma_leaf_range(w, a, b - 1, x);
        assert((b - a) * x == (b - 1 - a) * x + x) by (nonlinear_arith);
        if a < b - 1 {
            assert(w[b - 2] <= w[b - 1]);
            assert(w[a] <= w[b - 1]);
        }
    } else {
        assert(0 * x == 0);
    }
}

/// The first `p` items of a level are the cheapest `p` items that the leaves
/// and the packages of the level hold: no other number of leaves, with
/// packages for the rest, costs less.
proof fn lemma_merge_cheapest(w: Seq<int>, level: int, p: int, c: int)
    requires
        ascending_weights(w),
        level >= 1,
        0 <= p <= level_len(w.len() as int, level),
        0 <= c <= w.len(),
        c <= p,
        2 * (p - c) <= level_len(w.len() as int, level - 1),
    ensures
        level_total(w, level, p) <= leaf_total(w, c) + level_total(w, level - 1, 2 * (p - c)),
{
    lemma_level_total(w, level, p);
    lemma_prefix_bounds(w, level, p);
    let best = leaves_in(w, level, p);
    let packs = packages_in(w, level, p);
    if p > 0 {
        let x = item_weight(w, level, p - 1);
        lemma_level_sorted(w, level, p - 1);
        if packs >= 1 {
            lemma_package_taken(w, level, p);
        }
        if c >= best {
            lemma_leaf_range(w, best, c, x);
            lemma_package_range(w, level, p - c, packs, x);
            if best < c {
                assert(leaf_total(w, c) - leaf_total(w, best) >= (c - best) * x);
                assert(level_total(w, level - 1, 2 * packs) - level_total(
                    w,
                    level - 1,
                    2 * (p - c),
                ) <= (packs - (p - c)) * x);
            }
        } else {
            lemma_leaf_range(w, c, best, x);
            lemma_package_range(w, level, packs, p - c, x);
            assert(leaf_total(w, best) - leaf_total(w, c) <= (best - c) * x);
            assert(level_total(w, level - 1, 2 * (p - c)) - level_total(w, level - 1, 2 * packs)
                >= ((p - c) - packs) * x);
        }
    }
}

/// Width that the counts `u` take on the levels below `levels`.
pub open spec fn counts_width(u: Seq<int>, levels: int) -> int
    decreases levels,
{
    if levels <= 0 {
        0
    } else {
        counts_width(u, levels - 1) + u[levels - 1] * pow2((levels - 1) as nat)
    }
}

/// Cost of the lightest leaves on the levels below `levels`, `u[j]` of them
/// on level `j`.
pub open spec fn counts_cost(w: Seq<int>, u: Seq<int>, levels: int) -> int
    decreases levels,
{
    if levels <= 0 {
        0
    } else {
        counts_cost(w, u, levels - 1) + leaf_total(w, u[levels - 1])
    }
}

proof fn lemma_counts_bounds(w: Seq<int>, u: Seq<int>, levels: int)
    requires
        ascending_weights(w),
        0 <= levels <= u.len(),
        forall|j: int| 0 <= j < levels ==> 0 <= #[trigger] u[j] <= w.len(),
    ensures
        0 <= counts_cost(w, u, levels),
        0 <= counts_width(u, levels) <= w.len() * (pow2(levels as nat) - 1),
    decreases levels,
{
    let n = w.len() as int;
    if levels > 0 {
        lemma_counts_bounds(w, u, levels - 1);
        lemma_leaf_total_monotone(w, 0, u[levels - 1]);
        lemma_pow2_unfold(levels as nat);
        lemma_pow2_pos((levels - 1) as nat);
        let t = pow2((levels - 1) as nat) as int;
        let c = u[levels - 1];
        assert(0 <= c * t <= n * t) by (nonlinear_arith)
            requires
                0 <= c <= n,
                t >= 1,
        ;
        assert(n * (t - 1) + n * t == n * (2 * t - 1)) by (nonlinear_arith);
    } else {
        lemma2_to64();
        assert(n * (1 - 1) == 0);
    }
}

proof fn lemma_halved_times(x: int, times: int)
    requires
        0 <= x,
        0 <= times,
    ensures
        0 <= halved(x, times),
        halved(x, times) * pow2(times as nat) <= x,
    decreases times,
{
    if times > 0 {
        lemma_halved_times(x, times - 1);
        lemma_pow2_unfold(times as nat);
        let h = halved(x, times - 1);
        let t = pow2((times - 1) as nat) as int;
        lemma_pow2_pos((times - 1) as nat);
        assert((h / 2) * (2 * t) <= h * t) by (nonlinear_arith)
            requires
                h >= 0,
                t >= 1,
                2 * (h / 2) <= h,
        ;
    } else {
        lemma2_to64();
        assert(x * 1 == x);
    }
}

/// The first `p` items of a level cost no more than any leaves on the levels
/// up to it that take the width `p * 2^level`.
proof fn lemma_cheapest(w: Seq<int>, u: Seq<int>, level: int, p: int)
    requires
        ascending_weights(w),
        0 <= level < u.len(),
        forall|j: int| 0 <= j <= level ==> 0 <= #[trigger] u[j] <= w.len(),
        0 <= p <= level_len(w.len() as int, level),
        counts_width(u, level + 1) >= p * pow2(level as nat),
    ensures
        level_total(w, level, p) <= counts_cost(w, u, level + 1),
    decreases level,
{
    let n = w.len() as int;
    let t = pow2(level as nat) as int;
    let held = u[level];
    lemma_pow2_pos(level as nat);
    lemma_counts_bounds(w, u, level);
    assert(counts_width(u, level + 1) == counts_width(u, level) + held * t);
    assert(counts_cost(w, u, level + 1) == counts_cost(w, u, level) + leaf_total(w, held));
    if level == 0 {
        lemma_level_total(w, 0, p);
        lemma2_to64();
        assert(held * 1 == held);
        assert(p * 1 == p);
        lemma_leaf_total_monotone(w, p, held);
    } else {
        let c = if held < p {
            held
        } else {
            p
        };
        let below = level_len(n, level - 1);
        let half = pow2((level - 1) as nat) as int;
        lemma_pow2_unfold(level as nat);
        lemma_pow2_pos((level - 1) as nat);
        lemma_level_len_bounds(n, level - 1);
        lemma_leaf_total_monotone(w, c, held);
        assert(counts_width(u, level) >= (2 * (p - c)) * half) by (nonlinear_arith)
            requires
                counts_width(u, level) + held * t >= p * t,
                t == 2 * half,
                half >= 1,
                c <= held,
                counts_width(u, level) >= 0,
                0 <= c <= p,
                c == held || c == p,
        ;
        if 2 * (p - c) > below {
            lemma_level_len_halved(n, level - 1);
            lemma_halved_times(n - 1, level - 1);
            let h = halved(n - 1, level - 1);
            assert((2 * (p - c)) * half >= (below + 1) * half) by (nonlinear_arith)
                requires
                    2 * (p - c) >= below + 1,
                    half >= 1,
            ;
            assert((below + 1) * half == n * t - h * half) by (nonlinear_arith)
                requires
                    below == 2 * n - 1 - h,
                    t == 2 * half,
            ;
            assert(n * (t - 1) == n * t - n) by (nonlinear_arith);
            assert(false);
        }
        lemma_cheapest(w, u, level - 1, 2 * (p - c));
        lemma_merge_cheapest(w, level, p, c);
    }
}

/// The levels of the package-merge code cost together what the items cost
/// that the code takes on the highest of them.
proof fn lemma_package_merge_cost(w: Seq<int>, bits: int, level: int)
    requires
        ascending_weights(w),
        bits >= 1,
        w.len() <= pow2(bits as nat),
        0 <= level < bits,
    ensures
        counts_cost(w, package_merge_counts(w, bits), level + 1)
            == level_total(w, level, selected(w, bits, level)),
    decreases level,
{
    let u = package_merge_counts(w, bits);
    lemma_selected_fits(w, bits, level);
    lemma_level_total(w, level, selected(w, bits, level));
    assert(u[level] == leaves_used(w, bits, level));
    assert(counts_cost(w, u, level + 1) == counts_cost(w, u, level) + leaf_total(w, u[level]));
    if level > 0 {
        lemma_package_merge_cost(w, bits, level - 1);
        assert(selected(w, bits, level - 1) == 2 * packages_in(
            w,
            level,
            selected(w, bits, level),
        ));
    } else {
        assert(counts_cost(w, u, 0) == 0);
    }
}

proof fn lemma_counts_of(w: Seq<int>, l: Seq<int>, bits: int, u: Seq<int>, levels: int)
    requires
        0 <= levels <= u.len(),
        forall|i: int| 0 <= i < u.len() ==> #[trigger] u[i] == level_count(
            l,
            bits,
            i,
            l.len() as int,
        ),
    ensures
        counts_cost(w, u, levels) == cheapest_on_levels(w, l, bits, levels),
        counts_width(u, levels) == width_on_levels(l, bits, levels, l.len() as int),
    decreases levels,
{
    if levels > 0 {
        lemma_counts_of(w, l, bits, u, levels - 1);
        assert(u[levels - 1] == level_count(l, bits, levels - 1, l.len() as int));
    }
}

/// No prefix code of at most `bits` bits costs less than the items that the
/// package-merge construction takes on its highest level.
proof fn lemma_cost_bound(w: Seq<int>, bits: int, l: Seq<int>)
    requires
        ascending_weights(w),
        bits >= 1,
        w.len() <= pow2(bits as nat),
        prefix_code_lengths(l, w.len() as int, bits),
    ensures
        level_total(w, bits - 1, 2 * w.len() - 2) <= rank_cost(w, l, w.len() as int),
{
    let n = w.len() as int;
    let u = Seq::new(bits as nat, |i: int| level_count(l, bits, i, n));
    let t = pow2(bits as nat) as int;
    let half = pow2((bits - 1) as nat) as int;
    lemma_level_sums(w, l, bits, n);
    lemma_cheapest_on_levels(w, l, bits, bits);
    lemma_counts_of(w, l, bits, u, bits);
    assert forall|j: int| 0 <= j <= bits - 1 implies 0 <= #[trigger] u[j] <= w.len() by {
        lemma_level_weight(w, l, bits, j, n);
    }
    lemma_pow2_unfold(bits as nat);
    assert((2 * n - 2) * half == n * t - t) by (nonlinear_arith)
        requires
            t == 2 * half,
    ;
    crate::package_merge_lemmas::lemma_top_level_fits(n, bits);
    lemma_cheapest(w, u, bits - 1, 2 * n - 2);
}

/// The package-merge code costs what the items cost that the construction
/// takes on its highest level.
proof fn lemma_package_merge_rank_cost(w: Seq<int>, bits: int)
    requires
        ascending_weights(w),
        bits >= 1,
        w.len() <= pow2(bits as nat),
    ensures
        rank_cost(w, package_merge_lengths(w, bits), w.len() as int) == level_total(
            w,
            bits - 1,
            2 * w.len() - 2,
        ),
{
    let n = w.len() as int;
    let l = package_merge_lengths(w, bits);
    let u = package_merge_counts(w, bits);
    assert forall|r: int| 0 <= r < l.len() implies 1 <= #[trigger] l[r] <= bits by {
        lemma_code_length_range(w, bits, r);
    }
    lemma_level_sums(w, l, bits, n);
    lemma_package_merge_cost(w, bits, bits - 1);
    lemma_package_merge_levels(w, bits, bits);
}

/// On each level the package-merge code holds the lightest leaves, as many as
/// it takes there.
proof fn lemma_package_merge_level(w: Seq<int>, bits: int, level: int, upto: int)
    requires
        ascending_weights(w),
        bits >= 1,
        w.len() <= pow2(bits as nat),
        0 <= level < bits,
        0 <= upto <= w.len(),
    ensures
        level_weight(w, package_merge_lengths(w, bits), bits, level, upto) == leaf_total(
            w,
            if upto < leaves_used(w, bits, level) {
                upto
            } else {
                leaves_used(w, bits, level)
            },
        ),
    decreases upto,
{
    let l = package_merge_lengths(w, bits);
    lemma_selected_fits(w, bits, level);
    if upto > 0 {
        lemma_package_merge_level(w, bits, level, upto - 1);
        lemma_levels_holding(w, bits, upto - 1, bits);
        assert(l[upto - 1] == code_length(w, bits, upto - 1));
        assert(on_level(l, bits, level, upto - 1) <==> upto - 1 < leaves_used(w, bits, level));
    }
}

proof fn lemma_package_merge_levels(w: Seq<int>, bits: int, levels: int)
    requires
        ascending_weights(w),
        bits >= 1,
        w.len() <= pow2(bits as nat),
        0 <= levels <= bits,
    ensures
        weight_on_levels(w, package_merge_lengths(w, bits), bits, levels, w.len() as int)
            == counts_cost(w, package_merge_counts(w, bits), levels),
    decreases levels,
{
    let u = package_merge_counts(w, bits);
    if levels > 0 {
        lemma_package_merge_levels(w, bits, levels - 1);
        lemma_package_merge_level(w, bits, levels - 1, w.len() as int);
        lemma_selected_fits(w, bits, levels - 1);
        assert(u[levels - 1] == leaves_used(w, bits, levels - 1));
    }
}

/// The package-merge code is a cheapest prefix code: whatever code lengths of
/// at most `bits` bits meet the Kraft inequality, they cost no less than the
/// code lengths of the package-merge construction.
pub proof fn lemma_package_merge_optimal(w: Seq<int>, bits: int, l: Seq<int>)
    requires
        ascending_weights(w),
        bits >= 1,
        w.len() <= pow2(bits as nat),
        prefix_code_lengths(l, w.len() as int, bits),
    ensures
        rank_cost(w, package_merge_lengths(w, bits), w.len() as int) <= rank_cost(
            w,
            l,
            w.len() as int,
        ),
{
    lemma_cost_bound(w, bits, l);
    lemma_package_merge_rank_cost(w, bits);
}

/// What the ranks below `upto` on `level` give to the Kraft sum.
pub open spec fn on_sum(l: Seq<int>, bits: int, level: int, upto: int) -> int
    decreases upto,
{
    if upto <= 0 {
        0
    } else {
        on_sum(l, bits, level, upto - 1) + if on_level(l, bits, level, upto - 1) {
            pow2((bits - l[upto - 1]) as nat) as int
        } else {
            0int
        }
    }
}

/// What the ranks below `upto` that are not on `level` give to the Kraft sum,
/// in units of `2^(level + 1)`.
pub open spec fn off_sum(l: Seq<int>, bits: int, level: int, upto: int) -> int
    decreases upto,
{
    if upto <= 0 {
        0
    } else {
        off_sum(l, bits, level, upto - 1) + if on_level(l, bits, level, upto - 1) {
            0int
        } else {
            pow2((bits - l[upto - 1] - level - 1) as nat) as int
        }
    }
}

proof fn lemma_pow2_monotone(a: int, b: int)
    requires
        0 <= a <= b,
    ensures
        1 <= pow2(a as nat) <= pow2(b as nat),
{
    lemma_pow2_pos(a as nat);
    if a < b {
        vstd::arithmetic::power2::lemma_pow2_strictly_increases(a as nat, b as nat);
    }
}

/// The ranks on a level and the ranks off it make up the Kraft sum; the
/// ranks on it give at most `2^level` each.
proof fn lemma_on_off(l: Seq<int>, bits: int, level: int, upto: int)
    requires
        0 <= level < bits,
        0 <= upto <= l.len(),
        forall|r: int| 0 <= r < l.len() ==> 1 <= #[trigger] l[r] <= bits,
    ensures
        on_sum(l, bits, level, upto) + pow2((level + 1) as nat) * off_sum(l, bits, level, upto)
            == rank_kraft(l, bits, upto),
        0 <= off_sum(l, bits, level, upto),
        0 <= level_count(l, bits, level, upto) <= upto,
        level_count(l, bits, level, upto) <= on_sum(l, bits, level, upto) <= level_count(
            l,
            bits,
            level,
            upto,
        ) * pow2(level as nat),
        level == bits - 1 ==> off_sum(l, bits, level, upto) == 0 && level_count(
            l,
            bits,
            level,
            upto,
        ) == upto,
    decreases upto,
{
    let a = pow2((level + 1) as nat) as int;
    let t = pow2(level as nat) as int;
    if upto > 0 {
        lemma_on_off(l, bits, level, upto - 1);
        let x = l[upto - 1];
        assert(1 <= x <= bits);
        let c = level_count(l, bits, level, upto - 1);
        let off = off_sum(l, bits, level, upto - 1);
        if on_level(l, bits, level, upto - 1) {
            lemma_pow2_monotone(bits - x, level);
            assert((c + 1) * t == c * t + t) by (nonlinear_arith);
        } else {
            let b = pow2((bits - x - level - 1) as nat) as int;
            lemma_pow2_adds((level + 1) as nat, (bits - x - level - 1) as nat);
            lemma_pow2_pos((bits - x - level - 1) as nat);
            assert(a * (off + b) == a * off + a * b) by (nonlinear_arith);
        }
    } else {
        assert(a * 0 == 0);
        assert(0 * t == 0);
    }
}

/// A level that holds a leaf of a complete code holds the width of two nodes.
proof fn lemma_on_sum_full(l: Seq<int>, bits: int, level: int)
    requires
        0 <= level < bits,
        forall|r: int| 0 <= r < l.len() ==> 1 <= #[trigger] l[r] <= bits,
        rank_kraft(l, bits, l.len() as int) == pow2(bits as nat),
        level_count(l, bits, level, l.len() as int) >= 1,
    ensures
        on_sum(l, bits, level, l.len() as int) >= pow2((level + 1) as nat),
{
    let n = l.len() as int;
    let a = pow2((level + 1) as nat) as int;
    let rest = pow2((bits - level - 1) as nat) as int;
    let on = on_sum(l, bits, level, n);
    let off = off_sum(l, bits, level, n);
    lemma_on_off(l, bits, level, n);
    lemma_pow2_adds((level + 1) as nat, (bits - level - 1) as nat);
    lemma_pow2_pos((level + 1) as nat);
    assert(on >= a) by (nonlinear_arith)
        requires
            on + a * off == a * rest,
            on >= 1,
            a >= 1,
    ;
}

/// From a level to the next, the leaves of the one code length more come onto
/// the level.
proof fn lemma_on_sum_up(l: Seq<int>, bits: int, level: int, upto: int)
    requires
        1 <= level < bits,
        0 <= upto <= l.len(),
        forall|r: int| 0 <= r < l.len() ==> 1 <= #[trigger] l[r] <= bits,
    ensures
        level_count(l, bits, level - 1, upto) <= level_count(l, bits, level, upto),
        on_sum(l, bits, level, upto) == on_sum(l, bits, level - 1, upto) + (level_count(
            l,
            bits,
            level,
            upto,
        ) - level_count(l, bits, level - 1, upto)) * pow2(level as nat),
    decreases upto,
{
    let t = pow2(level as nat) as int;
    if upto > 0 {
        lemma_on_sum_up(l, bits, level, upto - 1);
        let d = level_count(l, bits, level, upto - 1) - level_count(l, bits, level - 1, upto - 1);
        assert(1 <= l[upto - 1] <= bits);
        if on_level(l, bits, level, upto - 1) && !on_level(l, bits, level - 1, upto - 1) {
            assert(l[upto - 1] == bits - level);
            assert((d + 1) * t == d * t + t) by (nonlinear_arith);
        }
    } else {
        assert(0 * t == 0);
    }
}

/// In a complete code, a level holds a leaf more than the width of its nodes
/// for every level between it and a lower level that holds a leaf.
proof fn lemma_depth_invariant(l: Seq<int>, bits: int, low: int, level: int)
    requires
        0 <= low <= level < bits,
        forall|r: int| 0 <= r < l.len() ==> 1 <= #[trigger] l[r] <= bits,
        rank_kraft(l, bits, l.len() as int) == pow2(bits as nat),
        level_count(l, bits, low, l.len() as int) >= 1,
    ensures
        level_count(l, bits, level, l.len() as int) >= 1,
        level_count(l, bits, level, l.len() as int) * pow2(level as nat) >= on_sum(
            l,
            bits,
            level,
            l.len() as int,
        ) + (level - low) * pow2(level as nat),
    decreases level - low,
{
    let n = l.len() as int;
    let t = pow2(level as nat) as int;
    let c = level_count(l, bits, level, n);
    let s = on_sum(l, bits, level, n);
    lemma_on_off(l, bits, level, n);
    if level == low {
        assert(0 * t == 0);
    } else {
        lemma_depth_invariant(l, bits, low, level - 1);
        lemma_on_sum_up(l, bits, level, n);
        lemma_on_sum_full(l, bits, level - 1);
        lemma_pow2_unfold(level as nat);
        let h = pow2((level - 1) as nat) as int;
        let c1 = level_count(l, bits, level - 1, n);
        let s1 = on_sum(l, bits, level - 1, n);
        assert(c * t >= s + (level - low) * t) by (nonlinear_arith)
            requires
                t == 2 * h,
                c1 * h >= s1 + (level - 1 - low) * h,
                s == s1 + (c - c1) * t,
                s1 >= t,
        ;
    }
}

proof fn lemma_level_holds(l: Seq<int>, bits: int, level: int, r: int, upto: int)
    requires
        0 <= r < upto,
        on_level(l, bits, level, r),
    ensures
        level_count(l, bits, level, upto) >= 1,
        level_count(l, bits, level, upto) >= level_count(l, bits, level, upto - 1),
        level_count(l, bits, level, upto - 1) >= 0,
    decreases upto,
{
    if r < upto - 1 {
        lemma_level_holds(l, bits, level, r, upto - 1);
    } else {
        lemma_level_count_nonnegative(l, bits, level, upto - 1);
    }
}

proof fn lemma_level_count_nonnegative(l: Seq<int>, bits: int, level: int, upto: int)
    ensures
        level_count(l, bits, level, upto) >= 0,
    decreases upto,
{
    if upto > 0 {
        lemma_level_count_nonnegative(l, bits, level, upto - 1);
    }
}

/// In a complete code of `n` symbols no code is longer than `n - 1` bits.
pub proof fn lemma_depth_bound(l: Seq<int>, bits: int, r: int)
    requires
        bits >= 1,
        0 <= r < l.len(),
        forall|r: int| 0 <= r < l.len() ==> 1 <= #[trigger] l[r] <= bits,
        rank_kraft(l, bits, l.len() as int) == pow2(bits as nat),
    ensures
        l[r] <= l.len() - 1,
{
    let n = l.len() as int;
    let low = bits - l[r];
    let top = bits - 1;
    let h = pow2(top as nat) as int;
    assert(1 <= l[r] <= bits);
    lemma_level_holds(l, bits, low, r, n);
    lemma_depth_invariant(l, bits, low, top);
    lemma_on_off(l, bits, top, n);
    lemma_pow2_unfold(bits as nat);
    lemma_pow2_pos(top as nat);
    let s = on_sum(l, bits, top, n);
    assert(pow2((top + 1) as nat) * 0 == 0);
    assert(s == 2 * h);
    assert(n >= 2 + (top - low)) by (nonlinear_arith)
        requires
            n * h >= 2 * h + (top - low) * h,
            h >= 1,
    ;
}

/// With `extra` more bits to spend, a Kraft sum is `2^extra` times as large.
pub proof fn lemma_kraft_scale(l: Seq<int>, bits: int, extra: int, upto: int)
    requires
        0 <= upto <= l.len(),
        0 <= extra,
        forall|r: int| 0 <= r < l.len() ==> #[trigger] l[r] <= bits,
    ensures
        rank_kraft(l, bits + extra, upto) == pow2(extra as nat) * rank_kraft(l, bits, upto),
    decreases upto,
{
    let e = pow2(extra as nat) as int;
    if upto > 0 {
        lemma_kraft_scale(l, bits, extra, upto - 1);
        let x = l[upto - 1];
        assert(x <= bits);
        lemma_pow2_adds(extra as nat, (bits - x) as nat);
        let a = rank_kraft(l, bits, upto - 1);
        let b = pow2((bits - x) as nat) as int;
        assert(e * (a + b) == e * a + e * b) by (nonlinear_arith);
    } else {
        assert(e * 0 == 0);
    }
}

/// The Kraft sum of the package-merge code lengths, rank by rank.
pub proof fn lemma_package_merge_kraft(w: Seq<int>, bits: int, upto: int)
    requires
        0 <= upto <= w.len(),
    ensures
        rank_kraft(package_merge_lengths(w, bits), bits, upto) == crate::package_merge::kraft_ranks(
            w,
            bits,
            upto,
        ),
    decreases upto,
{
    if upto > 0 {
        lemma_package_merge_kraft(w, bits, upto - 1);
    }
}

/// Number of levels that the construction works with where codes of up to
/// `limit` bits are allowed: no more than a code of `n` symbols can need.
pub open spec fn levels_within(n: int, limit: int) -> int {
    if n - 1 < limit {
        n - 1
    } else {
        limit
    }
}

/// To work with `n - 1` levels where more bits are allowed costs nothing: no
/// prefix code of at most `limit` bits is cheaper than the package-merge code
/// of as many levels as the construction works with.
pub proof fn lemma_package_merge_optimal_within(w: Seq<int>, limit: int, l: Seq<int>)
    requires
        ascending_weights(w),
        limit >= 1,
        w.len() <= pow2(limit as nat),
        prefix_code_lengths(l, w.len() as int, limit),
    ensures
        rank_cost(w, package_merge_lengths(w, levels_within(w.len() as int, limit)), w.len() as int)
            <= rank_cost(w, l, w.len() as int),
{
    let n = w.len() as int;
    let bits = levels_within(n, limit);
    if bits == limit {
        lemma_package_merge_optimal(w, bits, l);
    } else {
        let best = package_merge_lengths(w, limit);
        lemma_package_merge_optimal(w, limit, l);
        crate::package_merge_lemmas::lemma_kraft_equality(w, limit);
        lemma_package_merge_kraft(w, limit, n);
        assert forall|r: int| 0 <= r < best.len() implies 1 <= #[trigger] best[r] <= limit by {
            lemma_code_length_range(w, limit, r);
        }
        assert forall|r: int| 0 <= r < best.len() implies 1 <= #[trigger] best[r] <= bits by {
            lemma_depth_bound(best, limit, r);
        }
        lemma_kraft_scale(best, bits, limit - bits, n);
        lemma_pow2_adds((limit - bits) as nat, bits as nat);
        lemma_pow2_pos((limit - bits) as nat);
        let e = pow2((limit - bits) as nat) as int;
        let k = rank_kraft(best, bits, n);
        let t = pow2(bits as nat) as int;
        assert(k == t) by (nonlinear_arith)
            requires
                e * k == e * t,
                e >= 1,
        ;
        crate::package_merge_lemmas::lemma_count_below_pow2(n);
        lemma_package_merge_optimal(w, bits, best);
    }
}

} // verus!
