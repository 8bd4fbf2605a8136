//! Properties of the package-merge model: every level is sorted, the leaves
//! taken on the levels are nested, the selection fits the levels whenever the
//! code can exist at all, and the resulting code lengths meet the Kraft
//! equality.

use vstd::prelude::*;
use vstd::arithmetic::power2::{pow2, lemma_pow2_pos, lemma_pow2_unfold, lemma2_to64};
use crate::package_merge::{
    ascending_weights, code_length, item_weight, kraft_ranks, leaf_total, leaves_in, leaves_used,
    level_len, level_total, levels_holding, package_weight, packages_in, prefix, selected,
};

verus! {

/// A level is never shorter than the number of leaves, nor longer than `2n - 1`.
pub proof fn lemma_level_len_bounds(n: int, level: int)
    requires
        n >= 1,
    ensures
        n <= level_len(n, level) <= 2 * n - 1,
    decreases level,
{
    if level > 0 {
        lemma_level_len_bounds(n, level - 1);
    }
}

/// Within a level, the leaves taken never outnumber the leaves there are, and
/// the packages taken never outnumber the pairs of the level below.
pub proof fn lemma_prefix_bounds(w: Seq<int>, level: int, p: int)
    requires
        w.len() >= 1,
        level >= 0,
        0 <= p <= level_len(w.len() as int, level),
    ensures
        0 <= leaves_in(w, level, p) <= w.len(),
        leaves_in(w, level, p) <= p,
        level == 0 ==> leaves_in(w, level, p) == p,
        level >= 1 ==> 2 * packages_in(w, level, p) <= level_len(w.len() as int, level - 1),
    decreases p,
{
    let n = w.len() as int;
    if level >= 1 {
        lemma_level_len_bounds(n, level - 1);
    }
    if p > 0 && level >= 1 {
        lemma_prefix_bounds(w, level, p - 1);
    }
}

/// What the next item of a level is. The item at position `p` exists, so a
/// leaf or a pair is left; it is the leaf exactly if the leaf is lighter than
/// the pair or no pair is left.
pub proof fn lemma_next_item(w: Seq<int>, level: int, p: int)
    requires
        w.len() >= 1,
        level >= 1,
        0 <= p < level_len(w.len() as int, level),
    ensures
        ({
            let c = leaves_in(w, level, p);
            let k = packages_in(w, level, p);
            let pair = 2 * k + 2 <= level_len(w.len() as int, level - 1);
            let leaf = c < w.len() && (!pair || w[c] < package_weight(w, level, k));
            &&& 0 <= c <= w.len()
            &&& 0 <= k
            &&& c < w.len() || pair
            &&& leaf ==> leaves_in(w, level, p + 1) == c + 1 && item_weight(w, level, p) == w[c]
            &&& !leaf ==> pair && leaves_in(w, level, p + 1) == c && item_weight(w, level, p)
                == package_weight(w, level, k)
        }),
{
    lemma_prefix_bounds(w, level, p);
    lemma_level_len_bounds(w.len() as int, level - 1);
}

/// Every level is in ascending order of weight, with positive weights; the
/// item just taken is no heavier than the next leaf and the next package, and
/// no lighter than the last leaf taken.
pub proof fn lemma_level_sorted(w: Seq<int>, level: int, p: int)
    requires
        ascending_weights(w),
        level >= 0,
        0 <= p < level_len(w.len() as int, level),
    ensures
        item_weight(w, level, p) >= 1,
        p >= 1 ==> item_weight(w, level, p - 1) <= item_weight(w, level, p),
        leaves_in(w, level, p + 1) < w.len() ==> item_weight(w, level, p) <= w[leaves_in(
            w,
            level,
            p + 1,
        )],
        level >= 1 && 2 * packages_in(w, level, p + 1) + 2 <= level_len(w.len() as int, level - 1)
            ==> item_weight(w, level, p) <= package_weight(
            w,
            level,
            packages_in(w, level, p + 1),
        ),
        leaves_in(w, level, p + 1) >= 1 ==> w[leaves_in(w, level, p + 1) - 1] <= item_weight(
            w,
            level,
            p,
        ),
    decreases level, p,
{
    let n = w.len() as int;
    if level == 0 {
        assert(prefix(w, 0, p + 1) == (p + 1, w[p]));
        if p >= 1 {
            assert(prefix(w, 0, p) == (p, w[p - 1]));
        }
    } else {
        lemma_next_item(w, level, p);
        let c = leaves_in(w, level, p);
        let k = packages_in(w, level, p);
        let below = level_len(n, level - 1);
        if p >= 1 {
            lemma_level_sorted(w, level, p - 1);
        }
        if 2 * k + 2 <= below {
            lemma_level_sorted(w, level - 1, 2 * k);
            lemma_level_sorted(w, level - 1, 2 * k + 1);
            if 2 * k + 4 <= below {
                lemma_level_sorted(w, level - 1, 2 * k + 2);
                lemma_level_sorted(w, level - 1, 2 * k + 3);
            }
        }
    }
}

/// The leaves taken on a level include the leaves that lie inside the packages
/// taken there.
pub proof fn lemma_leaves_nest(w: Seq<int>, level: int, p: int)
    requires
        ascending_weights(w),
        level >= 1,
        0 <= p <= level_len(w.len() as int, level),
    ensures
        leaves_in(w, level - 1, 2 * packages_in(w, level, p)) <= leaves_in(w, level, p),
    decreases p,
{
    if p > 0 {
        lemma_leaves_nest(w, level, p - 1);
        lemma_next_item(w, level, p - 1);
        let c = leaves_in(w, level, p - 1);
        let k = packages_in(w, level, p - 1);
        if leaves_in(w, level, p) == c {
            let inner = leaves_in(w, level - 1, 2 * k + 2);
            lemma_prefix_bounds(w, level - 1, 2 * k + 2);
            if inner > c {
                lemma_level_sorted(w, level - 1, 2 * k);
                lemma_level_sorted(w, level - 1, 2 * k + 1);
                assert(w[c] <= w[inner - 1]);
                assert(false);
            }
        }
    }
}

/// The sum of the first `c` weights grows with `c`.
pub proof fn lemma_leaf_total_monotone(w: Seq<int>, c: int, d: int)
    requires
        ascending_weights(w),
        0 <= c <= d <= w.len(),
    ensures
        0 <= leaf_total(w, c) <= leaf_total(w, d),
    decreases d,
{
    if c < d {
        lemma_leaf_total_monotone(w, c, d - 1);
    } else if c > 0 {
        lemma_leaf_total_monotone(w, c - 1, c - 1);
    }
}

/// The items taken on a level weigh as much as the leaves among them and the
/// items of the level below that their packages are made of.
pub proof fn lemma_level_total(w: Seq<int>, level: int, p: int)
    requires
        ascending_weights(w),
        level >= 0,
        0 <= p <= level_len(w.len() as int, level),
    ensures
        level == 0 ==> level_total(w, level, p) == leaf_total(w, p),
        level >= 1 ==> level_total(w, level, p) == leaf_total(w, leaves_in(w, level, p))
            + level_total(w, level - 1, 2 * packages_in(w, level, p)),
    decreases p,
{
    if p > 0 {
        lemma_level_total(w, level, p - 1);
        if level >= 1 {
            lemma_next_item(w, level, p - 1);
            let k = packages_in(w, level, p - 1);
            if leaves_in(w, level, p) == leaves_in(w, level, p - 1) {
                assert(level_total(w, level - 1, 2 * k + 2) == level_total(w, level - 1, 2 * k + 1)
                    + item_weight(w, level - 1, 2 * k + 1));
                assert(level_total(w, level - 1, 2 * k + 1) == level_total(w, level - 1, 2 * k)
                    + item_weight(w, level - 1, 2 * k));
            }
        } else {
            assert(prefix(w, 0, p) == (p, w[p - 1]));
        }
    }
}

/// The items of a level weigh together at most `level + 1` times all leaves.
pub proof fn lemma_level_total_bound(w: Seq<int>, level: int, p: int)
    requires
        ascending_weights(w),
        level >= 0,
        0 <= p <= level_len(w.len() as int, level),
    ensures
        0 <= level_total(w, level, p) <= (level + 1) * leaf_total(w, w.len() as int),
    decreases level,
{
    let n = w.len() as int;
    let all = leaf_total(w, n);
    lemma_level_total(w, level, p);
    lemma_prefix_bounds(w, level, p);
    if level == 0 {
        lemma_leaf_total_monotone(w, p, n);
        assert((0 + 1) * all == all);
    } else {
        lemma_leaf_total_monotone(w, leaves_in(w, level, p), n);
        lemma_level_total_bound(w, level - 1, 2 * packages_in(w, level, p));
        assert((level + 1) * all == (level - 1 + 1) * all + all) by (nonlinear_arith);
    }
}

/// Two neighbouring items of a level weigh together at most `level + 1` times
/// all leaves.
pub proof fn lemma_pair_weight_bound(w: Seq<int>, level: int, q: int)
    requires
        ascending_weights(w),
        level >= 0,
        0 <= q,
        q + 2 <= level_len(w.len() as int, level),
    ensures
        1 <= item_weight(w, level, q),
        1 <= item_weight(w, level, q + 1),
        item_weight(w, level, q) + item_weight(w, level, q + 1) <= (level + 1) * leaf_total(
            w,
            w.len() as int,
        ),
{
    lemma_level_sorted(w, level, q);
    lemma_level_sorted(w, level, q + 1);
    lemma_level_total_bound(w, level, q + 2);
    lemma_level_total_bound(w, level, q);
    assert(level_total(w, level, q + 2) == level_total(w, level, q + 1) + item_weight(
        w,
        level,
        q + 1,
    ));
    assert(level_total(w, level, q + 1) == level_total(w, level, q) + item_weight(w, level, q));
}

/// `x` halved `times` times, rounding down.
pub open spec fn halved(x: int, times: int) -> int
    decreases times,
{
    if times <= 0 {
        x
    } else {
        halved(x, times - 1) / 2
    }
}

/// The length of a level, in closed form.
pub proof fn lemma_level_len_halved(n: int, level: int)
    requires
        n >= 1,
        level >= 0,
    ensures
        0 <= halved(n - 1, level) <= n - 1,
        level_len(n, level) == 2 * n - 1 - halved(n - 1, level),
    decreases level,
{
    if level > 0 {
        lemma_level_len_halved(n, level - 1);
    }
}

proof fn lemma_halved_below(x: int, times: int, e: int)
    requires
        0 <= times <= e,
        0 <= x < pow2(e as nat),
    ensures
        0 <= halved(x, times) < pow2((e - times) as nat),
    decreases times,
{
    if times > 0 {
        lemma_halved_below(x, times - 1, e);
        lemma_pow2_unfold((e - times + 1) as nat);
    }
}

/// With `bits` levels and at most `2^bits` leaves, the highest level holds the
/// `2n - 2` items that the code takes.
pub proof fn lemma_top_level_fits(n: int, bits: int)
    requires
        n >= 2,
        bits >= 1,
        n <= pow2(bits as nat),
    ensures
        2 * n - 2 <= level_len(n, bits - 1),
{
    lemma_level_len_halved(n, bits - 1);
    lemma_halved_below(n - 1, bits - 1, bits);
    lemma2_to64();
}

/// `n` leaves can always be told apart with `n - 1` levels.
pub proof fn lemma_count_below_pow2(n: int)
    requires
        n >= 1,
    ensures
        n <= pow2((n - 1) as nat),
    decreases n,
{
    if n == 1 {
        lemma_pow2_pos(0);
    } else {
        lemma_count_below_pow2(n - 1);
        lemma_pow2_unfold((n - 1) as nat);
    }
}

/// Where the code can exist, the items that it takes on each level are there.
pub proof fn lemma_selected_fits(w: Seq<int>, bits: int, level: int)
    requires
        ascending_weights(w),
        bits >= 1,
        w.len() <= pow2(bits as nat),
        0 <= level < bits,
    ensures
        0 <= selected(w, bits, level) <= level_len(w.len() as int, level),
        0 <= leaves_used(w, bits, level) <= w.len(),
        level == 0 ==> leaves_used(w, bits, level) == selected(w, bits, level),
        level >= 1 ==> selected(w, bits, level - 1) == 2 * (selected(w, bits, level) - leaves_used(
            w,
            bits,
            level,
        )),
        level >= 1 ==> leaves_used(w, bits, level - 1) <= leaves_used(w, bits, level),
    decreases bits - level,
{
    let n = w.len() as int;
    if level >= bits - 1 {
        lemma_top_level_fits(n, bits);
    } else {
        lemma_selected_fits(w, bits, level + 1);
        lemma_prefix_bounds(w, level + 1, selected(w, bits, level + 1));
    }
    lemma_prefix_bounds(w, level, selected(w, bits, level));
    if level >= 1 {
        lemma_leaves_nest(w, level, selected(w, bits, level));
    }
}

/// The leaves taken grow from each level to every level above it.
pub proof fn lemma_leaves_used_monotone(w: Seq<int>, bits: int, low: int, high: int)
    requires
        ascending_weights(w),
        bits >= 1,
        w.len() <= pow2(bits as nat),
        0 <= low <= high < bits,
    ensures
        leaves_used(w, bits, low) <= leaves_used(w, bits, high),
    decreases high - low,
{
    if low < high {
        lemma_leaves_used_monotone(w, bits, low, high - 1);
        lemma_selected_fits(w, bits, high);
    }
}

/// A leaf is taken on the highest levels only: on the `d` levels just below
/// `upto`, where `d` is the number of levels below `upto` that hold it.
pub proof fn lemma_levels_holding(w: Seq<int>, bits: int, rank: int, upto: int)
    requires
        ascending_weights(w),
        bits >= 1,
        w.len() <= pow2(bits as nat),
        0 <= upto <= bits,
    ensures
        0 <= levels_holding(w, bits, rank, upto) <= upto,
        forall|level: int|
            0 <= level < upto ==> (rank < #[trigger] leaves_used(w, bits, level) <==> level >= upto
                - levels_holding(w, bits, rank, upto)),
    decreases upto,
{
    if upto > 0 {
        lemma_levels_holding(w, bits, rank, upto - 1);
        let d = levels_holding(w, bits, rank, upto - 1);
        if rank < leaves_used(w, bits, upto - 1) {
        } else {
            assert forall|level: int| 0 <= level < upto - 1 implies !(rank < #[trigger] leaves_used(
                w,
                bits,
                level,
            )) by {
                lemma_leaves_used_monotone(w, bits, level, upto - 1);
            }
            if d > 0 {
                assert(rank < leaves_used(w, bits, upto - 1 - 1));
            }
        }
    }
}

/// The widths of the leaves taken on the levels below `upto`, a leaf of
/// `level` counting `2^level`.
pub open spec fn width_sum(w: Seq<int>, bits: int, upto: int) -> int
    decreases upto,
{
    if upto <= 0 {
        0
    } else {
        width_sum(w, bits, upto - 1) + leaves_used(w, bits, upto - 1) * pow2((upto - 1) as nat)
    }
}

/// The width that the leaf of `rank` takes on the levels below `upto`.
pub open spec fn cover(w: Seq<int>, bits: int, rank: int, upto: int) -> int
    decreases upto,
{
    if upto <= 0 {
        0
    } else {
        cover(w, bits, rank, upto - 1) + if rank < leaves_used(w, bits, upto - 1) {
            pow2((upto - 1) as nat) as int
        } else {
            0int
        }
    }
}

/// The width that the leaves of rank below `m` take on the levels below `upto`.
pub open spec fn cover_sum(w: Seq<int>, bits: int, m: int, upto: int) -> int
    decreases m,
{
    if m <= 0 {
        0
    } else {
        cover_sum(w, bits, m - 1, upto) + cover(w, bits, m - 1, upto)
    }
}

proof fn lemma_width_sum(w: Seq<int>, bits: int, level: int)
    requires
        ascending_weights(w),
        bits >= 1,
        w.len() <= pow2(bits as nat),
        0 <= level < bits,
    ensures
        width_sum(w, bits, level + 1) == selected(w, bits, level) * pow2(level as nat),
    decreases level,
{
    lemma_selected_fits(w, bits, level);
    let s = selected(w, bits, level);
    let u = leaves_used(w, bits, level);
    if level == 0 {
        lemma2_to64();
        assert(width_sum(w, bits, 0) == 0);
        assert(u * 1 == u);
    } else {
        lemma_width_sum(w, bits, level - 1);
        lemma_pow2_unfold(level as nat);
        let h = pow2((level - 1) as nat) as int;
        let t = pow2(level as nat) as int;
        assert(2 * (s - u) * h + u * t == s * t) by (nonlinear_arith)
            requires
                t == 2 * h,
        ;
    }
}

proof fn lemma_cover(w: Seq<int>, bits: int, rank: int, upto: int)
    requires
        ascending_weights(w),
        bits >= 1,
        w.len() <= pow2(bits as nat),
        0 <= upto <= bits,
    ensures
        0 <= levels_holding(w, bits, rank, upto) <= upto,
        cover(w, bits, rank, upto) == pow2(upto as nat) - pow2(
            (upto - levels_holding(w, bits, rank, upto)) as nat,
        ),
    decreases upto,
{
    lemma_levels_holding(w, bits, rank, upto);
    if upto > 0 {
        lemma_cover(w, bits, rank, upto - 1);
        lemma_levels_holding(w, bits, rank, upto - 1);
        lemma_pow2_unfold(upto as nat);
        let d = levels_holding(w, bits, rank, upto - 1);
        if rank < leaves_used(w, bits, upto - 1) {
        } else {
            if d > 0 {
                assert(rank < leaves_used(w, bits, upto - 1 - 1));
                lemma_leaves_used_monotone(w, bits, upto - 2, upto - 1);
            }
        }
    } else {
        lemma2_to64();
    }
}

proof fn lemma_cover_sum_step(w: Seq<int>, bits: int, m: int, upto: int)
    requires
        0 <= m,
        0 <= upto,
        0 <= leaves_used(w, bits, upto),
    ensures
        cover_sum(w, bits, m, upto + 1) == cover_sum(w, bits, m, upto) + (if m < leaves_used(
            w,
            bits,
            upto,
        ) {
            m
        } else {
            leaves_used(w, bits, upto)
        }) * pow2(upto as nat),
    decreases m,
{
    let u = leaves_used(w, bits, upto);
    let t = pow2(upto as nat) as int;
    if m > 0 {
        lemma_cover_sum_step(w, bits, m - 1, upto);
        if m - 1 < u {
            assert((m - 1) * t + t == m * t) by (nonlinear_arith);
        }
    } else {
        assert(0 * t == 0);
    }
}

proof fn lemma_cover_sum(w: Seq<int>, bits: int, upto: int)
    requires
        ascending_weights(w),
        bits >= 1,
        w.len() <= pow2(bits as nat),
        0 <= upto <= bits,
    ensures
        cover_sum(w, bits, w.len() as int, upto) == width_sum(w, bits, upto),
    decreases upto,
{
    if upto > 0 {
        lemma_cover_sum(w, bits, upto - 1);
        lemma_selected_fits(w, bits, upto - 1);
        lemma_cover_sum_step(w, bits, w.len() as int, upto - 1);
    } else {
        lemma_cover_sum_zero(w, bits, w.len() as int);
    }
}

proof fn lemma_cover_sum_zero(w: Seq<int>, bits: int, m: int)
    ensures
        cover_sum(w, bits, m, 0) == 0,
    decreases m,
{
    if m > 0 {
        lemma_cover_sum_zero(w, bits, m - 1);
    }
}

proof fn lemma_cover_sum_kraft(w: Seq<int>, bits: int, m: int)
    requires
        ascending_weights(w),
        bits >= 1,
        w.len() <= pow2(bits as nat),
        0 <= m,
    ensures
        cover_sum(w, bits, m, bits) == m * pow2(bits as nat) - kraft_ranks(w, bits, m),
        kraft_ranks(w, bits, m) >= m,
        forall|r: int|
            0 <= r < m ==> kraft_ranks(w, bits, m) >= m - 1 + #[trigger] pow2(
                (bits - code_length(w, bits, r)) as nat,
            ),
    decreases m,
{
    let t = pow2(bits as nat) as int;
    if m > 0 {
        lemma_cover_sum_kraft(w, bits, m - 1);
        lemma_cover(w, bits, m - 1, bits);
        lemma_pow2_pos((bits - code_length(w, bits, m - 1)) as nat);
        assert((m - 1) * t + t == m * t) by (nonlinear_arith);
        assert forall|r: int| 0 <= r < m implies kraft_ranks(w, bits, m) >= m - 1 + #[trigger] pow2(
            (bits - code_length(w, bits, r)) as nat,
        ) by {
            if r < m - 1 {
            }
        }
    } else {
        assert(0 * t == 0);
    }
}

/// The code is complete: the code lengths of the leaves meet the Kraft
/// inequality with equality, `sum 2^(bits - length) == 2^bits`.
pub proof fn lemma_kraft_equality(w: Seq<int>, bits: int)
    requires
        ascending_weights(w),
        bits >= 1,
        w.len() <= pow2(bits as nat),
    ensures
        kraft_ranks(w, bits, w.len() as int) == pow2(bits as nat),
{
    let n = w.len() as int;
    let t = pow2(bits as nat) as int;
    lemma_cover_sum_kraft(w, bits, n);
    lemma_cover_sum(w, bits, bits);
    lemma_width_sum(w, bits, bits - 1);
    lemma_pow2_unfold(bits as nat);
    let h = pow2((bits - 1) as nat) as int;
    assert((2 * n - 2) * h == n * t - t) by (nonlinear_arith)
        requires
            t == 2 * h,
    ;
}

/// Every leaf gets a code length between 1 and the number of levels.
pub proof fn lemma_code_length_range(w: Seq<int>, bits: int, rank: int)
    requires
        ascending_weights(w),
        bits >= 1,
        w.len() <= pow2(bits as nat),
        0 <= rank < w.len(),
    ensures
        1 <= code_length(w, bits, rank) <= bits,
{
    let n = w.len() as int;
    lemma_levels_holding(w, bits, rank, bits);
    lemma_kraft_equality(w, bits);
    lemma_cover_sum_kraft(w, bits, n);
    if code_length(w, bits, rank) == 0 {
        assert(kraft_ranks(w, bits, n) >= n - 1 + pow2((bits - code_length(w, bits, rank)) as nat));
        assert(false);
    }
}

} // verus!
