//! The package-merge construction of a length-limited prefix code, as a
//! mathematical model.
//!
//! The weights of the symbols in use are given in ascending order. For each
//! code length there is a *level*: a list of items in ascending order of
//! weight, holding every leaf and, above the lowest level, one package for each
//! pair of neighbouring items of the level below. The code takes the first
//! `2n - 2` items of the highest level together with everything they are made
//! of; a symbol's code length is the number of levels in which its leaf is
//! taken.

use vstd::prelude::*;

verus! {

/// Weights as the construction expects them: at least two, all positive, in
/// ascending order.
pub open spec fn ascending_weights(w: Seq<int>) -> bool {
    &&& w.len() >= 2
    &&& forall|i: int| 0 <= i < w.len() ==> #[trigger] w[i] >= 1
    &&& forall|i: int, j: int| 0 <= i <= j < w.len() ==> w[i] <= w[j]
}

/// Number of items in the list of `level` (the lowest level is 0): all `n`
/// leaves, and one package for every complete pair of the level below.
pub open spec fn level_len(n: int, level: int) -> int
    decreases level,
{
    if level <= 0 {
        n
    } else {
        n + level_len(n, level - 1) / 2
    }
}

/// The first `p` items of `level`, summed up as a pair: how many of them are
/// leaves, and the weight of the last of them.
///
/// The next item of a level is the next leaf where that leaf is lighter than
/// the next package, or where the level below has no complete pair left;
/// otherwise it is the next package, whose weight is that of the pair.
pub open spec fn prefix(w: Seq<int>, level: int, p: int) -> (int, int)
    decreases level, p,
{
    if p <= 0 {
        (0, 0)
    } else if level <= 0 {
        (p, w[p - 1])
    } else {
        let c = prefix(w, level, p - 1).0;
        let k = p - 1 - c;
        let merged = prefix(w, level - 1, 2 * k + 1).1 + prefix(w, level - 1, 2 * k + 2).1;
        if c < w.len() && (2 * k + 2 > level_len(w.len() as int, level - 1) || w[c] < merged) {
            (c + 1, w[c])
        } else {
            (c, merged)
        }
    }
}

/// Number of leaves among the first `p` items of `level`.
pub open spec fn leaves_in(w: Seq<int>, level: int, p: int) -> int {
    prefix(w, level, p).0
}

/// Number of packages among the first `p` items of `level`.
pub open spec fn packages_in(w: Seq<int>, level: int, p: int) -> int {
    p - prefix(w, level, p).0
}

/// Weight of item `q` of `level`, counting from 0.
pub open spec fn item_weight(w: Seq<int>, level: int, q: int) -> int {
    prefix(w, level, q + 1).1
}

/// Weight of package `k` of `level`: items `2k` and `2k + 1` of the level below.
pub open spec fn package_weight(w: Seq<int>, level: int, k: int) -> int {
    item_weight(w, level - 1, 2 * k) + item_weight(w, level - 1, 2 * k + 1)
}

/// Number of items of `level` that the code takes when it has `bits` levels:
/// `2n - 2` on the highest level, and below it the two halves of every package
/// taken one level up.
pub open spec fn selected(w: Seq<int>, bits: int, level: int) -> int
    decreases bits - level,
{
    if level >= bits - 1 {
        2 * w.len() - 2
    } else {
        2 * packages_in(w, level + 1, selected(w, bits, level + 1))
    }
}

/// Number of leaves that the code takes on `level`: the leaves of rank below
/// this number are the ones taken there.
pub open spec fn leaves_used(w: Seq<int>, bits: int, level: int) -> int {
    leaves_in(w, level, selected(w, bits, level))
}

/// Number of levels below `upto` on which the leaf of `rank` is taken.
pub open spec fn levels_holding(w: Seq<int>, bits: int, rank: int, upto: int) -> int
    decreases upto,
{
    if upto <= 0 {
        0
    } else {
        levels_holding(w, bits, rank, upto - 1) + if rank < leaves_used(w, bits, upto - 1) {
            1int
        } else {
            0int
        }
    }
}

/// Code length of the leaf of `rank` (ranks count the ascending weights from
/// 0) in the code with `bits` levels.
pub open spec fn code_length(w: Seq<int>, bits: int, rank: int) -> int {
    levels_holding(w, bits, rank, bits)
}

/// Sum of the first `c` weights.
pub open spec fn leaf_total(w: Seq<int>, c: int) -> int
    decreases c,
{
    if c <= 0 {
        0
    } else {
        leaf_total(w, c - 1) + w[c - 1]
    }
}

/// Sum of the weights of the first `p` items of `level`.
pub open spec fn level_total(w: Seq<int>, level: int, p: int) -> int
    decreases p,
{
    if p <= 0 {
        0
    } else {
        level_total(w, level, p - 1) + item_weight(w, level, p - 1)
    }
}

/// `2^bits` times the Kraft sum of the code lengths of the ranks below `m`:
/// the sum of `2^(bits - length)`.
pub open spec fn kraft_ranks(w: Seq<int>, bits: int, m: int) -> int
    decreases m,
{
    if m <= 0 {
        0
    } else {
        kraft_ranks(w, bits, m - 1) + vstd::arithmetic::power2::pow2(
            (bits - code_length(w, bits, m - 1)) as nat,
        )
    }
}

} // verus!
