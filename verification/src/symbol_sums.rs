//! Sums over the symbols in use, taken in the order of the alphabet or in the
//! order of the sorted leaves: both orders give the same sum.

use vstd::prelude::*;
use vstd::seq_lib::{commutative_foldl, lemma_fold_left_permutation};
use crate::leaves::{leaf_of, leaf_seq, lemma_sorted_leaves, sorted_leaves, weights, Leaf};
use crate::package_merge::leaf_total;

verus! {

/// Sum of `value(i)` over the symbols `i` below `upto` that are in use.
pub open spec fn symbol_sum(f: Seq<usize>, value: spec_fn(int) -> int, upto: int) -> int
    decreases upto,
{
    if upto <= 0 {
        0
    } else {
        symbol_sum(f, value, upto - 1) + if f[upto - 1] != 0 {
            value(upto - 1)
        } else {
            0int
        }
    }
}

/// Sum of `value` at the symbols of the first `upto` leaves.
pub open spec fn rank_sum(leaves: Seq<Leaf>, value: spec_fn(int) -> int, upto: int) -> int
    decreases upto,
{
    if upto <= 0 {
        0
    } else {
        rank_sum(leaves, value, upto - 1) + value(leaves[upto - 1].count as int)
    }
}

/// Sum of all frequencies.
pub open spec fn total_frequency(f: Seq<usize>) -> int {
    symbol_sum(f, |i: int| f[i] as int, f.len() as int)
}

/// Adds the value of a leaf's symbol to a sum.
pub open spec fn adder(value: spec_fn(int) -> int) -> spec_fn(int, Leaf) -> int {
    |sum: int, l: Leaf| sum + value(l.count as int)
}

/// Sum of `value` at the symbols of the leaves.
pub open spec fn leaf_sum(leaves: Seq<Leaf>, value: spec_fn(int) -> int) -> int {
    leaves.fold_left(0int, adder(value))
}

proof fn lemma_leaf_sum_ranks(leaves: Seq<Leaf>, value: spec_fn(int) -> int, upto: int)
    requires
        0 <= upto <= leaves.len(),
    ensures
        leaf_sum(leaves.take(upto), value) == rank_sum(leaves, value, upto),
    decreases upto,
{
    if upto > 0 {
        lemma_leaf_sum_ranks(leaves, value, upto - 1);
        assert(leaves.take(upto).drop_last() =~= leaves.take(upto - 1));
        assert(leaves.take(upto).last() == leaves[upto - 1]);
    }
}

proof fn lemma_leaf_sum_symbols(f: Seq<usize>, value: spec_fn(int) -> int, upto: int)
    requires
        0 <= upto <= f.len() <= usize::MAX,
    ensures
        leaf_sum(leaf_seq(f.take(upto)), value) == symbol_sum(f, value, upto),
    decreases upto,
{
    if upto > 0 {
        lemma_leaf_sum_symbols(f, value, upto - 1);
        let g = f.take(upto);
        assert(g.drop_last() =~= f.take(upto - 1));
        assert(g.last() == f[upto - 1]);
        if f[upto - 1] != 0 {
            let rest = leaf_seq(f.take(upto - 1));
            let l = Leaf { weight: g.last(), count: (g.len() - 1) as usize };
            assert(leaf_seq(g) == rest.push(l));
            assert(rest.push(l).drop_last() =~= rest);
            assert(rest.push(l).last() == l);
        }
    } else {
        assert(f.take(0).len() == 0);
    }
}

/// A sum over the symbols in use is the sum over the sorted leaves.
pub proof fn lemma_symbols_by_rank(f: Seq<usize>, value: spec_fn(int) -> int)
    requires
        f.len() <= usize::MAX,
    ensures
        symbol_sum(f, value, f.len() as int) == rank_sum(
            sorted_leaves(f),
            value,
            sorted_leaves(f).len() as int,
        ),
{
    let a = leaf_seq(f);
    let s = sorted_leaves(f);
    lemma_sorted_leaves(f);
    assert(commutative_foldl(adder(value)));
    lemma_fold_left_permutation(a, s, adder(value), 0int);
    lemma_leaf_sum_symbols(f, value, f.len() as int);
    assert(f.take(f.len() as int) =~= f);
    lemma_leaf_sum_ranks(s, value, s.len() as int);
    assert(s.take(s.len() as int) =~= s);
}

/// Two sums over the same symbols: the one of the smaller values is the
/// smaller.
pub proof fn lemma_symbol_sum_monotone(
    f: Seq<usize>,
    small: spec_fn(int) -> int,
    large: spec_fn(int) -> int,
    upto: int,
)
    requires
        0 <= upto <= f.len(),
        forall|i: int| 0 <= i < f.len() && f[i] != 0 ==> #[trigger] small(i) <= large(i),
    ensures
        symbol_sum(f, small, upto) <= symbol_sum(f, large, upto),
    decreases upto,
{
    if upto > 0 {
        lemma_symbol_sum_monotone(f, small, large, upto - 1);
        if f[upto - 1] != 0 {
            assert(small(upto - 1) <= large(upto - 1));
        }
    }
}

/// Two sums over the same symbols are equal where the values are.
pub proof fn lemma_symbol_sum_equal(
    f: Seq<usize>,
    one: spec_fn(int) -> int,
    other: spec_fn(int) -> int,
    upto: int,
)
    requires
        0 <= upto <= f.len(),
        forall|i: int| 0 <= i < f.len() && f[i] != 0 ==> #[trigger] one(i) == other(i),
    ensures
        symbol_sum(f, one, upto) == symbol_sum(f, other, upto),
    decreases upto,
{
    if upto > 0 {
        lemma_symbol_sum_equal(f, one, other, upto - 1);
        if f[upto - 1] != 0 {
            assert(one(upto - 1) == other(upto - 1));
        }
    }
}

proof fn lemma_rank_sum_weights(f: Seq<usize>, upto: int)
    requires
        f.len() <= usize::MAX,
        0 <= upto <= sorted_leaves(f).len(),
    ensures
        rank_sum(sorted_leaves(f), |i: int| f[i] as int, upto) == leaf_total(weights(f), upto),
    decreases upto,
{
    if upto > 0 {
        lemma_rank_sum_weights(f, upto - 1);
        lemma_sorted_leaves(f);
        assert(leaf_of(f, sorted_leaves(f)[upto - 1]));
    }
}

/// The sorted weights add up to the sum of all frequencies.
pub proof fn lemma_total_frequency(f: Seq<usize>)
    requires
        f.len() <= usize::MAX,
    ensures
        leaf_total(weights(f), sorted_leaves(f).len() as int) == total_frequency(f),
{
    lemma_symbols_by_rank(f, |i: int| f[i] as int);
    lemma_rank_sum_weights(f, sorted_leaves(f).len() as int);
}

} // verus!
