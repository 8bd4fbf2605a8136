//! What the code lengths of an alphabet are, and the laws that they obey:
//! they form a prefix code within the length limit, and no such code is
//! cheaper.

use vstd::prelude::*;
use vstd::arithmetic::power2::{
    pow2, lemma_pow2_adds, lemma_pow2_pos, lemma_pow2_strictly_increases, lemma_pow2_unfold,
    lemma2_to64,
};
use crate::katajainen::CodeLengthError;
use crate::leaves::{
    leaf_of, leaf_seq, lemma_leaf_seq, lemma_sorted_leaves, lemma_symbol_rank,
    lemma_weights_ascending, sorted_leaves, symbol_leaf, symbol_rank, weights,
};
use crate::optimality::{
    lemma_kraft_scale, lemma_package_merge_kraft, lemma_package_merge_optimal_within,
    package_merge_lengths, rank_cost, rank_kraft,
};
use crate::package_merge::code_length;
use crate::package_merge_lemmas::{
    lemma_code_length_range, lemma_count_below_pow2, lemma_kraft_equality,
};
use crate::symbol_sums::{
    lemma_symbol_sum_equal, lemma_symbol_sum_monotone, lemma_symbols_by_rank, rank_sum, symbol_sum,
    total_frequency,
};

verus! {

/// Number of symbols of positive frequency.
pub open spec fn used_symbols(f: Seq<usize>) -> int {
    leaf_seq(f).len() as int
}

/// Number of levels that the construction works with: the longest code length
/// allowed, but no more than a code of that many symbols can need.
pub open spec fn effective_bits(f: Seq<usize>, max_bits: usize) -> int {
    if used_symbols(f) - 1 < max_bits {
        used_symbols(f) - 1
    } else {
        max_bits as int
    }
}

/// The code length of symbol `i`: none for a symbol out of use, one bit where
/// at most two symbols are in use, and otherwise what the package-merge
/// construction gives the symbol's place among the sorted weights.
pub open spec fn symbol_length(f: Seq<usize>, max_bits: usize, i: int) -> int {
    if f[i] == 0 {
        0
    } else if used_symbols(f) <= 2 {
        1
    } else {
        code_length(weights(f), effective_bits(f, max_bits), symbol_rank(f, i))
    }
}

/// The code lengths of all symbols.
pub open spec fn limited_lengths(f: Seq<usize>, max_bits: usize) -> Seq<u32> {
    Seq::new(f.len(), |i: int| symbol_length(f, max_bits, i) as u32)
}

/// The machine can hold what the construction computes: the code lengths fit
/// in a `u32`, and a `usize` holds the heaviest package there can be, which
/// weighs at most all symbols together once for every level below the highest.
pub open spec fn weights_fit(f: Seq<usize>, max_bits: usize) -> bool {
    used_symbols(f) > 2 ==> effective_bits(f, max_bits) <= u32::MAX && (effective_bits(f, max_bits)
        - 1) * total_frequency(f) <= usize::MAX
}

/// What the computation of code lengths gives: an error exactly where the
/// symbols in use are more than the codes of `max_bits` bits, and else the
/// code lengths.
pub open spec fn code_lengths_result(
    f: Seq<usize>,
    max_bits: usize,
    result: Result<Vec<u32>, CodeLengthError>,
) -> bool {
    &&& result is Err <==> pow2(max_bits as nat) < used_symbols(f)
    &&& result matches Ok(lengths) ==> lengths@ == limited_lengths(f, max_bits)
}

/// No symbol is in use.
pub open spec fn none_in_use(f: Seq<usize>) -> bool {
    forall|i: int| 0 <= i < f.len() ==> f[i] == 0
}

/// The symbol `k` is in use, and no other.
pub open spec fn one_in_use(f: Seq<usize>, k: int) -> bool {
    &&& 0 <= k < f.len()
    &&& forall|i: int| 0 <= i < f.len() ==> (f[i] != 0 <==> i == k)
}

/// The symbols `j` and `k` are in use, and no other.
pub open spec fn two_in_use(f: Seq<usize>, j: int, k: int) -> bool {
    &&& 0 <= j < k < f.len()
    &&& forall|i: int| 0 <= i < f.len() ==> (f[i] != 0 <==> (i == j || i == k))
}

/// `2^(bits - length)` for the length of each symbol.
pub open spec fn kraft_term(lengths: Seq<u32>, bits: int) -> spec_fn(int) -> int {
    |i: int| pow2((bits - lengths[i]) as nat) as int
}

/// `2^bits` times the Kraft sum of the code lengths of the symbols in use:
/// the sum of `2^(bits - length)`. The lengths meet the Kraft inequality where
/// it is at most `2^bits`.
pub open spec fn kraft_sum(f: Seq<usize>, lengths: Seq<u32>, bits: int) -> int {
    symbol_sum(f, kraft_term(lengths, bits), f.len() as int)
}

/// Frequency times length, for each symbol.
pub open spec fn cost_term(f: Seq<usize>, lengths: Seq<u32>) -> spec_fn(int) -> int {
    |i: int| f[i] * lengths[i]
}

/// The cost of code lengths: the number of bits that they code the symbols
/// with, each as often as its frequency says.
pub open spec fn code_cost(f: Seq<usize>, lengths: Seq<u32>) -> int {
    symbol_sum(f, cost_term(f, lengths), f.len() as int)
}

/// Code lengths for the alphabet of `f` that give every symbol in use
/// between 1 and `bits` bits and meet the Kraft inequality.
pub open spec fn prefix_code(f: Seq<usize>, lengths: Seq<u32>, bits: int) -> bool {
    &&& lengths.len() == f.len()
    &&& forall|i: int| 0 <= i < f.len() && f[i] != 0 ==> 1 <= #[trigger] lengths[i] <= bits
    &&& kraft_sum(f, lengths, bits) <= pow2(bits as nat)
}

/// The code lengths `lengths` of the symbols, in the order of the sorted
/// leaves.
pub open spec fn ranked(f: Seq<usize>, lengths: Seq<u32>) -> Seq<int> {
    Seq::new(sorted_leaves(f).len(), |r: int| lengths[sorted_leaves(f)[r].count as int] as int)
}

/// Where no symbol is in use, none is counted.
pub proof fn lemma_none_in_use(f: Seq<usize>)
    requires
        f.len() <= usize::MAX,
        none_in_use(f),
    ensures
        used_symbols(f) == 0,
{
    lemma_leaf_seq(f);
    if leaf_seq(f).len() > 0 {
        assert(leaf_of(f, leaf_seq(f)[0]));
    }
}

/// Where one symbol is in use, one is counted.
pub proof fn lemma_one_in_use(f: Seq<usize>, k: int)
    requires
        f.len() <= usize::MAX,
        one_in_use(f, k),
    ensures
        used_symbols(f) == 1,
{
    lemma_leaf_seq(f);
    let a = leaf_seq(f);
    assert(a.contains(symbol_leaf(f, k)));
    if a.len() > 1 {
        assert(leaf_of(f, a[0]));
        assert(leaf_of(f, a[1]));
        assert(a[0].count < a[1].count);
    }
}

/// Where two symbols are in use, two are counted.
pub proof fn lemma_two_in_use(f: Seq<usize>, j: int, k: int)
    requires
        f.len() <= usize::MAX,
        two_in_use(f, j, k),
    ensures
        used_symbols(f) == 2,
{
    lemma_leaf_seq(f);
    let a = leaf_seq(f);
    assert(a.contains(symbol_leaf(f, j)));
    assert(a.contains(symbol_leaf(f, k)));
    let x = choose|x: int| 0 <= x < a.len() && a[x] == symbol_leaf(f, j);
    let y = choose|y: int| 0 <= y < a.len() && a[y] == symbol_leaf(f, k);
    assert(x != y);
    if a.len() > 2 {
        assert(leaf_of(f, a[0]));
        assert(leaf_of(f, a[1]));
        assert(leaf_of(f, a[2]));
        assert(a[0].count < a[1].count);
        assert(a[1].count < a[2].count);
    }
}

/// The construction has levels enough for the symbols that it is asked for.
pub proof fn lemma_effective_bits(f: Seq<usize>, max_bits: usize)
    requires
        f.len() <= usize::MAX,
        used_symbols(f) >= 2,
        used_symbols(f) <= pow2(max_bits as nat),
    ensures
        1 <= effective_bits(f, max_bits) <= max_bits,
        used_symbols(f) <= pow2(effective_bits(f, max_bits) as nat),
        weights(f).len() == used_symbols(f),
{
    lemma2_to64();
    lemma_weights_ascending(f);
    if effective_bits(f, max_bits) != max_bits {
        lemma_count_below_pow2(used_symbols(f));
    }
}

/// The code lengths in the order of the sorted leaves are those of the
/// package-merge construction.
pub proof fn lemma_ranked_lengths(f: Seq<usize>, max_bits: usize)
    requires
        f.len() <= usize::MAX,
        used_symbols(f) > 2,
        used_symbols(f) <= pow2(max_bits as nat),
        effective_bits(f, max_bits) <= u32::MAX,
    ensures
        ranked(f, limited_lengths(f, max_bits)) == package_merge_lengths(
            weights(f),
            effective_bits(f, max_bits),
        ),
{
    let s = sorted_leaves(f);
    let w = weights(f);
    let bits = effective_bits(f, max_bits);
    lemma_sorted_leaves(f);
    lemma_weights_ascending(f);
    lemma_effective_bits(f, max_bits);
    let a = ranked(f, limited_lengths(f, max_bits));
    let b = package_merge_lengths(w, bits);
    assert forall|r: int| 0 <= r < a.len() implies a[r] == b[r] by {
        assert(leaf_of(f, s[r]));
        lemma_symbol_rank(f, r);
        lemma_code_length_range(w, bits, r);
    }
    assert(a =~= b);
}

/// The code lengths have the shape of the alphabet: no bits for a symbol out
/// of use, and at least one bit, within the limit, for a symbol in use.
pub proof fn lemma_lengths_shape(f: Seq<usize>, max_bits: usize)
    requires
        f.len() <= usize::MAX,
        used_symbols(f) <= pow2(max_bits as nat),
        used_symbols(f) > 2 ==> effective_bits(f, max_bits) <= u32::MAX,
    ensures
        limited_lengths(f, max_bits).len() == f.len(),
        forall|i: int|
            0 <= i < f.len() ==> (#[trigger] limited_lengths(f, max_bits)[i] == 0 <==> f[i] == 0),
        forall|i: int|
            0 <= i < f.len() && used_symbols(f) <= 2 && f[i] != 0 ==> #[trigger] limited_lengths(
                f,
                max_bits,
            )[i] == 1,
        forall|i: int|
            0 <= i < f.len() && used_symbols(f) >= 2 ==> #[trigger] limited_lengths(f, max_bits)[i]
                <= effective_bits(f, max_bits) <= max_bits,
        forall|i: int| 0 <= i < f.len() ==> #[trigger] limited_lengths(f, max_bits)[i] <= 1 || limited_lengths(f, max_bits)[i] <= max_bits,
{
    let lengths = limited_lengths(f, max_bits);
    lemma_leaf_seq(f);
    if used_symbols(f) >= 2 {
        lemma_effective_bits(f, max_bits);
    }
    if used_symbols(f) > 2 {
        let s = sorted_leaves(f);
        let w = weights(f);
        let bits = effective_bits(f, max_bits);
        lemma_sorted_leaves(f);
        lemma_weights_ascending(f);
        assert forall|i: int| 0 <= i < f.len() && f[i] != 0 implies 1 <= #[trigger] lengths[i]
            <= bits by {
            assert(s.contains(symbol_leaf(f, i)));
            let r = symbol_rank(f, i);
            lemma_code_length_range(w, bits, r);
        }
    }
}

proof fn lemma_rank_sum_constant(f: Seq<usize>, c: int, upto: int)
    requires
        0 <= upto,
    ensures
        rank_sum(sorted_leaves(f), |i: int| c, upto) == upto * c,
    decreases upto,
{
    if upto > 0 {
        lemma_rank_sum_constant(f, c, upto - 1);
        assert((upto - 1) * c + c == upto * c) by (nonlinear_arith);
    } else {
        assert(0 * c == 0);
    }
}

proof fn lemma_rank_kraft_of(f: Seq<usize>, lengths: Seq<u32>, bits: int, upto: int)
    requires
        0 <= upto <= sorted_leaves(f).len(),
    ensures
        rank_sum(sorted_leaves(f), kraft_term(lengths, bits), upto) == rank_kraft(
            ranked(f, lengths),
            bits,
            upto,
        ),
    decreases upto,
{
    if upto > 0 {
        lemma_rank_kraft_of(f, lengths, bits, upto - 1);
    }
}

proof fn lemma_rank_cost_of(f: Seq<usize>, lengths: Seq<u32>, upto: int)
    requires
        f.len() <= usize::MAX,
        0 <= upto <= sorted_leaves(f).len(),
    ensures
        rank_sum(sorted_leaves(f), cost_term(f, lengths), upto) == rank_cost(
            weights(f),
            ranked(f, lengths),
            upto,
        ),
    decreases upto,
{
    if upto > 0 {
        lemma_rank_cost_of(f, lengths, upto - 1);
        lemma_sorted_leaves(f);
        assert(leaf_of(f, sorted_leaves(f)[upto - 1]));
    }
}

/// The code lengths meet the Kraft inequality: a code of two or more symbols
/// with equality, the code of a single symbol with room for as much again.
pub proof fn lemma_kraft(f: Seq<usize>, max_bits: usize)
    requires
        f.len() <= usize::MAX,
        used_symbols(f) <= pow2(max_bits as nat),
        used_symbols(f) > 2 ==> effective_bits(f, max_bits) <= u32::MAX,
    ensures
        used_symbols(f) >= 2 ==> kraft_sum(f, limited_lengths(f, max_bits), max_bits as int)
            == pow2(max_bits as nat),
        used_symbols(f) == 1 && max_bits >= 1 ==> kraft_sum(
            f,
            limited_lengths(f, max_bits),
            max_bits as int,
        ) == pow2((max_bits - 1) as nat),
        used_symbols(f) == 0 ==> kraft_sum(f, limited_lengths(f, max_bits), max_bits as int) == 0,
        max_bits >= 1 ==> kraft_sum(f, limited_lengths(f, max_bits), max_bits as int) <= pow2(
            max_bits as nat,
        ),
{
    let lengths = limited_lengths(f, max_bits);
    let s = sorted_leaves(f);
    let n = used_symbols(f);
    let mb = max_bits as int;
    lemma_sorted_leaves(f);
    lemma_lengths_shape(f, max_bits);
    lemma_symbols_by_rank(f, kraft_term(lengths, mb));
    lemma_pow2_pos(max_bits as nat);
    if n <= 2 {
        let c = pow2((mb - 1) as nat) as int;
        lemma_symbol_sum_equal(f, kraft_term(lengths, mb), |i: int| c, f.len() as int);
        lemma_symbols_by_rank(f, |i: int| c);
        lemma_rank_sum_constant(f, c, n);
        if n == 2 {
            lemma2_to64();
            lemma_pow2_unfold(max_bits as nat);
        }
        if n == 1 && max_bits >= 1 {
            lemma_pow2_unfold(max_bits as nat);
        }
        assert(0 * c == 0);
        assert(1 * c == c);
    } else {
        let w = weights(f);
        let bits = effective_bits(f, max_bits);
        lemma_effective_bits(f, max_bits);
        lemma_weights_ascending(f);
        lemma_ranked_lengths(f, max_bits);
        lemma_rank_kraft_of(f, lengths, mb, n);
        let l = package_merge_lengths(w, bits);
        assert forall|r: int| 0 <= r < l.len() implies #[trigger] l[r] <= bits by {
            lemma_code_length_range(w, bits, r);
        }
        lemma_kraft_scale(l, bits, mb - bits, n);
        lemma_package_merge_kraft(w, bits, n);
        lemma_kraft_equality(w, bits);
        lemma_pow2_adds((mb - bits) as nat, bits as nat);
    }
}

/// No prefix code of at most `max_bits` bits is cheaper than the code
/// lengths.
pub proof fn lemma_cheapest_code(f: Seq<usize>, max_bits: usize, other: Seq<u32>)
    requires
        f.len() <= usize::MAX,
        used_symbols(f) <= pow2(max_bits as nat),
        used_symbols(f) > 2 ==> effective_bits(f, max_bits) <= u32::MAX,
        prefix_code(f, other, max_bits as int),
    ensures
        code_cost(f, limited_lengths(f, max_bits)) <= code_cost(f, other),
{
    let lengths = limited_lengths(f, max_bits);
    let n = used_symbols(f);
    let bits = max_bits as int;
    lemma_sorted_leaves(f);
    lemma_lengths_shape(f, max_bits);
    if n <= 2 {
        assert forall|i: int| 0 <= i < f.len() && f[i] != 0 implies #[trigger] cost_term(
            f,
            lengths,
        )(i) <= cost_term(f, other)(i) by {
            assert(1 <= other[i]);
            assert(f[i] * 1 <= f[i] * other[i]) by (nonlinear_arith)
                requires
                    1 <= other[i],
                    0 <= f[i],
            ;
        }
        lemma_symbol_sum_monotone(f, cost_term(f, lengths), cost_term(f, other), f.len() as int);
    } else {
        let w = weights(f);
        let s = sorted_leaves(f);
        lemma_effective_bits(f, max_bits);
        lemma_weights_ascending(f);
        lemma_ranked_lengths(f, max_bits);
        lemma_symbols_by_rank(f, cost_term(f, lengths));
        lemma_symbols_by_rank(f, cost_term(f, other));
        lemma_symbols_by_rank(f, kraft_term(other, bits));
        lemma_rank_cost_of(f, lengths, n);
        lemma_rank_cost_of(f, other, n);
        lemma_rank_kraft_of(f, other, bits, n);
        let l = ranked(f, other);
        assert forall|r: int| 0 <= r < n implies 1 <= #[trigger] l[r] <= bits by {
            assert(leaf_of(f, s[r]));
        }
        lemma_package_merge_optimal_within(w, bits, l);
    }
}

/// What holds of the result of the computation, beyond what it is: the code
/// lengths have the shape of the alphabet, keep the limit, meet the Kraft
/// inequality and are a cheapest prefix code; and alphabets with no, one or
/// two symbols in use get the codes that they can only get.
pub proof fn lemma_code_length_laws(
    f: Seq<usize>,
    max_bits: usize,
    result: Result<Vec<u32>, CodeLengthError>,
)
    requires
        f.len() <= usize::MAX,
        weights_fit(f, max_bits),
        code_lengths_result(f, max_bits, result),
    ensures
        result matches Ok(lengths) ==> {
            &&& lengths@.len() == f.len()
            &&& forall|i: int| 0 <= i < lengths@.len() ==> (#[trigger] lengths@[i] == 0 <==> f[i] == 0)
            &&& forall|i: int|
                0 <= i < lengths@.len() ==> #[trigger] lengths@[i] <= 1 || lengths@[i] <= max_bits
            &&& forall|i: int|
                0 <= i < lengths@.len() && used_symbols(f) >= 2 ==> #[trigger] lengths@[i]
                    <= effective_bits(f, max_bits)
            &&& max_bits >= 1 ==> kraft_sum(f, lengths@, max_bits as int) <= pow2(max_bits as nat)
            &&& max_bits == 0 ==> kraft_sum(f, lengths@, 1) <= pow2(1)
            &&& used_symbols(f) >= 2 ==> kraft_sum(f, lengths@, max_bits as int) == pow2(
                max_bits as nat,
            )
            &&& forall|other: Seq<u32>| #[trigger]
                prefix_code(f, other, max_bits as int) ==> code_cost(f, lengths@) <= code_cost(
                    f,
                    other,
                )
        },
        none_in_use(f) ==> (result matches Ok(lengths) && forall|i: int|
            0 <= i < lengths@.len() ==> lengths@[i] == 0),
        forall|k: int| #[trigger]
            one_in_use(f, k) ==> (result matches Ok(lengths) && lengths@[k] == 1
                && forall|i: int| 0 <= i < lengths@.len() && i != k ==> lengths@[i] == 0),
        forall|j: int, k: int| #[trigger]
            two_in_use(f, j, k) && max_bits >= 1 ==> (result matches Ok(lengths)
                && lengths@[j] == 1 && lengths@[k] == 1 && forall|i: int|
                0 <= i < lengths@.len() && i != j && i != k ==> lengths@[i] == 0),
{
    lemma_pow2_pos(max_bits as nat);
    if none_in_use(f) {
        lemma_none_in_use(f);
    }
    assert forall|k: int| #[trigger] one_in_use(f, k) implies used_symbols(f) == 1 by {
        lemma_one_in_use(f, k);
    }
    assert forall|j: int, k: int| #[trigger] two_in_use(f, j, k) implies used_symbols(f) == 2 by {
        lemma_two_in_use(f, j, k);
    }
    if max_bits >= 1 {
        lemma2_to64();
        if max_bits > 1 {
            lemma_pow2_strictly_increases(1, max_bits as nat);
        }
    }
    if result is Ok {
        let lengths = result->Ok_0;
        lemma_lengths_shape(f, max_bits);
        lemma_kraft(f, max_bits);
        if max_bits == 0 {
            lemma2_to64();
            lemma_sorted_leaves(f);
            lemma_symbol_sum_equal(f, kraft_term(lengths@, 1), |i: int| 1int, f.len() as int);
            lemma_symbols_by_rank(f, |i: int| 1int);
            lemma_rank_sum_constant(f, 1, used_symbols(f));
        }
        assert forall|other: Seq<u32>| #[trigger]
            prefix_code(f, other, max_bits as int) implies code_cost(f, lengths@) <= code_cost(
            f,
            other,
        ) by {
            lemma_cheapest_code(f, max_bits, other);
        }
    }
}

/// Tells whether the machine can hold what the construction computes for
/// these frequencies.
pub fn weights_fit_checked(frequencies: &[usize], max_bits: usize) -> (fit: bool)
    ensures
        fit == weights_fit(frequencies@, max_bits),
{
    let ghost f = frequencies@;
    let mut used: usize = 0;
    let mut total: usize = 0;
    let mut beyond = false;
    let mut i: usize = 0;
    while i < frequencies.len()
        invariant
            f == frequencies@,
            i <= f.len(),
            used == leaf_seq(f.take(i as int)).len(),
            used <= i,
            !beyond ==> total == symbol_sum(f, |j: int| f[j] as int, i as int),
            beyond ==> symbol_sum(f, |j: int| f[j] as int, i as int) > usize::MAX,
        decreases f.len() - i,
    {
        let freq = frequencies[i];
        proof {
            assert(f.take(i + 1).drop_last() =~= f.take(i as int));
        }
        if freq != 0 {
            used += 1;
            if !beyond {
                if freq > usize::MAX - total {
                    beyond = true;
                } else {
                    total += freq;
                }
            }
        }
        i += 1;
    }
    proof {
        assert(f.take(i as int) =~= f);
    }
    if used <= 2 {
        return true;
    }
    let bits = if used - 1 < max_bits {
        used - 1
    } else {
        max_bits
    };
    if bits > 0xffff_ffff {
        return false;
    }
    if bits <= 1 {
        proof {
            assert((bits - 1) * total_frequency(f) <= 0) by (nonlinear_arith)
                requires
                    bits - 1 <= 0,
                    total_frequency(f) >= 0,
            ;
        }
        return true;
    }
    if beyond {
        proof {
            assert((bits - 1) * total_frequency(f) >= total_frequency(f)) by (nonlinear_arith)
                requires
                    bits - 1 >= 1,
                    total_frequency(f) >= 0,
            ;
        }
        return false;
    }
    let levels = bits - 1;
    proof {
        let most = usize::MAX as int;
        let share = most / (levels as int);
        vstd::arithmetic::div_mod::lemma_fundamental_div_mod(most, levels as int);
        vstd::arithmetic::div_mod::lemma_mod_bound(most, levels as int);
        if total > share {
            assert(levels * total > most) by (nonlinear_arith)
                requires
                    total >= share + 1,
                    levels >= 1,
                    most == levels * share + most % (levels as int),
                    most % (levels as int) < levels,
            ;
        } else {
            assert(levels * total <= most) by (nonlinear_arith)
                requires
                    0 <= total <= share,
                    levels >= 1,
                    most == levels * share + most % (levels as int),
                    0 <= most % (levels as int),
            ;
        }
    }
    total <= usize::MAX / levels
}

/// The same frequencies and the same limit give the same code lengths, or
/// the same error.
pub proof fn lemma_same_input_same_output(
    f: Seq<usize>,
    max_bits: usize,
    one: Result<Vec<u32>, CodeLengthError>,
    other: Result<Vec<u32>, CodeLengthError>,
)
    requires
        code_lengths_result(f, max_bits, one),
        code_lengths_result(f, max_bits, other),
    ensures
        one is Err <==> other is Err,
        one is Ok ==> other is Ok && one->Ok_0@ == other->Ok_0@,
{
}

} // verus!
