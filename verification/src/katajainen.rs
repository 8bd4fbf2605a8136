//! Length-limited Huffman code lengths by the boundary package-merge
//! algorithm of Katajainen, Moffat and Turpin ("A Fast and Space-Economical
//! Algorithm for Length-Limited Coding").
//!
//! The algorithm builds the lists of the package-merge construction lazily:
//! of each level it keeps the two newest items only, as chains that record how
//! many leaves each level below has given so far.

use vstd::prelude::*;
use vstd::arithmetic::power2::{pow2, lemma_pow2_strictly_increases, lemma_pow2_unfold, lemma2_to64};
use typed_arena::Arena;
use crate::code_lengths::{
    code_cost, code_lengths_result, effective_bits, kraft_sum, lemma_code_length_laws,
    limited_lengths, none_in_use, one_in_use, prefix_code, two_in_use, used_symbols, weights_fit,
};
use crate::leaves::{
    collect_leaves, leaf_of, leaf_seq, lemma_leaf_seq, lemma_sorted_leaves, lemma_weights_ascending,
    sort_leaves, sorted_leaves, symbol_leaf, symbol_rank, weights, weights_of, Leaf,
};
use crate::symbol_sums::lemma_total_frequency;
use crate::package_merge::{
    ascending_weights, code_length, item_weight, leaf_total, leaves_in, leaves_used, level_len,
    packages_in, prefix, selected,
};
use crate::package_merge_lemmas::{
    lemma_count_below_pow2, lemma_leaf_total_monotone, lemma_level_len_bounds,
    lemma_levels_holding, lemma_next_item, lemma_pair_weight_bound, lemma_prefix_bounds,
    lemma_selected_fits, lemma_top_level_fits,
};

verus! {

#[verifier::external_type_specification]
#[verifier::external_body]
#[verifier::reject_recursive_types(T)]
pub struct ExArena<T>(Arena<T>);

/// Why no code lengths could be computed.
#[derive(Clone, Copy, Debug, PartialEq, Eq)]
pub enum CodeLengthError {
    /// There are more symbols in use than codes of the longest length allowed.
    TooFewBits,
}

/// The newest item of a level, as the end of a chain: `weight` is the item's
/// weight, `count` the number of leaves that the level has taken so far, and
/// `tail` the newest item of the level below that the packages taken so far
/// are made of.
pub struct Node<'a> {
    pub weight: usize,
    pub count: usize,
    pub tail: Option<&'a Node<'a>>,
}

/// The two newest items of a level. They are `paired` while neither has gone
/// into a package of the level above.
#[derive(Clone, Copy)]
pub struct List<'a> {
    pub lookahead0: &'a Node<'a>,
    pub lookahead1: &'a Node<'a>,
    pub paired: bool,
}

impl<'a> Node<'a> {
    /// Number of items that the node's level has taken so far: its leaves, and
    /// one package for every two items that its tail stands for.
    pub open spec fn items(self) -> int
        decreases self,
    {
        self.count + match self.tail {
            None => 0int,
            Some(t) => t.items() / 2,
        }
    }
}

/// The chain that ends in `node` stands for the first `node.items()` items of
/// `level`, and its tail for the items of the level below inside their
/// packages.
pub open spec fn chain_ok(w: Seq<int>, node: Node, level: int) -> bool
    decreases level,
{
    let p = node.items();
    &&& 1 <= p <= level_len(w.len() as int, level)
    &&& node.count == leaves_in(w, level, p)
    &&& node.weight == item_weight(w, level, p - 1)
    &&& match node.tail {
        None => p == node.count,
        Some(t) => if level >= 1 {
            t.items() == 2 * (p - node.count) && p > node.count && chain_ok(w, *t, level - 1)
        } else {
            false
        },
    }
}

/// The lookaheads of level `i` are its two newest items, and the level below
/// is two items ahead of the packages taken, as far as it has items.
pub open spec fn level_ok(w: Seq<int>, lists: Seq<List>, i: int) -> bool {
    let l = lists[i];
    let p = l.lookahead1.items();
    &&& chain_ok(w, *l.lookahead1, i)
    &&& chain_ok(w, *l.lookahead0, i)
    &&& l.lookahead0.items() == p - 1
    &&& i >= 1 ==> {
        let k = p - l.lookahead1.count;
        let len = level_len(w.len() as int, i - 1);
        &&& lists[i - 1].lookahead1.items() == if 2 * k + 2 <= len {
            2 * k + 2
        } else {
            len
        }
        &&& lists[i - 1].paired == (2 * k + 2 <= len)
    }
}

/// The levels up to `upto` are in order.
pub open spec fn levels_ok(w: Seq<int>, lists: Seq<List>, upto: int) -> bool {
    forall|i: int| 0 <= i <= upto ==> #[trigger] level_ok(w, lists, i)
}

/// The most nodes that room is made for in advance. The arena grows beyond it
/// where more are needed.
pub const MAX_ARENA_CAPACITY: usize = 0x00ff_ffff;

/// `Arena::with_capacity` of typed_arena: an empty arena with room for `n`
/// values. Nothing is claimed of it; the capacity is kept to one that a vector
/// of nodes can have.
#[verifier::external_body]
fn arena_with_capacity<'a>(n: usize) -> Arena<Node<'a>>
    requires
        n <= MAX_ARENA_CAPACITY,
{
    Arena::with_capacity(n)
}

/// `Arena::alloc` of typed_arena: moves the value into the arena and hands out
/// a reference to it that lives as long as the arena. Like a push onto a
/// vector, it fails only where the memory gives out.
#[verifier::external_body]
fn alloc_node<'a>(arena: &'a Arena<Node<'a>>, node: Node<'a>) -> (r: &'a Node<'a>)
    ensures
        *r == node,
{
    arena.alloc(node)
}

/// The first two items of every level are the two lightest leaves.
proof fn lemma_first_two(w: Seq<int>, level: int)
    requires
        ascending_weights(w),
        level >= 0,
    ensures
        prefix(w, level, 1) == (1int, w[0]),
        prefix(w, level, 2) == (2int, w[1]),
    decreases level,
{
    lemma_level_len_bounds(w.len() as int, level);
    if level >= 1 {
        lemma_first_two(w, level - 1);
        lemma_level_len_bounds(w.len() as int, level - 1);
        assert(prefix(w, level, 0) == (0int, 0int));
        assert(prefix(w, level, 1) == (1int, w[0]));
    } else {
        assert(prefix(w, level, 1) == (1int, w[0]));
    }
}

/// Takes the next item of level `index`, if it has one, and refills the level
/// below where the item is a package. Says whether there was an item.
#[verifier::rlimit(60)]
fn boundary_pm<'a>(
    arena: &'a Arena<Node<'a>>,
    lists: &mut Vec<List<'a>>,
    leaves: &Vec<Leaf>,
    index: usize,
) -> (produced: bool)
    requires
        index < old(lists).len(),
        ascending_weights(weights_of(leaves@)),
        index * leaf_total(weights_of(leaves@), leaves@.len() as int) <= usize::MAX,
        levels_ok(weights_of(leaves@), old(lists)@, index as int),
    ensures
        final(lists).len() == old(lists).len(),
        forall|j: int| index < j < old(lists).len() ==> final(lists)@[j] == old(lists)@[j],
        final(lists)@[index as int].paired == old(lists)@[index as int].paired,
        levels_ok(weights_of(leaves@), final(lists)@, index as int),
        produced == (old(lists)@[index as int].lookahead1.items() < level_len(
            leaves@.len() as int,
            index as int,
        )),
        final(lists)@[index as int].lookahead1.items() == old(lists)@[index as int].lookahead1.items()
            + if produced {
            1int
        } else {
            0int
        },
    decreases index,
{
    let ghost w = weights_of(leaves@);
    let ghost n = leaves@.len() as int;
    let ghost lvl = index as int;
    let ghost before = lists@;
    let num_symbols = leaves.len();
    let cur = lists[index];
    let last_count = cur.lookahead1.count;
    let ghost p = cur.lookahead1.items();
    let ghost k = p - last_count;
    proof {
        assert(level_ok(w, before, lvl));
        lemma_prefix_bounds(w, lvl, p);
        lemma_level_len_bounds(n, lvl);
    }
    if index == 0 {
        if last_count >= num_symbols {
            return false;
        }
        let node = alloc_node(
            arena,
            Node { weight: leaves[last_count].weight, count: last_count + 1, tail: None },
        );
        lists.set(0, List { lookahead0: cur.lookahead1, lookahead1: node, paired: cur.paired });
        proof {
            assert(prefix(w, 0, p + 1) == (p + 1, w[p]));
            assert(node.items() == p + 1);
            assert(chain_ok(w, *node, 0));
            assert(level_ok(w, lists@, 0));
        }
        return true;
    }
    let below = lists[index - 1];
    proof {
        assert(level_ok(w, before, lvl - 1));
        if p < level_len(n, lvl) {
            lemma_next_item(w, lvl, p);
        }
        if below.paired {
            lemma_pair_weight_bound(w, lvl - 1, 2 * k);
            lemma_leaf_total_monotone(w, 0, n);
            assert((lvl - 1 + 1) * leaf_total(w, n) == index * leaf_total(w, n));
        }
    }
    let mut take_leaf = false;
    let mut sum: usize = 0;
    if below.paired {
        sum = below.lookahead0.weight + below.lookahead1.weight;
        if last_count < num_symbols && leaves[last_count].weight < sum {
            take_leaf = true;
        }
    } else if last_count < num_symbols {
        take_leaf = true;
    } else {
        return false;
    }
    if take_leaf {
        let node = alloc_node(
            arena,
            Node {
                weight: leaves[last_count].weight,
                count: last_count + 1,
                tail: cur.lookahead1.tail,
            },
        );
        lists.set(index, List { lookahead0: cur.lookahead1, lookahead1: node, paired: cur.paired });
        proof {
            assert(node.items() == p + 1);
            assert(chain_ok(w, *node, lvl));
            assert forall|i: int| 0 <= i <= lvl implies #[trigger] level_ok(w, lists@, i) by {
                assert(level_ok(w, before, i));
            }
        }
        return true;
    }
    let node = alloc_node(
        arena,
        Node { weight: sum, count: last_count, tail: Some(below.lookahead1) },
    );
    lists.set(index, List { lookahead0: cur.lookahead1, lookahead1: node, paired: cur.paired });
    let ghost mid = lists@;
    proof {
        assert(node.items() == p + 1);
        assert(chain_ok(w, *node, lvl));
        assert forall|i: int| 0 <= i <= lvl - 1 implies #[trigger] level_ok(w, mid, i) by {
            assert(level_ok(w, before, i));
        }
        assert((index - 1) * leaf_total(w, n) <= index * leaf_total(w, n)) by (nonlinear_arith)
            requires
                leaf_total(w, n) >= 0,
        ;
    }
    let first = boundary_pm(arena, lists, leaves, index - 1);
    let second = boundary_pm(arena, lists, leaves, index - 1);
    let ghost refilled = lists@;
    let mut fed = lists[index - 1];
    fed.paired = second;
    lists.set(index - 1, fed);
    proof {
        assert(refilled[lvl] == mid[lvl]);
        assert forall|i: int| 0 <= i <= lvl implies #[trigger] level_ok(w, lists@, i) by {
            if i < lvl {
                assert(level_ok(w, refilled, i));
            }
        }
    }
    true
}

/// Gives the leaves of the ranks from `low` up to `high` the code length
/// `value`.
fn assign_lengths(
    bit_lengths: &mut Vec<u32>,
    leaves: &Vec<Leaf>,
    low: usize,
    high: usize,
    value: u32,
    Ghost(f): Ghost<Seq<usize>>,
)
    requires
        f.len() <= usize::MAX,
        leaves@ == sorted_leaves(f),
        low <= high <= leaves.len(),
        old(bit_lengths).len() == f.len(),
    ensures
        final(bit_lengths).len() == f.len(),
        forall|r: int| low <= r < high ==> final(bit_lengths)@[(#[trigger] leaves@[r]).count as int] == value,
        forall|r: int|
            0 <= r < leaves.len() && !(low <= r < high) ==> final(bit_lengths)@[(
            #[trigger] leaves@[r]).count as int] == old(bit_lengths)@[leaves@[r].count as int],
        forall|i: int|
            0 <= i < f.len() && f[i] == 0 ==> #[trigger] final(bit_lengths)@[i] == old(
                bit_lengths,
            )@[i],
{
    proof {
        lemma_sorted_leaves(f);
    }
    let mut val = high;
    while val > low
        invariant
            f.len() <= usize::MAX,
            leaves@ == sorted_leaves(f),
            low <= val <= high <= leaves.len(),
            bit_lengths.len() == f.len(),
            forall|r: int| 0 <= r < leaves.len() ==> leaf_of(f, #[trigger] leaves@[r]),
            forall|r: int, s: int|
                0 <= r < leaves.len() && 0 <= s < leaves.len() && r != s ==> (
                #[trigger] leaves@[r]).count != (#[trigger] leaves@[s]).count,
            forall|r: int| val <= r < high ==> bit_lengths@[(#[trigger] leaves@[r]).count as int] == value,
            forall|r: int|
                0 <= r < leaves.len() && !(val <= r < high) ==> bit_lengths@[(
                #[trigger] leaves@[r]).count as int] == old(bit_lengths)@[leaves@[r].count as int],
            forall|i: int|
                0 <= i < f.len() && f[i] == 0 ==> #[trigger] bit_lengths@[i] == old(bit_lengths)@[i],
        decreases val,
    {
        let symbol = leaves[val - 1].count;
        proof {
            assert(leaf_of(f, leaves@[val - 1]));
        }
        bit_lengths.set(symbol, value);
        val -= 1;
    }
}

/// A leaf taken on `level` but not on the level below has one bit for every
/// level from `level` up.
proof fn lemma_code_length_at(w: Seq<int>, bits: int, rank: int, level: int)
    requires
        ascending_weights(w),
        bits >= 1,
        w.len() <= pow2(bits as nat),
        0 <= level < bits,
        rank < leaves_used(w, bits, level),
        level >= 1 ==> rank >= leaves_used(w, bits, level - 1),
    ensures
        code_length(w, bits, rank) == bits - level,
{
    lemma_levels_holding(w, bits, rank, bits);
    if level >= 1 {
        assert(!(rank < leaves_used(w, bits, level - 1)));
    }
}

/// A leaf that the highest level does not take has no bits.
proof fn lemma_code_length_none(w: Seq<int>, bits: int, rank: int)
    requires
        ascending_weights(w),
        bits >= 1,
        w.len() <= pow2(bits as nat),
        rank >= leaves_used(w, bits, bits - 1),
    ensures
        code_length(w, bits, rank) == 0,
{
    lemma_levels_holding(w, bits, rank, bits);
    if code_length(w, bits, rank) > 0 {
        assert(rank < leaves_used(w, bits, bits - 1));
    }
}

/// Reads the code lengths off the chain of the highest level: each node of
/// the chain stands for one level, and the leaves that it counts beyond those
/// of its tail get one bit for every level from there up.
fn extract_bit_lengths<'a>(
    chain: &'a Node<'a>,
    leaves: &Vec<Leaf>,
    bit_lengths: &mut Vec<u32>,
    Ghost(f): Ghost<Seq<usize>>,
    Ghost(bits): Ghost<int>,
)
    requires
        f.len() <= usize::MAX,
        leaves@ == sorted_leaves(f),
        ascending_weights(weights(f)),
        1 <= bits <= u32::MAX,
        leaves@.len() <= pow2(bits as nat),
        chain_ok(weights(f), *chain, bits - 1),
        chain.items() == 2 * leaves@.len() - 2,
        old(bit_lengths).len() == f.len(),
        forall|i: int| 0 <= i < f.len() ==> old(bit_lengths)@[i] == 0,
    ensures
        final(bit_lengths).len() == f.len(),
        forall|r: int|
            0 <= r < leaves.len() ==> final(bit_lengths)@[(#[trigger] leaves@[r]).count as int]
                == code_length(weights(f), bits, r),
        forall|i: int| 0 <= i < f.len() && f[i] == 0 ==> #[trigger] final(bit_lengths)@[i] == 0,
{
    let ghost w = weights(f);
    let ghost n = leaves@.len() as int;
    let mut node = chain;
    let mut value: u32 = 1;
    let ghost mut level: int = bits - 1;
    proof {
        lemma_sorted_leaves(f);
        lemma_selected_fits(w, bits, bits - 1);
        assert forall|r: int| node.count <= r < n implies code_length(w, bits, r) == 0 by {
            lemma_code_length_none(w, bits, r);
        }
    }
    loop
        invariant
            f.len() <= usize::MAX,
            leaves@ == sorted_leaves(f),
            w == weights(f),
            n == leaves@.len(),
            ascending_weights(w),
            1 <= bits <= u32::MAX,
            n <= pow2(bits as nat),
            0 <= level < bits,
            value == bits - level,
            chain_ok(w, *node, level),
            node.items() == selected(w, bits, level),
            bit_lengths.len() == f.len(),
            forall|r: int| 0 <= r < n ==> leaf_of(f, #[trigger] leaves@[r]),
            forall|r: int|
                node.count <= r < n ==> bit_lengths@[(#[trigger] leaves@[r]).count as int]
                    == code_length(w, bits, r),
            forall|r: int|
                0 <= r < node.count && r < n ==> bit_lengths@[(#[trigger] leaves@[r]).count as int]
                    == 0,
            forall|i: int| 0 <= i < f.len() && f[i] == 0 ==> #[trigger] bit_lengths@[i] == 0,
        decreases level,
    {
        proof {
            lemma_selected_fits(w, bits, level);
        }
        let high = node.count;
        match node.tail {
            None => {
                proof {
                    assert forall|r: int| 0 <= r < high implies code_length(w, bits, r) == bits
                        - level by {
                        lemma_code_length_at(w, bits, r, level);
                    }
                }
                assign_lengths(bit_lengths, leaves, 0, high, value, Ghost(f));
                return ;
            },
            Some(t) => {
                let low = t.count;
                proof {
                    lemma_selected_fits(w, bits, level - 1);
                    assert(chain_ok(w, *t, level - 1));
                    assert(t.items() == selected(w, bits, level - 1));
                    assert(low == leaves_used(w, bits, level - 1));
                    assert forall|r: int| low <= r < high implies code_length(w, bits, r) == bits
                        - level by {
                        lemma_code_length_at(w, bits, r, level);
                    }
                }
                assign_lengths(bit_lengths, leaves, low, high, value, Ghost(f));
                node = t;
                value = value + 1;
                proof {
                    level = level - 1;
                }
            },
        }
    }
}

/// Whether `2^max_bits` codes are too few for `num_symbols` symbols.
fn too_few_bits(max_bits: usize, num_symbols: usize) -> (r: bool)
    ensures
        r == (pow2(max_bits as nat) < num_symbols),
{
    let mut reach: usize = 1;
    let mut bits: usize = 0;
    proof {
        lemma2_to64();
    }
    while bits < max_bits && reach < num_symbols
        invariant
            bits <= max_bits,
            reach == pow2(bits as nat),
        decreases max_bits - bits,
    {
        proof {
            lemma_pow2_unfold((bits + 1) as nat);
            if bits + 1 < max_bits {
                lemma_pow2_strictly_increases((bits + 1) as nat, max_bits as nat);
            }
        }
        if reach > usize::MAX / 2 {
            return false;
        }
        reach = reach * 2;
        bits += 1;
    }
    proof {
        if bits < max_bits {
            lemma_pow2_strictly_increases(bits as nat, max_bits as nat);
        }
    }
    reach < num_symbols
}

/// A vector of `len` zeros.
fn zeros(len: usize) -> (v: Vec<u32>)
    ensures
        v.len() == len,
        forall|i: int| 0 <= i < len ==> v@[i] == 0,
{
    let mut v: Vec<u32> = Vec::new();
    while v.len() < len
        invariant
            v.len() <= len,
            forall|i: int| 0 <= i < v.len() ==> v@[i] == 0,
        decreases len - v.len(),
    {
        v.push(0);
    }
    v
}

/// Calculates the bit lengths of a Huffman code for the symbols with the given
/// frequencies in which no code is longer than `max_bits`.
///
/// The code is the one of the package-merge construction: a prefix code within
/// the limit, and a cheapest one. More symbols in use than there are codes of
/// `max_bits` bits are an error.
pub fn length_limited_code_lengths(frequencies: &[usize], max_bits: usize) -> (result: Result<
    Vec<u32>,
    CodeLengthError,
>)
    requires
        weights_fit(frequencies@, max_bits),
    ensures
        code_lengths_result(frequencies@, max_bits, result),
        result matches Ok(lengths) ==> {
            &&& lengths@.len() == frequencies@.len()
            &&& forall|i: int|
                0 <= i < lengths@.len() ==> (#[trigger] lengths@[i] == 0 <==> frequencies@[i] == 0)
            &&& forall|i: int|
                0 <= i < lengths@.len() ==> #[trigger] lengths@[i] <= 1 || lengths@[i] <= max_bits
            &&& forall|i: int|
                0 <= i < lengths@.len() && used_symbols(frequencies@) >= 2 ==> #[trigger] lengths@[i]
                    <= effective_bits(frequencies@, max_bits)
            &&& max_bits >= 1 ==> kraft_sum(frequencies@, lengths@, max_bits as int) <= pow2(
                max_bits as nat,
            )
            &&& max_bits == 0 ==> kraft_sum(frequencies@, lengths@, 1) <= pow2(1)
            &&& used_symbols(frequencies@) >= 2 ==> kraft_sum(
                frequencies@,
                lengths@,
                max_bits as int,
            ) == pow2(max_bits as nat)
            &&& forall|other: Seq<u32>| #[trigger]
                prefix_code(frequencies@, other, max_bits as int) ==> code_cost(
                    frequencies@,
                    lengths@,
                ) <= code_cost(frequencies@, other)
        },
        none_in_use(frequencies@) ==> (result matches Ok(lengths) && forall|i: int|
            0 <= i < lengths@.len() ==> lengths@[i] == 0),
        forall|k: int| #[trigger]
            one_in_use(frequencies@, k) ==> (result matches Ok(lengths) && lengths@[k] == 1
                && forall|i: int| 0 <= i < lengths@.len() && i != k ==> lengths@[i] == 0),
        forall|j: int, k: int| #[trigger]
            two_in_use(frequencies@, j, k) && max_bits >= 1 ==> (result matches Ok(lengths)
                && lengths@[j] == 1 && lengths@[k] == 1 && forall|i: int|
                0 <= i < lengths@.len() && i != j && i != k ==> lengths@[i] == 0),
{
    let ghost f = frequencies@;
    let num_freqs = frequencies.len();
    let mut bit_lengths = zeros(num_freqs);
    let mut leaves = collect_leaves(frequencies);
    let num_symbols = leaves.len();
    proof {
        lemma_leaf_seq(f);
    }
    if too_few_bits(max_bits, num_symbols) {
        let result: Result<Vec<u32>, CodeLengthError> = Err(CodeLengthError::TooFewBits);
        proof {
            lemma_code_length_laws(f, max_bits, result);
        }
        return result;
    }
    if num_symbols == 0 {
        proof {
            assert forall|i: int| 0 <= i < f.len() implies f[i] == 0 by {
                if f[i] != 0 {
                    assert(leaf_seq(f).contains(symbol_leaf(f, i)));
                }
            }
            assert(bit_lengths@ =~= limited_lengths(f, max_bits));
        }
        let result: Result<Vec<u32>, CodeLengthError> = Ok(bit_lengths);
        proof {
            lemma_code_length_laws(f, max_bits, result);
        }
        return result;
    }
    if num_symbols <= 2 {
        let ghost all = leaves@;
        let mut r: usize = 0;
        while r < num_symbols
            invariant
                r <= num_symbols == leaves.len(),
                leaves@ == all,
                bit_lengths.len() == f.len(),
                forall|s: int| 0 <= s < all.len() ==> leaf_of(f, #[trigger] all[s]),
                forall|i: int|
                    0 <= i < f.len() ==> bit_lengths@[i] == if exists|s: int|
                        0 <= s < r && (#[trigger] all[s]).count == i {
                        1u32
                    } else {
                        0u32
                    },
            decreases num_symbols - r,
        {
            let symbol = leaves[r].count;
            proof {
                assert(leaf_of(f, all[r as int]));
            }
            bit_lengths.set(symbol, 1);
            r += 1;
        }
        proof {
            assert forall|i: int| 0 <= i < f.len() implies bit_lengths@[i] == limited_lengths(
                f,
                max_bits,
            )[i] by {
                if f[i] != 0 {
                    assert(all.contains(symbol_leaf(f, i)));
                    let s = choose|s: int| 0 <= s < all.len() && all[s] == symbol_leaf(f, i);
                    assert(all[s].count == i);
                } else {
                    if exists|s: int| 0 <= s < all.len() && (#[trigger] all[s]).count == i {
                        let s = choose|s: int| 0 <= s < all.len() && (#[trigger] all[s]).count == i;
                        assert(leaf_of(f, all[s]));
                    }
                }
            }
            assert(bit_lengths@ =~= limited_lengths(f, max_bits));
        }
        let result: Result<Vec<u32>, CodeLengthError> = Ok(bit_lengths);
        proof {
            lemma_code_length_laws(f, max_bits, result);
        }
        return result;
    }
    // Sort the leaves from least frequent to most frequent.
    sort_leaves(&mut leaves, Ghost(f));
    let ghost w = weights(f);
    let ghost n = num_symbols as int;
    let bits = if num_symbols - 1 < max_bits {
        num_symbols - 1
    } else {
        max_bits
    };
    proof {
        lemma_sorted_leaves(f);
        lemma_weights_ascending(f);
        lemma_total_frequency(f);
        assert(w =~= weights_of(leaves@));
        assert(bits == effective_bits(f, max_bits));
        lemma2_to64();
        if bits == max_bits {
        } else {
            lemma_count_below_pow2(n);
        }
        assert(n <= pow2(bits as nat));
        lemma_top_level_fits(n, bits as int);
        lemma_leaf_total_monotone(w, 0, n);
    }
    proof {
        assert(bits * 2 * num_symbols <= 0x1_ffff_fffe * 0xffff_ffff_ffff_ffff) by (nonlinear_arith)
            requires
                0 <= bits <= 0xffff_ffff,
                0 <= num_symbols <= 0xffff_ffff_ffff_ffff,
        ;
    }
    let wanted = (bits as u128) * 2 * (num_symbols as u128);
    let arena_capacity = if wanted > MAX_ARENA_CAPACITY as u128 {
        MAX_ARENA_CAPACITY
    } else {
        wanted as usize
    };
    let arena = arena_with_capacity(arena_capacity);
    let node0 = alloc_node(&arena, Node { weight: leaves[0].weight, count: 1, tail: None });
    let node1 = alloc_node(&arena, Node { weight: leaves[1].weight, count: 2, tail: None });
    let mut lists: Vec<List> = Vec::new();
    while lists.len() < bits
        invariant
            lists.len() <= bits,
            forall|i: int|
                0 <= i < lists.len() ==> #[trigger] lists@[i] == (List {
                    lookahead0: node0,
                    lookahead1: node1,
                    paired: true,
                }),
        decreases bits - lists.len(),
    {
        lists.push(List { lookahead0: node0, lookahead1: node1, paired: true });
    }
    proof {
        assert(node0.items() == 1);
        assert(node1.items() == 2);
        assert forall|i: int| 0 <= i <= bits - 1 implies #[trigger] level_ok(w, lists@, i) by {
            lemma_first_two(w, i);
            lemma_level_len_bounds(n, i);
            if i >= 1 {
                lemma_level_len_bounds(n, i - 1);
            }
            assert(chain_ok(w, *node0, i));
            assert(chain_ok(w, *node1, i));
        }
    }
    // Of the 2n - 2 items that the highest level gives, two are there from the
    // start; each run takes two more.
    let mut run: usize = 0;
    while run < num_symbols - 2
        invariant
            run <= num_symbols - 2,
            num_symbols == leaves.len(),
            n == num_symbols,
            n >= 3,
            lists.len() == bits,
            bits >= 1,
            w == weights_of(leaves@),
            ascending_weights(w),
            (bits - 1) * leaf_total(w, n) <= usize::MAX,
            2 * n - 2 <= level_len(n, bits - 1),
            levels_ok(w, lists@, bits - 1),
            lists@[bits - 1].lookahead1.items() == 2 + 2 * run,
        decreases num_symbols - run,
    {
        boundary_pm(&arena, &mut lists, &leaves, bits - 1);
        boundary_pm(&arena, &mut lists, &leaves, bits - 1);
        run += 1;
    }
    let top = lists[bits - 1];
    proof {
        assert(level_ok(w, lists@, bits - 1));
    }
    extract_bit_lengths(top.lookahead1, &leaves, &mut bit_lengths, Ghost(f), Ghost(bits as int));
    proof {
        assert forall|i: int| 0 <= i < f.len() implies bit_lengths@[i] == limited_lengths(
            f,
            max_bits,
        )[i] by {
            if f[i] != 0 {
                assert(leaves@.contains(symbol_leaf(f, i)));
                let r = symbol_rank(f, i);
                assert(leaves@[r] == symbol_leaf(f, i));
                lemma_levels_holding(w, bits as int, r, bits as int);
            }
        }
        assert(bit_lengths@ =~= limited_lengths(f, max_bits));
    }
    let result: Result<Vec<u32>, CodeLengthError> = Ok(bit_lengths);
    proof {
        lemma_code_length_laws(f, max_bits, result);
    }
    result
}

} // verus!
