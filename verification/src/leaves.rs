//! The symbols in use, as leaves in ascending order of weight.

use vstd::prelude::*;
use vstd::relations::{sorted_by, total_ordering};
use vstd::seq_lib::{group_to_multiset_ensures, lemma_sorted_unique};
use crate::package_merge::ascending_weights;

verus! {

/// A symbol in use: `weight` is its frequency, `count` its index in the
/// alphabet.
#[derive(Clone, Copy, Debug)]
pub struct Leaf {
    pub weight: usize,
    pub count: usize,
}

/// The order of the leaves: by weight, and by index among equal weights.
pub open spec fn leaf_leq(a: Leaf, b: Leaf) -> bool {
    a.weight < b.weight || (a.weight == b.weight && a.count <= b.count)
}

/// `leaf_leq` as a relation.
pub open spec fn leaf_order() -> spec_fn(Leaf, Leaf) -> bool {
    |a: Leaf, b: Leaf| leaf_leq(a, b)
}

/// The symbols of positive frequency, in the order of the alphabet.
pub open spec fn leaf_seq(f: Seq<usize>) -> Seq<Leaf>
    decreases f.len(),
{
    if f.len() == 0 {
        Seq::empty()
    } else if f.last() != 0 {
        leaf_seq(f.drop_last()).push(Leaf { weight: f.last(), count: (f.len() - 1) as usize })
    } else {
        leaf_seq(f.drop_last())
    }
}

/// The symbols of positive frequency in ascending order of weight, those of
/// equal weight in the order of the alphabet.
pub open spec fn sorted_leaves(f: Seq<usize>) -> Seq<Leaf> {
    leaf_seq(f).sort_by(leaf_order())
}

/// The positive frequencies in ascending order.
pub open spec fn weights(f: Seq<usize>) -> Seq<int> {
    sorted_leaves(f).map_values(|l: Leaf| l.weight as int)
}

/// The weights of a sequence of leaves.
pub open spec fn weights_of(leaves: Seq<Leaf>) -> Seq<int> {
    leaves.map_values(|l: Leaf| l.weight as int)
}

/// The leaf that stands for symbol `i`.
pub open spec fn symbol_leaf(f: Seq<usize>, i: int) -> Leaf {
    Leaf { weight: f[i], count: i as usize }
}

/// Place of symbol `i` among the sorted leaves.
pub open spec fn symbol_rank(f: Seq<usize>, i: int) -> int {
    sorted_leaves(f).index_of(symbol_leaf(f, i))
}

/// A leaf that stands for a symbol of `f`.
pub open spec fn leaf_of(f: Seq<usize>, l: Leaf) -> bool {
    l.count < f.len() && f[l.count as int] == l.weight && l.weight != 0
}

/// The order of the leaves is a total order.
pub proof fn lemma_leaf_order_total()
    ensures
        total_ordering(leaf_order()),
{
    let r = leaf_order();
    assert forall|x: Leaf, y: Leaf| #[trigger] r(x, y) && #[trigger] r(y, x) implies x == y by {}
}

/// The leaves in the order of the alphabet are the symbols of positive
/// frequency, each once, with rising indices.
pub proof fn lemma_leaf_seq(f: Seq<usize>)
    requires
        f.len() <= usize::MAX,
    ensures
        leaf_seq(f).len() <= f.len(),
        forall|r: int| 0 <= r < leaf_seq(f).len() ==> leaf_of(f, #[trigger] leaf_seq(f)[r]),
        forall|r: int, s: int|
            0 <= r < s < leaf_seq(f).len() ==> (#[trigger] leaf_seq(f)[r]).count < (
            #[trigger] leaf_seq(f)[s]).count,
        forall|i: int|
            0 <= i < f.len() && f[i] != 0 ==> leaf_seq(f).contains(
                #[trigger] symbol_leaf(f, i),
            ),
        leaf_seq(f).no_duplicates(),
    decreases f.len(),
{
    if f.len() > 0 {
        let g = f.drop_last();
        let rest = leaf_seq(g);
        lemma_leaf_seq(g);
        let all = leaf_seq(f);
        assert forall|r: int| 0 <= r < all.len() implies leaf_of(f, #[trigger] all[r]) by {
            if r < rest.len() {
                assert(leaf_of(g, rest[r]));
            }
        }
        assert forall|r: int, s: int| 0 <= r < s < all.len() implies (#[trigger] all[r]).count < (
        #[trigger] all[s]).count by {
            if s < rest.len() {
            } else {
                assert(leaf_of(g, rest[r]));
            }
        }
        assert forall|i: int| 0 <= i < f.len() && f[i] != 0 implies all.contains(
            #[trigger] symbol_leaf(f, i),
        ) by {
            let l = Leaf { weight: f[i], count: i as usize };
            if i < g.len() {
                assert(g[i] == f[i]);
                assert(rest.contains(symbol_leaf(g, i)));
                let j = choose|j: int| 0 <= j < rest.len() && rest[j] == l;
                assert(all[j] == l);
            } else {
                assert(all[all.len() - 1] == l);
            }
        }
    }
}

/// The sorted leaves are the symbols of positive frequency, each once, in
/// ascending order.
pub proof fn lemma_sorted_leaves(f: Seq<usize>)
    requires
        f.len() <= usize::MAX,
    ensures
        sorted_leaves(f).len() == leaf_seq(f).len(),
        sorted_leaves(f).len() <= f.len(),
        sorted_leaves(f).to_multiset() == leaf_seq(f).to_multiset(),
        sorted_by(sorted_leaves(f), leaf_order()),
        sorted_leaves(f).no_duplicates(),
        forall|r: int| 0 <= r < sorted_leaves(f).len() ==> leaf_of(f, #[trigger] sorted_leaves(f)[r]),
        forall|r: int, s: int|
            0 <= r < sorted_leaves(f).len() && 0 <= s < sorted_leaves(f).len() && r != s ==> (
            #[trigger] sorted_leaves(f)[r]).count != (#[trigger] sorted_leaves(f)[s]).count,
        forall|i: int|
            0 <= i < f.len() && f[i] != 0 ==> sorted_leaves(f).contains(
                #[trigger] symbol_leaf(f, i),
            ),
{
    broadcast use group_to_multiset_ensures;

    let a = leaf_seq(f);
    let s = sorted_leaves(f);
    lemma_leaf_seq(f);
    lemma_leaf_order_total();
    a.lemma_sort_by_ensures(leaf_order());
    assert(s.to_multiset() == a.to_multiset());
    a.lemma_multiset_has_no_duplicates();
    s.lemma_multiset_has_no_duplicates_conv();
    assert forall|r: int| 0 <= r < s.len() implies leaf_of(f, #[trigger] s[r]) by {
        assert(s.contains(s[r]));
        assert(s.to_multiset().count(s[r]) > 0);
        assert(a.contains(s[r]));
        let j = choose|j: int| 0 <= j < a.len() && a[j] == s[r];
        assert(leaf_of(f, a[j]));
    }
    assert forall|r: int, t: int|
        0 <= r < s.len() && 0 <= t < s.len() && r != t implies (#[trigger] s[r]).count != (
    #[trigger] s[t]).count by {
        assert(leaf_of(f, s[r]));
        assert(leaf_of(f, s[t]));
        if s[r].count == s[t].count {
            assert(s[r] == s[t]);
        }
    }
    assert forall|i: int| 0 <= i < f.len() && f[i] != 0 implies s.contains(
        #[trigger] symbol_leaf(f, i),
    ) by {
        let l = symbol_leaf(f, i);
        assert(a.contains(l));
        assert(a.to_multiset().count(l) > 0);
    }
    assert(s.len() == s.to_multiset().len());
    assert(a.len() == a.to_multiset().len());
}

/// The weights of two or more sorted leaves are positive and ascending.
pub proof fn lemma_weights_ascending(f: Seq<usize>)
    requires
        f.len() <= usize::MAX,
        leaf_seq(f).len() >= 2,
    ensures
        weights(f).len() == leaf_seq(f).len(),
        ascending_weights(weights(f)),
{
    lemma_sorted_leaves(f);
    let s = sorted_leaves(f);
    let w = weights(f);
    assert forall|i: int| 0 <= i < w.len() implies #[trigger] w[i] >= 1 by {
        assert(leaf_of(f, s[i]));
    }
    assert forall|i: int, j: int| 0 <= i <= j < w.len() implies w[i] <= w[j] by {
        if i < j {
            assert(leaf_order()(s[i], s[j]));
        }
    }
}

/// A sorted leaf is found again at its own rank.
pub proof fn lemma_symbol_rank(f: Seq<usize>, r: int)
    requires
        f.len() <= usize::MAX,
        0 <= r < sorted_leaves(f).len(),
    ensures
        symbol_rank(f, sorted_leaves(f)[r].count as int) == r,
{
    lemma_sorted_leaves(f);
    let s = sorted_leaves(f);
    let l = s[r];
    assert(leaf_of(f, l));
    let needle = symbol_leaf(f, l.count as int);
    assert(needle == l);
    let j = s.index_of(needle);
    assert(0 <= j < s.len() && s[j] == needle);
}

/// Gathers the symbols of positive frequency in the order of the alphabet.
pub fn collect_leaves(frequencies: &[usize]) -> (leaves: Vec<Leaf>)
    ensures
        leaves@ == leaf_seq(frequencies@),
{
    let mut leaves: Vec<Leaf> = Vec::new();
    let mut i: usize = 0;
    while i < frequencies.len()
        invariant
            i <= frequencies.len(),
            leaves@ == leaf_seq(frequencies@.take(i as int)),
        decreases frequencies.len() - i,
    {
        let freq = frequencies[i];
        proof {
            assert(frequencies@.take(i + 1).drop_last() =~= frequencies@.take(i as int));
        }
        if freq != 0 {
            leaves.push(Leaf { weight: freq, count: i });
        }
        i += 1;
    }
    proof {
        assert(frequencies@.take(i as int) =~= frequencies@);
    }
    leaves
}

/// `sort_by_key` of the standard library, on the key (weight, index). Its
/// documentation promises a slice in ascending order of the keys which holds
/// the elements that it held before. Tuples are ordered by their first
/// component, then by their second.
#[verifier::external_body]
fn sort_by_weight(leaves: &mut Vec<Leaf>)
    ensures
        final(leaves)@.to_multiset() == old(leaves)@.to_multiset(),
        sorted_by(final(leaves)@, leaf_order()),
{
    leaves.sort_by_key(|leaf| (leaf.weight, leaf.count))
}

/// Puts the leaves of an alphabet in ascending order of weight.
pub fn sort_leaves(leaves: &mut Vec<Leaf>, Ghost(f): Ghost<Seq<usize>>)
    requires
        f.len() <= usize::MAX,
        old(leaves)@ == leaf_seq(f),
    ensures
        final(leaves)@ == sorted_leaves(f),
{
    sort_by_weight(leaves);
    proof {
        lemma_sorted_leaves(f);
        lemma_leaf_order_total();
        lemma_sorted_unique(leaves@, sorted_leaves(f), leaf_order());
    }
}

} // verus!
