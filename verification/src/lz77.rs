//! The token stream that the block splitter works on.

use vstd::prelude::*;

verus! {

/// A parsed stream of literals and matches. Token `i` is a literal where
/// `dists[i]` is 0, and `litlens[i]` is then the byte itself; otherwise it is
/// a match of `litlens[i]` bytes at the distance `dists[i]`.
pub struct Lz77Store {
    pub litlens: Vec<u16>,
    pub dists: Vec<u16>,
}

/// Number of bytes that a token stands for.
pub open spec fn token_length(litlen: u16, dist: u16) -> int {
    if dist == 0 {
        1
    } else {
        litlen as int
    }
}

/// Number of bytes that the first `upto` tokens stand for.
pub open spec fn bytes_before(litlens: Seq<u16>, dists: Seq<u16>, upto: int) -> int
    decreases upto,
{
    if upto <= 0 {
        0
    } else {
        bytes_before(litlens, dists, upto - 1) + token_length(litlens[upto - 1], dists[upto - 1])
    }
}

impl Lz77Store {
    /// Every token has a literal or length and a distance.
    pub open spec fn wf(&self) -> bool {
        self.litlens.len() == self.dists.len()
    }

    /// Number of tokens, for contracts.
    pub open spec fn spec_size(&self) -> int {
        self.litlens.len() as int
    }

    /// Number of bytes that the whole stream stands for.
    pub open spec fn byte_size(&self) -> int {
        bytes_before(self.litlens@, self.dists@, self.litlens.len() as int)
    }

    /// An empty stream.
    pub fn new() -> (store: Self)
        ensures
            store.wf(),
            store.spec_size() == 0,
    {
        Lz77Store { litlens: Vec::new(), dists: Vec::new() }
    }

    /// Appends a token: a literal where `dist` is 0, else a match.
    pub fn lit_len_dist(&mut self, litlen: u16, dist: u16)
        requires
            old(self).wf(),
        ensures
            final(self).wf(),
            final(self).litlens@ == old(self).litlens@.push(litlen),
            final(self).dists@ == old(self).dists@.push(dist),
    {
        self.litlens.push(litlen);
        self.dists.push(dist);
    }

    /// Number of tokens.
    pub fn size(&self) -> (n: usize)
        ensures
            n == self.spec_size(),
    {
        self.litlens.len()
    }
}

/// The bytes before a token grow with the token's index.
pub proof fn lemma_bytes_before_monotone(litlens: Seq<u16>, dists: Seq<u16>, a: int, b: int)
    requires
        0 <= a <= b,
    ensures
        0 <= bytes_before(litlens, dists, a) <= bytes_before(litlens, dists, b),
    decreases b,
{
    if a < b {
        lemma_bytes_before_monotone(litlens, dists, a, b - 1);
    } else if a > 0 {
        lemma_bytes_before_monotone(litlens, dists, a - 1, a - 1);
    }
}

} // verus!
