//! The seeded random source behind both generators.
//!
//! Every draw the maze algorithms make goes through this module. The source
//! is deterministic: the string seed is expanded into generator state, and
//! each result is a pure function of that seed and of the calls made so far.
//! The ghost fields record both, so that every caller's result is pinned and
//! the whole generation becomes a function of `(seed, size, algorithm)`.

use vstd::prelude::*;

use rand::Rng;
use rand::seq::SliceRandom;
use rand_seeder::Seeder;

verus! {

#[verifier::external_type_specification]
#[verifier::external_body]
pub struct ExLcg128Xsl64(rand_pcg::Lcg128Xsl64);

/// One recorded call: a bounded draw `(0, lo, hi)` or a shuffle of `n`
/// items `(1, n, 0)`.
pub open spec fn range_event(lo: int, hi: int) -> (int, int, int) {
    (0int, lo, hi)
}

/// The event a shuffle of `n` items appends to the call history.
pub open spec fn shuffle_event(n: int) -> (int, int, int) {
    (1int, n, 0int)
}

/// The value a seeded generator returns for a draw bounded by `lo..=hi`
/// after the calls in `history`: a function of its arguments alone.
pub uninterp spec fn range_draw(
    seed: Seq<char>,
    history: Seq<(int, int, int)>,
    lo: int,
    hi: int,
) -> int;

/// A bounded draw as the models read it: the drawn value, which always
/// lies within its range, clamped so that the models may rely on that.
pub open spec fn bounded_draw(
    seed: Seq<char>,
    history: Seq<(int, int, int)>,
    lo: int,
    hi: int,
) -> int {
    let raw = range_draw(seed, history, lo, hi);
    if lo <= raw <= hi {
        raw
    } else {
        lo
    }
}

/// The permutation a seeded generator applies to `items` after the calls in
/// `history`: a function of its arguments alone.
pub uninterp spec fn shuffle_draw(
    seed: Seq<char>,
    history: Seq<(int, int, int)>,
    items: Seq<u8>,
) -> Seq<u8>;

/// A deterministic source of pseudo-random values, expanded from a string
/// seed. The ghost fields record the seed and every call made so far.
pub struct RandomSource {
    inner: rand_pcg::Pcg64,
    seed_ghost: Ghost<Seq<char>>,
    history_ghost: Ghost<Seq<(int, int, int)>>,
}

/// Relies on rand_seeder's Seeder with rand_pcg's Pcg64: expanding a string
/// seed into generator state is portable and reproducible.
#[verifier::external_body]
fn pcg_from_seed(seed: &str) -> (r: rand_pcg::Pcg64) {
    Seeder::from(seed).make_rng()
}

impl RandomSource {
    /// The seed this source was built from.
    pub closed spec fn seed(self) -> Seq<char> {
        self.seed_ghost@
    }

    /// Every call made on this source so far.
    pub closed spec fn history(self) -> Seq<(int, int, int)> {
        self.history_ghost@
    }

    /// Builds the source for a string seed, with no calls made yet.
    pub fn from_seed(seed: &str) -> (r: RandomSource)
        ensures
            r.seed() == seed@,
            r.history() == Seq::<(int, int, int)>::empty(),
    {
        RandomSource {
            inner: pcg_from_seed(seed),
            seed_ghost: Ghost(seed@),
            history_ghost: Ghost(Seq::empty()),
        }
    }

    /// Relies on rand's Rng::gen_range on Pcg64: the result lies within the
    /// non-empty range `lo..=hi` and depends only on the generator state,
    /// which the seed and the calls made before determine.
    #[verifier::external_body]
    pub fn draw_in_range(&mut self, lo: usize, hi: usize) -> (n: usize)
        requires
            lo <= hi,
        ensures
            lo <= n <= hi,
            n == range_draw(old(self).seed(), old(self).history(), lo as int, hi as int),
            final(self).seed() == old(self).seed(),
            final(self).history() == old(self).history().push(range_event(lo as int, hi as int)),
    {
        self.inner.gen_range(lo..=hi)
    }

    /// Relies on rand's SliceRandom::shuffle on Pcg64: a Fisher-Yates
    /// permutation of the items, determined by the generator state, which
    /// the seed and the calls made before determine.
    #[verifier::external_body]
    pub fn shuffle(&mut self, items: &mut Vec<u8>)
        ensures
            final(items)@ == shuffle_draw(old(self).seed(), old(self).history(), old(items)@),
            final(items)@.to_multiset() == old(items)@.to_multiset(),
            final(self).seed() == old(self).seed(),
            final(self).history() == old(self).history().push(
                shuffle_event(old(items)@.len() as int),
            ),
    {
        items.shuffle(&mut self.inner)
    }
}

} // verus!
