//! The (pseudo)random-number generator that varies the limit of the "fast" phase.

/// Use the `wyrng` of the `wyhash` crate as the choice of PRNG.
pub mod wyrng;

use vstd::prelude::*;

verus! {

/// What the [`Interleave`](super::Interleave) type requires from a (pseudo)random-number
/// generator type.
pub trait NumberGenerator: View + Sized {
    /// The view of the state to start from.
    spec fn spec_default() -> Self::V;

    /// The new state, and the number returned, for a call of [`Self::rand_upto`].
    spec fn spec_rand_upto(v: Self::V, exclusive_end: u16) -> (Self::V, u16);

    /// The number that a call returns is below its exclusive end.
    proof fn lemma_rand_upto_range(v: Self::V, exclusive_end: u16)
        requires
            exclusive_end > 0,
        ensures
            Self::spec_rand_upto(v, exclusive_end).1 < exclusive_end,
    ;

    /// Create the state to start from.  It may or may not be seeded with a constant.
    fn default_state() -> (r: Self)
        ensures
            r@ == Self::spec_default(),
    ;

    /// Return a (pseudo)random number in the range `0 .. exclusive_end`.
    fn rand_upto(&mut self, exclusive_end: u16) -> (r: u16)
        requires
            exclusive_end > 0,
        ensures
            (final(self)@, r) == Self::spec_rand_upto(old(self)@, exclusive_end),
            r < exclusive_end,
    ;
}

} // verus!
