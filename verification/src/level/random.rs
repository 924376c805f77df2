//! The randomness of the generator, which comes from the `rand` crate.

use crate::util::grid::Pos;
use rand::Rng;
use rand::SeedableRng;
use rand::XorShiftRng;
use vstd::prelude::*;

verus! {

/// The generator of the `rand` crate that levels are made with. Its state is
/// hidden from the proofs.
#[verifier::external_type_specification]
#[verifier::external_body]
pub struct ExXorShiftRng(XorShiftRng);

/// The order in which `Rng::shuffle` leaves `items` when it is driven by an
/// `XorShiftRng` that was made from `seed`.
///
/// The shuffle draws `usize` indices, and the generator is asked for 32 or
/// for 64 bits according to the width of `usize`: that width is the third
/// argument.
pub uninterp spec fn shuffled(seed: Seq<u32>, items: Seq<Pos>, word_bits: nat) -> Seq<Pos>;

/// A seed that the generator accepts: four words, not all of them zero.
pub open spec fn usable_seed(seed: Seq<u32>) -> bool {
    seed.len() == 4 && (seed[0] != 0 || seed[1] != 0 || seed[2] != 0 || seed[3] != 0)
}

/// Whether the generator accepts the seed.
pub fn is_usable_seed(seed: &[u32; 4]) -> (usable: bool)
    ensures
        usable == usable_seed(seed@),
{
    seed[0] != 0 || seed[1] != 0 || seed[2] != 0 || seed[3] != 0
}

/// Shuffles `items` with `Rng::shuffle`, driven by the generator that
/// `SeedableRng::from_seed` makes from `seed`.
///
/// Trusted: the result is a function of the seed and the items (for one width
/// of `usize`), and it is a rearrangement of the items, as the shuffle only
/// swaps elements. `from_seed` panics on a seed of four zeros, which the
/// precondition leaves out.
#[verifier::external_body]
pub(crate) fn shuffle_seeded(seed: [u32; 4], items: Vec<Pos>) -> (out: Vec<Pos>)
    requires
        usable_seed(seed@),
    ensures
        out@ == shuffled(seed@, items@, usize::BITS as nat),
        out@.to_multiset() == items@.to_multiset(),
{
    let mut out = items;
    let mut rng: XorShiftRng = SeedableRng::from_seed(seed);
    rng.shuffle(&mut out);
    out
}

/// Draws four words from the generator with `Rng::gen`.
///
/// Trusted: nothing is promised of the words; the generator has moved on.
#[verifier::external_body]
pub(crate) fn draw_seed(rng: &mut XorShiftRng) -> (seed: [u32; 4]) {
    rng.gen()
}

} // verus!
