//! The generator's source of randomness: a ChaCha stream of eight rounds,
//! started from a 64-bit seed. The stream itself is not modelled: each draw
//! promises only the bounds that hold of every outcome.

use rand::seq::IteratorRandom;
use rand::Rng;
use rand::SeedableRng;
use rand_chacha::ChaCha8Rng;
use vstd::prelude::*;

verus! {

/// `ChaCha8Rng` of `rand_chacha`, carried through as it is: nothing of
/// its state is known.
#[verifier::external_type_specification]
#[verifier::external_body]
pub struct ExChaCha8Rng(ChaCha8Rng);

/// `ChaCha8Rng::seed_from_u64`: a stream started from `seed`. Nothing is
/// claimed of the stream.
#[verifier::external_body]
pub(crate) fn seeded(seed: u64) -> ChaCha8Rng {
    ChaCha8Rng::seed_from_u64(seed)
}

/// `Rng::random_ratio`: true with `numerator` chances in `denominator`.
/// Nothing is claimed of the outcome. The chances must be no more than
/// the denominator, and that not zero, or the call panics.
#[verifier::external_body]
pub(crate) fn chance(rng: &mut ChaCha8Rng, numerator: u32, denominator: u32) -> bool
    requires
        numerator <= denominator,
        denominator > 0,
{
    rng.random_ratio(numerator, denominator)
}

/// A fair coin: one chance in two.
pub(crate) fn coin(rng: &mut ChaCha8Rng) -> bool {
    chance(rng, 1, 2)
}

/// `Rng::random_range` on `low..high`: the value drawn lies in the range.
/// The range must not be empty, or the call panics.
#[verifier::external_body]
pub(crate) fn in_range(rng: &mut ChaCha8Rng, low: i32, high: i32) -> (r: i32)
    requires
        low < high,
    ensures
        low <= r < high,
{
    rng.random_range(low..high)
}

/// `IteratorRandom::choose` on the numbers `from..to`: the number drawn
/// is one of them. There must be a number to draw.
#[verifier::external_body]
pub(crate) fn choose_between(rng: &mut ChaCha8Rng, from: usize, to: usize) -> (r: usize)
    requires
        from < to,
    ensures
        from <= r < to,
{
    (from..to).choose(rng).unwrap()
}

/// Draw a place in a list of `len` items.
pub(crate) fn pick(rng: &mut ChaCha8Rng, len: usize) -> (r: usize)
    requires
        len > 0,
    ensures
        r < len,
{
    choose_between(rng, 0, len)
}

} // verus!
