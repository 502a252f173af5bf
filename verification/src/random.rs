//! Access to the thread-local random number generator of the `rand` crate.
//!
//! Every outcome here depends on chance, so the contracts only say what
//! holds of every possible outcome.

use vstd::prelude::*;
use rand::Rng;
use rand::seq::SliceRandom;
use rand::rngs::ThreadRng;

verus! {

/// The `rand` crate's handle to the thread-local generator, carried opaquely.
#[verifier::external_type_specification]
#[verifier::external_body]
pub struct ExThreadRng(rand::rngs::ThreadRng);

/// Calls `rand::thread_rng`, which hands out a handle to the lazily seeded
/// thread-local generator. Nothing is claimed about the handle.
#[verifier::external_body]
pub(crate) fn thread_rng() -> ThreadRng {
    rand::thread_rng()
}

/// A value drawn by the generator from a range. Only [`random_in_range`]
/// makes one, so a `RangeDraw` records the range a value was really drawn
/// from.
pub struct RangeDraw {
    low: usize,
    high: usize,
    value: usize,
}

impl RangeDraw {
    /// The lower end of the range drawn from.
    pub closed spec fn low(&self) -> usize {
        self.low
    }

    /// The upper end (excluded) of the range drawn from.
    pub closed spec fn high(&self) -> usize {
        self.high
    }

    /// The value drawn.
    pub closed spec fn drawn(&self) -> usize {
        self.value
    }

    /// The value drawn.
    pub fn value(&self) -> (v: usize)
        ensures
            v == self.drawn(),
    {
        self.value
    }
}

/// Calls `Rng::gen_range` on the range `low..high` and records the range
/// with the value. The crate asserts that the range is non-empty (hence the
/// `requires`) and samples inside it; the contract claims only that the
/// value lies in `[low, high)`.
#[verifier::external_body]
pub(crate) fn random_in_range(rng: &mut ThreadRng, low: usize, high: usize) -> (r: RangeDraw)
    requires
        low < high,
    ensures
        r.low() == low,
        r.high() == high,
        low <= r.drawn() < high,
{
    RangeDraw { low, high, value: rng.gen_range(low..high) }
}

/// Positions in the order a shuffle left them. Only [`shuffle_indices`]
/// makes one, so a `ShuffledPositions` is always the generator's shuffle of
/// the positions handed to it.
pub struct ShuffledPositions {
    positions: Vec<usize>,
}

impl ShuffledPositions {
    /// The positions, in shuffled order.
    pub closed spec fn positions(&self) -> Seq<usize> {
        self.positions@
    }

    /// The positions, in shuffled order.
    pub fn into_vec(self) -> (v: Vec<usize>)
        ensures
            v@ == self.positions(),
    {
        self.positions
    }
}

/// Calls `SliceRandom::shuffle` on the vector's elements, a Fisher-Yates
/// shuffle made only of swaps, and hands the result out as
/// [`ShuffledPositions`]. The contract claims only that the result is a
/// permutation of the input: same length, same elements with multiplicity.
#[verifier::external_body]
pub(crate) fn shuffle_indices(rng: &mut ThreadRng, items: Vec<usize>) -> (r: ShuffledPositions)
    ensures
        r.positions().len() == items@.len(),
        r.positions().to_multiset() == items@.to_multiset(),
{
    let mut items = items;
    items.shuffle(rng);
    ShuffledPositions { positions: items }
}

} // verus!
