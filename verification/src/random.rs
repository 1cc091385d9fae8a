//! Random choices, drawn from a generator that the caller supplies.

use vstd::prelude::*;
use rand::rngs::StdRng;
use rand::Rng;
use crate::grid::Cell;

verus! {

/// The generator that every random choice of this library draws from. Seed it
/// for reproducible mazes.
#[verifier::external_type_specification]
#[verifier::external_body]
pub struct ExStdRng(StdRng);

/// Calls `rand::Rng::gen_range(0, high)` on the generator. Trusted: the result
/// lies in `[0, high)`, which is all that holds of every draw. The call panics
/// for an empty range, so `high` must be positive.
#[verifier::external_body]
pub(crate) fn random_below(rng: &mut StdRng, high: usize) -> (r: usize)
    requires
        high > 0,
    ensures
        r < high,
{
    rng.gen_range(0, high)
}

/// Calls `rand::Rng::gen_ratio(numerator, denominator)` on the generator.
/// Trusted: the draw is certainly true when the two numbers are equal and
/// certainly false when the numerator is zero; nothing else holds of every
/// draw. The call panics for a zero denominator or a ratio above one.
#[verifier::external_body]
fn random_ratio(rng: &mut StdRng, numerator: u32, denominator: u32) -> (r: bool)
    requires
        denominator > 0,
        numerator <= denominator,
    ensures
        numerator == denominator ==> r,
        numerator == 0 ==> !r,
{
    rng.gen_ratio(numerator, denominator)
}

/// The item of `items` at position `index`.
pub fn pick(items: &[Cell], index: usize) -> (r: Cell)
    requires
        index < items@.len(),
    ensures
        r == items@[index as int],
{
    items[index]
}

/// Picks a random cell from a slice of cells; each cell of the slice is as
/// likely as any other. A slice of one cell yields that cell without a draw.
pub fn sample(rng: &mut StdRng, items: &[Cell]) -> (r: Cell)
    requires
        items@.len() > 0,
    ensures
        items@.contains(r),
        items@.len() == 1 ==> r == items@[0],
{
    let ind = sample_index(rng, items.len());
    pick(items, ind)
}

/// Picks a random position in a list of `len` items; each position is as likely
/// as any other. A list of one item yields position 0 without a draw.
pub fn sample_index(rng: &mut StdRng, len: usize) -> (r: usize)
    requires
        len > 0,
    ensures
        r < len,
        len == 1 ==> r == 0,
{
    if len == 1 {
        return 0;
    }
    random_below(rng, len)
}

/// Flips a fair coin, returning true for heads and false for tails.
pub fn flip(rng: &mut StdRng) -> (r: bool) {
    random_ratio(rng, 1, 2)
}

} // verus!
