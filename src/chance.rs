use vstd::prelude::*;

use rand::rngs::StdRng;
use rand::seq::SliceRandom;
use rand::{Rng, SeedableRng};

verus! {

/// A sequence of lengths, as natural numbers.
pub open spec fn nats(v: Seq<usize>) -> Seq<nat> {
    v.map_values(|n: usize| n as nat)
}

/// The index that a generator freshly seeded with `seed` picks at its last
/// draw, having picked in slices of the lengths `lens` in turn.
pub uninterp spec fn seeded_pick_after(seed: u64, lens: Seq<nat>) -> nat;

/// Relies on rand's `StdRng::seed_from_u64` and `SliceRandom::choose`: a
/// generator seeded with `seed` that has already picked in slices of the
/// lengths `earlier`, in turn, picks one element of `items`, at an index that
/// depends on the seed and the lengths alone; an empty slice gives `None`.
#[verifier::external_body]
pub(crate) fn choose_after<T: Copy>(items: &Vec<T>, seed: u64, earlier: &Vec<usize>) -> (r: Option<T>)
    ensures
        r is None <==> items@.len() == 0,
        (r matches Some(v) ==> seeded_pick_after(seed, nats(earlier@).push(items@.len())) < items@.len()),
        (r matches Some(v) ==> v == items@[seeded_pick_after(seed, nats(earlier@).push(items@.len())) as int]),
{
    let mut rng = StdRng::seed_from_u64(seed);
    for n in earlier.iter() {
        let _ = (0..*n).collect::<Vec<usize>>().as_slice().choose(&mut rng);
    }
    items.as_slice().choose(&mut rng).copied()
}

/// The first 64-bit value that a generator freshly seeded with `seed` draws.
pub uninterp spec fn seeded_u64(seed: u64) -> u64;

/// What a generator freshly seeded with `seed` draws in turn: a value below
/// `rows`, a value below `cols`, then a 64-bit value.
pub uninterp spec fn seeded_cell(seed: u64, rows: u32, cols: u32) -> (u32, u32, u64);

/// Relies on rand's `StdRng::seed_from_u64` and `Rng::gen::<u64>`: the first
/// value drawn depends on the seed alone.
#[verifier::external_body]
pub(crate) fn first_u64(seed: u64) -> (r: u64)
    ensures
        r == seeded_u64(seed),
{
    StdRng::seed_from_u64(seed).gen::<u64>()
}

/// Relies on rand's `StdRng::seed_from_u64`, `Rng::gen_range` (which panics on
/// an empty range) and `Rng::gen::<u64>`: the three draws depend on the seed
/// and the bounds alone, and the first two lie below their bounds.
#[verifier::external_body]
pub(crate) fn draw_cell(seed: u64, rows: u32, cols: u32) -> (r: (u32, u32, u64))
    requires
        rows > 0,
        cols > 0,
    ensures
        r == seeded_cell(seed, rows, cols),
        r.0 < rows,
        r.1 < cols,
{
    let mut rng = StdRng::seed_from_u64(seed);
    let x = rng.gen_range(0..rows);
    let y = rng.gen_range(0..cols);
    (x, y, rng.gen::<u64>())
}

} // verus!
