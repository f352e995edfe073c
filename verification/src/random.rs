//! The calls into `rand`. Their contracts are believed, not proved.
use rand::rngs::ThreadRng;
use rand::seq::SliceRandom;
use rand::Rng;
use vstd::prelude::*;

verus! {

/// The generator of `rand` that each thread keeps for itself. Nothing is
/// known of its state.
#[verifier::external_type_specification]
#[verifier::external_body]
pub struct ExThreadRng(ThreadRng);

/// Calls `rand::thread_rng`, which hands out the generator of the current
/// thread. Nothing is claimed of the generator.
#[verifier::external_body]
pub(crate) fn thread_rng() -> ThreadRng {
    rand::thread_rng()
}

/// Calls `Rng::gen_range` on the range from zero up to `bound`, `bound` left
/// out. The call panics on an empty range, so `bound` may not be zero. It is
/// believed, not proved, that the number drawn lies in the range; which
/// number it is depends on the generator.
#[verifier::external_body]
pub(crate) fn gen_below(rng: &mut ThreadRng, bound: usize) -> (n: usize)
    requires
        bound > 0,
    ensures
        n < bound,
{
    rng.gen_range(0..bound)
}

/// Calls `SliceRandom::choose` on the positions in `cells`. It is believed,
/// not proved, that the call gives nothing for an empty slice and one of the
/// elements of the slice otherwise; which element depends on the generator.
#[verifier::external_body]
pub(crate) fn choose_cell(cells: &Vec<(usize, usize)>, rng: &mut ThreadRng) -> (res: Option<
    (usize, usize),
>)
    ensures
        cells.len() == 0 ==> res is None,
        cells.len() > 0 ==> res is Some && cells@.contains(res->Some_0),
{
    cells.choose(rng).copied()
}

} // verus!
