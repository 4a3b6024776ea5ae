//! Random choices, from the `rand` crate.
use vstd::prelude::*;

verus! {

/// The seeded generator of the `rand` crate.
#[verifier::external_type_specification]
#[verifier::external_body]
pub struct ExStdRng(rand::rngs::StdRng);

/// `rand::SeedableRng::seed_from_u64` for `StdRng`. Nothing is claimed of the generator:
/// which numbers it will give depends on the generator's algorithm, which the crate does not
/// promise to keep.
#[verifier::external_body]
pub(crate) fn seeded(seed: u64) -> rand::rngs::StdRng {
    <rand::rngs::StdRng as rand::SeedableRng>::seed_from_u64(seed)
}

/// `rand::Rng::gen_range` on `0..n`: some number below `n`.
#[verifier::external_body]
pub(crate) fn draw(rng: &mut rand::rngs::StdRng, n: usize) -> (x: usize)
    requires
        0 < n,
    ensures
        x < n,
{
    rand::Rng::gen_range(rng, 0..n)
}

/// `rand::Rng::gen_range` on `0..n` with the generator of the thread: some number below `n`.
#[verifier::external_body]
pub(crate) fn thread_draw(n: usize) -> (x: usize)
    requires
        0 < n,
    ensures
        x < n,
{
    rand::Rng::gen_range(&mut rand::thread_rng(), 0..n)
}

/// `rand::seq::SliceRandom::shuffle` with the generator of the thread: the same elements,
/// each as often as before, in some order.
#[verifier::external_body]
pub(crate) fn thread_shuffle(list: &mut Vec<u32>)
    ensures
        final(list)@.to_multiset() == old(list)@.to_multiset(),
{
    rand::seq::SliceRandom::shuffle(list.as_mut_slice(), &mut rand::thread_rng());
}

} // verus!
