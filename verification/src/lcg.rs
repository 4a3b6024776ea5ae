//! A linear congruential generator.
use vstd::prelude::*;

verus! {

/// The state after `state`.
pub open spec fn next_state(state: u64) -> u64 {
    ((state * 6364136223846793005 + 1442695040888963407) % 0x1_0000_0000_0000_0000) as u64
}

/// The state after `state`.
pub fn step(state: u64) -> (next: u64)
    ensures
        next == next_state(state),
{
    let product: u64 = state.wrapping_mul(6364136223846793005);
    let next: u64 = product.wrapping_add(1442695040888963407);
    proof {
        let a = state as int;
        let c = 6364136223846793005int;
        let d = 1442695040888963407int;
        let m = 0x1_0000_0000_0000_0000int;
        assert(product == (a * c) % m);
        vstd::arithmetic::div_mod::lemma_add_mod_noop(a * c, d, m);
        vstd::arithmetic::div_mod::lemma_add_mod_noop((a * c) % m, d, m);
        vstd::arithmetic::div_mod::lemma_mod_twice(a * c, m);
        assert(next == (product + d) % m);
    }
    next
}

} // verus!
