//! Late interaction: each query token counts with its best-matching document token.
use crate::float_order;
use vstd::prelude::*;

verus! {

/// The best of the first `n` similarities; negative infinity where there is none.
pub open spec fn best_of(sims: Seq<u32>, n: nat) -> u32
    decreases n,
{
    if n == 0 {
        float_order::NEG_INFINITY
    } else {
        float_order::larger(best_of(sims, (n - 1) as nat), sims[n - 1])
    }
}

/// The best of a list of similarities.
pub fn best_match(sims: &[u32]) -> (best: u32)
    ensures
        best == best_of(sims@, sims@.len()),
{
    let mut best: u32 = float_order::NEG_INFINITY;
    let mut i: usize = 0;
    while i < sims.len()
        invariant
            i <= sims@.len(),
            best == best_of(sims@, i as nat),
        decreases sims@.len() - i,
    {
        best = float_order::max(best, sims[i]);
        i += 1;
    }
    best
}

/// For each query token, given by its similarities to the document's tokens, the best of them.
/// Their sum is the score of the document.
pub fn best_matches(rows: &Vec<Vec<u32>>) -> (best: Vec<u32>)
    ensures
        best@.len() == rows@.len(),
        forall|q: int|
            0 <= q < rows@.len() ==> #[trigger] best@[q] == best_of(rows@[q]@, rows@[q]@.len()),
{
    let mut best: Vec<u32> = Vec::new();
    let mut q: usize = 0;
    while q < rows.len()
        invariant
            q <= rows@.len(),
            best@.len() == q,
            forall|p: int|
                0 <= p < q ==> #[trigger] best@[p] == best_of(rows@[p]@, rows@[p]@.len()),
        decreases rows@.len() - q,
    {
        best.push(best_match(rows[q].as_slice()));
        q += 1;
    }
    best
}

/// The best is a number, no similarity that is a number is above it, and it is one of them
/// unless there is none above negative infinity.
pub proof fn best_holds(sims: Seq<u32>, n: nat)
    requires
        n <= sims.len(),
    ensures
        !float_order::not_a_number(best_of(sims, n)),
        forall|i: int|
            0 <= i < n && !float_order::not_a_number(#[trigger] sims[i]) ==> float_order::at_most(
                sims[i],
                best_of(sims, n),
            ),
        best_of(sims, n) == float_order::NEG_INFINITY || sims.take(n as int).contains(
            best_of(sims, n),
        ),
    decreases n,
{
    if n > 0 {
        let m = (n - 1) as nat;
        best_holds(sims, m);
        let front = sims.take(n as int);
        if best_of(sims, n) == sims[n - 1] {
            assert(front[n - 1] == best_of(sims, n));
        } else if best_of(sims, m) != float_order::NEG_INFINITY {
            let i = choose|i: int|
                0 <= i < sims.take(m as int).len() && sims.take(m as int)[i] == best_of(sims, m);
            assert(front[i] == best_of(sims, n));
        }
    }
}

/// More document tokens never make the best match worse.
pub proof fn more_tokens_match_better(sims: Seq<u32>, fewer: nat, more: nat)
    requires
        fewer <= more <= sims.len(),
    ensures
        float_order::at_most(best_of(sims, fewer), best_of(sims, more)),
    decreases more,
{
    if fewer < more {
        more_tokens_match_better(sims, fewer, (more - 1) as nat);
    } else {
        best_holds(sims, more);
    }
}

} // verus!
