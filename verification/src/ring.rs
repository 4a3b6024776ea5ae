//! Places in a ring of `n` slots: number `i` lies in slot `i % n`.
use vstd::prelude::*;

verus! {

/// The place after the place of `total`.
pub proof fn step(total: int, n: int)
    requires
        0 < n,
        0 <= total,
    ensures
        (total + 1) % n == (total % n + 1) % n,
{
    vstd::arithmetic::div_mod::lemma_add_mod_noop(total, 1, n);
    vstd::arithmetic::div_mod::lemma_add_mod_noop(total % n, 1, n);
    vstd::arithmetic::div_mod::lemma_mod_twice(total, n);
}

/// Fewer than `n` steps apart, two places differ.
pub proof fn apart(j: int, total: int, n: int)
    requires
        0 < n,
        0 <= j < total,
        total - n < j,
    ensures
        j % n != total % n,
{
    if j % n == total % n {
        vstd::arithmetic::div_mod::lemma_fundamental_div_mod(j, n);
        vstd::arithmetic::div_mod::lemma_fundamental_div_mod(total, n);
        let q1 = j / n;
        let q2 = total / n;
        assert(total - j == n * (q2 - q1)) by (nonlinear_arith)
            requires
                j == n * q1 + j % n,
                total == n * q2 + total % n,
                j % n == total % n,
        ;
        assert(false) by (nonlinear_arith)
            requires
                0 < n,
                0 < total - j < n,
                total - j == n * (q2 - q1),
        ;
    }
}

/// A full turn leads back to the same place.
pub proof fn start(total: int, n: int)
    requires
        0 < n,
        0 <= total,
    ensures
        total >= n ==> (total - n) % n == total % n,
        0int % n == 0,
{
    vstd::arithmetic::div_mod::lemma_mod_sub_multiples_vanish(total, n);
    vstd::arithmetic::div_mod::lemma_small_mod(0, n as nat);
}

/// The place `ahead` steps after that of `first`, without a division.
pub proof fn ahead(first: int, ahead: int, n: int)
    requires
        0 < n,
        0 <= first,
        0 <= ahead < n,
    ensures
        (first + ahead) % n == (if ahead < n - first % n {
            first % n + ahead
        } else {
            ahead - (n - first % n)
        }),
{
    vstd::arithmetic::div_mod::lemma_fundamental_div_mod(first, n);
    let q = first / n;
    let r = first % n;
    if ahead < n - r {
        assert(first + ahead == q * n + (r + ahead)) by (nonlinear_arith)
            requires
                first == n * q + r,
        ;
        vstd::arithmetic::div_mod::lemma_fundamental_div_mod_converse(
            first + ahead,
            n,
            q,
            r + ahead,
        );
    } else {
        assert(first + ahead == (q + 1) * n + (ahead - (n - r))) by (nonlinear_arith)
            requires
                first == n * q + r,
        ;
        vstd::arithmetic::div_mod::lemma_fundamental_div_mod_converse(
            first + ahead,
            n,
            q + 1,
            ahead - (n - r),
        );
    }
}

} // verus!
