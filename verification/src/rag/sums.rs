//! Finite sums.
use vstd::prelude::*;

verus! {

/// `f(0) + .. + f(n - 1)`.
pub open spec fn total(f: spec_fn(int) -> int, n: nat) -> int
    decreases n,
{
    if n == 0 {
        0
    } else {
        total(f, (n - 1) as nat) + f(n - 1)
    }
}

/// The sum over all pairs of numbers below `n`.
pub open spec fn total_pairs(f: spec_fn(int, int) -> int, n: nat) -> int {
    total(|u: int| total(|v: int| f(u, v), n), n)
}

/// Equal terms make equal sums.
pub proof fn total_same(f: spec_fn(int) -> int, g: spec_fn(int) -> int, n: nat)
    requires
        forall|i: int| 0 <= i < n ==> #[trigger] f(i) == g(i),
    ensures
        total(f, n) == total(g, n),
    decreases n,
{
    if n > 0 {
        total_same(f, g, (n - 1) as nat);
        assert(f(n - 1) == g(n - 1));
    }
}

/// Smaller terms make a smaller sum.
pub proof fn total_monotone(f: spec_fn(int) -> int, g: spec_fn(int) -> int, n: nat)
    requires
        forall|i: int| 0 <= i < n ==> #[trigger] f(i) <= g(i),
    ensures
        total(f, n) <= total(g, n),
    decreases n,
{
    if n > 0 {
        total_monotone(f, g, (n - 1) as nat);
        assert(f(n - 1) <= g(n - 1));
    }
}

/// Sums add up term by term.
pub proof fn total_plus(
    f: spec_fn(int) -> int,
    g: spec_fn(int) -> int,
    h: spec_fn(int) -> int,
    n: nat,
)
    requires
        forall|i: int| 0 <= i < n ==> #[trigger] h(i) == f(i) + g(i),
    ensures
        total(h, n) == total(f, n) + total(g, n),
    decreases n,
{
    if n > 0 {
        total_plus(f, g, h, (n - 1) as nat);
        assert(h(n - 1) == f(n - 1) + g(n - 1));
    }
}

/// A common factor can be taken out.
pub proof fn total_times(f: spec_fn(int) -> int, g: spec_fn(int) -> int, c: int, n: nat)
    requires
        forall|i: int| 0 <= i < n ==> #[trigger] g(i) == c * f(i),
    ensures
        total(g, n) == c * total(f, n),
    decreases n,
{
    if n > 0 {
        total_times(f, g, c, (n - 1) as nat);
        assert(g(n - 1) == c * f(n - 1));
        let t = total(f, (n - 1) as nat);
        let x = f(n - 1);
        assert(c * (t + x) == c * t + c * x) by (nonlinear_arith);
    } else {
        assert(c * 0 == 0) by (nonlinear_arith);
    }
}

/// Changing one term changes the sum by as much.
pub proof fn total_changed(f: spec_fn(int) -> int, g: spec_fn(int) -> int, k: int, n: nat)
    requires
        0 <= k < n,
        forall|i: int| 0 <= i < n && i != k ==> #[trigger] f(i) == g(i),
    ensures
        total(g, n) == total(f, n) + g(k) - f(k),
    decreases n,
{
    if k == n - 1 {
        total_same(f, g, (n - 1) as nat);
    } else {
        total_changed(f, g, k, (n - 1) as nat);
        assert(f(n - 1) == g(n - 1));
    }
}

/// A sum of noughts is nought.
pub proof fn total_zero(f: spec_fn(int) -> int, n: nat)
    requires
        forall|i: int| 0 <= i < n ==> #[trigger] f(i) == 0,
    ensures
        total(f, n) == 0,
    decreases n,
{
    if n > 0 {
        total_zero(f, (n - 1) as nat);
        assert(f(n - 1) == 0);
    }
}

/// A sum with one term that is not nought is that term.
pub proof fn total_single(f: spec_fn(int) -> int, k: int, n: nat)
    requires
        0 <= k < n,
        forall|i: int| 0 <= i < n && i != k ==> #[trigger] f(i) == 0,
    ensures
        total(f, n) == f(k),
{
    let z = |i: int| 0int;
    total_zero(z, n);
    total_changed(z, f, k, n);
}

/// Terms that are not negative and add up to nought are nought.
pub proof fn total_of_none(f: spec_fn(int) -> int, n: nat)
    requires
        forall|i: int| 0 <= i < n ==> #[trigger] f(i) >= 0,
        total(f, n) <= 0,
    ensures
        forall|i: int| 0 <= i < n ==> #[trigger] f(i) == 0,
        total(f, n) == 0,
    decreases n,
{
    if n > 0 {
        let z = |i: int| 0int;
        total_zero(z, (n - 1) as nat);
        total_monotone(z, f, (n - 1) as nat);
        assert(f(n - 1) >= 0);
        total_of_none(f, (n - 1) as nat);
    }
}

proof fn total_swap_rect(f: spec_fn(int, int) -> int, m: nat, n: nat)
    ensures
        total(|u: int| total(|v: int| f(u, v), n), m) == total(|v: int| total(|u: int| f(u, v), m), n),
    decreases m,
{
    let rows = |u: int| total(|v: int| f(u, v), n);
    let cols = |v: int| total(|u: int| f(u, v), m);
    if m == 0 {
        assert forall|v: int| 0 <= v < n implies #[trigger] cols(v) == 0 by {}
        total_zero(cols, n);
    } else {
        let fewer = (m - 1) as nat;
        let cols_before = |v: int| total(|u: int| f(u, v), fewer);
        let last = |v: int| f(m - 1, v);
        total_swap_rect(f, fewer, n);
        assert forall|v: int| 0 <= v < n implies #[trigger] cols(v) == cols_before(v) + last(v) by {
            let col = |u: int| f(u, v);
            assert(total(col, m) == total(col, fewer) + col(m - 1));
        }
        total_plus(cols_before, last, cols, n);
        total_same(last, |v: int| f(m - 1, v), n);
    }
}

/// The order of summation does not matter.
pub proof fn total_swap(f: spec_fn(int, int) -> int, n: nat)
    ensures
        total_pairs(f, n) == total(|v: int| total(|u: int| f(u, v), n), n),
{
    total_swap_rect(f, n, n);
}

/// Smaller terms make a smaller sum over pairs.
pub proof fn pairs_monotone(f: spec_fn(int, int) -> int, g: spec_fn(int, int) -> int, n: nat)
    requires
        forall|u: int, v: int| 0 <= u < n && 0 <= v < n ==> #[trigger] f(u, v) <= g(u, v),
    ensures
        total_pairs(f, n) <= total_pairs(g, n),
{
    let a = |u: int| total(|v: int| f(u, v), n);
    let b = |u: int| total(|v: int| g(u, v), n);
    assert forall|u: int| 0 <= u < n implies #[trigger] a(u) <= b(u) by {
        let p = |v: int| f(u, v);
        let q = |v: int| g(u, v);
        assert forall|v: int| 0 <= v < n implies #[trigger] p(v) <= q(v) by {
            assert(f(u, v) <= g(u, v));
        }
        total_monotone(p, q, n);
    }
    total_monotone(a, b, n);
}

/// Sums over pairs add up term by term.
pub proof fn pairs_plus(
    f: spec_fn(int, int) -> int,
    g: spec_fn(int, int) -> int,
    h: spec_fn(int, int) -> int,
    n: nat,
)
    requires
        forall|u: int, v: int| 0 <= u < n && 0 <= v < n ==> #[trigger] h(u, v) == f(u, v) + g(u, v),
    ensures
        total_pairs(h, n) == total_pairs(f, n) + total_pairs(g, n),
{
    let a = |u: int| total(|v: int| f(u, v), n);
    let b = |u: int| total(|v: int| g(u, v), n);
    let c = |u: int| total(|v: int| h(u, v), n);
    assert forall|u: int| 0 <= u < n implies #[trigger] c(u) == a(u) + b(u) by {
        let p = |v: int| f(u, v);
        let q = |v: int| g(u, v);
        let r = |v: int| h(u, v);
        assert forall|v: int| 0 <= v < n implies #[trigger] r(v) == p(v) + q(v) by {
            assert(h(u, v) == f(u, v) + g(u, v));
        }
        total_plus(p, q, r, n);
    }
    total_plus(a, b, c, n);
}

/// A common factor can be taken out of a sum over pairs.
pub proof fn pairs_times(f: spec_fn(int, int) -> int, g: spec_fn(int, int) -> int, c: int, n: nat)
    requires
        forall|u: int, v: int| 0 <= u < n && 0 <= v < n ==> #[trigger] g(u, v) == c * f(u, v),
    ensures
        total_pairs(g, n) == c * total_pairs(f, n),
{
    let a = |u: int| total(|v: int| f(u, v), n);
    let b = |u: int| total(|v: int| g(u, v), n);
    assert forall|u: int| 0 <= u < n implies #[trigger] b(u) == c * a(u) by {
        let p = |v: int| f(u, v);
        let q = |v: int| g(u, v);
        assert forall|v: int| 0 <= v < n implies #[trigger] q(v) == c * p(v) by {
            assert(g(u, v) == c * f(u, v));
        }
        total_times(p, q, c, n);
    }
    total_times(a, b, c, n);
}

/// Terms that change sign with the order of the pair cancel.
pub proof fn pairs_cancel(f: spec_fn(int, int) -> int, n: nat)
    requires
        forall|u: int, v: int| 0 <= u < n && 0 <= v < n ==> #[trigger] f(u, v) == -f(v, u),
    ensures
        total_pairs(f, n) == 0,
{
    let back = |u: int, v: int| f(v, u);
    total_swap(f, n);
    let a = |v: int| total(|u: int| f(u, v), n);
    let b = |u: int| total(|v: int| back(u, v), n);
    assert forall|x: int| 0 <= x < n implies #[trigger] a(x) == b(x) by {
        total_same(|u: int| f(u, x), |v: int| back(x, v), n);
    }
    total_same(a, b, n);
    assert forall|u: int, v: int| 0 <= u < n && 0 <= v < n implies #[trigger] back(u, v) == -1 * f(
        u,
        v,
    ) by {
        assert(f(u, v) == -f(v, u));
    }
    pairs_times(f, back, -1, n);
}

/// There are `n * n` pairs of numbers below `n`.
pub proof fn pairs_count(n: nat)
    ensures
        total_pairs(|u: int, v: int| 1int, n) == n * n,
{
    let one = |u: int, v: int| 1int;
    let row = |u: int| total(|v: int| one(u, v), n);
    assert forall|u: int| 0 <= u < n implies #[trigger] row(u) == n by {
        total_constant(|v: int| one(u, v), 1, n);
    }
    total_constant(row, n as int, n);
}

/// Equal terms add up to as many times one of them.
pub proof fn total_constant(f: spec_fn(int) -> int, c: int, n: nat)
    requires
        forall|i: int| 0 <= i < n ==> #[trigger] f(i) == c,
    ensures
        total(f, n) == c * n,
    decreases n,
{
    if n > 0 {
        total_constant(f, c, (n - 1) as nat);
        assert(f(n - 1) == c);
        assert(c * (n - 1) + c == c * n) by (nonlinear_arith);
    } else {
        assert(c * 0 == 0) by (nonlinear_arith);
    }
}

/// Terms that are not negative and add up to nought are nought.
pub proof fn pairs_of_none(f: spec_fn(int, int) -> int, n: nat)
    requires
        forall|u: int, v: int| 0 <= u < n && 0 <= v < n ==> #[trigger] f(u, v) >= 0,
        total_pairs(f, n) <= 0,
    ensures
        forall|u: int, v: int| 0 <= u < n && 0 <= v < n ==> #[trigger] f(u, v) == 0,
{
    let a = |u: int| total(|v: int| f(u, v), n);
    let z = |v: int| 0int;
    total_zero(z, n);
    assert forall|u: int| 0 <= u < n implies #[trigger] a(u) >= 0 by {
        let p = |v: int| f(u, v);
        assert forall|v: int| 0 <= v < n implies #[trigger] z(v) <= p(v) by {
            assert(f(u, v) >= 0);
        }
        total_monotone(z, p, n);
    }
    total_of_none(a, n);
    assert forall|u: int, v: int| 0 <= u < n && 0 <= v < n implies #[trigger] f(u, v) == 0 by {
        let p = |v: int| f(u, v);
        assert(a(u) == 0);
        assert forall|w: int| 0 <= w < n implies #[trigger] p(w) >= 0 by {
            assert(f(u, w) >= 0);
        }
        total_of_none(p, n);
        assert(p(v) == 0);
    }
}

} // verus!
