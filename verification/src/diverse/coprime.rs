//! Greatest common divisors, and strides that visit every residue.
use vstd::prelude::*;

verus! {

/// The greatest common divisor, by Euclid's descent.
pub open spec fn gcd_of(a: nat, b: nat) -> nat
    decreases b,
{
    if b == 0 {
        a
    } else {
        gcd_of(b, a % b)
    }
}

/// `d` divides `x`.
pub open spec fn divides(d: int, x: int) -> bool {
    exists|q: int| x == #[trigger] (d * q)
}

/// The greatest common divisor of two numbers.
pub fn gcd(a: usize, b: usize) -> (g: usize)
    ensures
        g == gcd_of(a as nat, b as nat),
{
    let mut x: usize = a;
    let mut y: usize = b;
    while y != 0
        invariant
            gcd_of(x as nat, y as nat) == gcd_of(a as nat, b as nat),
        decreases y,
    {
        let rest: usize = x % y;
        x = y;
        y = rest;
    }
    x
}

/// The greatest common divisor is a combination of the two numbers.
pub proof fn bezout(a: nat, b: nat) -> (r: (int, int))
    ensures
        gcd_of(a, b) == a * r.0 + b * r.1,
    decreases b,
{
    if b == 0 {
        (1, 0)
    } else {
        let (x, y) = bezout(b, a % b);
        let q = (a / b) as int;
        vstd::arithmetic::div_mod::lemma_fundamental_div_mod(a as int, b as int);
        assert(b * x + (a % b) * y == a * y + b * (x - q * y)) by (nonlinear_arith)
            requires
                a == b * q + (a % b),
        ;
        (y, x - q * y)
    }
}

/// The greatest common divisor divides both numbers, and everything that divides both
/// divides it.
pub proof fn gcd_is_greatest(a: nat, b: nat)
    ensures
        divides(gcd_of(a, b) as int, a as int),
        divides(gcd_of(a, b) as int, b as int),
        forall|d: int| divides(d, a as int) && divides(d, b as int) ==> #[trigger] divides(
            d,
            gcd_of(a, b) as int,
        ),
    decreases b,
{
    let g = gcd_of(a, b) as int;
    if b == 0 {
        assert(a as int == g * 1);
        assert(b as int == g * 0);
    } else {
        gcd_is_greatest(b, a % b);
        let q = (a / b) as int;
        vstd::arithmetic::div_mod::lemma_fundamental_div_mod(a as int, b as int);
        let s = choose|s: int| b as int == #[trigger] (g * s);
        let t = choose|t: int| (a % b) as int == #[trigger] (g * t);
        assert(a as int == g * (s * q + t)) by (nonlinear_arith)
            requires
                a == b * q + (a % b),
                b as int == g * s,
                (a % b) as int == g * t,
        ;
        assert forall|d: int| divides(d, a as int) && divides(d, b as int) implies #[trigger] divides(
            d,
            g,
        ) by {
            let s = choose|s: int| a as int == #[trigger] (d * s);
            let t = choose|t: int| b as int == #[trigger] (d * t);
            assert((a % b) as int == d * (s - t * q)) by (nonlinear_arith)
                requires
                    a == b * q + (a % b),
                    a as int == d * s,
                    b as int == d * t,
            ;
            assert(divides(d, (a % b) as int));
        }
    }
}

/// A number and the next are coprime.
pub proof fn next_is_coprime(n: nat)
    requires
        n > 0,
    ensures
        gcd_of(n + 1, n) == 1,
{
    reveal_with_fuel(gcd_of, 4);
    if n > 1 {
        vstd::arithmetic::div_mod::lemma_fundamental_div_mod_converse(
            (n + 1) as int,
            n as int,
            1,
            1,
        );
        assert((n + 1) % n == 1);
        assert(n % 1 == 0);
    } else {
        assert(n == 1);
        assert((n + 1) % n == 0);
    }
}

/// Multiples of a stride coprime to `n` fall on different residues.
pub proof fn stride_is_injective(step: nat, n: nat, i: int, j: int)
    requires
        0 < n,
        gcd_of(step, n) == 1,
        0 <= i < n,
        0 <= j < n,
        (i * step) % n as int == (j * step) % n as int,
    ensures
        i == j,
{
    let (x, y) = bezout(step, n);
    let m = n as int;
    let a = i * step;
    let b = j * step;
    vstd::arithmetic::div_mod::lemma_fundamental_div_mod(a, m);
    vstd::arithmetic::div_mod::lemma_fundamental_div_mod(b, m);
    let qa = a / m;
    let qb = b / m;
    let d = i - j;
    assert(d * step == m * (qa - qb)) by (nonlinear_arith)
        requires
            a == i * step,
            b == j * step,
            a == m * qa + a % m,
            b == m * qb + b % m,
            a % m == b % m,
            d == i - j,
    ;
    let c = (qa - qb) * x + d * y;
    assert(d == m * c) by (nonlinear_arith)
        requires
            d * step == m * (qa - qb),
            1 == step * x + m * y,
            c == (qa - qb) * x + d * y,
    ;
    assert(d == 0) by (nonlinear_arith)
        requires
            d == m * c,
            -m < d < m,
            m > 0,
    ;
}

} // verus!
