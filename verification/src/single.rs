//! Single-precision numbers from integers.
//!
//! Shares such as recall and precision are one integer over another. Both are rounded to
//! single precision, and so is their quotient, each time to the nearest number and halves to
//! the even one. This module gives the bits of the result.
use crate::float_order;
use crate::rag::fixed;
use vstd::arithmetic::power2::pow2;
use vstd::prelude::*;

verus! {

/// How many low bits of an integer do not fit the 24 bits of a significand.
pub open spec fn excess(p: nat) -> nat
    decreases p,
{
    if p < 0x100_0000 {
        0
    } else {
        1 + excess(p / 2)
    }
}

/// `p / unit` rounded to the nearest integer, halves to the even one.
pub open spec fn half_even(p: nat, unit: nat) -> nat {
    let q = p / unit;
    let twice = 2 * (p % unit);
    if twice > unit || (twice == unit && q % 2 == 1) {
        q + 1
    } else {
        q
    }
}

/// An integer rounded to the 24 bits of a significand.
pub open spec fn rounded(m: nat) -> nat {
    half_even(m, pow2(excess(m))) * pow2(excess(m))
}

/// How often `a` is doubled until it is at least `2^23` times `b`.
pub open spec fn raised(a: nat, b: nat) -> nat
    decreases 0x100_0000 * b - a,
{
    if a == 0 || a >= 0x80_0000 * b {
        0
    } else {
        1 + raised(2 * a, b)
    }
}

/// How often `b` is doubled until `a` is below `2^24` times it.
pub open spec fn lowered(a: nat, b: nat) -> nat
    decreases a - b,
{
    if b == 0 || a < 0x100_0000 * b {
        0
    } else {
        1 + lowered(a, 2 * b)
    }
}

/// The bits of the number nearest to `a / b`.
pub open spec fn quotient_bits(a: nat, b: nat) -> int {
    let k = raised(a, b);
    let j = lowered(a, b);
    if a == 0 {
        0
    } else {
        half_even(a * pow2(k), b * pow2(j)) - 0x80_0000 + (150 - k + j) * 0x80_0000
    }
}

/// The bits of `hits` over `total`, both rounded to single precision.
pub open spec fn ratio_bits(hits: nat, total: nat) -> u32 {
    quotient_bits(rounded(hits), rounded(total)) as u32
}

/// What is left of an integer after its low bits are dropped has 24 bits, or fewer where
/// nothing is dropped.
pub proof fn quotient_is_short(p: nat)
    ensures
        p / pow2(excess(p)) < 0x100_0000,
        p >= 0x100_0000 ==> p / pow2(excess(p)) >= 0x80_0000,
        p < 0x100_0000 ==> p / pow2(excess(p)) == p,
    decreases p,
{
    vstd::arithmetic::power2::lemma2_to64();
    if p >= 0x100_0000 {
        quotient_is_short(p / 2);
        let k = excess(p / 2);
        vstd::arithmetic::power2::lemma_pow2_unfold(k + 1);
        vstd::arithmetic::power2::lemma_pow2_pos(k);
        vstd::arithmetic::div_mod::lemma_div_denominator(p as int, 2, pow2(k) as int);
        assert(2 * pow2(k) == pow2(k + 1));
    } else {
        assert(p as int / 1 == p);
    }
}

/// A larger integer has no smaller quotient.
pub proof fn half_even_grows(p: nat, q: nat, unit: nat)
    requires
        p <= q,
        unit > 0,
    ensures
        half_even(p, unit) <= half_even(q, unit),
        p / unit <= half_even(p, unit) <= p / unit + 1,
{
    let d = unit as int;
    vstd::arithmetic::div_mod::lemma_div_is_ordered(p as int, q as int, d);
    vstd::arithmetic::div_mod::lemma_fundamental_div_mod(p as int, d);
    vstd::arithmetic::div_mod::lemma_fundamental_div_mod(q as int, d);
    if p / unit == q / unit {
        assert(p % unit <= q % unit);
    }
}

/// Rounding keeps the order, and leaves what has at most 24 bits.
pub proof fn rounded_grows(p: nat, q: nat)
    requires
        p <= q,
    ensures
        rounded(p) <= rounded(q),
        p < 0x100_0000 ==> rounded(p) == p,
        p > 0 ==> rounded(p) > 0,
{
    let i = excess(p);
    let j = excess(q);
    let a = pow2(i);
    let b = pow2(j);
    vstd::arithmetic::power2::lemma2_to64();
    vstd::arithmetic::power2::lemma_pow2_pos(i);
    vstd::arithmetic::power2::lemma_pow2_pos(j);
    quotient_is_short(p);
    quotient_is_short(q);
    half_even_grows(p, q, a);
    half_even_grows(q, q, b);
    let x = half_even(p, a);
    let y = half_even(q, b);
    excess_grows(p, q);
    if i == j {
        assert(x * a <= y * a) by (nonlinear_arith)
            requires
                x <= y,
        ;
    } else {
        vstd::arithmetic::power2::lemma_pow2_adds(i, (j - i) as nat);
        let c = pow2((j - i) as nat);
        assert(c >= 2) by {
            vstd::arithmetic::power2::lemma_pow2_unfold((j - i) as nat);
            vstd::arithmetic::power2::lemma_pow2_pos((j - i - 1) as nat);
        }
        assert(q >= 0x100_0000);
        assert(x * a <= y * b) by (nonlinear_arith)
            requires
                x <= 0x100_0000,
                y >= 0x80_0000,
                b == a * c,
                c >= 2,
                a > 0,
        ;
    }
    if p < 0x100_0000 {
        assert(a == 1);
        assert(p % 1 == 0);
        assert(x == p);
        assert(x * a == x) by (nonlinear_arith)
            requires
                a == 1,
        ;
    }
    if p > 0 {
        assert(x > 0);
        assert(x * a > 0) by (nonlinear_arith)
            requires
                x > 0,
                a > 0,
        ;
    }
}

proof fn excess_grows(p: nat, q: nat)
    requires
        p <= q,
    ensures
        excess(p) <= excess(q),
        excess(q) > 0 ==> q >= 0x100_0000,
    decreases q,
{
    if p >= 0x100_0000 {
        excess_grows(p / 2, q / 2);
    }
}

proof fn times_one(a: nat)
    ensures
        a * pow2(0) == a,
{
    vstd::arithmetic::power2::lemma2_to64();
    assert(a * pow2(0) == a) by (nonlinear_arith)
        requires
            pow2(0) == 1,
    ;
}

proof fn times_double(a: nat, k: nat)
    ensures
        a * pow2(k + 1) == (2 * a) * pow2(k),
{
    vstd::arithmetic::power2::lemma_pow2_unfold(k + 1);
    assert(a * pow2(k + 1) == (2 * a) * pow2(k)) by (nonlinear_arith)
        requires
            pow2(k + 1) == 2 * pow2(k),
    ;
}

proof fn raised_holds(a: nat, b: nat)
    requires
        a > 0,
        b > 0,
    ensures
        a * pow2(raised(a, b)) >= 0x80_0000 * b,
        raised(a, b) > 0 ==> a * pow2(raised(a, b)) < 0x100_0000 * b,
    decreases 0x100_0000 * b - a,
{
    vstd::arithmetic::power2::lemma2_to64();
    times_one(a);
    times_one(2 * a);
    if a < 0x80_0000 * b {
        raised_holds(2 * a, b);
        times_double(a, raised(2 * a, b));
    }
}

proof fn lowered_holds(a: nat, b: nat)
    requires
        a > 0,
        b > 0,
    ensures
        a < 0x100_0000 * (b * pow2(lowered(a, b))),
        lowered(a, b) > 0 ==> a >= 0x80_0000 * (b * pow2(lowered(a, b))),
    decreases a - b,
{
    vstd::arithmetic::power2::lemma2_to64();
    times_one(b);
    times_one(2 * b);
    if a >= 0x100_0000 * b {
        lowered_holds(a, 2 * b);
        times_double(b, lowered(a, 2 * b));
    }
}

/// Doubling the numerator or the denominator as often as said leaves a quotient of 24 bits.
proof fn scaled_quotient(a: nat, b: nat)
    requires
        a > 0,
        b > 0,
    ensures
        raised(a, b) == 0 || lowered(a, b) == 0,
        b * pow2(lowered(a, b)) > 0,
        ({
            let q = (a * pow2(raised(a, b))) / (b * pow2(lowered(a, b)));
            0x80_0000 <= q < 0x100_0000
        }),
        ({
            let r = half_even(a * pow2(raised(a, b)), b * pow2(lowered(a, b)));
            0x80_0000 <= r <= 0x100_0000
        }),
{
    let k = raised(a, b);
    let j = lowered(a, b);
    vstd::arithmetic::power2::lemma2_to64();
    vstd::arithmetic::power2::lemma_pow2_pos(j);
    raised_holds(a, b);
    lowered_holds(a, b);
    let n = a * pow2(k);
    let d = b * pow2(j);
    assert(d > 0) by (nonlinear_arith)
        requires
            d == b * pow2(j),
            b > 0,
            pow2(j) > 0,
    ;
    times_one(a);
    times_one(b);
    assert(n >= 0x80_0000 * d && n < 0x100_0000 * d);
    assert(0x80_0000 <= n / d < 0x100_0000) by (nonlinear_arith)
        requires
            d > 0,
            n >= 0x80_0000 * d,
            n < 0x100_0000 * d,
    ;
    half_even_grows(n, n, d);
}

proof fn raised_falls(a: nat, c: nat, b: nat)
    requires
        0 < a <= c,
        b > 0,
    ensures
        raised(c, b) <= raised(a, b),
    decreases 0x100_0000 * b - a,
{
    if c < 0x80_0000 * b {
        raised_falls(2 * a, 2 * c, b);
    }
}

proof fn lowered_grows(a: nat, c: nat, b: nat)
    requires
        a <= c,
        b > 0,
    ensures
        lowered(a, b) <= lowered(c, b),
    decreases a - b,
{
    if a >= 0x100_0000 * b {
        lowered_grows(a, c, 2 * b);
    }
}

/// A larger numerator has no smaller quotient.
pub proof fn quotient_grows(a: nat, c: nat, b: nat)
    requires
        a <= c,
        b > 0,
        raised(c, b) < 150,
    ensures
        quotient_bits(a, b) <= quotient_bits(c, b),
        0 <= quotient_bits(c, b),
{
    if c > 0 {
        scaled_quotient(c, b);
    }
    if a > 0 {
        scaled_quotient(a, b);
        raised_falls(a, c, b);
        lowered_grows(a, c, b);
        let k = raised(a, b);
        let j = lowered(a, b);
        if k == raised(c, b) && j == lowered(c, b) {
            let p = pow2(k);
            assert(a * p <= c * p) by (nonlinear_arith)
                requires
                    a <= c,
            ;
            half_even_grows(a * p, c * p, b * pow2(j));
        }
    }
}

/// The exponents of quotients of machine integers stay in range.
proof fn few_doublings(a: nat, b: nat, k: nat)
    requires
        0 < a,
        0 < b <= 0x1_0000_0000_0000_0000,
        k == raised(a, b),
    ensures
        k <= 87,
{
    if k > 87 {
        raised_holds(a, b);
        vstd::arithmetic::power2::lemma2_to64();
        vstd::arithmetic::power2::lemma_pow2_adds(64, 24);
        if k > 88 {
            vstd::arithmetic::power2::lemma_pow2_strictly_increases(88, k);
        }
        let p = pow2(k);
        assert(a * p >= p) by (nonlinear_arith)
            requires
                a >= 1,
        ;
    }
}

proof fn few_drops(a: nat, b: nat, j: nat)
    requires
        0 < a <= 0x1_0000_0000_0000_0000,
        0 < b,
        j == lowered(a, b),
    ensures
        j <= 41,
{
    if j > 41 {
        lowered_holds(a, b);
        vstd::arithmetic::power2::lemma2_to64();
        vstd::arithmetic::power2::lemma_pow2_adds(32, 10);
        if j > 42 {
            vstd::arithmetic::power2::lemma_pow2_strictly_increases(42, j);
        }
        let p = pow2(j);
        assert(b * p >= p) by (nonlinear_arith)
            requires
                b >= 1,
        ;
    }
}

/// A share grows with what is counted and is at most one where no more is counted than there
/// is. It is nought for nothing and one for all.
pub proof fn ratio_grows(fewer: u64, more: u64, total: u64)
    requires
        fewer <= more,
        total > 0,
    ensures
        float_order::at_most(
            ratio_bits(fewer as nat, total as nat),
            ratio_bits(more as nat, total as nat),
        ),
        ratio_bits(0, total as nat) == 0,
        ratio_bits(total as nat, total as nat) == float_order::ONE,
        more <= total ==> ratio_bits(more as nat, total as nat) <= float_order::ONE,
        ratio_bits(more as nat, total as nat) < float_order::INFINITY,
{
    let a = rounded(fewer as nat);
    let c = rounded(more as nat);
    let b = rounded(total as nat);
    rounded_grows(fewer as nat, more as nat);
    rounded_grows(total as nat, total as nat);
    rounded_grows(0, 0);
    rounded_is_machine(more);
    rounded_is_machine(total);
    if c > 0 {
        few_doublings(c, b, raised(c, b));
        few_drops(c, b, lowered(c, b));
        scaled_quotient(c, b);
    }
    if a > 0 {
        few_doublings(a, b, raised(a, b));
    }
    quotient_grows(a, a, b);
    quotient_grows(a, c, b);
    self_quotient(b, b);
    if more <= total {
        rounded_grows(more as nat, total as nat);
        few_doublings(b, b, raised(b, b));
        quotient_grows(c, b, b);
    }
}

proof fn rounded_is_machine(m: u64)
    ensures
        rounded(m as nat) <= 0x1_0000_0000_0000_0000,
{
    let w = m as nat;
    rounded_grows(w, 0x1_0000_0000_0000_0000);
    power_is_exact();
}

proof fn power_is_exact()
    ensures
        rounded(0x1_0000_0000_0000_0000) == 0x1_0000_0000_0000_0000,
{
    vstd::arithmetic::power2::lemma2_to64();
    vstd::arithmetic::power2::lemma_pow2_adds(32, 9);
    reveal_with_fuel(excess, 42);
    assert(excess(0x1_0000_0000_0000_0000) == 41);
}

proof fn self_quotient(a: nat, b: nat)
    requires
        0 < b <= 0x1_0000_0000_0000_0000,
        a == b,
    ensures
        quotient_bits(a, b) == float_order::ONE,
{
    vstd::arithmetic::power2::lemma2_to64();
    reveal_with_fuel(raised, 24);
    assert(raised(b, b) == 23);
    assert(lowered(b, b) == 0);
    assert(b * pow2(23) == 0x80_0000 * b) by (nonlinear_arith)
        requires
            pow2(23) == 0x80_0000,
    ;
    assert(b * pow2(0) == b) by (nonlinear_arith)
        requires
            pow2(0) == 1,
    ;
    vstd::arithmetic::div_mod::lemma_div_multiples_vanish(0x80_0000, b as int);
    vstd::arithmetic::div_mod::lemma_mod_multiples_basic(0x80_0000, b as int);
}

/// A quotient is rounded to the nearest number: it differs from `a / b` by no more than half of
/// its last digit. All is counted in the smallest positive number, 2^-149.
pub proof fn quotient_is_nearest(a: nat, b: nat)
    requires
        0 < a <= 0x1_0000_0000_0000_0000,
        0 < b <= 0x1_0000_0000_0000_0000,
    ensures
        ({
            let bits = quotient_bits(a, b) as u32;
            let digit = pow2((fixed::exponent(bits) - 1) as nat);
            let wide = 2 * (fixed::in_smallest(bits) * b - a * pow2(149));
            &&& bits < float_order::INFINITY
            &&& fixed::exponent(bits) > 0
            &&& -(digit * b) <= wide <= digit * b
        }),
{
    let k = raised(a, b);
    let j = lowered(a, b);
    let e = (150 - k + j) as nat;
    few_doublings(a, b, k);
    few_drops(a, b, j);
    scaled_quotient(a, b);
    let n = (a * pow2(k)) as int;
    let d = (b * pow2(j)) as int;
    let r = half_even(a * pow2(k), b * pow2(j)) as int;
    let q = n / d;
    let bits = quotient_bits(a, b) as u32;
    let shown = fixed::exponent(bits);
    let one = pow2((e - 1) as nat) as int;
    vstd::arithmetic::power2::lemma2_to64();
    vstd::arithmetic::power2::lemma_pow2_pos((e - 1) as nat);
    vstd::arithmetic::power2::lemma_pow2_unfold(e);
    assert(quotient_bits(a, b) == r - 0x80_0000 + e * 0x80_0000);
    assert(0 <= quotient_bits(a, b) < float_order::INFINITY);
    assert(fixed::in_smallest(bits) == r * one && (shown == e || shown == e + 1)) by {
        let m = float_order::magnitude(bits);
        if r < 0x100_0000 {
            vstd::arithmetic::div_mod::lemma_fundamental_div_mod_converse(
                m,
                0x80_0000,
                e as int,
                r - 0x80_0000,
            );
            assert(m / 0x80_0000 == e && m % 0x80_0000 == r - 0x80_0000);
        } else {
            assert(m == (e + 1) * 0x80_0000);
            vstd::arithmetic::div_mod::lemma_fundamental_div_mod_converse(
                m,
                0x80_0000,
                e as int + 1,
                0,
            );
            assert(m / 0x80_0000 == e + 1 && m % 0x80_0000 == 0);
            assert(0x80_0000 * (2 * one) == 0x100_0000 * one) by (nonlinear_arith);
        }
    }
    vstd::arithmetic::div_mod::lemma_fundamental_div_mod(n, d);
    vstd::arithmetic::div_mod::lemma_mod_bound(n, d);
    let rest = n % d;
    assert(-d <= 2 * (r * d - n) <= d) by (nonlinear_arith)
        requires
            n == d * q + rest,
            0 <= rest < d,
            (r == q && 2 * rest <= d) || (r == q + 1 && 2 * rest >= d),
    ;
    let lift = pow2((149 - k) as nat) as int;
    vstd::arithmetic::power2::lemma_pow2_pos((149 - k) as nat);
    vstd::arithmetic::power2::lemma_pow2_adds(k, (149 - k) as nat);
    vstd::arithmetic::power2::lemma_pow2_adds(j, (149 - k) as nat);
    assert((149 - k) as nat + j == (e - 1) as nat);
    let whole = pow2(149) as int;
    let pk = pow2(k) as int;
    let pj = pow2(j) as int;
    assert(pk * lift == whole && pj * lift == one);
    let x = a as int;
    let y = b as int;
    let v = r * one;
    assert((y * pj) * lift == (pj * lift) * y) by (nonlinear_arith);
    assert(d * lift == one * y);
    assert((r * one) * y == r * (one * y)) by (nonlinear_arith);
    assert(r * (d * lift) == (r * d) * lift) by (nonlinear_arith);
    assert((x * pk) * lift == x * (pk * lift)) by (nonlinear_arith);
    let gap = 2 * (r * d - n);
    let up = r * d;
    assert((2 * (up - n)) * lift == 2 * (up * lift - n * lift)) by (nonlinear_arith);
    assert(gap * lift == 2 * (v * y - x * whole));
    assert(-(one * y) <= gap * lift <= one * y) by (nonlinear_arith)
        requires
            -d <= gap <= d,
            d * lift == one * y,
            lift > 0,
    ;
    if shown == e + 1 {
        assert(one * y <= (2 * one) * y) by (nonlinear_arith)
            requires
                one > 0,
                y > 0,
        ;
    }
}

/// A share of fewer than all is below one.
pub proof fn partial_share_is_below_one(hits: nat, total: nat)
    requires
        hits < total < 0x100_0000,
    ensures
        ratio_bits(hits, total) < float_order::ONE,
{
    rounded_grows(hits, hits);
    rounded_grows(total, total);
    let a = hits;
    let b = total;
    if a > 0 {
        let k = raised(a, b);
        raised_holds(a, b);
        scaled_quotient(a, b);
        few_doublings(a, b, k);
        vstd::arithmetic::power2::lemma2_to64();
        assert(lowered(a, b) == 0);
        times_one(b);
        if k < 24 {
            if k < 23 {
                vstd::arithmetic::power2::lemma_pow2_strictly_increases(k, 23);
            }
            assert(a * pow2(k) < 0x80_0000 * b) by (nonlinear_arith)
                requires
                    0 <= a < b,
                    0 <= pow2(k) <= 0x80_0000,
            ;
        }
        if k == 24 {
            let n = (a * pow2(24)) as int;
            let d = b as int;
            assert(n / d <= 0xff_fffe) by (nonlinear_arith)
                requires
                    n == a * 0x100_0000,
                    0 <= a < b,
                    d == b,
                    0 < d < 0x100_0000,
            ;
            half_even_grows(a * pow2(24), a * pow2(24), b);
        }
    }
}

/// A share of something is more than nought.
pub proof fn positive_share(hits: nat, total: nat)
    requires
        0 < hits <= total < 0x100_0000,
    ensures
        ratio_bits(hits, total) > 0,
{
    rounded_grows(hits, hits);
    rounded_grows(total, total);
    quotient_is_nearest(hits, total);
}

/// A fraction of 23 bits is below one.
pub proof fn fraction_is_below_one(a: nat)
    requires
        a < 0x80_0000,
    ensures
        quotient_bits(a, 0x80_0000) < float_order::ONE,
        quotient_bits(a, 0x80_0000) >= 0,
{
    let b = 0x80_0000nat;
    let k = raised(a, b);
    if a > 0 {
        raised_holds(a, b);
        scaled_quotient(a, b);
        few_doublings(a, b, k);
        vstd::arithmetic::power2::lemma2_to64();
        if k < 24 {
            vstd::arithmetic::power2::lemma_pow2_strictly_increases(k, 24);
            if k < 23 {
                vstd::arithmetic::power2::lemma_pow2_strictly_increases(k, 23);
            }
            assert(a * pow2(k) < 0x80_0000 * b) by (nonlinear_arith)
                requires
                    a < 0x80_0000,
                    b == 0x80_0000,
                    0 <= pow2(k) <= 0x80_0000,
            ;
        }
        let m = (k - 23) as nat;
        vstd::arithmetic::power2::lemma_pow2_adds(m, 23);
        let p = a * pow2(k);
        let q = a * pow2(m);
        assert(p == q * b) by (nonlinear_arith)
            requires
                p == a * pow2(k),
                q == a * pow2(m),
                pow2(k) == pow2(m) * 0x80_0000,
                b == 0x80_0000,
        ;
        times_one(b);
        assert(lowered(a, b) == 0);
        assert(half_even(p, b) == q);
        assert(p / b == q);
    }
}

/// An integer rounded to single precision.
pub fn round_to_single(m: u64) -> (a: u128)
    ensures
        a == rounded(m as nat),
        a <= 0x1_0000_0000_0000_0000,
{
    let mut k: u32 = 0;
    let mut unit: u128 = 1;
    let mut rest: u64 = m;
    proof {
        vstd::arithmetic::power2::lemma2_to64();
        vstd::arithmetic::power2::lemma_pow2_adds(32, 8);
    }
    while rest >= 0x100_0000
        invariant
            excess(m as nat) == k + excess(rest as nat),
            unit == pow2(k as nat),
            rest * unit <= m,
            unit >= 1,
            k <= 40,
            pow2(40) == 0x100_0000_0000,
        decreases rest,
    {
        proof {
            assert(unit < 0x100_0000_0000) by (nonlinear_arith)
                requires
                    rest * unit <= m,
                    m <= 0xffff_ffff_ffff_ffff,
                    rest >= 0x100_0000,
                    unit >= 1,
            ;
            assert((rest / 2) * (2 * unit) <= rest * unit) by (nonlinear_arith)
                requires
                    rest >= 0,
                    unit >= 1,
            ;
            vstd::arithmetic::power2::lemma_pow2_unfold((k + 1) as nat);
            assert(k < 40);
        }
        rest = rest / 2;
        unit = 2 * unit;
        k = k + 1;
    }
    proof {
        if k < 40 {
            vstd::arithmetic::power2::lemma_pow2_strictly_increases(k as nat, 40);
        }
        quotient_is_short(m as nat);
        rounded_grows(m as nat, 0x1_0000_0000_0000_0000);
        power_is_exact();
        half_even_grows(m as nat, m as nat, unit as nat);
    }
    let q: u128 = m as u128 / unit;
    let low: u128 = m as u128 % unit;
    let r: u128 = if 2 * low > unit || (2 * low == unit && q % 2 == 1) {
        q + 1
    } else {
        q
    };
    assert(r == half_even(m as nat, pow2(k as nat)));
    r * unit
}

/// The bits of the number nearest to `a / b`.
pub fn quotient(a: u128, b: u128) -> (bits: u32)
    requires
        a <= 0x1_0000_0000_0000_0000,
        0 < b <= 0x1_0000_0000_0000_0000,
    ensures
        bits == quotient_bits(a as nat, b as nat),
        bits < float_order::SIGN_BIT,
{
    if a == 0 {
        return 0;
    }
    proof {
        vstd::arithmetic::power2::lemma2_to64();
        times_one(a as nat);
        times_one(b as nat);
        few_doublings(a as nat, b as nat, raised(a as nat, b as nat));
        few_drops(a as nat, b as nat, lowered(a as nat, b as nat));
    }
    let mut wide: u128 = a;
    let mut k: u32 = 0;
    while wide < 0x80_0000 * b
        invariant
            0 < a,
            0 < b <= 0x1_0000_0000_0000_0000,
            raised(a as nat, b as nat) == k + raised(wide as nat, b as nat),
            raised(a as nat, b as nat) <= 87,
            wide == a * pow2(k as nat),
            0 < wide,
        decreases 0x100_0000 * b - wide,
    {
        proof {
            times_double(a as nat, k as nat);
            let p = pow2(k as nat);
            assert((2 * a) * p == 2 * (a * p)) by (nonlinear_arith);
        }
        wide = 2 * wide;
        k = k + 1;
    }
    let mut tall: u128 = b;
    let mut j: u32 = 0;
    while a >= 0x100_0000 * tall
        invariant
            0 < a <= 0x1_0000_0000_0000_0000,
            0 < b,
            lowered(a as nat, b as nat) == j + lowered(a as nat, tall as nat),
            lowered(a as nat, b as nat) <= 41,
            tall == b * pow2(j as nat),
            0 < tall <= 0x1_0000_0000_0000_0000,
        decreases a - tall,
    {
        proof {
            times_double(b as nat, j as nat);
            let p = pow2(j as nat);
            assert((2 * b) * p == 2 * (b * p)) by (nonlinear_arith);
        }
        tall = 2 * tall;
        j = j + 1;
    }
    proof {
        scaled_quotient(a as nat, b as nat);
    }
    let q: u128 = wide / tall;
    let low: u128 = wide % tall;
    let r: u128 = if 2 * low > tall || (2 * low == tall && q % 2 == 1) {
        q + 1
    } else {
        q
    };
    assert(r == half_even(wide as nat, tall as nat));
    (r - 0x80_0000) as u32 + (150 - k + j) * 0x80_0000
}

/// The bits of an integer.
pub open spec fn single_bits(m: nat) -> u32 {
    ratio_bits(m, 1)
}

/// The bits of an integer, rounded to single precision.
pub fn to_single(m: u64) -> (bits: u32)
    ensures
        bits == single_bits(m as nat),
        bits < float_order::INFINITY,
{
    proof {
        rounded_grows(1, 1);
        ratio_grows(m, m, 1);
    }
    quotient(round_to_single(m), 1)
}

/// The bits of `hits` over `total`.
pub fn ratio(hits: usize, total: usize) -> (bits: u32)
    requires
        total > 0,
    ensures
        bits == ratio_bits(hits as nat, total as nat),
        bits < float_order::INFINITY,
{
    proof {
        rounded_grows(total as nat, total as nat);
        ratio_grows(hits as u64, hits as u64, total as u64);
    }
    quotient(round_to_single(hits as u64), round_to_single(total as u64))
}

} // verus!
