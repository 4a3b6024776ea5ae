//! Single-precision numbers as whole multiples of a small unit.
//!
//! Flow capacities are added and compared without error, so they are kept as whole numbers of
//! a unit of 2^-40, far below the precision of the numbers they come from.
use crate::float_order;
use vstd::arithmetic::power2::pow2;
use vstd::prelude::*;

verus! {

/// The number one in units.
pub const UNIT: u64 = 0x100_0000_0000;

/// The largest amount; larger numbers count as this.
pub const LIMIT: u64 = 0x4000_0000_0000_0000;

/// One thousandth, as a single-precision number.
pub const MILLI: u32 = 0x3a83_126f;

/// One thousandth in units.
pub const MILLI_UNITS: u64 = 1_099_511_680;

/// The exponent field of a pattern.
pub open spec fn exponent(bits: u32) -> int {
    float_order::magnitude(bits) / 0x80_0000
}

/// The significand of a pattern, with the implied leading bit of a normal number.
pub open spec fn significand(bits: u32) -> int {
    let fraction = float_order::magnitude(bits) % 0x80_0000;
    if exponent(bits) == 0 {
        fraction
    } else {
        fraction + 0x80_0000
    }
}

/// The power of two, counted in units, that the significand is multiplied by.
pub open spec fn shift(bits: u32) -> int {
    if exponent(bits) == 0 {
        -109
    } else {
        exponent(bits) - 110
    }
}

/// The magnitude of a number in units, rounded down; from 2^21 on it is the limit.
pub open spec fn units_of(bits: u32) -> int {
    if exponent(bits) >= 148 {
        LIMIT as int
    } else if shift(bits) >= 0 {
        significand(bits) * pow2(shift(bits) as nat)
    } else {
        significand(bits) / pow2((-shift(bits)) as nat) as int
    }
}

/// One thousandth is a whole number of units, and one is the unit's own scale.
pub proof fn milli_is_exact()
    ensures
        units_of(MILLI) == MILLI_UNITS,
        units_of(float_order::ONE) == UNIT,
{
    vstd::arithmetic::power2::lemma2_to64();
    assert(exponent(MILLI) == 117 && significand(MILLI) == 8_589_935);
    assert(shift(MILLI) as nat == 7 && pow2(7) == 128);
    assert(exponent(float_order::ONE) == 127 && significand(float_order::ONE) == 0x80_0000);
    assert(shift(float_order::ONE) as nat == 17 && pow2(17) == 0x2_0000);
}

/// The magnitude of a number as a multiple of the smallest positive number, 2^-149.
pub open spec fn in_smallest(bits: u32) -> int {
    let m = float_order::magnitude(bits);
    if m < 0x80_0000 {
        m
    } else {
        (m % 0x80_0000 + 0x80_0000) * pow2((m / 0x80_0000 - 1) as nat)
    }
}

/// A number below 2^21 is its number of units and less than one unit more.
pub proof fn units_round_down(bits: u32)
    requires
        float_order::magnitude(bits) < 148 * 0x80_0000,
    ensures
        units_of(bits) * pow2(109) <= in_smallest(bits) < (units_of(bits) + 1) * pow2(109),
{
    let d = significand(bits);
    let t = shift(bits) + 109;
    let p = pow2(109) as int;
    let one = pow2(t as nat) as int;
    vstd::arithmetic::power2::lemma2_to64();
    vstd::arithmetic::power2::lemma_pow2_pos(t as nat);
    vstd::arithmetic::power2::lemma_pow2_pos(109);
    assert(in_smallest(bits) == d * one) by {
        if float_order::magnitude(bits) < 0x80_0000 {
            assert(t == 0 && one == 1);
            assert(d * 1 == d) by (nonlinear_arith);
        } else {
            assert(exponent(bits) >= 1);
            assert(t == exponent(bits) - 1);
        }
    }
    if shift(bits) >= 0 {
        let q = pow2(shift(bits) as nat) as int;
        vstd::arithmetic::power2::lemma_pow2_adds(shift(bits) as nat, 109);
        assert(one == q * p);
        assert((d * q) * p == d * (q * p)) by (nonlinear_arith);
        let u = d * q;
        assert(u * p < (u + 1) * p) by (nonlinear_arith)
            requires
                p > 0,
        ;
    } else {
        let q = pow2((-shift(bits)) as nat) as int;
        vstd::arithmetic::power2::lemma_pow2_adds((-shift(bits)) as nat, t as nat);
        vstd::arithmetic::power2::lemma_pow2_pos((-shift(bits)) as nat);
        assert(q * one == p);
        vstd::arithmetic::div_mod::lemma_fundamental_div_mod(d, q);
        let u = d / q;
        let rest = d % q;
        assert(0 <= rest < q);
        assert(u * p <= d * one < (u + 1) * p) by (nonlinear_arith)
            requires
                d == q * u + rest,
                0 <= rest < q,
                q * one == p,
                one > 0,
        ;
    }
}

proof fn smallest_grow(a: u32, b: u32)
    requires
        float_order::magnitude(a) <= float_order::magnitude(b),
    ensures
        in_smallest(a) <= in_smallest(b),
{
    let x = float_order::magnitude(a);
    let y = float_order::magnitude(b);
    if y >= 0x80_0000 {
        let f = y % 0x80_0000 + 0x80_0000;
        let e = y / 0x80_0000;
        let q = pow2((e - 1) as nat) as int;
        vstd::arithmetic::power2::lemma_pow2_pos((e - 1) as nat);
        if x < 0x80_0000 {
            assert(f * q >= 0x80_0000) by (nonlinear_arith)
                requires
                    f >= 0x80_0000,
                    q >= 1,
            ;
        } else {
            let g = x % 0x80_0000 + 0x80_0000;
            let h = x / 0x80_0000;
            let t = pow2((h - 1) as nat) as int;
            vstd::arithmetic::power2::lemma_pow2_pos((h - 1) as nat);
            if h == e {
                assert(g * q <= f * q) by (nonlinear_arith)
                    requires
                        g <= f,
                        q >= 1,
                ;
            } else {
                assert(h < e);
                vstd::arithmetic::power2::lemma_pow2_unfold(h as nat);
                if h < e - 1 {
                    vstd::arithmetic::power2::lemma_pow2_strictly_increases(h as nat, (e - 1) as nat);
                }
                assert(2 * t <= q);
                assert(g * t <= f * q) by (nonlinear_arith)
                    requires
                        0 <= g <= 2 * 0x80_0000,
                        f >= 0x80_0000,
                        t >= 1,
                        2 * t <= q,
                ;
            }
        }
    }
}

proof fn smallest_grow_strictly(a: u32, b: u32)
    requires
        float_order::magnitude(a) < float_order::magnitude(b),
    ensures
        in_smallest(a) < in_smallest(b),
{
    let x = float_order::magnitude(a);
    let y = float_order::magnitude(b);
    if y >= 0x80_0000 {
        let f = y % 0x80_0000 + 0x80_0000;
        let e = y / 0x80_0000;
        let q = pow2((e - 1) as nat) as int;
        vstd::arithmetic::power2::lemma_pow2_pos((e - 1) as nat);
        if x < 0x80_0000 {
            assert(f * q >= 0x80_0000) by (nonlinear_arith)
                requires
                    f >= 0x80_0000,
                    q >= 1,
            ;
        } else {
            let g = x % 0x80_0000 + 0x80_0000;
            let h = x / 0x80_0000;
            let t = pow2((h - 1) as nat) as int;
            vstd::arithmetic::power2::lemma_pow2_pos((h - 1) as nat);
            if h == e {
                assert(g * q < f * q) by (nonlinear_arith)
                    requires
                        g < f,
                        q >= 1,
                ;
            } else {
                assert(h < e);
                vstd::arithmetic::power2::lemma_pow2_unfold(h as nat);
                if h < e - 1 {
                    vstd::arithmetic::power2::lemma_pow2_strictly_increases(h as nat, (e - 1) as nat);
                }
                assert(2 * t <= q);
                assert(g * t < f * q) by (nonlinear_arith)
                    requires
                        0 <= g < 2 * 0x80_0000,
                        f >= 0x80_0000,
                        t >= 1,
                        2 * t <= q,
                ;
            }
        }
    }
}

/// A number as a multiple of the smallest positive one, with its sign.
pub open spec fn value_in_smallest(bits: u32) -> int {
    if bits < float_order::SIGN_BIT {
        in_smallest(bits)
    } else {
        -in_smallest(bits)
    }
}

/// Patterns compare as the numbers that they stand for.
pub proof fn patterns_compare_by_value(a: u32, b: u32)
    requires
        float_order::magnitude(a) < float_order::INFINITY,
        float_order::magnitude(b) < float_order::INFINITY,
    ensures
        float_order::below(a, b) <==> value_in_smallest(a) < value_in_smallest(b),
        float_order::at_most(a, b) <==> value_in_smallest(a) <= value_in_smallest(b),
{
    let x = float_order::magnitude(a);
    let y = float_order::magnitude(b);
    if x < y {
        smallest_grow_strictly(a, b);
    } else if y < x {
        smallest_grow_strictly(b, a);
    }
    assert(in_smallest(0) == 0);
    if x > 0 {
        smallest_grow_strictly(0, a);
    }
    if y > 0 {
        smallest_grow_strictly(0, b);
    }
}

/// No number is more units than the limit.
pub proof fn units_are_bounded(bits: u32)
    ensures
        0 <= units_of(bits) <= LIMIT,
{
    vstd::arithmetic::power2::lemma2_to64();
    vstd::arithmetic::power2::lemma2_to64_rest();
    let s = shift(bits);
    let d = significand(bits);
    if exponent(bits) < 148 {
        if s >= 0 {
            vstd::arithmetic::power2::lemma_pow2_strictly_increases(s as nat, 38);
            let p = pow2(s as nat) as int;
            assert(0 <= d * p <= 0x100_0000 * 0x40_0000_0000) by (nonlinear_arith)
                requires
                    0 <= d <= 0x100_0000,
                    0 <= p <= 0x40_0000_0000,
            ;
        } else {
            vstd::arithmetic::power2::lemma_pow2_pos((-s) as nat);
            let p = pow2((-s) as nat) as int;
            assert(0 <= d / p <= d) by (nonlinear_arith)
                requires
                    0 <= d,
                    0 < p,
            ;
        }
    }
}

/// A larger magnitude is no fewer units.
pub proof fn units_grow(a: u32, b: u32)
    requires
        float_order::magnitude(a) <= float_order::magnitude(b),
    ensures
        units_of(a) <= units_of(b),
{
    units_are_bounded(a);
    if float_order::magnitude(b) < 148 * 0x80_0000 {
        units_round_down(a);
        units_round_down(b);
        smallest_grow(a, b);
        vstd::arithmetic::power2::lemma_pow2_pos(109);
        let u = units_of(a);
        let v = units_of(b);
        let p = pow2(109) as int;
        assert(u < v + 1) by (nonlinear_arith)
            requires
                u * p < (v + 1) * p,
                p > 0,
        ;
    }
}

/// The magnitude of a number in units.
pub fn units(bits: u32) -> (amount: u64)
    ensures
        amount == units_of(bits),
        amount <= LIMIT,
{
    let magnitude: u32 = if bits < float_order::SIGN_BIT {
        bits
    } else {
        bits - float_order::SIGN_BIT
    };
    let field: u32 = magnitude / 0x80_0000;
    let fraction: u32 = magnitude % 0x80_0000;
    if field >= 148 {
        return LIMIT;
    }
    let digits: u64 = if field == 0 {
        fraction as u64
    } else {
        fraction as u64 + 0x80_0000
    };
    assert(digits == significand(bits));
    proof {
        vstd::arithmetic::power2::lemma2_to64();
        vstd::arithmetic::power2::lemma2_to64_rest();
    }
    if field >= 110 {
        let by: u32 = field - 110;
        proof {
            assert(shift(bits) == by);
            vstd::arithmetic::power2::lemma_pow2_strictly_increases(by as nat, 38);
            vstd::arithmetic::power2::lemma_pow2_pos(by as nat);
            let p = pow2(by as nat) as int;
            assert(0 <= digits * p <= 0x100_0000 * 0x40_0000_0000) by (nonlinear_arith)
                requires
                    0 <= digits <= 0x100_0000,
                    0 <= p <= 0x40_0000_0000,
            ;
            vstd::bits::lemma_u64_shl_is_mul(digits, by as u64);
        }
        digits << by as u64
    } else {
        let by: u32 = if field == 0 {
            109
        } else {
            110 - field
        };
        proof {
            assert(-shift(bits) == by);
        }
        if by < 24 {
            proof {
                vstd::bits::lemma_u64_shr_is_div(digits, by as u64);
                vstd::arithmetic::power2::lemma_pow2_pos(by as nat);
                let p = pow2(by as nat) as int;
                assert(digits as int / p <= digits) by (nonlinear_arith)
                    requires
                        0 <= digits,
                        0 < p,
                ;
            }
            digits >> by as u64
        } else {
            proof {
                if by > 24 {
                    vstd::arithmetic::power2::lemma_pow2_strictly_increases(24, by as nat);
                }
                let p = pow2(by as nat) as int;
                vstd::arithmetic::div_mod::lemma_basic_div(digits as int, p);
            }
            0
        }
    }
}

/// The capacity from the query to a chunk with this similarity: the similarity, but at least
/// one thousandth.
pub open spec fn attraction_of(sim: u32) -> int {
    units_of(float_order::larger(sim, MILLI))
}

/// The capacity from a chunk with this similarity to the other side: one less the similarity,
/// but at least one thousandth.
pub open spec fn repulsion_of(sim: u32) -> int {
    let gap = if sim < float_order::SIGN_BIT {
        UNIT - units_of(sim)
    } else {
        UNIT + units_of(sim)
    };
    if float_order::not_a_number(sim) || gap < MILLI_UNITS {
        MILLI_UNITS as int
    } else {
        gap
    }
}

/// The capacity between two chunks with this similarity; dissimilar ones are not tied.
pub open spec fn bond_of(sim: u32, scale: u32) -> int {
    let product = units_of(sim) * units_of(scale) / UNIT as int;
    if sim >= float_order::SIGN_BIT {
        0
    } else if product > LIMIT {
        LIMIT as int
    } else {
        product
    }
}

/// The capacity from the query to a chunk.
pub fn attraction(sim: u32) -> (amount: u64)
    ensures
        amount == attraction_of(sim),
        amount <= LIMIT,
{
    units(float_order::max(sim, MILLI))
}

/// The capacity from a chunk to the other side.
pub fn repulsion(sim: u32) -> (amount: u64)
    ensures
        amount == repulsion_of(sim),
        amount <= LIMIT + UNIT,
{
    if float_order::is_nan(sim) {
        return MILLI_UNITS;
    }
    let size: u64 = units(sim);
    let gap: u64 = if sim >= float_order::SIGN_BIT {
        UNIT + size
    } else if size < UNIT {
        UNIT - size
    } else {
        0
    };
    if gap < MILLI_UNITS {
        MILLI_UNITS
    } else {
        gap
    }
}

/// The capacity between two chunks.
pub fn bond(sim: u32, scale: u32) -> (amount: u64)
    ensures
        amount == bond_of(sim, scale),
        amount <= LIMIT,
{
    let a: u64 = units(sim);
    let b: u64 = units(scale);
    proof {
        let x = a as int;
        let y = b as int;
        assert(0 <= x * y <= 0x4000_0000_0000_0000 * 0x4000_0000_0000_0000) by (nonlinear_arith)
            requires
                0 <= x <= 0x4000_0000_0000_0000,
                0 <= y <= 0x4000_0000_0000_0000,
        ;
    }
    if sim >= float_order::SIGN_BIT {
        return 0;
    }
    let product: u128 = (a as u128 * b as u128) / UNIT as u128;
    if product > LIMIT as u128 {
        LIMIT
    } else {
        product as u64
    }
}

} // verus!
