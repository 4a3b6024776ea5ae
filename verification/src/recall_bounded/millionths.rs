//! Similarities as whole millionths.
//!
//! A similarity is multiplied by a million, rounded as single-precision multiplication rounds,
//! and its fraction is dropped. The result is an integer that a priority queue can order. On
//! the way back it is divided by a million, rounded as single-precision division rounds.
use crate::float_order;
use crate::rag::fixed;
use crate::single;
use vstd::arithmetic::power2::pow2;
use vstd::prelude::*;

verus! {

/// The exponent field, that of a subnormal number counted as that of the smallest normal one.
pub open spec fn scale_field(bits: u32) -> int {
    if fixed::exponent(bits) == 0 {
        1
    } else {
        fixed::exponent(bits)
    }
}

/// The magnitude of a million times a number, rounded and without its fraction.
pub open spec fn scaled(bits: u32) -> nat {
    let p = (fixed::significand(bits) * 15625) as nat;
    let k = single::excess(p);
    let r = single::half_even(p, pow2(k));
    let down = 144 - scale_field(bits) - k;
    if down >= 0 {
        r / pow2(down as nat)
    } else {
        r * pow2((-down) as nat)
    }
}

/// A number in millionths; a NaN counts as nought, and what does not fit as the nearest that
/// does.
pub open spec fn millionths_of(bits: u32) -> int {
    if float_order::not_a_number(bits) {
        0
    } else if bits < float_order::SIGN_BIT {
        if scaled(bits) > i32::MAX {
            i32::MAX as int
        } else {
            scaled(bits) as int
        }
    } else {
        if -scaled(bits) < i32::MIN {
            i32::MIN as int
        } else {
            -scaled(bits)
        }
    }
}

fn scale_up(bits: u32) -> (amount: u64)
    ensures
        scaled(bits) <= 0xffff_ffff ==> amount == scaled(bits),
        scaled(bits) > 0xffff_ffff ==> amount == 0xffff_ffff,
        amount <= 0xffff_ffff,
{
    let magnitude: u32 = if bits < float_order::SIGN_BIT {
        bits
    } else {
        bits - float_order::SIGN_BIT
    };
    let field: u32 = magnitude / 0x80_0000;
    let fraction: u32 = magnitude % 0x80_0000;
    let digits: u64 = if field == 0 {
        fraction as u64
    } else {
        fraction as u64 + 0x80_0000
    };
    assert(digits == fixed::significand(bits));
    let shown: u32 = if field == 0 {
        1
    } else {
        field
    };
    let p: u64 = digits * 15625;
    let mut k: u32 = 0;
    let mut unit: u64 = 1;
    let mut rest: u64 = p;
    proof {
        vstd::arithmetic::power2::lemma2_to64();
    }
    while rest >= 0x100_0000
        invariant
            p <= 0x100_0000 * 15625,
            single::excess(p as nat) == k + single::excess(rest as nat),
            unit == pow2(k as nat),
            rest * unit <= p,
            unit >= 1,
            k <= 14,
        decreases rest,
    {
        proof {
            assert(unit <= 15625) by (nonlinear_arith)
                requires
                    rest * unit <= p,
                    p <= 0x100_0000 * 15625,
                    rest >= 0x100_0000,
                    unit >= 1,
            ;
            assert((rest / 2) * (2 * unit) <= rest * unit) by (nonlinear_arith)
                requires
                    rest >= 0,
                    unit >= 1,
            ;
            vstd::arithmetic::power2::lemma_pow2_unfold((k + 1) as nat);
            vstd::arithmetic::power2::lemma2_to64();
            assert(k < 14);
        }
        rest = rest / 2;
        unit = 2 * unit;
        k = k + 1;
    }
    proof {
        if k < 14 {
            vstd::arithmetic::power2::lemma_pow2_strictly_increases(k as nat, 14);
        }
    }
    let q: u64 = p / unit;
    let low: u64 = p % unit;
    proof {
        assert(q <= p) by (nonlinear_arith)
            requires
                q == p / unit,
                unit >= 1,
                p >= 0,
        ;
        assert(low < unit);
        single::quotient_is_short(p as nat);
    }
    let r: u64 = if 2 * low > unit || (2 * low == unit && q % 2 == 1) {
        q + 1
    } else {
        q
    };
    assert(r == single::half_even(p as nat, pow2(k as nat)));
    assert(r <= 0x100_0000);
    let up: u32 = shown + k;
    if up <= 144 {
        let by: u32 = 144 - up;
        if by < 32 {
            proof {
                vstd::bits::lemma_u64_shr_is_div(r, by as u64);
                vstd::arithmetic::power2::lemma_pow2_pos(by as nat);
                let d = pow2(by as nat) as int;
                assert(r as int / d <= r) by (nonlinear_arith)
                    requires
                        0 <= r,
                        0 < d,
                ;
            }
            r >> by as u64
        } else {
            proof {
                vstd::arithmetic::power2::lemma_pow2_strictly_increases(31, by as nat);
                let d = pow2(by as nat) as int;
                vstd::arithmetic::div_mod::lemma_basic_div(r as int, d);
            }
            0
        }
    } else {
        let by: u32 = up - 144;
        proof {
            vstd::arithmetic::power2::lemma_pow2_pos(by as nat);
        }
        if by <= 32 {
            proof {
                if by < 32 {
                    vstd::arithmetic::power2::lemma_pow2_strictly_increases(by as nat, 32);
                }
                let d = pow2(by as nat) as int;
                assert(0 <= r * d <= 0x100_0000 * 0x1_0000_0000) by (nonlinear_arith)
                    requires
                        0 <= r <= 0x100_0000,
                        0 <= d <= 0x1_0000_0000,
                ;
                vstd::bits::lemma_u64_shl_is_mul(r, by as u64);
            }
            let wide: u64 = r << by as u64;
            if wide > 0xffff_ffff {
                0xffff_ffff
            } else {
                wide
            }
        } else {
            proof {
                vstd::arithmetic::power2::lemma_pow2_strictly_increases(32, by as nat);
                let d = pow2(by as nat) as int;
                if r > 0 {
                    assert(r * d > 0xffff_ffff) by (nonlinear_arith)
                        requires
                            r >= 1,
                            d > 0xffff_ffff,
                    ;
                } else {
                    assert(r * d == 0) by (nonlinear_arith)
                        requires
                            r == 0,
                    ;
                }
            }
            if r > 0 {
                0xffff_ffff
            } else {
                0
            }
        }
    }
}

/// A similarity in whole millionths.
pub fn millionths(bits: u32) -> (x: i32)
    ensures
        x == millionths_of(bits),
{
    if float_order::is_nan(bits) {
        return 0;
    }
    let amount: u64 = scale_up(bits);
    if bits < float_order::SIGN_BIT {
        if amount > 0x7fff_ffff {
            0x7fff_ffff
        } else {
            amount as i32
        }
    } else {
        if amount >= 0x8000_0000 {
            i32::MIN
        } else {
            -(amount as i32)
        }
    }
}

/// The similarity that so many millionths stand for.
pub open spec fn similarity_of(m: i32) -> u32 {
    if m < 0 {
        (float_order::SIGN_BIT + single::quotient_bits(single::rounded((-m) as nat), 1_000_000)) as u32
    } else {
        single::quotient_bits(single::rounded(m as nat), 1_000_000) as u32
    }
}

/// The similarity that so many millionths stand for.
pub fn similarity(m: i32) -> (bits: u32)
    ensures
        bits == similarity_of(m),
{
    if m < 0 {
        float_order::SIGN_BIT + single::quotient(
            single::round_to_single((-(m as i64)) as u64),
            1_000_000,
        )
    } else {
        single::quotient(single::round_to_single(m as u64), 1_000_000)
    }
}

/// A similarity cut to whole millionths.
pub open spec fn shortened(bits: u32) -> u32 {
    similarity_of(millionths_of(bits) as i32)
}

/// A similarity cut to whole millionths.
pub fn shorten(bits: u32) -> (cut: u32)
    ensures
        cut == shortened(bits),
{
    similarity(millionths(bits))
}

/// The pattern with a given rank in the total order.
pub open spec fn bits_of_rank(rank: i32) -> u32 {
    if rank >= 0 {
        rank as u32
    } else {
        (float_order::SIGN_BIT + (-(rank + 1))) as u32
    }
}

/// The pattern with a given rank in the total order.
pub fn rank_bits(rank: i32) -> (bits: u32)
    ensures
        bits == bits_of_rank(rank),
{
    if rank >= 0 {
        rank as u32
    } else {
        float_order::SIGN_BIT + (-(rank + 1)) as u32
    }
}

/// A pattern made from a rank has that rank.
pub proof fn rank_round_trip(rank: i32)
    ensures
        float_order::total_rank(bits_of_rank(rank)) == rank,
{
}

} // verus!
