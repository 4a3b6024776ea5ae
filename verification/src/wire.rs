//! Little-endian integers inside byte strings.
use crate::rag::sums;
use vstd::arithmetic::power2::pow2;
use vstd::prelude::*;

verus! {

/// The low `width` bytes of `x`, least significant first.
pub open spec fn le_bytes(x: nat, width: nat) -> Seq<u8>
    decreases width,
{
    if width == 0 {
        Seq::empty()
    } else {
        seq![(x % 256) as u8] + le_bytes(x / 256, (width - 1) as nat)
    }
}

/// The number whose bytes, least significant first, are `s`.
pub open spec fn le_value(s: Seq<u8>) -> nat
    decreases s.len(),
{
    if s.len() == 0 {
        0
    } else {
        s[0] as nat + 256 * le_value(s.drop_first())
    }
}

/// The first number that does not fit in `width` bytes.
pub open spec fn le_limit(width: nat) -> nat
    decreases width,
{
    if width == 0 {
        1
    } else {
        256 * le_limit((width - 1) as nat)
    }
}

/// The limits of the two widths in use.
pub proof fn le_limits()
    ensures
        le_limit(4) == 0x1_0000_0000,
        le_limit(8) == 0x1_0000_0000_0000_0000,
{
    reveal_with_fuel(le_limit, 9);
}

/// One more byte at the end counts most.
pub proof fn le_value_push(s: Seq<u8>, b: u8)
    ensures
        le_value(s.push(b)) == le_value(s) + b * pow2(8 * s.len()),
    decreases s.len(),
{
    vstd::arithmetic::power2::lemma2_to64();
    let longer = s.push(b);
    if s.len() == 0 {
        assert(longer.drop_first() =~= Seq::<u8>::empty());
        assert(le_value(longer) == b as nat + 256 * le_value(longer.drop_first()));
        assert(b * 1 == b) by (nonlinear_arith);
    } else {
        let rest = s.drop_first();
        assert(longer.drop_first() =~= rest.push(b));
        le_value_push(rest, b);
        vstd::arithmetic::power2::lemma_pow2_adds(8, 8 * rest.len());
        let p = pow2(8 * rest.len()) as int;
        assert(256 * (b * p) == b * (256 * p)) by (nonlinear_arith);
    }
}

/// The lowest byte stands first: byte number `i` counts `2^(8 i)` times.
pub proof fn le_value_is_weighted(s: Seq<u8>)
    ensures
        le_value(s) == sums::total(|i: int| s[i] * pow2((8 * i) as nat), s.len()),
    decreases s.len(),
{
    if s.len() > 0 {
        let front = s.drop_last();
        assert(front.push(s.last()) =~= s);
        le_value_push(front, s.last());
        le_value_is_weighted(front);
        sums::total_same(
            |i: int| front[i] * pow2((8 * i) as nat),
            |i: int| s[i] * pow2((8 * i) as nat),
            front.len(),
        );
    }
}

/// A number fits in the bytes that it is read from.
pub proof fn le_value_is_bounded(s: Seq<u8>)
    ensures
        le_value(s) < le_limit(s.len()),
    decreases s.len(),
{
    if s.len() > 0 {
        le_value_is_bounded(s.drop_first());
    }
}

/// As many bytes come out as were asked for.
pub proof fn le_bytes_len(x: nat, width: nat)
    ensures
        le_bytes(x, width).len() == width,
    decreases width,
{
    if width > 0 {
        le_bytes_len(x / 256, (width - 1) as nat);
    }
}

/// Reading back what was written gives the number, where it fits.
pub proof fn le_round_trip(x: nat, width: nat)
    requires
        x < le_limit(width),
    ensures
        le_bytes(x, width).len() == width,
        le_value(le_bytes(x, width)) == x,
    decreases width,
{
    if width > 0 {
        le_round_trip(x / 256, (width - 1) as nat);
        let s = le_bytes(x, width);
        assert(s.drop_first() =~= le_bytes(x / 256, (width - 1) as nat));
    }
}

/// Appends every byte of `bytes`.
pub fn put_bytes(buf: &mut Vec<u8>, bytes: &[u8])
    ensures
        final(buf)@ == old(buf)@ + bytes@,
{
    let mut i: usize = 0;
    while i < bytes.len()
        invariant
            i <= bytes@.len(),
            buf@ == old(buf)@ + bytes@.take(i as int),
        decreases bytes@.len() - i,
    {
        buf.push(bytes[i]);
        i += 1;
        assert(bytes@.take(i as int) =~= bytes@.take(i - 1).push(bytes@[i - 1]));
    }
    assert(bytes@.take(bytes@.len() as int) =~= bytes@);
}

/// Appends the eight bytes of `x`.
pub fn put_u64(buf: &mut Vec<u8>, x: u64)
    ensures
        final(buf)@ == old(buf)@ + le_bytes(x as nat, 8),
{
    let mut rest: u64 = x;
    let mut i: usize = 0;
    while i < 8
        invariant
            i <= 8,
            old(buf)@ + le_bytes(x as nat, 8) == buf@ + le_bytes(rest as nat, (8 - i) as nat),
        decreases 8 - i,
    {
        assert(buf@.push((rest % 256) as u8) + le_bytes((rest / 256) as nat, (7 - i) as nat)
            =~= buf@ + le_bytes(rest as nat, (8 - i) as nat));
        buf.push((rest % 256) as u8);
        rest = rest / 256;
        i += 1;
    }
    assert(buf@ + le_bytes(rest as nat, 0) =~= buf@);
}

/// Appends the four bytes of `x`.
pub fn put_u32(buf: &mut Vec<u8>, x: u32)
    ensures
        final(buf)@ == old(buf)@ + le_bytes(x as nat, 4),
{
    let mut rest: u32 = x;
    let mut i: usize = 0;
    while i < 4
        invariant
            i <= 4,
            old(buf)@ + le_bytes(x as nat, 4) == buf@ + le_bytes(rest as nat, (4 - i) as nat),
        decreases 4 - i,
    {
        assert(buf@.push((rest % 256) as u8) + le_bytes((rest / 256) as nat, (3 - i) as nat)
            =~= buf@ + le_bytes(rest as nat, (4 - i) as nat));
        buf.push((rest % 256) as u8);
        rest = rest / 256;
        i += 1;
    }
    assert(buf@ + le_bytes(rest as nat, 0) =~= buf@);
}

/// The number in the eight bytes from `at` on.
pub fn get_u64(bytes: &[u8], at: usize) -> (x: u64)
    requires
        at + 8 <= bytes@.len(),
    ensures
        x == le_value(bytes@.subrange(at as int, at + 8)),
{
    let len: usize = bytes.len();
    let mut x: u64 = 0;
    let mut i: usize = 8;
    proof {
        reveal_with_fuel(le_limit, 9);
    }
    assert(bytes@.subrange(at + 8, at + 8) =~= Seq::<u8>::empty());
    while i > 0
        invariant
            i <= 8,
            at + 8 <= len == bytes@.len(),
            x == le_value(bytes@.subrange(at + i, at + 8)),
            x < le_limit((8 - i) as nat),
            le_limit(8) == 0x1_0000_0000_0000_0000,
            le_limit(7) == 0x100_0000_0000_0000,
        decreases i,
    {
        let ghost tail = bytes@.subrange(at + i, at + 8);
        i -= 1;
        let ghost wider = bytes@.subrange(at + i, at + 8);
        assert(wider.drop_first() =~= tail);
        assert(le_limit((8 - i) as nat) == 256 * le_limit((7 - i) as nat));
        proof {
            le_limit_grows((7 - i) as nat, 7);
        }
        let at_byte: usize = at + i;
        x = bytes[at_byte] as u64 + 256 * x;
    }
    x
}

/// The number in the four bytes from `at` on.
pub fn get_u32(bytes: &[u8], at: usize) -> (x: u32)
    requires
        at + 4 <= bytes@.len(),
    ensures
        x == le_value(bytes@.subrange(at as int, at + 4)),
{
    let len: usize = bytes.len();
    let mut x: u32 = 0;
    let mut i: usize = 4;
    proof {
        reveal_with_fuel(le_limit, 9);
    }
    assert(bytes@.subrange(at + 4, at + 4) =~= Seq::<u8>::empty());
    while i > 0
        invariant
            i <= 4,
            at + 4 <= len == bytes@.len(),
            x == le_value(bytes@.subrange(at + i, at + 4)),
            x < le_limit((4 - i) as nat),
            le_limit(4) == 0x1_0000_0000,
            le_limit(3) == 0x100_0000,
        decreases i,
    {
        let ghost tail = bytes@.subrange(at + i, at + 4);
        i -= 1;
        let ghost wider = bytes@.subrange(at + i, at + 4);
        assert(wider.drop_first() =~= tail);
        assert(le_limit((4 - i) as nat) == 256 * le_limit((3 - i) as nat));
        proof {
            le_limit_grows((3 - i) as nat, 3);
        }
        let at_byte: usize = at + i;
        x = bytes[at_byte] as u32 + 256 * x;
    }
    x
}

proof fn le_limit_grows(a: nat, b: nat)
    requires
        a <= b,
    ensures
        0 < le_limit(a) <= le_limit(b),
    decreases b,
{
    if a < b {
        le_limit_grows(a, (b - 1) as nat);
    } else if a > 0 {
        le_limit_grows((a - 1) as nat, (a - 1) as nat);
    }
}

} // verus!
