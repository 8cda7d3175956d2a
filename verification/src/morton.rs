//! Morton (Z-order) bit interleaving.
//!
//! A 64-bit interleaved word holds one 32-bit field at the even bit
//! positions and a second one at the odd bit positions.  `spread` and
//! `squash` move a field in and out of the even positions; `interleave`
//! and `deinterleave` combine and separate two fields.

use vstd::prelude::*;

verus! {

/// The digits of `x` moved to the even bit positions: bit `i` of `x`
/// becomes bit `2*i` of the result.
pub open spec fn spread_bits(x: nat) -> nat
    decreases x,
{
    if x == 0 {
        0
    } else {
        x % 2 + 4 * spread_bits(x / 2)
    }
}

/// The even-position digits of `x` gathered into one contiguous value:
/// bit `2*i` of `x` becomes bit `i` of the result.  Odd positions are
/// ignored.
pub open spec fn squash_bits(x: nat) -> nat
    decreases x,
{
    if x == 0 {
        0
    } else {
        x % 2 + 2 * squash_bits(x / 4)
    }
}

/// The Morton interleaving of `x` and `y`: `x` occupies the even bit
/// positions, `y` the odd ones.
pub open spec fn interleave_bits(x: nat, y: nat) -> nat {
    spread_bits(x) + 2 * spread_bits(y)
}

/// The mask-and-shift cascade that computes `spread_bits` on a 32-bit value.
spec fn spread_masks(x: u64) -> u64 {
    let a = (x | (x << 16u64)) & 0x0000ffff0000ffff;
    let b = (a | (a << 8u64)) & 0x00ff00ff00ff00ff;
    let c = (b | (b << 4u64)) & 0x0f0f0f0f0f0f0f0f;
    let d = (c | (c << 2u64)) & 0x3333333333333333;
    (d | (d << 1u64)) & 0x5555555555555555
}

/// The mask-and-shift cascade that computes `squash_bits` on a 64-bit value.
spec fn squash_masks(x: u64) -> u64 {
    let a = x & 0x5555555555555555;
    let b = (a | (a >> 1u64)) & 0x3333333333333333;
    let c = (b | (b >> 2u64)) & 0x0f0f0f0f0f0f0f0f;
    let d = (c | (c >> 4u64)) & 0x00ff00ff00ff00ff;
    let e = (d | (d >> 8u64)) & 0x0000ffff0000ffff;
    (e | (e >> 16u64)) & 0x00000000ffffffff
}

proof fn lemma_spread_masks_step(x: u64)
    by (bit_vector)
    requires
        x < 0x1_0000_0000,
    ensures
        spread_masks(x) == 4 * spread_masks(x / 2) + x % 2,
{
}

proof fn lemma_spread_masks_eq(x: u64)
    requires
        x < 0x1_0000_0000,
    ensures
        spread_masks(x) == spread_bits(x as nat),
    decreases x,
{
    if x == 0 {
        assert(spread_masks(0) == 0) by (bit_vector);
    } else {
        lemma_spread_masks_step(x);
        lemma_spread_masks_eq(x / 2);
    }
}

proof fn lemma_squash_masks_step(x: u64)
    by (bit_vector)
    ensures
        squash_masks(x) == 2 * squash_masks(x / 4) + x % 2,
{
}

proof fn lemma_squash_masks_eq(x: u64)
    ensures
        squash_masks(x) == squash_bits(x as nat),
    decreases x,
{
    if x == 0 {
        assert(squash_masks(0) == 0) by (bit_vector);
    } else {
        lemma_squash_masks_step(x);
        lemma_squash_masks_eq(x / 4);
    }
}

/// spread out the 32 bits of x into 64 bits, where the bits of x occupy
/// even bit positions.
pub fn spread(x: u32) -> (r: u64)
    ensures
        r == spread_bits(x as nat),
{
    let mut v = x as u64;
    v = (v | (v << 16u64)) & 0x0000ffff0000ffff;
    v = (v | (v << 8u64)) & 0x00ff00ff00ff00ff;
    v = (v | (v << 4u64)) & 0x0f0f0f0f0f0f0f0f;
    v = (v | (v << 2u64)) & 0x3333333333333333;
    v = (v | (v << 1u64)) & 0x5555555555555555;
    proof {
        lemma_spread_masks_eq(x as u64);
    }
    v
}

proof fn lemma_or_shifted_is_add(p: u64, q: u64)
    by (bit_vector)
    requires
        p & 0xaaaa_aaaa_aaaa_aaaa == 0,
        q & 0xaaaa_aaaa_aaaa_aaaa == 0,
    ensures
        (p | (q << 1u64)) == p + 2 * q,
{
}

proof fn lemma_spread_masks_even(x: u64)
    by (bit_vector)
    ensures
        spread_masks(x) & 0xaaaa_aaaa_aaaa_aaaa == 0,
{
}

/// interleave the bits of x and y. In the result, x and y occupy even and
/// odd bit positions, respectively.
pub fn interleave(x: u32, y: u32) -> (r: u64)
    ensures
        r == interleave_bits(x as nat, y as nat),
{
    let sx = spread(x);
    let sy = spread(y);
    proof {
        lemma_spread_masks_eq(x as u64);
        lemma_spread_masks_eq(y as u64);
        lemma_spread_masks_even(x as u64);
        lemma_spread_masks_even(y as u64);
        lemma_or_shifted_is_add(sx, sy);
    }
    sx | (sy << 1u64)
}

/// squash the even bit positions of x into a 32-bit word. Odd bit
/// positions of x are ignored, and may take any value.
pub fn squash(x: u64) -> (r: u32)
    ensures
        r == squash_bits(x as nat),
{
    let mut v = x;
    v &= 0x5555555555555555;
    v = (v | (v >> 1u64)) & 0x3333333333333333;
    v = (v | (v >> 2u64)) & 0x0f0f0f0f0f0f0f0f;
    v = (v | (v >> 4u64)) & 0x00ff00ff00ff00ff;
    v = (v | (v >> 8u64)) & 0x0000ffff0000ffff;
    v = (v | (v >> 16u64)) & 0x00000000ffffffff;
    proof {
        lemma_squash_masks_eq(x);
        assert(squash_masks(x) < 0x1_0000_0000) by (bit_vector);
    }
    v as u32
}

/// deinterleave the bits of x into 32-bit words containing the even and
/// odd bit positions of x, respectively.
pub fn deinterleave(x: u64) -> (r: (u32, u32))
    ensures
        r.0 == squash_bits(x as nat),
        r.1 == squash_bits((x as nat) / 2),
{
    proof {
        assert(x >> 1u64 == x / 2) by (bit_vector);
    }
    (squash(x), squash(x >> 1u64))
}

/// spreading never gives zero for a nonzero input.
proof fn lemma_spread_bits_pos(x: nat)
    ensures
        x > 0 ==> spread_bits(x) > 0,
    decreases x,
{
    if x > 0 {
        if x % 2 == 0 {
            lemma_spread_bits_pos(x / 2);
        }
    }
}

/// squashing reads back exactly the field that spreading put at the even
/// positions, whatever was added at the odd positions.
pub proof fn lemma_squash_of_spread_pair(x: nat, s: nat)
    ensures
        squash_bits(spread_bits(x) + 2 * spread_bits(s)) == x,
    decreases x + s,
{
    let a = spread_bits(x / 2);
    let b = spread_bits(s / 2);
    let v = spread_bits(x) + 2 * spread_bits(s);
    if x == 0 && s == 0 {
    } else {
        lemma_spread_bits_pos(x);
        lemma_spread_bits_pos(s);
        assert(spread_bits(x) == x % 2 + 4 * a);
        assert(spread_bits(s) == s % 2 + 4 * b);
        assert(v == (x % 2 + 2 * (s % 2)) + 4 * (a + 2 * b)) by {
            vstd::arithmetic::mul::lemma_mul_is_distributive_add(2, (s % 2) as int, (4 * b) as int);
        }
        assert(v > 0);
        vstd::arithmetic::div_mod::lemma_fundamental_div_mod_converse(
            v as int, 4, (a + 2 * b) as int, (x % 2 + 2 * (s % 2)) as int);
        vstd::arithmetic::div_mod::lemma_fundamental_div_mod_converse(
            v as int, 2, ((s % 2) + 2 * (a + 2 * b)) as int, (x % 2) as int);
        assert(v / 4 == a + 2 * b);
        assert(v % 2 == x % 2);
        lemma_squash_of_spread_pair(x / 2, s / 2);
        assert(squash_bits(v) == x % 2 + 2 * squash_bits(a + 2 * b));
        assert(squash_bits(v) == x % 2 + 2 * (x / 2));
        vstd::arithmetic::div_mod::lemma_fundamental_div_mod(x as int, 2);
    }
}

/// Interleaving two fields and deinterleaving the result recovers both
/// fields exactly, for every pair of 32-bit values.
pub proof fn lemma_interleave_round_trip(x: u32, y: u32)
    ensures
        squash_bits(interleave_bits(x as nat, y as nat)) == x,
        squash_bits(interleave_bits(x as nat, y as nat) / 2) == y,
{
    let sx2 = spread_bits((x as nat) / 2);
    let v = interleave_bits(x as nat, y as nat);
    lemma_squash_of_spread_pair(x as nat, y as nat);
    assert(spread_bits(x as nat) == x % 2 + 4 * sx2);
    assert(v == x % 2 + 2 * (spread_bits(y as nat) + 2 * sx2)) by {
        vstd::arithmetic::mul::lemma_mul_is_distributive_add(2, spread_bits(y as nat) as int, (2 * sx2) as int);
    }
    vstd::arithmetic::div_mod::lemma_fundamental_div_mod_converse(
        v as int, 2, (spread_bits(y as nat) + 2 * sx2) as int, (x % 2) as int);
    assert(v / 2 == spread_bits(y as nat) + 2 * sx2);
    lemma_squash_of_spread_pair(y as nat, (x as nat) / 2);
}

} // verus!
