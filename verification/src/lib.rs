//! Encoding and decoding of string and integer geohashes.
//!
//! A geohash names a rectangular cell of the latitude/longitude plane.
//! The integer form is the top slice of a 64-bit Morton word whose even
//! bits quantize latitude and whose odd bits quantize longitude; the
//! string form writes that slice in a 32-symbol alphabet, five bits per
//! character.

pub mod base32;
pub mod morton;

pub use morton::{spread, interleave, squash, deinterleave};

use vstd::prelude::*;
use vstd::string::StringSliceAdditionalSpecFns;
use vstd::arithmetic::power2::{pow2, lemma_pow2_adds, lemma_pow2_pos, lemma2_to64};
use vstd::arithmetic::div_mod::{
    lemma_basic_div, lemma_div_by_multiple, lemma_div_denominator, lemma_div_multiples_vanish,
    lemma_fundamental_div_mod, lemma_fundamental_div_mod_converse, lemma_mod_multiples_basic,
    lemma_multiply_divide_lt,
};
use vstd::arithmetic::mul::{
    lemma_mul_inequality, lemma_mul_is_associative, lemma_mul_is_commutative,
    lemma_mul_is_distributive_add_other_way, lemma_mul_is_distributive_sub_other_way,
};
use vstd::bits::{lemma_u64_shl_is_mul, lemma_u64_shr_is_div, lemma_u64_pow2_no_overflow};
use morton::{interleave_bits, spread_bits, squash_bits};

verus! {

/// Direction represents directions in the latitude/longitude space.
pub type Direction = usize;

/// Cardinal and intercardinal directions.
pub const NORTH: Direction = 0;

pub const NORTH_EAST: Direction = 1;

pub const EAST: Direction = 2;

pub const SOUTH_EAST: Direction = 3;

pub const SOUTH: Direction = 4;

pub const SOUTH_WEST: Direction = 5;

pub const WEST: Direction = 6;

pub const NORTH_WEST: Direction = 7;

/// How many of the `bits` leading bits of an integer geohash quantize
/// latitude.  Latitude sits at the even positions of the full 64-bit
/// word, below the leading longitude bit, so it gets the smaller half.
pub open spec fn lat_bits_of(bits: nat) -> nat {
    bits / 2
}

/// How many of the `bits` leading bits of an integer geohash quantize
/// longitude; longitude gets the extra bit when `bits` is odd.
pub open spec fn lng_bits_of(bits: nat) -> nat {
    (bits - bits / 2) as nat
}

/// The full 64-bit word of an integer geohash of `bits` bits: its bits
/// moved to the top, the rest zero.
pub open spec fn full_word(hash: u64, bits: nat) -> u64 {
    hash << ((64 - bits) as u64)
}

/// The 32-bit quantized latitude of an integer geohash, top-aligned:
/// the even bits of the full word.
pub open spec fn lat32_of(hash: u64, bits: nat) -> nat {
    squash_bits(full_word(hash, bits) as nat)
}

/// The 32-bit quantized longitude of an integer geohash, top-aligned:
/// the odd bits of the full word.
pub open spec fn lng32_of(hash: u64, bits: nat) -> nat {
    squash_bits((full_word(hash, bits) as nat) / 2)
}

/// The latitude cell index of an integer geohash: the value of its
/// latitude bits, `0` up to `2^lat_bits - 1` from south to north.
pub open spec fn lat_cell_of(hash: u64, bits: nat) -> nat {
    lat32_of(hash, bits) / pow2((32 - lat_bits_of(bits)) as nat)
}

/// The longitude cell index of an integer geohash: the value of its
/// longitude bits, `0` up to `2^lng_bits - 1` from west to east.
pub open spec fn lng_cell_of(hash: u64, bits: nat) -> nat {
    lng32_of(hash, bits) / pow2((32 - lng_bits_of(bits)) as nat)
}

/// One cell step along an axis of `width` bits.  The quantized domain
/// has no wraparound: a step beyond either edge saturates at that edge.
pub open spec fn cell_step(c: nat, width: nat, d: int) -> nat {
    if d > 0 {
        if c + 1 < pow2(width) {
            c + 1
        } else {
            (pow2(width) - 1) as nat
        }
    } else if d < 0 {
        if c > 0 {
            (c - 1) as nat
        } else {
            0
        }
    } else {
        c
    }
}

/// The integer geohash of `bits` bits with the given cell coordinates.
pub open spec fn hash_of_cells(lat_cell: nat, lng_cell: nat, bits: nat) -> nat {
    interleave_bits(
        lat_cell * pow2((32 - lat_bits_of(bits)) as nat),
        lng_cell * pow2((32 - lng_bits_of(bits)) as nat),
    ) / pow2((64 - bits) as nat)
}

/// The integer geohash `dlat` latitude cells and `dlng` longitude cells
/// away from `hash` at `bits` bits of precision, saturating at the edges
/// of the coordinate domain.
pub open spec fn neighbor_hash(hash: u64, bits: nat, dlat: int, dlng: int) -> nat {
    hash_of_cells(
        cell_step(lat_cell_of(hash, bits), lat_bits_of(bits), dlat),
        cell_step(lng_cell_of(hash, bits), lng_bits_of(bits), dlng),
        bits,
    )
}

/// The latitude cell offset of each direction, in the order N, NE, E,
/// SE, S, SW, W, NW.
pub open spec fn lat_offset(d: int) -> int {
    if d == 0 || d == 1 || d == 7 {
        1
    } else if d == 2 || d == 6 {
        0
    } else {
        -1
    }
}

/// The longitude cell offset of each direction, in the order N, NE, E,
/// SE, S, SW, W, NW.
pub open spec fn lng_offset(d: int) -> int {
    if 1 <= d <= 3 {
        1
    } else if d == 0 || d == 4 {
        0
    } else {
        -1
    }
}

proof fn lemma_spread_bits_unfold(x: nat)
    ensures
        spread_bits(x) == x % 2 + 4 * spread_bits(x / 2),
{
    if x == 0 {
    }
}

/// Dividing an interleaved word by two turns it into the interleaving of
/// its odd field with the halved even field.
proof fn lemma_interleave_div2(x: nat, y: nat)
    ensures
        interleave_bits(x, y) / 2 == interleave_bits(y, x / 2),
{
    let v = interleave_bits(x, y);
    lemma_spread_bits_unfold(x);
    assert(v == x % 2 + 2 * (spread_bits(y) + 2 * spread_bits(x / 2))) by {
        lemma_mul_is_distributive_add_other_way(
            2, spread_bits(y) as int, (2 * spread_bits(x / 2)) as int);
    }
    lemma_fundamental_div_mod_converse(
        v as int, 2, (spread_bits(y) + 2 * spread_bits(x / 2)) as int, (x % 2) as int);
}

/// Dividing an interleaved word by four halves both fields.
proof fn lemma_interleave_div4(x: nat, y: nat)
    ensures
        interleave_bits(x, y) / 4 == interleave_bits(x / 2, y / 2),
{
    let v = interleave_bits(x, y);
    lemma_spread_bits_unfold(x);
    lemma_spread_bits_unfold(y);
    assert(v == (x % 2 + 2 * (y % 2)) + 4 * (spread_bits(x / 2) + 2 * spread_bits(y / 2))) by {
        lemma_mul_is_distributive_add_other_way(
            2, (y % 2) as int, (4 * spread_bits(y / 2)) as int);
        lemma_mul_is_distributive_add_other_way(
            4, spread_bits(x / 2) as int, (2 * spread_bits(y / 2)) as int);
        lemma_mul_is_associative(4, 2, spread_bits(y / 2) as int);
        lemma_mul_is_associative(2, 4, spread_bits(y / 2) as int);
    }
    lemma_fundamental_div_mod_converse(
        v as int, 4, (spread_bits(x / 2) + 2 * spread_bits(y / 2)) as int,
        (x % 2 + 2 * (y % 2)) as int);
}

/// Dividing an interleaved word by `4^j` shortens both fields by `j` bits.
proof fn lemma_interleave_shift(x: nat, y: nat, j: nat)
    ensures
        interleave_bits(x, y) / pow2(2 * j) == interleave_bits(x / pow2(j), y / pow2(j)),
    decreases j,
{
    let v = interleave_bits(x, y);
    if j == 0 {
        assert(pow2(0) == 1) by {
            lemma2_to64();
        }
        vstd::arithmetic::div_mod::lemma_div_basics(v as int);
        vstd::arithmetic::div_mod::lemma_div_basics(x as int);
        vstd::arithmetic::div_mod::lemma_div_basics(y as int);
        assert(v / 1 == v && x / 1 == x && y / 1 == y);
    } else {
        lemma_interleave_div4(x, y);
        lemma_interleave_shift(x / 2, y / 2, (j - 1) as nat);
        lemma_pow2_pos((2 * j - 2) as nat);
        lemma_pow2_pos((j - 1) as nat);
        assert(pow2(2 * j) == 4 * pow2((2 * j - 2) as nat)) by {
            lemma_pow2_adds(2, (2 * j - 2) as nat);
            lemma2_to64();
        }
        assert(v / pow2(2 * j) == (v / 4) / pow2((2 * j - 2) as nat)) by {
            lemma_div_denominator(v as int, 4, pow2((2 * j - 2) as nat) as int);
        }
        assert(pow2(j) == 2 * pow2((j - 1) as nat)) by {
            lemma_pow2_adds(1, (j - 1) as nat);
            lemma2_to64();
        }
        assert((x / 2) / pow2((j - 1) as nat) == x / pow2(j)) by {
            lemma_div_denominator(x as int, 2, pow2((j - 1) as nat) as int);
        }
        assert((y / 2) / pow2((j - 1) as nat) == y / pow2(j)) by {
            lemma_div_denominator(y as int, 2, pow2((j - 1) as nat) as int);
        }
    }
}

/// Multiplying a field by `2^j` and shortening it by `j` bits again gives
/// the field back.
proof fn lemma_mul_pow2_div(c: nat, j: nat)
    ensures
        (c * pow2(j)) / pow2(j) == c,
{
    lemma_pow2_pos(j);
    lemma_div_by_multiple(c as int, pow2(j) as int);
}

/// Truncating an interleaved word to its top `bits` bits reads exactly
/// the top cells of the two fields.
proof fn lemma_truncated_interleave(a: nat, b: nat, bits: nat)
    requires
        1 <= bits <= 64,
    ensures
        interleave_bits(a, b) / pow2((64 - bits) as nat) == hash_of_cells(
            a / pow2((32 - lat_bits_of(bits)) as nat),
            b / pow2((32 - lng_bits_of(bits)) as nat),
            bits,
        ),
{
    let jl = (32 - lat_bits_of(bits)) as nat;
    let jg = (32 - lng_bits_of(bits)) as nat;
    let ca = a / pow2(jl);
    let cb = b / pow2(jg);
    if bits % 2 == 0 {
        // an even count splits evenly: both fields keep `bits / 2` bits
        let j = jl;
        assert(jg == j);
        assert(64 - bits == 2 * j);
        lemma_interleave_shift(a, b, j);
        lemma_interleave_shift(ca * pow2(j), cb * pow2(j), j);
        lemma_mul_pow2_div(ca, j);
        lemma_mul_pow2_div(cb, j);
    } else {
        // an odd count gives longitude the extra leading bit
        let j = jg;
        assert(jl == j + 1);
        assert(64 - bits == 2 * j + 1);
        lemma_pow2_pos(2 * j);
        assert(pow2((64 - bits) as nat) == 2 * pow2(2 * j)) by {
            lemma_pow2_adds(1, 2 * j);
            lemma2_to64();
        }
        // left side: drop one bit, then j bit pairs
        lemma_div_denominator(interleave_bits(a, b) as int, 2, pow2(2 * j) as int);
        lemma_interleave_div2(a, b);
        lemma_interleave_shift(b, a / 2, j);
        assert((a / 2) / pow2(j) == a / pow2(j + 1)) by {
            lemma_pow2_pos(j);
            lemma_div_denominator(a as int, 2, pow2(j) as int);
            lemma_pow2_adds(1, j);
            lemma2_to64();
        }
        // right side: the same two steps on the rebuilt fields
        let ra = ca * pow2(j + 1);
        let rb = cb * pow2(j);
        lemma_div_denominator(interleave_bits(ra, rb) as int, 2, pow2(2 * j) as int);
        lemma_interleave_div2(ra, rb);
        assert(ra / 2 == ca * pow2(j)) by {
            lemma_pow2_pos(j);
            assert(pow2(j + 1) == 2 * pow2(j)) by {
                lemma_pow2_adds(1, j);
                lemma2_to64();
            }
            assert(ca * (2 * pow2(j)) == 2 * (ca * pow2(j))) by {
                lemma_mul_is_associative(ca as int, 2, pow2(j) as int);
                lemma_mul_is_associative(2, ca as int, pow2(j) as int);
                lemma_mul_is_commutative(ca as int, 2);
            }
            lemma_div_multiples_vanish((ca * pow2(j)) as int, 2);
        }
        lemma_interleave_shift(rb, ca * pow2(j), j);
        lemma_mul_pow2_div(ca, j);
        lemma_mul_pow2_div(cb, j);
        lemma_mul_pow2_div(ca, j + 1);
    }
}

/// A value whose low `2*j - 1` bits are clear squashes to a value whose
/// low `j` bits are clear.
proof fn lemma_squash_mod_zero(x: nat, j: nat)
    requires
        j >= 1,
        x % pow2((2 * j - 1) as nat) == 0,
    ensures
        squash_bits(x) % pow2(j) == 0,
    decreases j,
{
    lemma_pow2_pos((2 * j - 1) as nat);
    lemma_pow2_pos(j);
    if x == 0 {
        assert(squash_bits(0) == 0);
        lemma_mod_multiples_basic(0, pow2(j) as int);
    } else if j == 1 {
        assert(pow2(1) == 2) by {
            lemma2_to64();
        }
        assert(x % 2 == 0);
        assert(squash_bits(x) == x % 2 + 2 * squash_bits(x / 4));
        lemma_mod_multiples_basic(squash_bits(x / 4) as int, 2);
        lemma_mul_is_commutative(squash_bits(x / 4) as int, 2);
    } else {
        let m = (2 * j - 1) as nat;
        let q = x / pow2(m);
        lemma_fundamental_div_mod(x as int, pow2(m) as int);
        assert(x == q * pow2(m)) by {
            lemma_mul_is_commutative(q as int, pow2(m) as int);
        }
        lemma_pow2_pos((m - 2) as nat);
        assert(pow2(m) == 4 * pow2((m - 2) as nat)) by {
            lemma_pow2_adds(2, (m - 2) as nat);
            lemma2_to64();
        }
        assert(x == 4 * (q * pow2((m - 2) as nat))) by {
            lemma_mul_is_associative(q as int, 4, pow2((m - 2) as nat) as int);
            lemma_mul_is_associative(4, q as int, pow2((m - 2) as nat) as int);
            lemma_mul_is_commutative(q as int, 4);
        }
        assert(x / 4 == q * pow2((m - 2) as nat)) by {
            lemma_div_multiples_vanish((q * pow2((m - 2) as nat)) as int, 4);
        }
        assert((x / 4) % pow2((m - 2) as nat) == 0) by {
            lemma_mod_multiples_basic(q as int, pow2((m - 2) as nat) as int);
        }
        assert(m - 2 == 2 * (j - 1) - 1);
        lemma_squash_mod_zero(x / 4, (j - 1) as nat);
        assert(x % 2 == 0) by {
            assert(x == 2 * (2 * (q * pow2((m - 2) as nat))));
            lemma_mod_multiples_basic((2 * (q * pow2((m - 2) as nat))) as int, 2);
            lemma_mul_is_commutative((2 * (q * pow2((m - 2) as nat))) as int, 2);
        }
        let s4 = squash_bits(x / 4);
        let k = s4 / pow2((j - 1) as nat);
        lemma_pow2_pos((j - 1) as nat);
        lemma_fundamental_div_mod(s4 as int, pow2((j - 1) as nat) as int);
        assert(squash_bits(x) == 2 * s4);
        assert(pow2(j) == 2 * pow2((j - 1) as nat)) by {
            lemma_pow2_adds(1, (j - 1) as nat);
            lemma2_to64();
        }
        assert(2 * s4 == k * pow2(j)) by {
            assert(s4 == pow2((j - 1) as nat) * k);
            lemma_mul_is_associative(2, pow2((j - 1) as nat) as int, k as int);
            lemma_mul_is_commutative((2 * pow2((j - 1) as nat)) as int, k as int);
        }
        lemma_mod_multiples_basic(k as int, pow2(j) as int);
    }
}

/// A multiple of `2^m` that loses a power of two of its alignment is
/// still a multiple of the smaller power.
proof fn lemma_mod_pow2_weaken(x: nat, m1: nat, m2: nat)
    requires
        m2 <= m1,
        x % pow2(m1) == 0,
    ensures
        x % pow2(m2) == 0,
{
    lemma_pow2_pos(m1);
    lemma_pow2_pos(m2);
    lemma_pow2_pos((m1 - m2) as nat);
    let q = x / pow2(m1);
    lemma_fundamental_div_mod(x as int, pow2(m1) as int);
    lemma_pow2_adds((m1 - m2) as nat, m2);
    assert(x == (q * pow2((m1 - m2) as nat)) * pow2(m2)) by {
        lemma_mul_is_commutative(q as int, pow2(m1) as int);
        lemma_mul_is_associative(q as int, pow2((m1 - m2) as nat) as int, pow2(m2) as int);
    }
    lemma_mod_multiples_basic((q * pow2((m1 - m2) as nat)) as int, pow2(m2) as int);
}

/// Halving a multiple of `2^m` gives a multiple of `2^(m-1)`.
proof fn lemma_div2_of_multiple(x: nat, m: nat)
    requires
        m >= 1,
        x % pow2(m) == 0,
    ensures
        (x / 2) % pow2((m - 1) as nat) == 0,
{
    lemma_pow2_pos(m);
    lemma_pow2_pos((m - 1) as nat);
    let q = x / pow2(m);
    lemma_fundamental_div_mod(x as int, pow2(m) as int);
    assert(pow2(m) == 2 * pow2((m - 1) as nat)) by {
        lemma_pow2_adds(1, (m - 1) as nat);
        lemma2_to64();
    }
    assert(x == 2 * (q * pow2((m - 1) as nat))) by {
        lemma_mul_is_commutative(q as int, pow2(m) as int);
        lemma_mul_is_associative(2, pow2((m - 1) as nat) as int, q as int);
        lemma_mul_is_associative(2, q as int, pow2((m - 1) as nat) as int);
        lemma_mul_is_commutative(pow2((m - 1) as nat) as int, q as int);
    }
    assert(x / 2 == q * pow2((m - 1) as nat)) by {
        lemma_div_multiples_vanish((q * pow2((m - 1) as nat)) as int, 2);
    }
    lemma_mod_multiples_basic(q as int, pow2((m - 1) as nat) as int);
}

/// Spreading keeps a bit alignment, doubled: a multiple of `2^j` spreads
/// to a multiple of `2^(2*j)`.
proof fn lemma_spread_aligned(x: nat, j: nat)
    requires
        x % pow2(j) == 0,
    ensures
        spread_bits(x) % pow2(2 * j) == 0,
    decreases j,
{
    lemma_pow2_pos(j);
    lemma_pow2_pos(2 * j);
    if j == 0 {
        lemma_mod_multiples_basic(spread_bits(x) as int, 1);
        lemma2_to64();
    } else {
        assert(x % 2 == 0) by {
            lemma_mod_pow2_weaken(x, j, 1);
            lemma2_to64();
        }
        lemma_div2_of_multiple(x, j);
        lemma_spread_aligned(x / 2, (j - 1) as nat);
        lemma_spread_bits_unfold(x);
        let k = spread_bits(x / 2) / pow2((2 * j - 2) as nat);
        lemma_pow2_pos((2 * j - 2) as nat);
        lemma_fundamental_div_mod(spread_bits(x / 2) as int, pow2((2 * j - 2) as nat) as int);
        assert(spread_bits(x) == 4 * (pow2((2 * j - 2) as nat) * k));
        assert(pow2(2 * j) == 4 * pow2((2 * j - 2) as nat)) by {
            lemma_pow2_adds(2, (2 * j - 2) as nat);
            lemma2_to64();
        }
        assert(spread_bits(x) == k * pow2(2 * j)) by {
            lemma_mul_is_associative(4, pow2((2 * j - 2) as nat) as int, k as int);
            lemma_mul_is_commutative((4 * pow2((2 * j - 2) as nat)) as int, k as int);
        }
        lemma_mod_multiples_basic(k as int, pow2(2 * j) as int);
    }
}

/// Reading the cells of a reconstructed geohash gives back exactly the
/// cells it was built from: `hash_of_cells` inverts the cell extraction.
/// In particular the bounding box of a geohash starts at the very cell
/// corner the hash encodes.
pub proof fn lemma_cell_round_trip(la: nat, ln: nat, bits: nat)
    requires
        1 <= bits <= 64,
        la < pow2(lat_bits_of(bits)),
        ln < pow2(lng_bits_of(bits)),
    ensures
        hash_of_cells(la, ln, bits) < pow2(bits),
        lat_cell_of(hash_of_cells(la, ln, bits) as u64, bits) == la,
        lng_cell_of(hash_of_cells(la, ln, bits) as u64, bits) == ln,
{
    let jl = (32 - lat_bits_of(bits)) as nat;
    let jg = (32 - lng_bits_of(bits)) as nat;
    let sh = (64 - bits) as nat;
    let a = la * pow2(jl);
    let b = ln * pow2(jg);
    let v = interleave_bits(a, b);
    let h = hash_of_cells(la, ln, bits);
    lemma_pow2_pos(jl);
    lemma_pow2_pos(jg);
    lemma_pow2_pos(sh);
    lemma_pow2_pos(bits);
    // the two fields fit in 32 bits
    assert(a < pow2(32) && b < pow2(32)) by {
        lemma_mul_inequality(la as int, (pow2(lat_bits_of(bits)) - 1) as int, pow2(jl) as int);
        lemma_mul_is_distributive_sub_other_way(
            pow2(jl) as int, pow2(lat_bits_of(bits)) as int, 1);
        lemma_mul_is_commutative(pow2(lat_bits_of(bits)) as int, pow2(jl) as int);
        lemma_pow2_adds(jl, lat_bits_of(bits));
        lemma_mul_inequality(ln as int, (pow2(lng_bits_of(bits)) - 1) as int, pow2(jg) as int);
        lemma_mul_is_distributive_sub_other_way(
            pow2(jg) as int, pow2(lng_bits_of(bits)) as int, 1);
        lemma_mul_is_commutative(pow2(lng_bits_of(bits)) as int, pow2(jg) as int);
        lemma_pow2_adds(jg, lng_bits_of(bits));
    }
    // the interleaved word fits in 64 bits: a spread value keeps to the
    // even positions, so a spread plus twice a spread cannot carry out
    assert(v < pow2(64)) by {
        lemma2_to64();
        lemma_spread_bits_even_max(a);
        lemma_spread_bits_even_max(b);
    }
    // the word is aligned: its low `64 - bits` bits are zero
    assert(v % pow2(sh) == 0) by {
        lemma_mod_multiples_basic(la as int, pow2(jl) as int);
        lemma_mod_multiples_basic(ln as int, pow2(jg) as int);
        lemma_spread_aligned(a, jl);
        lemma_spread_aligned(b, jg);
        let k1 = spread_bits(a) / pow2(2 * jl);
        let k2 = spread_bits(b) / pow2(2 * jg);
        lemma_pow2_pos(2 * jl);
        lemma_pow2_pos(2 * jg);
        lemma_fundamental_div_mod(spread_bits(a) as int, pow2(2 * jl) as int);
        lemma_fundamental_div_mod(spread_bits(b) as int, pow2(2 * jg) as int);
        // spread(a) is a multiple of 2^(2*jl), which 2^sh divides
        assert(spread_bits(a) % pow2(sh) == 0) by {
            assert(spread_bits(a) == k1 * pow2(2 * jl)) by {
                lemma_mul_is_commutative(pow2(2 * jl) as int, k1 as int);
            }
            lemma_mod_multiples_basic(k1 as int, pow2(2 * jl) as int);
            lemma_mod_pow2_weaken(spread_bits(a), 2 * jl, sh);
        }
        // twice spread(b) is a multiple of 2^(2*jg + 1), which 2^sh divides
        assert((2 * spread_bits(b)) % pow2(sh) == 0) by {
            assert(2 * spread_bits(b) == k2 * pow2(2 * jg + 1)) by {
                lemma_mul_is_commutative(pow2(2 * jg) as int, k2 as int);
                lemma_mul_is_associative(2, k2 as int, pow2(2 * jg) as int);
                lemma_mul_is_associative(k2 as int, 2, pow2(2 * jg) as int);
                lemma_mul_is_commutative(2, k2 as int);
                lemma_pow2_adds(1, 2 * jg);
                lemma2_to64();
                lemma_mul_is_commutative(2, pow2(2 * jg) as int);
            }
            lemma_pow2_pos(2 * jg + 1);
            lemma_mod_multiples_basic(k2 as int, pow2(2 * jg + 1) as int);
            lemma_mod_pow2_weaken(2 * spread_bits(b), 2 * jg + 1, sh);
        }
        let q1 = spread_bits(a) / pow2(sh);
        let q2 = (2 * spread_bits(b)) / pow2(sh);
        lemma_fundamental_div_mod(spread_bits(a) as int, pow2(sh) as int);
        lemma_fundamental_div_mod((2 * spread_bits(b)) as int, pow2(sh) as int);
        assert(v == (q1 + q2) * pow2(sh)) by {
            lemma_mul_is_distributive_add_other_way(pow2(sh) as int, q1 as int, q2 as int);
            lemma_mul_is_commutative(pow2(sh) as int, q1 as int);
            lemma_mul_is_commutative(pow2(sh) as int, q2 as int);
            lemma_mul_is_commutative(pow2(sh) as int, (q1 + q2) as int);
        }
        lemma_mod_multiples_basic((q1 + q2) as int, pow2(sh) as int);
    }
    // the truncation in hash_of_cells is therefore exact
    lemma_fundamental_div_mod(v as int, pow2(sh) as int);
    assert(v == h * pow2(sh)) by {
        lemma_mul_is_commutative(pow2(sh) as int, h as int);
    }
    assert(h < pow2(bits)) by {
        lemma_pow2_adds(sh, bits);
        lemma_multiply_divide_lt(v as int, pow2(sh) as int, pow2(bits) as int);
        lemma_mul_is_commutative(pow2(sh) as int, pow2(bits) as int);
    }
    // shifting the hash back up recovers the aligned word
    assert((full_word(h as u64, bits) as nat) == v) by {
        assert(h <= v) by {
            lemma_mul_inequality(1, pow2(sh) as int, h as int);
            lemma_mul_is_commutative(pow2(sh) as int, h as int);
        }
        assert(u64::MAX == pow2(64) - 1) by {
            lemma2_to64();
        }
        lemma_u64_pow2_no_overflow(sh);
        lemma_u64_shl_is_mul(h as u64, sh as u64);
    }
    // squashing reads the two fields back
    morton::lemma_squash_of_spread_pair(a, b);
    assert(lat32_of(h as u64, bits) == a);
    assert(lat_cell_of(h as u64, bits) == la) by {
        lemma_div_by_multiple(la as int, pow2(jl) as int);
    }
    assert((v / 2) == spread_bits(b) + 2 * spread_bits(a / 2)) by {
        lemma_interleave_div2(a, b);
    }
    morton::lemma_squash_of_spread_pair(b, a / 2);
    assert(lng32_of(h as u64, bits) == b);
    assert(lng_cell_of(h as u64, bits) == ln) by {
        lemma_div_by_multiple(ln as int, pow2(jg) as int);
    }
}

/// A spread value keeps to the even bit positions: it never exceeds the
/// alternating-bit mask.
proof fn lemma_spread_bits_even_max(x: nat)
    requires
        x < pow2(32),
    ensures
        spread_bits(x) <= 0x5555_5555_5555_5555,
    decreases x,
{
    lemma2_to64();
    vstd::arithmetic::power2::lemma2_to64_rest();
    if x == 0 {
    } else {
        assert(x / 2 < pow2(31)) by {
            lemma_pow2_adds(1, 31);
        }
        lemma_spread_bits_even_bound(x / 2, 31);
        lemma_spread_bits_unfold(x);
    }
}

/// The sharper range of spreading a `k`-bit field: at most the `k`-pair
/// alternating mask, `(4^k - 1) / 3`.
proof fn lemma_spread_bits_even_bound(x: nat, k: nat)
    requires
        x < pow2(k),
    ensures
        3 * spread_bits(x) <= pow2(2 * k) - 1,
    decreases k,
{
    lemma_pow2_pos(k);
    lemma_pow2_pos(2 * k);
    if k == 0 {
        lemma2_to64();
    } else {
        assert(x / 2 < pow2((k - 1) as nat)) by {
            lemma_pow2_adds(1, (k - 1) as nat);
            lemma2_to64();
        }
        lemma_spread_bits_even_bound(x / 2, (k - 1) as nat);
        lemma_spread_bits_unfold(x);
        lemma_pow2_pos((2 * k - 2) as nat);
        assert(pow2(2 * k) == 4 * pow2((2 * k - 2) as nat)) by {
            lemma_pow2_adds(2, (2 * k - 2) as nat);
            lemma2_to64();
        }
        assert(3 * spread_bits(x) == 3 * (x % 2) + 4 * (3 * spread_bits(x / 2))) by {
            lemma_mul_is_distributive_add_other_way(
                3, (x % 2) as int, (4 * spread_bits(x / 2)) as int);
            lemma_mul_is_associative(3, 4, spread_bits(x / 2) as int);
            lemma_mul_is_associative(4, 3, spread_bits(x / 2) as int);
        }
        assert(4 * (3 * spread_bits(x / 2)) <= 4 * (pow2((2 * k - 2) as nat) - 1)) by {
            lemma_mul_inequality(
                (3 * spread_bits(x / 2)) as int, (pow2((2 * k - 2) as nat) - 1) as int, 4);
            lemma_mul_is_commutative((3 * spread_bits(x / 2)) as int, 4);
            lemma_mul_is_commutative((pow2((2 * k - 2) as nat) - 1) as int, 4);
        }
    }
}

/// One saturating cell step on a top-aligned 32-bit quantized coordinate
/// whose cell occupies the top `width` bits.
fn moved(x: u32, width: usize, d: i32) -> (r: u32)
    requires
        width <= 32,
        -1 <= d <= 1,
        (x as nat) % pow2((32 - width) as nat) == 0,
    ensures
        (r as nat) / pow2((32 - width) as nat) == cell_step(
            (x as nat) / pow2((32 - width) as nat),
            width as nat,
            d as int,
        ),
{
    proof {
        lemma_pow2_pos((32 - width) as nat);
        lemma2_to64();
    }
    if width == 0 || d == 0 {
        proof {
            if width == 0 {
                lemma_basic_div(x as int, pow2(32) as int);
            }
        }
        x
    } else {
        let p: u32 = 1u32 << ((32 - width) as u32);
        let ghost pn = pow2((32 - width) as nat);
        let ghost w2 = pow2(width as nat);
        let ghost c = (x as nat) / pn;
        proof {
            vstd::bits::lemma_u32_pow2_no_overflow((32 - width) as nat);
            vstd::bits::lemma_u32_shl_is_mul(1u32, (32 - width) as u32);
            assert(p == pn);
            lemma_fundamental_div_mod(x as int, pn as int);
            assert(x as nat == c * pn) by {
                lemma_mul_is_commutative(pn as int, c as int);
            }
            lemma_pow2_adds((32 - width) as nat, width as nat);
            assert(pn * w2 == pow2(32));
            lemma_pow2_pos(width as nat);
            assert((x as nat) < pn * w2);
            lemma_multiply_divide_lt(x as int, pn as int, w2 as int);
            assert(c < w2);
        }
        if d > 0 {
            if x <= u32::MAX - p {
                proof {
                    assert((x + p) as nat == (c + 1) * pn) by {
                        lemma_mul_is_distributive_add_other_way(pn as int, c as int, 1);
                    }
                    lemma_div_by_multiple((c + 1) as int, pn as int);
                    assert(c + 1 < w2) by {
                        if c + 1 >= w2 {
                            lemma_mul_inequality(w2 as int, (c + 1) as int, pn as int);
                            lemma_mul_is_commutative(w2 as int, pn as int);
                        }
                    }
                }
                x + p
            } else {
                proof {
                    assert((c + 1) * pn > u32::MAX) by {
                        lemma_mul_is_distributive_add_other_way(pn as int, c as int, 1);
                    }
                    assert(c + 1 >= w2) by {
                        if c + 1 < w2 {
                            lemma_mul_inequality((c + 1) as int, (w2 - 1) as int, pn as int);
                            lemma_mul_is_distributive_sub_other_way(pn as int, w2 as int, 1);
                            lemma_mul_is_commutative(w2 as int, pn as int);
                        }
                    }
                    assert(c < w2);
                    assert((u32::MAX as nat) == (w2 - 1) * pn + (pn - 1)) by {
                        lemma_mul_is_distributive_sub_other_way(pn as int, w2 as int, 1);
                        lemma_mul_is_commutative(w2 as int, pn as int);
                    }
                    lemma_fundamental_div_mod_converse(
                        u32::MAX as int, pn as int, (w2 - 1) as int, (pn - 1) as int);
                }
                u32::MAX
            }
        } else {
            if x >= p {
                proof {
                    assert(c >= 1) by {
                        if c == 0 {
                            assert(x as nat == 0 * pn);
                        }
                    }
                    assert((x - p) as nat == (c - 1) * pn) by {
                        lemma_mul_is_distributive_sub_other_way(pn as int, c as int, 1);
                    }
                    lemma_div_by_multiple((c - 1) as int, pn as int);
                }
                x - p
            } else {
                proof {
                    lemma_basic_div(x as int, pn as int);
                    lemma_basic_div(0, pn as int);
                }
                0
            }
        }
    }
}

/// The integer geohash assembled from moved quantized coordinates: the
/// top `bits` bits of their interleaving.
fn one_neighbor(lat: u32, lng: u32, bits: usize, dlat: i32, dlng: i32) -> (r: u64)
    requires
        1 <= bits <= 64,
        -1 <= dlat <= 1,
        -1 <= dlng <= 1,
        (lat as nat) % pow2((32 - lat_bits_of(bits as nat)) as nat) == 0,
        (lng as nat) % pow2((32 - lng_bits_of(bits as nat)) as nat) == 0,
    ensures
        r == hash_of_cells(
            cell_step(
                (lat as nat) / pow2((32 - lat_bits_of(bits as nat)) as nat),
                lat_bits_of(bits as nat),
                dlat as int,
            ),
            cell_step(
                (lng as nat) / pow2((32 - lng_bits_of(bits as nat)) as nat),
                lng_bits_of(bits as nat),
                dlng as int,
            ),
            bits as nat,
        ),
{
    let latb = bits / 2;
    let lngb = bits - latb;
    let a = moved(lat, latb, dlat);
    let b = moved(lng, lngb, dlng);
    let v = morton::interleave(a, b);
    let sh = (64 - bits) as u64;
    proof {
        lemma_u64_shr_is_div(v, sh);
        lemma_truncated_interleave(a as nat, b as nat, bits as nat);
    }
    v >> sh
}

proof fn lemma_shl_mask(x: u64, sh: u64)
    by (bit_vector)
    requires
        sh < 64,
    ensures
        (x << sh) & (((1u64 << sh) - 1) as u64) == 0,
{
}

/// The full word of an integer geohash has its low `64 - bits` bits clear.
proof fn lemma_full_word_aligned(hash: u64, bits: nat)
    requires
        1 <= bits <= 64,
    ensures
        (full_word(hash, bits) as nat) % pow2((64 - bits) as nat) == 0,
{
    let sh = (64 - bits) as u64;
    lemma_shl_mask(hash, sh);
    lemma_u64_pow2_no_overflow(sh as nat);
    lemma_u64_shl_is_mul(1u64, sh);
    assert(1u64 << sh == pow2(sh as nat));
    vstd::bits::lemma_u64_low_bits_mask_is_mod(hash << sh, sh as nat);
    assert(vstd::bits::low_bits_mask(sh as nat) == ((1u64 << sh) - 1) as nat);
}

/// The quantized latitude of a geohash keeps its cell in the top bits:
/// everything below is zero.  The same holds for longitude.
proof fn lemma_coords_aligned(hash: u64, bits: nat)
    requires
        1 <= bits <= 64,
    ensures
        lat32_of(hash, bits) % pow2((32 - lat_bits_of(bits)) as nat) == 0,
        lng32_of(hash, bits) % pow2((32 - lng_bits_of(bits)) as nat) == 0,
{
    let sh = (64 - bits) as nat;
    let full = full_word(hash, bits) as nat;
    let jl = (32 - lat_bits_of(bits)) as nat;
    let jg = (32 - lng_bits_of(bits)) as nat;
    lemma_full_word_aligned(hash, bits);
    lemma2_to64();
    if jl == 0 {
        assert(lat32_of(hash, bits) % pow2(0) == 0) by {
            lemma_mod_multiples_basic(lat32_of(hash, bits) as int, 1);
        }
    } else {
        assert(2 * jl - 1 <= sh);
        lemma_mod_pow2_weaken(full, sh, (2 * jl - 1) as nat);
        lemma_squash_mod_zero(full, jl);
    }
    if jg == 0 {
        assert(lng32_of(hash, bits) % pow2(0) == 0) by {
            lemma_mod_multiples_basic(lng32_of(hash, bits) as int, 1);
        }
    } else {
        assert(sh >= 1);
        lemma_div2_of_multiple(full, sh);
        assert(2 * jg - 1 <= sh - 1);
        lemma_mod_pow2_weaken(full / 2, (sh - 1) as nat, (2 * jg - 1) as nat);
        lemma_squash_mod_zero(full / 2, jg);
    }
}

/// neighbors_int_with_precision returns the integer geohashes adjacent to
/// the given hash at the given precision, in the order N, NE, E, SE, S,
/// SW, W, NW.  At the edge of the coordinate domain a neighbor saturates
/// to the edge cell instead of wrapping.
pub fn neighbors_int_with_precision(hash: u64, bits: usize) -> (res: [u64; 8])
    requires
        1 <= bits <= 64,
    ensures
        forall|k: int|
            0 <= k < 8 ==> #[trigger] res@[k] == neighbor_hash(
                hash,
                bits as nat,
                lat_offset(k),
                lng_offset(k),
            ),
{
    let sh = (64 - bits) as u64;
    let full = hash << sh;
    let (lat, lng) = morton::deinterleave(full);
    proof {
        assert(full == full_word(hash, bits as nat));
        lemma_coords_aligned(hash, bits as nat);
    }
    let res = [
        one_neighbor(lat, lng, bits, 1, 0),
        one_neighbor(lat, lng, bits, 1, 1),
        one_neighbor(lat, lng, bits, 0, 1),
        one_neighbor(lat, lng, bits, -1, 1),
        one_neighbor(lat, lng, bits, -1, 0),
        one_neighbor(lat, lng, bits, -1, -1),
        one_neighbor(lat, lng, bits, 0, -1),
        one_neighbor(lat, lng, bits, 1, -1),
    ];
    proof {
        assert forall|k: int| 0 <= k < 8 implies #[trigger] res@[k] == neighbor_hash(
            hash,
            bits as nat,
            lat_offset(k),
            lng_offset(k),
        ) by {
            assert(lat == lat32_of(hash, bits as nat));
            assert(lng == lng32_of(hash, bits as nat));
        }
    }
    res
}

/// The characters of the string form of an integer geohash at `chars`
/// characters of precision: the last `chars` of its 12 base32 symbols.
pub open spec fn hash_chars(hash: u64, chars: nat) -> Seq<char> {
    Seq::new(
        chars,
        |j: int| base32::symbol_char_for(
            ((hash >> ((5 * (chars - 1 - j)) as u64)) & 0x1f) as nat,
        ),
    )
}

/// Relies on String::push: it appends exactly the one character.
#[verifier::external_body]
fn push_char(s: &mut String, c: char)
    ensures
        final(s)@ == old(s)@.push(c),
{
    s.push(c);
}

/// The string form of an integer geohash of `5 * chars` bits: its bits
/// written as the last `chars` of the 12 base32 symbols.
pub fn hash_string(hash: u64, chars: usize) -> (s: String)
    requires
        chars <= 12,
    ensures
        s@ == hash_chars(hash, chars as nat),
{
    let ghost want = hash_chars(hash, chars as nat);
    let mut s = String::new();
    let mut j: usize = 0;
    while j < chars
        invariant
            chars <= 12,
            j <= chars,
            want == hash_chars(hash, chars as nat),
            s@ == want.subrange(0, j as int),
        decreases chars - j,
    {
        let sh = (5 * (chars - 1 - j)) as u64;
        proof {
            assert((hash >> sh) & 0x1f < 32) by (bit_vector);
        }
        let c = base32::symbol_char(((hash >> sh) & 0x1f) as u8);
        push_char(&mut s, c);
        j = j + 1;
        proof {
            assert(s@ =~= want.subrange(0, j as int));
        }
    }
    proof {
        assert(want.subrange(0, chars as int) =~= want);
    }
    s
}

/// At a fixed coordinate each geohash string is a prefix of the next
/// longer one: the string of the top `5 * k` bits of the full-precision
/// word is the first `k` characters of the string of its top
/// `5 * (k + 1)` bits.
pub proof fn lemma_prefix_property(full: u64, k: nat)
    requires
        1 <= k < 12,
    ensures
        hash_chars(full >> ((64 - 5 * k) as u64), k) == hash_chars(
            full >> ((64 - 5 * (k + 1)) as u64),
            k + 1,
        ).subrange(0, k as int),
{
    let short = hash_chars(full >> ((64 - 5 * k) as u64), k);
    let long = hash_chars(full >> ((64 - 5 * (k + 1)) as u64), k + 1);
    assert forall|j: int| 0 <= j < k implies short[j] == long[j] by {
        let s1 = (64 - 5 * k) as u64;
        let t1 = (5 * (k - 1 - j)) as u64;
        let s2 = (64 - 5 * (k + 1)) as u64;
        let t2 = (5 * (k - j)) as u64;
        lemma_shr_twice(full, s1, t1);
        lemma_shr_twice(full, s2, t2);
        assert(s1 + t1 == 59 - 5 * j);
        assert(s2 + t2 == 59 - 5 * j);
    }
    assert(short =~= long.subrange(0, k as int));
}

#[verifier::rlimit(100)]
proof fn lemma_shr_twice(x: u64, s1: u64, s2: u64)
    by (bit_vector)
    requires
        s1 + s2 < 64,
    ensures
        (x >> s1) >> s2 == x >> (s1 + s2) as u64,
{
}

/// The reasons a geohash string fails validation.
#[derive(Debug, Clone, Copy, PartialEq, Eq, Structural)]
pub enum ErrorKind {
    /// the string implies more than 64 bits of precision
    InvalidLength,
    /// the string holds this byte, which no geohash may contain
    InvalidCharacter(u8),
}

/// The first byte of `s` that may not appear in a geohash, if any.
pub open spec fn first_invalid_byte(s: Seq<u8>) -> Option<u8>
    decreases s.len(),
{
    if s.len() == 0 {
        None
    } else if !base32::is_accepted_byte(s[0]) {
        Some(s[0])
    } else {
        first_invalid_byte(s.drop_first())
    }
}

/// What validate returns for the bytes of a geohash string.
pub open spec fn validate_result(s: Seq<u8>) -> Result<(), ErrorKind> {
    if 5 * s.len() > 64 {
        Err(ErrorKind::InvalidLength)
    } else {
        match first_invalid_byte(s) {
            Some(b) => Err(ErrorKind::InvalidCharacter(b)),
            None => Ok(()),
        }
    }
}

proof fn lemma_first_invalid_none(s: Seq<u8>)
    requires
        forall|j: int| 0 <= j < s.len() ==> base32::is_accepted_byte(#[trigger] s[j]),
    ensures
        first_invalid_byte(s) is None,
    decreases s.len(),
{
    if s.len() > 0 {
        lemma_first_invalid_none(s.drop_first());
    }
}

proof fn lemma_first_invalid_at(s: Seq<u8>, i: int)
    requires
        0 <= i < s.len(),
        forall|j: int| 0 <= j < i ==> base32::is_accepted_byte(#[trigger] s[j]),
        !base32::is_accepted_byte(s[i]),
    ensures
        first_invalid_byte(s) == Some(s[i]),
    decreases i,
{
    if i > 0 {
        lemma_first_invalid_at(s.drop_first(), i - 1);
    }
}

/// validate checks a geohash string: at most 12 characters, so at most
/// 64 bits of precision, and every byte from the accepted set.  It
/// returns the first reason the string fails, if any.
pub fn validate(hash: &str) -> (r: Result<(), ErrorKind>)
    ensures
        r == validate_result(hash.spec_bytes()),
        r is Ok <==> (hash.spec_bytes().len() <= 12 && forall|j: int|
            0 <= j < hash.spec_bytes().len() ==> base32::is_accepted_byte(
                #[trigger] hash.spec_bytes()[j],
            )),
{
    let bytes = hash.as_bytes();
    let n = bytes.len();
    // 5 bits per character: more than 12 characters cannot fit in 64 bits
    if n > 12 {
        return Err(ErrorKind::InvalidLength);
    }
    let mut i: usize = 0;
    while i < n
        invariant
            n == bytes@.len() <= 12,
            bytes@ == hash.spec_bytes(),
            i <= n,
            forall|j: int| 0 <= j < i ==> base32::is_accepted_byte(#[trigger] bytes@[j]),
        decreases n - i,
    {
        if !base32::valid_byte(bytes[i]) {
            proof {
                lemma_first_invalid_at(bytes@, i as int);
            }
            return Err(ErrorKind::InvalidCharacter(bytes[i]));
        }
        i = i + 1;
    }
    proof {
        lemma_first_invalid_none(bytes@);
    }
    Ok(())
}

/// The characters of the neighbor of a string geohash with the given
/// bytes, `dlat` and `dlng` cells away, at the string's own precision.
pub open spec fn neighbor_chars(bytes: Seq<u8>, dlat: int, dlng: int) -> Seq<char> {
    hash_chars(
        neighbor_hash(base32::decoded_value(bytes), (5 * bytes.len()) as nat, dlat, dlng) as u64,
        bytes.len() as nat,
    )
}

/// neighbors returns the geohash strings adjacent to the given geohash,
/// in the order N, NE, E, SE, S, SW, W, NW, each at the precision of the
/// input.
pub fn neighbors(hash: &str) -> (res: [String; 8])
    requires
        1 <= hash.spec_bytes().len() <= 12,
    ensures
        forall|k: int|
            0 <= k < 8 ==> (#[trigger] res@[k])@ == neighbor_chars(
                hash.spec_bytes(),
                lat_offset(k),
                lng_offset(k),
            ),
{
    let bytes = hash.as_bytes();
    let chars = bytes.len();
    let inthash = base32::decode(bytes);
    let bits = 5 * chars;
    let ns = neighbors_int_with_precision(inthash, bits);
    let res = [
        hash_string(ns[0], chars),
        hash_string(ns[1], chars),
        hash_string(ns[2], chars),
        hash_string(ns[3], chars),
        hash_string(ns[4], chars),
        hash_string(ns[5], chars),
        hash_string(ns[6], chars),
        hash_string(ns[7], chars),
    ];
    res
}

/// neighbor returns the geohash string adjacent to the given geohash in
/// the given direction, at the precision of the input.
pub fn neighbor(hash: &str, direction: Direction) -> (r: String)
    requires
        1 <= hash.spec_bytes().len() <= 12,
        direction < 8,
    ensures
        r@ == neighbor_chars(
            hash.spec_bytes(),
            lat_offset(direction as int),
            lng_offset(direction as int),
        ),
{
    let res = neighbors(hash);
    let r = vstd::array::array_index_get(&res, direction).clone();
    r
}

/// neighbors_int returns the integer geohashes adjacent to the given hash
/// at 64-bit precision, in the order N, NE, E, SE, S, SW, W, NW.
pub fn neighbors_int(hash: u64) -> (res: [u64; 8])
    ensures
        forall|k: int|
            0 <= k < 8 ==> #[trigger] res@[k] == neighbor_hash(hash, 64, lat_offset(k), lng_offset(k)),
{
    neighbors_int_with_precision(hash, 64)
}

/// neighbor_int returns the integer geohash adjacent to the given hash in
/// the given direction at 64-bit precision.
pub fn neighbor_int(hash: u64, direction: Direction) -> (r: u64)
    requires
        direction < 8,
    ensures
        r == neighbor_hash(hash, 64, lat_offset(direction as int), lng_offset(direction as int)),
{
    let res = neighbors_int_with_precision(hash, 64);
    res[direction]
}

/// neighbor_int_with_precision returns the integer geohash adjacent to
/// the given hash in the given direction at the given precision.
pub fn neighbor_int_with_precision(hash: u64, bits: usize, direction: Direction) -> (r: u64)
    requires
        1 <= bits <= 64,
        direction < 8,
    ensures
        r == neighbor_hash(
            hash,
            bits as nat,
            lat_offset(direction as int),
            lng_offset(direction as int),
        ),
{
    let res = neighbors_int_with_precision(hash, bits);
    res[direction]
}

} // verus!
