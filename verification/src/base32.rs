//! The 32-symbol geohash alphabet: digits `0`-`9` and the lowercase
//! letters except `a`, `i`, `l` and `o`.  Each symbol carries five bits.

use vstd::prelude::*;

verus! {

/// The symbol byte for a five-bit value; values outside `0..32` give the
/// zero symbol `'0'`.
pub open spec fn symbol_for(v: nat) -> u8 {
    if v == 0 { 48 } else if v == 1 { 49 } else if v == 2 { 50 }
    else if v == 3 { 51 } else if v == 4 { 52 } else if v == 5 { 53 }
    else if v == 6 { 54 } else if v == 7 { 55 } else if v == 8 { 56 }
    else if v == 9 { 57 } else if v == 10 { 98 } else if v == 11 { 99 }
    else if v == 12 { 100 } else if v == 13 { 101 } else if v == 14 { 102 }
    else if v == 15 { 103 } else if v == 16 { 104 } else if v == 17 { 106 }
    else if v == 18 { 107 } else if v == 19 { 109 } else if v == 20 { 110 }
    else if v == 21 { 112 } else if v == 22 { 113 } else if v == 23 { 114 }
    else if v == 24 { 115 } else if v == 25 { 116 } else if v == 26 { 117 }
    else if v == 27 { 118 } else if v == 28 { 119 } else if v == 29 { 120 }
    else if v == 30 { 121 } else if v == 31 { 122 } else { 48 }
}

/// The five-bit value of a symbol byte; bytes outside the alphabet carry
/// the value of the zero symbol, `0`.
pub open spec fn value_of(b: u8) -> u64 {
    if b == 48 { 0 } else if b == 49 { 1 } else if b == 50 { 2 }
    else if b == 51 { 3 } else if b == 52 { 4 } else if b == 53 { 5 }
    else if b == 54 { 6 } else if b == 55 { 7 } else if b == 56 { 8 }
    else if b == 57 { 9 } else if b == 98 { 10 } else if b == 99 { 11 }
    else if b == 100 { 12 } else if b == 101 { 13 } else if b == 102 { 14 }
    else if b == 103 { 15 } else if b == 104 { 16 } else if b == 106 { 17 }
    else if b == 107 { 18 } else if b == 109 { 19 } else if b == 110 { 20 }
    else if b == 112 { 21 } else if b == 113 { 22 } else if b == 114 { 23 }
    else if b == 115 { 24 } else if b == 116 { 25 } else if b == 117 { 26 }
    else if b == 118 { 27 } else if b == 119 { 28 } else if b == 120 { 29 }
    else if b == 121 { 30 } else if b == 122 { 31 } else { 0 }
}

/// Whether a byte is one of the 32 alphabet symbols.
pub open spec fn is_symbol(b: u8) -> bool {
    symbol_for(value_of(b) as nat) == b
}

/// Whether a byte may appear in a geohash string: the letter `a` or any
/// alphabet symbol.
pub open spec fn is_accepted_byte(b: u8) -> bool {
    b == 97 || is_symbol(b)
}

/// The symbol for a five-bit value as a character; values outside
/// `0..32` give the zero symbol `'0'`.
pub open spec fn symbol_char_for(v: nat) -> char {
    if v == 0 { '0' } else if v == 1 { '1' } else if v == 2 { '2' }
    else if v == 3 { '3' } else if v == 4 { '4' } else if v == 5 { '5' }
    else if v == 6 { '6' } else if v == 7 { '7' } else if v == 8 { '8' }
    else if v == 9 { '9' } else if v == 10 { 'b' } else if v == 11 { 'c' }
    else if v == 12 { 'd' } else if v == 13 { 'e' } else if v == 14 { 'f' }
    else if v == 15 { 'g' } else if v == 16 { 'h' } else if v == 17 { 'j' }
    else if v == 18 { 'k' } else if v == 19 { 'm' } else if v == 20 { 'n' }
    else if v == 21 { 'p' } else if v == 22 { 'q' } else if v == 23 { 'r' }
    else if v == 24 { 's' } else if v == 25 { 't' } else if v == 26 { 'u' }
    else if v == 27 { 'v' } else if v == 28 { 'w' } else if v == 29 { 'x' }
    else if v == 30 { 'y' } else if v == 31 { 'z' } else { '0' }
}

/// The symbol character for a five-bit value.
pub fn symbol_char(v: u8) -> (r: char)
    requires
        v < 32,
    ensures
        r == symbol_char_for(v as nat),
{
    match v {
        0 => '0', 1 => '1', 2 => '2', 3 => '3', 4 => '4', 5 => '5',
        6 => '6', 7 => '7', 8 => '8', 9 => '9', 10 => 'b', 11 => 'c',
        12 => 'd', 13 => 'e', 14 => 'f', 15 => 'g', 16 => 'h', 17 => 'j',
        18 => 'k', 19 => 'm', 20 => 'n', 21 => 'p', 22 => 'q', 23 => 'r',
        24 => 's', 25 => 't', 26 => 'u', 27 => 'v', 28 => 'w', 29 => 'x',
        30 => 'y', _ => 'z',
    }
}

/// The 12 symbol bytes of `x`, most significant first.  Symbol `i` holds
/// bits `55 - 5*i` up; the top four bits of `x` are not represented.
pub open spec fn encoded_symbols(x: u64) -> Seq<u8> {
    Seq::new(12, |i: int| symbol_for(((x >> ((55 - 5 * i) as u64)) & 0x1f) as nat))
}

/// The 64-bit value accumulated by shifting in five bits per input byte,
/// oldest byte highest; bits shifted beyond position 63 are lost.
pub open spec fn decoded_value(s: Seq<u8>) -> u64
    decreases s.len(),
{
    if s.len() == 0 {
        0
    } else {
        (decoded_value(s.drop_last()) << 5u64) | value_of(s.last())
    }
}

fn symbol(v: u8) -> (r: u8)
    requires
        v < 32,
    ensures
        r == symbol_for(v as nat),
{
    match v {
        0 => 48, 1 => 49, 2 => 50, 3 => 51, 4 => 52, 5 => 53,
        6 => 54, 7 => 55, 8 => 56, 9 => 57, 10 => 98, 11 => 99,
        12 => 100, 13 => 101, 14 => 102, 15 => 103, 16 => 104, 17 => 106,
        18 => 107, 19 => 109, 20 => 110, 21 => 112, 22 => 113, 23 => 114,
        24 => 115, 25 => 116, 26 => 117, 27 => 118, 28 => 119, 29 => 120,
        30 => 121, _ => 122,
    }
}

fn symbol_value(b: u8) -> (r: u8)
    ensures
        r == value_of(b),
{
    match b {
        48 => 0, 49 => 1, 50 => 2, 51 => 3, 52 => 4, 53 => 5,
        54 => 6, 55 => 7, 56 => 8, 57 => 9, 98 => 10, 99 => 11,
        100 => 12, 101 => 13, 102 => 14, 103 => 15, 104 => 16, 106 => 17,
        107 => 18, 109 => 19, 110 => 20, 112 => 21, 113 => 22, 114 => 23,
        115 => 24, 116 => 25, 117 => 26, 118 => 27, 119 => 28, 120 => 29,
        121 => 30, 122 => 31, _ => 0,
    }
}

proof fn lemma_five_bits(x: u64, sh: u64)
    by (bit_vector)
    ensures
        (x >> sh) & 0x1f < 32,
{
}

/// The 12 base32 symbols of `x`, most significant first, left-padded with
/// `'0'` when the high bits of `x` are clear.
pub fn encode(x: u64) -> (r: [u8; 12])
    ensures
        r@ == encoded_symbols(x),
{
    proof {
        assert forall|sh: u64| ((x >> sh) & 0x1f) < 32 by {
            lemma_five_bits(x, sh);
        }
        assert(x & 0x1f == (x >> 0u64) & 0x1f) by (bit_vector);
    }
    let b0 = symbol(((x >> 55u64) & 0x1f) as u8);
    let b1 = symbol(((x >> 50u64) & 0x1f) as u8);
    let b2 = symbol(((x >> 45u64) & 0x1f) as u8);
    let b3 = symbol(((x >> 40u64) & 0x1f) as u8);
    let b4 = symbol(((x >> 35u64) & 0x1f) as u8);
    let b5 = symbol(((x >> 30u64) & 0x1f) as u8);
    let b6 = symbol(((x >> 25u64) & 0x1f) as u8);
    let b7 = symbol(((x >> 20u64) & 0x1f) as u8);
    let b8 = symbol(((x >> 15u64) & 0x1f) as u8);
    let b9 = symbol(((x >> 10u64) & 0x1f) as u8);
    let b10 = symbol(((x >> 5u64) & 0x1f) as u8);
    let b11 = symbol((x & 0x1f) as u8);
    let r = [b0, b1, b2, b3, b4, b5, b6, b7, b8, b9, b10, b11];
    proof {
        assert(r@ =~= encoded_symbols(x));
    }
    r
}

/// The value accumulated from the input bytes, five bits per byte, oldest
/// byte highest; bytes outside the alphabet count as the zero symbol.
pub fn decode(s: &[u8]) -> (r: u64)
    ensures
        r == decoded_value(s@),
{
    let mut x: u64 = 0;
    let n = s.len();
    let mut i: usize = 0;
    while i < n
        invariant
            n == s@.len(),
            i <= n,
            x == decoded_value(s@.subrange(0, i as int)),
        decreases n - i,
    {
        let v = symbol_value(s[i]);
        x = (x << 5u64) | (v as u64);
        i = i + 1;
        proof {
            let pre = s@.subrange(0, i as int);
            assert(pre.drop_last() =~= s@.subrange(0, i - 1));
            assert(pre.last() == s@[i - 1]);
        }
    }
    proof {
        assert(s@.subrange(0, n as int) =~= s@);
    }
    x
}

/// Whether a byte may appear in a geohash string: the letter `a` or any
/// alphabet symbol.  `'a'` is accepted here although it is not part of
/// the alphabet and decodes as the zero symbol.
pub fn valid_byte(b: u8) -> (r: bool)
    ensures
        r == is_accepted_byte(b),
{
    let v = symbol_value(b);
    b == 97 || b == 48 || v != 0
}

/// Decoding the 12 symbols of an encoded value recovers the value: the
/// base32 round trip, for every value the 12 symbols can carry.
pub proof fn lemma_base32_round_trip(x: u64)
    requires
        x < 0x1000_0000_0000_0000,
    ensures
        decoded_value(encoded_symbols(x)) == x,
{
    lemma_decode_prefix(x, 12);
    assert(encoded_symbols(x).subrange(0, 12) =~= encoded_symbols(x));
    assert(x < 0x1000_0000_0000_0000 ==> (x >> 0u64) & (0x0fff_ffff_ffff_ffffu64 >> 0u64) == x)
        by (bit_vector);
}

proof fn lemma_decode_prefix(x: u64, k: int)
    requires
        0 <= k <= 12,
    ensures
        decoded_value(encoded_symbols(x).subrange(0, k))
            == (x >> ((60 - 5 * k) as u64)) & (0x0fff_ffff_ffff_ffffu64 >> ((60 - 5 * k) as u64)),
    decreases k,
{
    let s = encoded_symbols(x);
    let sh = (60 - 5 * k) as u64;
    if k == 0 {
        assert(s.subrange(0, 0).len() == 0);
        assert((x >> 60u64) & (0x0fff_ffff_ffff_ffffu64 >> 60u64) == 0) by (bit_vector);
    } else {
        lemma_decode_prefix(x, k - 1);
        let pre = s.subrange(0, k);
        assert(pre.drop_last() =~= s.subrange(0, k - 1));
        assert(pre.last() == symbol_for(((x >> sh) & 0x1f) as nat));
        let sym = (x >> sh) & 0x1f;
        lemma_five_bits(x, sh);
        assert(value_of(symbol_for(sym as nat)) == sym);
        let hi = decoded_value(s.subrange(0, k - 1));
        assert((60 - 5 * (k - 1)) as u64 == sh + 5);
        assert((hi << 5u64) | ((x >> sh) & 0x1f)
            == (x >> sh) & (0x0fff_ffff_ffff_ffffu64 >> sh)) by (bit_vector)
            requires
                sh <= 55,
                hi == (x >> (sh + 5)) & (0x0fff_ffff_ffff_ffffu64 >> (sh + 5)),
        ;
    }
}

} // verus!
