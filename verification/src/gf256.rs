//! The field with 256 elements as AES uses it: bytes are polynomials over
//! `GF(2)` modulo `x^8 + x^4 + x^3 + x + 1`.

use vstd::prelude::*;

verus! {

/// The product of `a` and `x`: a shift, and a reduction by the field
/// polynomial (whose low byte is `0x1b`) where the shift carries out of the
/// byte.
pub open spec fn xtime(a: u8) -> u8 {
    if a & 0x80 != 0 {
        (a << 1) ^ 0x1b
    } else {
        a << 1
    }
}

/// The product of `a` with the lowest `n` bits of `b`: the sum over the set
/// bits `i` of `a * x^i`.
pub open spec fn gf_mul_bits(a: u8, b: u8, n: nat) -> u8
    decreases n,
{
    if n == 0 {
        0
    } else {
        (if b & 1 == 1 { a } else { 0u8 }) ^ gf_mul_bits(xtime(a), b >> 1, (n - 1) as nat)
    }
}

/// The product in `GF(256)`.
pub open spec fn spec_gf256_mul(a: u8, b: u8) -> u8 {
    gf_mul_bits(a, b, 8)
}

/// The power `a^n` in `GF(256)`.
pub open spec fn gf_pow(a: u8, n: nat) -> u8
    decreases n,
{
    if n == 0 {
        1
    } else {
        spec_gf256_mul(a, gf_pow(a, (n - 1) as nat))
    }
}

/// The byte rotated left by 1 to 7 places.
pub open spec fn rotl8(x: u8, k: u8) -> u8 {
    (x << k) | (x >> ((8 - k) as u8))
}

/// The affine map of the AES S-box: bit `i` of the result is the sum of the
/// bits `i`, `i+4`, `i+5`, `i+6`, `i+7` (indices modulo 8) of `x` and bit `i`
/// of `0x63`.
pub open spec fn sbox_affine(x: u8) -> u8 {
    x ^ rotl8(x, 1) ^ rotl8(x, 2) ^ rotl8(x, 3) ^ rotl8(x, 4) ^ 0x63
}

/// The S-box value of a byte: the affine map of its inverse, and of 0 for 0.
pub open spec fn spec_aes_sbox(x: u8) -> u8 {
    sbox_affine(gf_pow(x, 254))
}

/// One row of MixColumns: `2*c0 + 3*c1 + c2 + c3`.
pub open spec fn mix_row(c0: u8, c1: u8, c2: u8, c3: u8) -> u8 {
    spec_gf256_mul(2, c0) ^ spec_gf256_mul(3, c1) ^ c2 ^ c3
}

/// A product with 0 on the left is 0.
pub proof fn lemma_mul_bits_zero(b: u8, n: nat)
    ensures
        gf_mul_bits(0, b, n) == 0,
    decreases n,
{
    if n > 0 {
        assert(xtime(0) == 0) by (bit_vector);
        lemma_mul_bits_zero(b >> 1, (n - 1) as nat);
        assert(0u8 ^ 0u8 == 0u8) by (bit_vector);
    }
}

/// Every positive power of 0 is 0.
pub proof fn lemma_pow_zero(n: nat)
    requires
        n > 0,
    ensures
        gf_pow(0, n) == 0,
{
    lemma_mul_bits_zero(gf_pow(0, (n - 1) as nat), 8);
}

/// Each bit of the affine map is the sum that defines it.
pub proof fn lemma_affine_bits(x: u8, i: u8)
    requires
        i < 8,
    ensures
        (sbox_affine(x) >> i) & 1 == ((x >> i) & 1) ^ ((x >> ((i + 4) % 8) as u8) & 1) ^ ((x >> ((i
            + 5) % 8) as u8) & 1) ^ ((x >> ((i + 6) % 8) as u8) & 1) ^ ((x >> ((i + 7) % 8) as u8)
            & 1) ^ ((0x63u8 >> i) & 1),
{
    let j4: u8 = ((i + 4) % 8) as u8;
    let j5: u8 = ((i + 5) % 8) as u8;
    let j6: u8 = ((i + 6) % 8) as u8;
    let j7: u8 = ((i + 7) % 8) as u8;
    assert((sbox_affine(x) >> i) & 1 == ((x >> i) & 1) ^ ((x >> j4) & 1) ^ ((x >> j5) & 1) ^ ((x
        >> j6) & 1) ^ ((x >> j7) & 1) ^ ((0x63u8 >> i) & 1)) by (bit_vector)
        requires
            i < 8,
            j4 == (i + 4) % 8,
            j5 == (i + 5) % 8,
            j6 == (i + 6) % 8,
            j7 == (i + 7) % 8,
    ;
}

/// Adds two field elements: the exclusive or of the bytes.
pub fn gf256_add(a: u8, b: u8) -> (r: u8)
    ensures
        r == a ^ b,
{
    a ^ b
}

/// Multiplies a field element by `x`.
fn xtime_byte(a: u8) -> (r: u8)
    ensures
        r == xtime(a),
{
    let shifted: u8 = a << 1;
    if a & 0x80 != 0 {
        shifted ^ 0x1b
    } else {
        shifted
    }
}

/// Multiplies two field elements by shift-and-add.
pub fn gf256_mul(a: u8, b: u8) -> (r: u8)
    ensures
        r == spec_gf256_mul(a, b),
{
    let mut result: u8 = 0;
    let mut x: u8 = a;
    let mut y: u8 = b;
    let mut i: u8 = 0;
    assert(0u8 ^ gf_mul_bits(a, b, 8) == gf_mul_bits(a, b, 8)) by (bit_vector);
    while i < 8
        invariant
            i <= 8,
            result ^ gf_mul_bits(x, y, (8 - i) as nat) == spec_gf256_mul(a, b),
        decreases 8 - i,
    {
        let ghost rest = gf_mul_bits(xtime(x), y >> 1, (7 - i) as nat);
        let ghost t: u8 = if y & 1 == 1 { x } else { 0u8 };
        assert((result ^ t) ^ rest == result ^ (t ^ rest)) by (bit_vector);
        assert(result ^ 0u8 == result) by (bit_vector);
        if y & 1 == 1 {
            result = result ^ x;
        }
        x = xtime_byte(x);
        y = y >> 1;
        i = i + 1;
    }
    assert(result ^ 0u8 == result) by (bit_vector);
    result
}

/// The multiplicative inverse, as the power `a^254`; 0 for 0.
pub fn gf256_inv(a: u8) -> (r: u8)
    ensures
        r == gf_pow(a, 254),
        a == 0 ==> r == 0,
{
    let mut result: u8 = 1;
    let mut i: u8 = 0;
    while i < 254
        invariant
            i <= 254,
            result == gf_pow(a, i as nat),
        decreases 254 - i,
    {
        result = gf256_mul(a, result);
        i = i + 1;
    }
    proof {
        if a == 0 {
            lemma_pow_zero(254);
        }
    }
    result
}

/// The AES S-box: the inverse in the field, then the affine map.
pub fn aes_sbox(byte: u8) -> (r: u8)
    ensures
        r == spec_aes_sbox(byte),
{
    let x: u8 = gf256_inv(byte);
    let r1: u8 = (x << 1) | (x >> 7);
    let r2: u8 = (x << 2) | (x >> 6);
    let r3: u8 = (x << 3) | (x >> 5);
    let r4: u8 = (x << 4) | (x >> 4);
    x ^ r1 ^ r2 ^ r3 ^ r4 ^ 0x63
}

/// MixColumns on one column: the product with the matrix whose rows are the
/// rotations of `(2, 3, 1, 1)`.
pub fn aes_mix_column(col: [u8; 4]) -> (r: [u8; 4])
    ensures
        r[0] == mix_row(col[0], col[1], col[2], col[3]),
        r[1] == mix_row(col[1], col[2], col[3], col[0]),
        r[2] == mix_row(col[2], col[3], col[0], col[1]),
        r[3] == mix_row(col[3], col[0], col[1], col[2]),
{
    let c0: u8 = col[0];
    let c1: u8 = col[1];
    let c2: u8 = col[2];
    let c3: u8 = col[3];
    let r0: u8 = gf256_mul(2, c0) ^ gf256_mul(3, c1) ^ c2 ^ c3;
    let r1: u8 = gf256_mul(2, c1) ^ gf256_mul(3, c2) ^ c3 ^ c0;
    let r2: u8 = gf256_mul(2, c2) ^ gf256_mul(3, c3) ^ c0 ^ c1;
    let r3: u8 = gf256_mul(2, c3) ^ gf256_mul(3, c0) ^ c1 ^ c2;
    [r0, r1, r2, r3]
}

} // verus!
