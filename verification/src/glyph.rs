//! Encoding of one 2x4 dot pattern as a Unicode Braille glyph.
//!
//! A dot pattern holds eight booleans in raster order over the cell's
//! sub-pixel grid: index `i` is the dot at column `i % 2`, row `i / 2`.
//! The Braille Patterns block starts at `0x2800` and assigns bit `b` of the
//! offset to dot number `b + 1` of the standard Braille numbering, which
//! runs down the left column (dots 1-3), then down the right column
//! (dots 4-6), and finally across the bottom row (dots 7-8). The encoder
//! therefore permutes raster positions into bit positions before summing.

use vstd::prelude::*;
use vstd::arithmetic::div_mod::{
    lemma_fundamental_div_mod, lemma_fundamental_div_mod_converse,
};

verus! {

/// Bit position, within the offset of a Braille code point, of the dot at
/// raster index `i`. This is the fixed permutation described in the module
/// documentation: the left column maps to bits 0..2, the right column to
/// bits 3..5, and the bottom row to bits 6..7.
pub open spec fn dot_bit(i: int) -> int {
    if i == 0 {
        0
    } else if i == 1 {
        3
    } else if i == 2 {
        1
    } else if i == 3 {
        4
    } else if i == 4 {
        2
    } else if i == 5 {
        5
    } else if i == 6 {
        6
    } else {
        7
    }
}

/// Contribution of a filled dot at raster index `i` to the glyph offset:
/// two to the power `dot_bit(i)`.
pub open spec fn dot_weight(i: int) -> int {
    if i == 0 {
        1
    } else if i == 1 {
        8
    } else if i == 2 {
        2
    } else if i == 3 {
        16
    } else if i == 4 {
        4
    } else if i == 5 {
        32
    } else if i == 6 {
        64
    } else {
        128
    }
}

/// Offset of a dot pattern within the Braille Patterns block: the sum of the
/// weights of the filled dots.
pub open spec fn braille_index(p: Seq<bool>) -> int
    recommends
        p.len() == 8,
{
    (if p[0] { dot_weight(0) } else { 0 }) + (if p[1] { dot_weight(1) } else { 0 })
        + (if p[2] { dot_weight(2) } else { 0 }) + (if p[3] { dot_weight(3) } else { 0 })
        + (if p[4] { dot_weight(4) } else { 0 }) + (if p[5] { dot_weight(5) } else { 0 })
        + (if p[6] { dot_weight(6) } else { 0 }) + (if p[7] { dot_weight(7) } else { 0 })
}

/// The glyph that draws a dot pattern.
pub open spec fn braille_char(p: Seq<bool>) -> char
    recommends
        p.len() == 8,
{
    (0x2800 + braille_index(p)) as char
}

/// The dot pattern encoded by the offset `n`: raster index `i` is filled
/// exactly when bit `dot_bit(i)` of `n` is set.
pub open spec fn pattern_of_index(n: int) -> Seq<bool> {
    Seq::new(8, |i: int| (n / dot_weight(i)) % 2 == 1)
}

/// The glyph offset always fits in one byte, so every glyph lies in
/// `0x2800..=0x28FF`.
pub proof fn lemma_braille_index_range(p: Seq<bool>)
    ensures
        0 <= braille_index(p) <= 255,
{
}

/// Decoding inverts encoding: every dot pattern is recovered from its glyph
/// offset, so the encoder is injective on the 256 dot patterns.
#[verifier::rlimit(60)]
pub proof fn lemma_pattern_roundtrip(p: Seq<bool>)
    requires
        p.len() == 8,
    ensures
        pattern_of_index(braille_index(p)) =~= p,
{
    let b0: int = if p[0] { 1 } else { 0 };
    let b1: int = if p[1] { 1 } else { 0 };
    let b2: int = if p[2] { 1 } else { 0 };
    let b3: int = if p[3] { 1 } else { 0 };
    let b4: int = if p[4] { 1 } else { 0 };
    let b5: int = if p[5] { 1 } else { 0 };
    let b6: int = if p[6] { 1 } else { 0 };
    let b7: int = if p[7] { 1 } else { 0 };
    let n = braille_index(p);
    assert(n == b0 + 2 * b2 + 4 * b4 + 8 * b1 + 16 * b3 + 32 * b5 + 64 * b6 + 128 * b7);

    // Peel the binary digits of `n` off weight by weight; each digit equals
    // the boolean that produced it.
    lemma_fundamental_div_mod_converse(
        n, 2, b2 + 2 * b4 + 4 * b1 + 8 * b3 + 16 * b5 + 32 * b6 + 64 * b7, b0);
    lemma_fundamental_div_mod_converse(
        b2 + 2 * b4 + 4 * b1 + 8 * b3 + 16 * b5 + 32 * b6 + 64 * b7, 2,
        b4 + 2 * b1 + 4 * b3 + 8 * b5 + 16 * b6 + 32 * b7, b2);
    lemma_fundamental_div_mod_converse(
        n, 4, b4 + 2 * b1 + 4 * b3 + 8 * b5 + 16 * b6 + 32 * b7, b0 + 2 * b2);
    lemma_fundamental_div_mod_converse(
        b4 + 2 * b1 + 4 * b3 + 8 * b5 + 16 * b6 + 32 * b7, 2,
        b1 + 2 * b3 + 4 * b5 + 8 * b6 + 16 * b7, b4);
    lemma_fundamental_div_mod_converse(
        n, 8, b1 + 2 * b3 + 4 * b5 + 8 * b6 + 16 * b7, b0 + 2 * b2 + 4 * b4);
    lemma_fundamental_div_mod_converse(
        b1 + 2 * b3 + 4 * b5 + 8 * b6 + 16 * b7, 2, b3 + 2 * b5 + 4 * b6 + 8 * b7, b1);
    lemma_fundamental_div_mod_converse(
        n, 16, b3 + 2 * b5 + 4 * b6 + 8 * b7, b0 + 2 * b2 + 4 * b4 + 8 * b1);
    lemma_fundamental_div_mod_converse(
        b3 + 2 * b5 + 4 * b6 + 8 * b7, 2, b5 + 2 * b6 + 4 * b7, b3);
    lemma_fundamental_div_mod_converse(
        n, 32, b5 + 2 * b6 + 4 * b7, b0 + 2 * b2 + 4 * b4 + 8 * b1 + 16 * b3);
    lemma_fundamental_div_mod_converse(b5 + 2 * b6 + 4 * b7, 2, b6 + 2 * b7, b5);
    lemma_fundamental_div_mod_converse(
        n, 64, b6 + 2 * b7, b0 + 2 * b2 + 4 * b4 + 8 * b1 + 16 * b3 + 32 * b5);
    lemma_fundamental_div_mod_converse(b6 + 2 * b7, 2, b7, b6);
    lemma_fundamental_div_mod_converse(
        n, 128, b7, b0 + 2 * b2 + 4 * b4 + 8 * b1 + 16 * b3 + 32 * b5 + 64 * b6);
    lemma_fundamental_div_mod_converse(b7, 2, 0, b7);

    assert(pattern_of_index(n)[0] == p[0]);
    assert(pattern_of_index(n)[1] == p[1]);
    assert(pattern_of_index(n)[2] == p[2]);
    assert(pattern_of_index(n)[3] == p[3]);
    assert(pattern_of_index(n)[4] == p[4]);
    assert(pattern_of_index(n)[5] == p[5]);
    assert(pattern_of_index(n)[6] == p[6]);
    assert(pattern_of_index(n)[7] == p[7]);
}

/// Encoding inverts decoding: every offset in `0..256` is the glyph offset
/// of the pattern it decodes to, so the encoder is onto the 256 code points.
pub proof fn lemma_index_roundtrip(n: int)
    requires
        0 <= n < 256,
    ensures
        braille_index(pattern_of_index(n)) == n,
{
    let m1 = n / 2;
    let m2 = m1 / 2;
    let m3 = m2 / 2;
    let m4 = m3 / 2;
    let m5 = m4 / 2;
    let m6 = m5 / 2;
    let m7 = m6 / 2;
    lemma_fundamental_div_mod(n, 2);
    lemma_fundamental_div_mod(m1, 2);
    lemma_fundamental_div_mod(m2, 2);
    lemma_fundamental_div_mod(m3, 2);
    lemma_fundamental_div_mod(m4, 2);
    lemma_fundamental_div_mod(m5, 2);
    lemma_fundamental_div_mod(m6, 2);
    // Relate each power-of-two quotient of `n` to the halving chain.
    lemma_fundamental_div_mod_converse(n, 4, m2, n % 2 + 2 * (m1 % 2));
    lemma_fundamental_div_mod_converse(n, 8, m3, n % 2 + 2 * (m1 % 2) + 4 * (m2 % 2));
    lemma_fundamental_div_mod_converse(
        n, 16, m4, n % 2 + 2 * (m1 % 2) + 4 * (m2 % 2) + 8 * (m3 % 2));
    lemma_fundamental_div_mod_converse(
        n, 32, m5, n % 2 + 2 * (m1 % 2) + 4 * (m2 % 2) + 8 * (m3 % 2) + 16 * (m4 % 2));
    lemma_fundamental_div_mod_converse(
        n, 64, m6,
        n % 2 + 2 * (m1 % 2) + 4 * (m2 % 2) + 8 * (m3 % 2) + 16 * (m4 % 2) + 32 * (m5 % 2));
    lemma_fundamental_div_mod_converse(
        n, 128, m7,
        n % 2 + 2 * (m1 % 2) + 4 * (m2 % 2) + 8 * (m3 % 2) + 16 * (m4 % 2) + 32 * (m5 % 2)
            + 64 * (m6 % 2));
    assert(m7 % 2 == m7 && m7 / 2 == 0) by {
        lemma_fundamental_div_mod_converse(m7, 2, 0, m7);
    }
    assert(braille_index(pattern_of_index(n)) == n);
}

/// The encoder maps distinct dot patterns to distinct glyph offsets.
pub proof fn lemma_braille_index_injective(p: Seq<bool>, q: Seq<bool>)
    requires
        p.len() == 8,
        q.len() == 8,
        braille_index(p) == braille_index(q),
    ensures
        p =~= q,
{
    lemma_pattern_roundtrip(p);
    lemma_pattern_roundtrip(q);
}

/// The empty pattern encodes the blank glyph offset and the full pattern
/// the last offset of the block.
pub proof fn lemma_braille_index_extremes()
    ensures
        braille_index(Seq::new(8, |i: int| false)) == 0,
        braille_index(Seq::new(8, |i: int| true)) == 255,
{
}

/// The glyph is a function of the dot pattern alone: any two characters
/// whose code point matches the encoding of the same pattern are equal.
pub proof fn lemma_glyph_deterministic(p: Seq<bool>, a: char, b: char)
    requires
        a as u32 == 0x2800 + braille_index(p),
        b as u32 == 0x2800 + braille_index(p),
    ensures
        a == b,
{
}

/// Relies on `char::from_u32`: for every value below the surrogate range
/// `0xD800` it returns `Some` of the character with exactly that code point.
#[verifier::external_body]
fn char_from_code(code: u32) -> (c: char)
    requires
        code < 0xD800,
    ensures
        c == code as char,
        c as u32 == code,
{
    char::from_u32(code).unwrap()
}

/// Encode one dot pattern, given in raster order, as its Braille glyph.
pub fn get_braille(pixels: [bool; 8]) -> (glyph: char)
    ensures
        glyph == braille_char(pixels@),
        glyph as u32 == 0x2800 + braille_index(pixels@),
{
    let mut index: u32 = 0;
    if pixels[0] {
        index += 1;
    }
    if pixels[1] {
        index += 8;
    }
    if pixels[2] {
        index += 2;
    }
    if pixels[3] {
        index += 16;
    }
    if pixels[4] {
        index += 4;
    }
    if pixels[5] {
        index += 32;
    }
    if pixels[6] {
        index += 64;
    }
    if pixels[7] {
        index += 128;
    }
    char_from_code(0x2800 + index)
}

} // verus!
