//! Recognition of command keywords by integer comparison of an 8-byte window.
use vstd::prelude::*;

verus! {

/// Eight bytes read as one little-endian integer, `b0` least significant.
pub open spec fn pack8(b0: u8, b1: u8, b2: u8, b3: u8, b4: u8, b5: u8, b6: u8, b7: u8) -> u64 {
    (b0 as u64) | ((b1 as u64) << 8u64) | ((b2 as u64) << 16u64) | ((b3 as u64) << 24u64) | ((
    b4 as u64) << 32u64) | ((b5 as u64) << 40u64) | ((b6 as u64) << 48u64) | ((b7 as u64)
        << 56u64)
}

/// The eight bytes at `i` read as one little-endian integer.
pub open spec fn word_at(s: Seq<u8>, i: int) -> u64 {
    pack8(s[i], s[i + 1], s[i + 2], s[i + 3], s[i + 4], s[i + 5], s[i + 6], s[i + 7])
}

/// Packs the first eight bytes of `input` into one integer, the first byte least significant.
pub fn string_to_number(input: &[u8]) -> (r: u64)
    requires
        input@.len() >= 8,
    ensures
        r == word_at(input@, 0),
{
    read_word(input, 0)
}

/// The eight bytes at `i` as one integer, the first byte least significant.
pub fn read_word(buffer: &[u8], i: usize) -> (r: u64)
    requires
        i + 8 <= buffer@.len(),
    ensures
        r == word_at(buffer@, i as int),
{
    (buffer[i] as u64) | ((buffer[i + 1] as u64) << 8u64) | ((buffer[i + 2] as u64) << 16u64) | ((
    buffer[i + 3] as u64) << 24u64) | ((buffer[i + 4] as u64) << 32u64) | ((buffer[i + 5] as u64)
        << 40u64) | ((buffer[i + 6] as u64) << 48u64) | ((buffer[i + 7] as u64) << 56u64)
}

/// Masking a packed word to its low three bytes compares exactly those bytes.
pub proof fn lemma_mask3(
    b0: u8, b1: u8, b2: u8, b3: u8, b4: u8, b5: u8, b6: u8, b7: u8,
    c0: u8, c1: u8, c2: u8,
)
    by (bit_vector)
    ensures
        (pack8(b0, b1, b2, b3, b4, b5, b6, b7) & 0x00ff_ffff == pack8(c0, c1, c2, 0, 0, 0, 0, 0)) <==> (
        b0 == c0 && b1 == c1 && b2 == c2),
{
}

/// Masking a packed word to its low four bytes compares exactly those bytes.
pub proof fn lemma_mask4(
    b0: u8, b1: u8, b2: u8, b3: u8, b4: u8, b5: u8, b6: u8, b7: u8,
    c0: u8, c1: u8, c2: u8, c3: u8,
)
    by (bit_vector)
    ensures
        (pack8(b0, b1, b2, b3, b4, b5, b6, b7) & 0xffff_ffff == pack8(c0, c1, c2, c3, 0, 0, 0, 0)) <==> (
        b0 == c0 && b1 == c1 && b2 == c2 && b3 == c3),
{
}

/// Masking a packed word to its low seven bytes compares exactly those bytes.
pub proof fn lemma_mask7(
    b0: u8, b1: u8, b2: u8, b3: u8, b4: u8, b5: u8, b6: u8, b7: u8,
    c0: u8, c1: u8, c2: u8, c3: u8, c4: u8, c5: u8, c6: u8,
)
    by (bit_vector)
    ensures
        (pack8(b0, b1, b2, b3, b4, b5, b6, b7) & 0x00ff_ffff_ffff_ffff == pack8(c0, c1, c2, c3, c4, c5, c6, 0))
            <==> (b0 == c0 && b1 == c1 && b2 == c2 && b3 == c3 && b4 == c4 && b5 == c5 && b6 == c6),
{
}

} // verus!
