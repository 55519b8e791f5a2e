//! Hex-encoded colors and alpha compositing.
use vstd::prelude::*;

verus! {

/// The branchless digit transform applied to each lane: `(c & 0xF) + 9 * ((c >> 6) & 1)`.
pub open spec fn lane_value(c: u8) -> u32 {
    (((c as u32) & 0xf) + 9 * (((c as u32) >> 6) & 1)) as u32
}

/// The four bits that one input byte contributes to a decoded value.
pub open spec fn nibble(c: u8) -> nat {
    (lane_value(c) & 0xf) as nat
}

/// A run of hex digits read as one number, most significant digit first.
pub open spec fn unhex(s: Seq<u8>) -> nat
    decreases s.len(),
{
    if s.len() == 0 {
        0
    } else {
        unhex(s.drop_last()) * 16 + nibble(s.last())
    }
}

pub open spec fn is_hex_digit(c: u8) -> bool {
    (48 <= c && c <= 57) || (65 <= c && c <= 70) || (97 <= c && c <= 102)
}

/// The value of a hex digit, by the three ASCII ranges `0-9`, `A-F` and `a-f`.
pub open spec fn hex_digit_value(c: u8) -> nat {
    if 48 <= c && c <= 57 {
        (c - 48) as nat
    } else if 65 <= c && c <= 70 {
        (c - 55) as nat
    } else {
        (c - 87) as nat
    }
}

/// The `n` bytes at `k` are all hex digits.
pub open spec fn hex_field(s: Seq<u8>, k: int, n: int) -> bool {
    forall|m: int| 0 <= m < n ==> is_hex_digit(#[trigger] s[k + m])
}

/// Whether `c` is a hex digit of either case.
pub fn is_hex_digit_byte(c: u8) -> (r: bool)
    ensures
        r == is_hex_digit(c),
{
    (48 <= c && c <= 57) || (65 <= c && c <= 70) || (97 <= c && c <= 102)
}

/// Whether the `n` bytes at `k` are all hex digits.
pub fn is_hex_field(buffer: &[u8], k: usize, n: usize) -> (r: bool)
    requires
        k + n <= buffer@.len(),
    ensures
        r == hex_field(buffer@, k as int, n as int),
{
    proof {
        assert(buffer@.len() == buffer.len());
    }
    let mut m: usize = 0;
    while m < n
        invariant
            buffer@.len() <= usize::MAX,
            k + n <= buffer@.len(),
            m <= n,
            hex_field(buffer@, k as int, m as int),
        decreases n - m,
    {
        if !is_hex_digit_byte(buffer[k + m]) {
            return false;
        }
        m = m + 1;
    }
    true
}

/// The usual big-endian reading of a string of hex digits.
pub open spec fn hex_to_int(s: Seq<u8>) -> nat
    decreases s.len(),
{
    if s.len() == 0 {
        0
    } else {
        hex_to_int(s.drop_last()) * 16 + hex_digit_value(s.last())
    }
}

pub open spec fn pow16(n: nat) -> nat
    decreases n,
{
    if n == 0 {
        1
    } else {
        16 * pow16((n - 1) as nat)
    }
}

/// The lane transform gives every hex digit its value, in either case.
pub proof fn lemma_lane_value_of_hex_digit(c: u8)
    requires
        is_hex_digit(c),
    ensures
        lane_value(c) == hex_digit_value(c),
        nibble(c) == hex_digit_value(c),
{
    assert((48 <= c && c <= 57) ==> ((c as u32) & 0xf) + 9 * (((c as u32) >> 6) & 1) == c - 48)
        by (bit_vector);
    assert((65 <= c && c <= 70) ==> ((c as u32) & 0xf) + 9 * (((c as u32) >> 6) & 1) == c - 55)
        by (bit_vector);
    assert((97 <= c && c <= 102) ==> ((c as u32) & 0xf) + 9 * (((c as u32) >> 6) & 1) == c - 87)
        by (bit_vector);
    let v = lane_value(c);
    assert(v < 16 ==> v & 0xf == v) by (bit_vector);
}

/// On hex digits of any case the lane decoding agrees with the usual hex reading.
pub proof fn lemma_unhex_is_hex_to_int(s: Seq<u8>)
    requires
        forall|k: int| 0 <= k < s.len() ==> is_hex_digit(#[trigger] s[k]),
    ensures
        unhex(s) == hex_to_int(s),
    decreases s.len(),
{
    if s.len() > 0 {
        let t = s.drop_last();
        assert forall|k: int| 0 <= k < t.len() implies is_hex_digit(#[trigger] t[k]) by {
            assert(t[k] == s[k]);
        }
        lemma_unhex_is_hex_to_int(t);
        lemma_lane_value_of_hex_digit(s.last());
    }
}

pub proof fn lemma_unhex_bound(s: Seq<u8>)
    ensures
        unhex(s) < pow16(s.len()),
    decreases s.len(),
{
    if s.len() > 0 {
        let t = s.drop_last();
        lemma_unhex_bound(t);
        let n = nibble(s.last());
        let v = unhex(t);
        let p = pow16(t.len());
        let lv = lane_value(s.last());
        assert(lv & 0xf < 16) by (bit_vector);
        assert(v * 16 + n < p * 16) by (nonlinear_arith)
            requires
                v < p,
                n < 16,
        ;
    }
}

/// Applies the digit transform to one byte.
pub fn hex_lane(c: u8) -> (r: u32)
    ensures
        r == lane_value(c),
        r < 25,
{
    let w = c as u32;
    assert((w & 0xf) < 16 && ((w >> 6) & 1) < 2) by (bit_vector);
    (w & 0xf) + 9 * ((w >> 6) & 1)
}

/// Decodes the first `digits` of the eight bytes at `start` as hex digits. All eight bytes go
/// through the lane transform; the lanes past `digits` are masked off.
pub fn simd_unhex(buffer: &[u8], start: usize, digits: usize) -> (r: u32)
    requires
        start + 8 <= buffer@.len(),
        digits <= 8,
    ensures
        r == unhex(buffer@.subrange(start as int, start + digits)),
        hex_field(buffer@, start as int, digits as int) ==> r == hex_to_int(
            buffer@.subrange(start as int, start + digits),
        ),
{
    proof {
        assert(buffer@.len() == buffer.len());
    }
    let mut acc: u32 = 0;
    let mut k: usize = 0;
    while k < 8
        invariant
            buffer@.len() <= usize::MAX,
            start + 8 <= buffer@.len(),
            digits <= 8,
            k <= 8,
            acc == unhex(buffer@.subrange(start as int, start + if k < digits { k } else { digits })),
        decreases 8 - k,
    {
        let lane = hex_lane(buffer[start + k]);
        if k < digits {
            let ghost prev = buffer@.subrange(start as int, start + k);
            let ghost next = buffer@.subrange(start as int, start + k + 1);
            assert(next.drop_last() =~= prev);
            proof {
                lemma_unhex_bound(prev);
                reveal_with_fuel(pow16, 8);
                assert(pow16(k as nat) <= pow16(7)) by {
                    lemma_pow16_mono(k as nat, 7);
                }
            }
            let m = lane & 0xf;
            assert(acc < 0x1000_0000 && m < 16 ==> (acc << 4) | m == acc * 16 + m) by (bit_vector);
            assert(m < 16) by (bit_vector)
                requires
                    m == lane & 0xf,
            ;
            acc = (acc << 4) | m;
        }
        k = k + 1;
    }
    proof {
        let f = buffer@.subrange(start as int, start + digits);
        if hex_field(buffer@, start as int, digits as int) {
            assert forall|m: int| 0 <= m < f.len() implies is_hex_digit(#[trigger] f[m]) by {
                assert(f[m] == buffer@[start + m]);
            }
            lemma_unhex_is_hex_to_int(f);
        }
    }
    acc
}

/// Byte `k` of a packed color, counted from the least significant byte.
pub open spec fn byte_of(c: u32, k: nat) -> nat {
    ((c as nat) / pow256(k)) % 256
}

pub open spec fn pow256(k: nat) -> nat
    decreases k,
{
    if k == 0 {
        1
    } else {
        256 * pow256((k - 1) as nat)
    }
}

/// One channel of an "over" blend against an opaque destination.
pub open spec fn blend_channel(current: nat, new: nat, alpha: nat) -> nat {
    ((current * (255 - alpha) + new * alpha) / 255) as nat
}

/// The alpha byte of an `0xRRGGBBAA` value.
pub open spec fn alpha_of(rgba: u32) -> nat {
    byte_of(rgba, 0)
}

/// `0xRRGGBB` from the three channels.
pub open spec fn pack_rgb(r: nat, g: nat, b: nat) -> nat {
    r * 0x10000 + g * 0x100 + b
}

/// The color an `0xRRGGBBAA` value gives when composited over the `0xRRGGBB` color `current`.
pub open spec fn blended(current: u32, rgba: u32) -> nat {
    let a = alpha_of(rgba);
    pack_rgb(
        blend_channel(byte_of(current, 2), byte_of(rgba, 3), a),
        blend_channel(byte_of(current, 1), byte_of(rgba, 2), a),
        blend_channel(byte_of(current, 0), byte_of(rgba, 1), a),
    )
}

/// Whether an `0xRRGGBBAA` write at `(x, y)` is composited at all: it is not where alpha is zero
/// or the cell lies outside the canvas.
pub open spec fn blend_applies(rgba: u32, x: nat, y: nat, width: nat, height: nat) -> bool {
    alpha_of(rgba) != 0 && x < width && y < height
}

proof fn lemma_bytes(c: u32)
    ensures
        (c >> 24) & 0xff == byte_of(c, 3),
        (c >> 16) & 0xff == byte_of(c, 2),
        (c >> 8) & 0xff == byte_of(c, 1),
        c & 0xff == byte_of(c, 0),
        c >> 8 == c / 256,
        byte_of(c, 3) < 256,
        byte_of(c, 2) < 256,
        byte_of(c, 1) < 256,
        byte_of(c, 0) < 256,
{
    reveal_with_fuel(pow256, 4);
    assert((c >> 24) & 0xff == (c / 0x1000000) % 256) by (bit_vector);
    assert((c >> 16) & 0xff == (c / 0x10000) % 256) by (bit_vector);
    assert((c >> 8) & 0xff == (c / 0x100) % 256) by (bit_vector);
    assert(c & 0xff == c % 256) by (bit_vector);
    assert(pow256(0) == 1);
    assert(c as nat / 1 == c as nat);
    assert(c >> 8 == c / 256) by (bit_vector);
}

/// Decides whether an `0xRRGGBBAA` write at `(x, y)` on a `width` by `height` canvas is composited.
pub fn should_blend(rgba: u32, x: usize, y: usize, width: usize, height: usize) -> (r: bool)
    ensures
        r == blend_applies(rgba, x as nat, y as nat, width as nat, height as nat),
{
    proof {
        lemma_bytes(rgba);
    }
    (rgba & 0xff) != 0 && x < width && y < height
}

fn blend_one(current: u32, new: u32, alpha: u32) -> (r: u32)
    requires
        current < 256,
        new < 256,
        alpha < 256,
    ensures
        r == blend_channel(current as nat, new as nat, alpha as nat),
        r < 256,
{
    assert(current * (255 - alpha) + new * alpha <= 255 * 255) by (nonlinear_arith)
        requires
            current < 256,
            new < 256,
            alpha < 256,
    ;
    let r = (current * (255 - alpha) + new * alpha) / 255;
    r
}

/// Composites the `0xRRGGBBAA` value `rgba` over the `0xRRGGBB` color `current`, channel by
/// channel, with truncating integer division.
pub fn blend(current: u32, rgba: u32) -> (r: u32)
    ensures
        r == blended(current, rgba),
        r < 0x100_0000,
{
    proof {
        lemma_bytes(current);
        lemma_bytes(rgba);
    }
    let alpha = rgba & 0xff;
    let r = blend_one((current >> 16) & 0xff, (rgba >> 24) & 0xff, alpha);
    let g = blend_one((current >> 8) & 0xff, (rgba >> 16) & 0xff, alpha);
    let b = blend_one(current & 0xff, (rgba >> 8) & 0xff, alpha);
    assert(r < 256 && g < 256 && b < 256 ==> (r << 16) | (g << 8) | b == r * 0x10000 + g * 0x100 + b)
        by (bit_vector);
    (r << 16) | (g << 8) | b
}

/// The color that an `0xRRGGBBAA` value writes when it is not composited: its alpha dropped.
pub fn rgba_to_rgb(rgba: u32) -> (r: u32)
    ensures
        r == rgba as nat / 256,
{
    proof {
        lemma_bytes(rgba);
    }
    rgba >> 8
}

/// Alpha compositing: a zero alpha writes nothing, a full alpha writes the new color as it is,
/// and a half alpha weights both colors all but equally.
pub proof fn lemma_blend_extremes(current: u32, rgba: u32, x: nat, y: nat, width: nat, height: nat)
    ensures
        alpha_of(rgba) == 0 ==> !blend_applies(rgba, x, y, width, height),
        alpha_of(rgba) == 255 ==> blended(current, rgba) == rgba as nat / 256,
        alpha_of(rgba) == 128 ==> blended(current, rgba) == pack_rgb(
            (byte_of(current, 2) * 127 + byte_of(rgba, 3) * 128) / 255,
            (byte_of(current, 1) * 127 + byte_of(rgba, 2) * 128) / 255,
            (byte_of(current, 0) * 127 + byte_of(rgba, 1) * 128) / 255,
        ),
{
    lemma_bytes(current);
    lemma_bytes(rgba);
    if alpha_of(rgba) == 255 {
        let r = byte_of(rgba, 3);
        let g = byte_of(rgba, 2);
        let b = byte_of(rgba, 1);
        assert(blend_channel(byte_of(current, 2), r, 255) == r);
        assert(blend_channel(byte_of(current, 1), g, 255) == g);
        assert(blend_channel(byte_of(current, 0), b, 255) == b);
        assert((rgba >> 8) == ((rgba >> 24) & 0xff) * 0x10000 + ((rgba >> 16) & 0xff) * 0x100 + ((
        rgba >> 8) & 0xff)) by (bit_vector);
    }
}

/// With alpha 128 each channel lands within one of the midpoint of the old and the new value.
pub proof fn lemma_half_alpha_near_midpoint(current: u32, new: u32)
    requires
        current < 256,
        new < 256,
    ensures
        blend_channel(current as nat, new as nat, 128) <= (current + new) / 2 + 1,
        (current + new) / 2 <= blend_channel(current as nat, new as nat, 128) + 1,
{
    assert((current * 127 + new * 128) / 255 <= (current + new) / 2 + 1 && (current + new) / 2
        <= (current * 127 + new * 128) / 255 + 1) by (bit_vector)
        requires
            current < 256,
            new < 256,
    ;
}

pub proof fn lemma_pow16_mono(a: nat, b: nat)
    requires
        a <= b,
    ensures
        pow16(a) <= pow16(b),
    decreases b,
{
    if a < b {
        lemma_pow16_mono(a, (b - 1) as nat);
    }
}

} // verus!
