//! ASCII replies sent back to a client.
use vstd::prelude::*;

verus! {

/// The shortest decimal spelling of `n`.
pub open spec fn decimal_digits(n: nat) -> Seq<u8>
    decreases n,
{
    if n < 10 {
        seq![(48 + n) as u8]
    } else {
        decimal_digits(n / 10).push((48 + n % 10) as u8)
    }
}

/// The lowercase hex digit for a value below 16.
pub open spec fn hex_char(d: nat) -> u8 {
    if d < 10 {
        (48 + d) as u8
    } else {
        (87 + d) as u8
    }
}

/// The last `n` hex digits of `v`, zero-padded, lowercase.
pub open spec fn hex_fixed(v: nat, n: nat) -> Seq<u8>
    decreases n,
{
    if n == 0 {
        seq![]
    } else {
        hex_fixed(v / 16, (n - 1) as nat).push(hex_char(v % 16))
    }
}

/// `PX {x} {y} {rrggbb}\n`.
pub open spec fn pixel_reply_bytes(x: nat, y: nat, rgb: nat) -> Seq<u8> {
    seq![80u8, 88u8, 32u8] + decimal_digits(x) + seq![32u8] + decimal_digits(y) + seq![32u8]
        + hex_fixed(rgb, 6) + seq![10u8]
}

/// `SIZE {width} {height}\n`.
pub open spec fn size_reply_bytes(width: nat, height: nat) -> Seq<u8> {
    seq![83u8, 73u8, 90u8, 69u8, 32u8] + decimal_digits(width) + seq![32u8] + decimal_digits(
        height,
    ) + seq![10u8]
}

/// Appends the decimal spelling of `n`.
pub fn push_decimal(out: &mut Vec<u8>, n: usize)
    ensures
        final(out)@ == old(out)@ + decimal_digits(n as nat),
    decreases n,
{
    if n >= 10 {
        push_decimal(out, n / 10);
    }
    out.push((48 + n % 10) as u8);
    proof {
        if n < 10 {
            assert(n % 10 == n);
        }
        assert(final(out)@ =~= old(out)@ + decimal_digits(n as nat));
    }
}

/// Appends the last `n` hex digits of `v`, zero-padded, lowercase.
pub fn push_hex(out: &mut Vec<u8>, v: u32, n: usize)
    ensures
        final(out)@ == old(out)@ + hex_fixed(v as nat, n as nat),
    decreases n,
{
    if n > 0 {
        push_hex(out, v / 16, n - 1);
        let d = v % 16;
        let c: u8 = if d < 10 {
            48 + d as u8
        } else {
            87 + d as u8
        };
        out.push(c);
        assert(final(out)@ =~= old(out)@ + hex_fixed(v as nat, n as nat));
    } else {
        assert(final(out)@ =~= old(out)@ + hex_fixed(v as nat, n as nat));
    }
}

fn push_bytes(out: &mut Vec<u8>, bytes: &[u8])
    ensures
        final(out)@ == old(out)@ + bytes@,
{
    let mut k: usize = 0;
    while k < bytes.len()
        invariant
            k <= bytes@.len(),
            out@ == old(out)@ + bytes@.subrange(0, k as int),
        decreases bytes@.len() - k,
    {
        out.push(bytes[k]);
        assert(out@ =~= old(out)@ + bytes@.subrange(0, k + 1));
        k = k + 1;
    }
    assert(bytes@.subrange(0, k as int) =~= bytes@);
}

/// The reply to a pixel query: `PX {x} {y} {rrggbb}\n`, the color as six lowercase hex digits.
pub fn pixel_reply(x: usize, y: usize, rgb: u32) -> (r: Vec<u8>)
    ensures
        r@ == pixel_reply_bytes(x as nat, y as nat, rgb as nat),
{
    let mut out: Vec<u8> = Vec::new();
    push_bytes(&mut out, &[80u8, 88u8, 32u8]);
    push_decimal(&mut out, x);
    out.push(32u8);
    push_decimal(&mut out, y);
    out.push(32u8);
    push_hex(&mut out, rgb, 6);
    out.push(10u8);
    assert(out@ =~= pixel_reply_bytes(x as nat, y as nat, rgb as nat));
    out
}

/// The reply to a size query: `SIZE {width} {height}\n`.
pub fn size_reply(width: usize, height: usize) -> (r: Vec<u8>)
    ensures
        r@ == size_reply_bytes(width as nat, height as nat),
{
    let mut out: Vec<u8> = Vec::new();
    push_bytes(&mut out, &[83u8, 73u8, 90u8, 69u8, 32u8]);
    push_decimal(&mut out, width);
    out.push(32u8);
    push_decimal(&mut out, height);
    out.push(10u8);
    assert(out@ =~= size_reply_bytes(width as nat, height as nat));
    out
}

} // verus!
