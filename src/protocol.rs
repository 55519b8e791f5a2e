//! Facts about the protocol as a whole: what the decoder makes of well-formed command text.
use vstd::prelude::*;

use crate::color::{
    hex_field, hex_to_int, is_hex_digit, lemma_lane_value_of_hex_digit, lemma_unhex_is_hex_to_int,
    pow16, unhex,
};
use crate::coordinate::{
    coordinate_at, coordinate_end, decimal_value, digit_run, is_digit, lemma_digit_run_bound, pow10,
    MAX_COORDINATE_DIGITS,
};
use crate::reply::{decimal_digits, hex_char, hex_fixed, pixel_reply_bytes};
use crate::simple::{
    in_window, lemma_step_bounds, offset_step, parse_from, pixel_step, step_at, taken, Command, Parsed, PARSER_LOOKAHEAD,
};

verus! {

/// `PX {x} {y}`, the coordinates in shortest decimal.
pub open spec fn pixel_prefix(x: nat, y: nat) -> Seq<u8> {
    seq![80u8, 88u8, 32u8] + decimal_digits(x) + seq![32u8] + decimal_digits(y)
}

/// `PX {x} {y} {rrggbb}\n`, the color in lowercase hex.
pub open spec fn set_command(x: nat, y: nat, rgb: nat) -> Seq<u8> {
    pixel_prefix(x, y) + seq![32u8] + hex_fixed(rgb, 6) + seq![10u8]
}

/// `PX {x} {y}\n`.
pub open spec fn get_command(x: nat, y: nat) -> Seq<u8> {
    pixel_prefix(x, y) + seq![10u8]
}

pub proof fn lemma_decimal_digits(v: nat)
    ensures
        decimal_digits(v).len() >= 1,
        forall|k: int| 0 <= k < decimal_digits(v).len() ==> is_digit(#[trigger] decimal_digits(v)[k]),
        decimal_value(decimal_digits(v)) == v,
    decreases v,
{
    let d = decimal_digits(v);
    if v >= 10 {
        lemma_decimal_digits(v / 10);
        let t = decimal_digits(v / 10);
        assert(d.drop_last() =~= t);
        assert(d.last() == (48 + v % 10) as u8);
        assert((v / 10) * 10 + v % 10 == v);
        assert forall|k: int| 0 <= k < d.len() implies is_digit(#[trigger] d[k]) by {
            if k < t.len() {
                assert(d[k] == t[k]);
            }
        }
    } else {
        assert(d.drop_last() =~= Seq::<u8>::empty());
        assert(d.last() == (48 + v) as u8);
        assert(decimal_value(d.drop_last()) == 0);
    }
}

pub proof fn lemma_decimal_digits_len(v: nat, n: nat)
    requires
        v < pow10(n),
        n >= 1,
    ensures
        decimal_digits(v).len() <= n,
    decreases n,
{
    if v >= 10 {
        if n == 1 {
            assert(pow10(1) == 10) by {
                reveal_with_fuel(pow10, 2);
            }
        } else {
            let p = pow10((n - 1) as nat);
            assert(v / 10 < p) by (nonlinear_arith)
                requires
                    v < 10 * p,
            ;
            lemma_decimal_digits_len(v / 10, (n - 1) as nat);
        }
    }
}

pub proof fn lemma_digit_run_exact(s: Seq<u8>, i: int, len: nat, max: nat)
    requires
        0 <= i,
        len <= max,
        i + len < s.len(),
        forall|k: int| i <= k < i + len ==> is_digit(#[trigger] s[k]),
        !is_digit(s[i + len]),
    ensures
        digit_run(s, i, max) == len,
    decreases len,
{
    if len > 0 {
        lemma_digit_run_exact(s, i + 1, (len - 1) as nat, (max - 1) as nat);
    }
}

/// A coordinate written in shortest decimal at `i` and followed by a non-digit reads back as
/// itself.
pub proof fn lemma_coordinate_reads_back(s: Seq<u8>, i: int, v: nat)
    requires
        v <= 9999,
        0 <= i,
        i + decimal_digits(v).len() < s.len(),
        s.subrange(i, i + decimal_digits(v).len()) == decimal_digits(v),
        !is_digit(s[i + decimal_digits(v).len()]),
    ensures
        coordinate_end(s, i) == i + decimal_digits(v).len(),
        coordinate_at(s, i) == v,
{
    let d = decimal_digits(v);
    lemma_decimal_digits(v);
    reveal_with_fuel(pow10, 5);
    lemma_decimal_digits_len(v, 4);
    assert forall|k: int| i <= k < i + d.len() implies is_digit(#[trigger] s[k]) by {
        assert(s[k] == s.subrange(i, i + d.len())[k - i]);
    }
    lemma_digit_run_exact(s, i, d.len(), MAX_COORDINATE_DIGITS as nat);
}

/// Fixed-width lowercase hex reads back as the number it was written from.
pub proof fn lemma_hex_reads_back(v: nat, n: nat)
    requires
        v < pow16(n),
    ensures
        unhex(hex_fixed(v, n)) == v,
    decreases n,
{
    if n > 0 {
        let p = pow16((n - 1) as nat);
        assert(v / 16 < p) by (nonlinear_arith)
            requires
                v < 16 * p,
        ;
        lemma_hex_reads_back(v / 16, (n - 1) as nat);
        let h = hex_fixed(v, n);
        assert(h.drop_last() =~= hex_fixed(v / 16, (n - 1) as nat));
        let d = v % 16;
        let c = hex_char(d);
        assert(is_hex_digit(c));
        lemma_lane_value_of_hex_digit(c);
    }
}

/// `PX {x} {y} {rrggbb}\n` at `i` sets the offset cell to the color and takes exactly its bytes.
pub proof fn lemma_set_command_step(
    s: Seq<u8>,
    i: int,
    x: nat,
    y: nat,
    rgb: nat,
    x_offset: nat,
    y_offset: nat,
)
    requires
        x <= 9999,
        y <= 9999,
        rgb < 0x100_0000,
        in_window(s, i),
        s.subrange(i, i + set_command(x, y, rgb).len()) == set_command(x, y, rgb),
    ensures
        step_at(s, i, x_offset, y_offset) == taken(
            i + set_command(x, y, rgb).len(),
            Command::SetPixel {
                x: (x + x_offset) as usize,
                y: (y + y_offset) as usize,
                rgb: rgb as u32,
            },
            x_offset,
            y_offset,
        ),
{
    let c = set_command(x, y, rgb);
    let dx = decimal_digits(x);
    let dy = decimal_digits(y);
    let h = hex_fixed(rgb, 6);
    lemma_decimal_digits(x);
    lemma_decimal_digits(y);
    reveal_with_fuel(pow10, 5);
    lemma_decimal_digits_len(x, 4);
    lemma_decimal_digits_len(y, 4);
    lemma_hex_len(rgb, 6);
    assert(c =~= seq![80u8, 88u8, 32u8] + dx + seq![32u8] + dy + seq![32u8] + h + seq![10u8]);
    let lx = dx.len() as int;
    let ly = dy.len() as int;
    assert forall|m: int| 0 <= m < c.len() implies s[i + m] == #[trigger] c[m] by {
        assert(s.subrange(i, i + c.len())[m] == s[i + m]);
    }
    assert(s[i] == 80 && s[i + 1] == 88 && s[i + 2] == 32) by {
        assert(c[0] == 80u8 && c[1] == 88u8 && c[2] == 32u8);
    }
    let xs = i + 3;
    assert(s.subrange(xs, xs + lx) =~= dx) by {
        assert forall|m: int| 0 <= m < lx implies s.subrange(xs, xs + lx)[m] == dx[m] by {
            assert(c[3 + m] == dx[m]);
        }
    }
    assert(c[3 + lx] == 32u8);
    lemma_coordinate_reads_back(s, xs, x);
    let ys = xs + lx + 1;
    assert(s.subrange(ys, ys + ly) =~= dy) by {
        assert forall|m: int| 0 <= m < ly implies s.subrange(ys, ys + ly)[m] == dy[m] by {
            assert(c[4 + lx + m] == dy[m]);
        }
    }
    assert(c[4 + lx + ly] == 32u8);
    lemma_coordinate_reads_back(s, ys, y);
    let k = ys + ly + 1;
    assert(s.subrange(k, k + 6) =~= h) by {
        assert forall|m: int| 0 <= m < 6 implies s.subrange(k, k + 6)[m] == h[m] by {
            assert(c[5 + lx + ly + m] == h[m]);
        }
    }
    assert(c[11 + lx + ly] == 10u8);
    reveal_with_fuel(pow16, 7);
    lemma_hex_reads_back(rgb, 6);
    lemma_hex_fixed_digits(rgb, 6);
    assert forall|m: int| 0 <= m < 6 implies is_hex_digit(#[trigger] s[k + m]) by {
        assert(c[5 + lx + ly + m] == h[m]);
        assert(h[m] == s.subrange(k, k + 6)[m]);
    }
    lemma_unhex_is_hex_to_int(h);
}

/// `PX {x} {y}\n` at `i` queries the offset cell, reporting it as `(x, y)`, and takes exactly its
/// bytes.
pub proof fn lemma_get_command_step(s: Seq<u8>, i: int, x: nat, y: nat, x_offset: nat, y_offset: nat)
    requires
        x <= 9999,
        y <= 9999,
        in_window(s, i),
        s.subrange(i, i + get_command(x, y).len()) == get_command(x, y),
    ensures
        step_at(s, i, x_offset, y_offset) == taken(
            i + get_command(x, y).len(),
            Command::GetPixel {
                x: (x + x_offset) as usize,
                y: (y + y_offset) as usize,
                client_x: x as usize,
                client_y: y as usize,
            },
            x_offset,
            y_offset,
        ),
{
    let c = get_command(x, y);
    let dx = decimal_digits(x);
    let dy = decimal_digits(y);
    lemma_decimal_digits(x);
    lemma_decimal_digits(y);
    reveal_with_fuel(pow10, 5);
    lemma_decimal_digits_len(x, 4);
    lemma_decimal_digits_len(y, 4);
    assert(c =~= seq![80u8, 88u8, 32u8] + dx + seq![32u8] + dy + seq![10u8]);
    let lx = dx.len() as int;
    let ly = dy.len() as int;
    assert forall|m: int| 0 <= m < c.len() implies s[i + m] == #[trigger] c[m] by {
        assert(s.subrange(i, i + c.len())[m] == s[i + m]);
    }
    assert(s[i] == 80 && s[i + 1] == 88 && s[i + 2] == 32) by {
        assert(c[0] == 80u8 && c[1] == 88u8 && c[2] == 32u8);
    }
    let xs = i + 3;
    assert(s.subrange(xs, xs + lx) =~= dx) by {
        assert forall|m: int| 0 <= m < lx implies s.subrange(xs, xs + lx)[m] == dx[m] by {
            assert(c[3 + m] == dx[m]);
        }
    }
    assert(c[3 + lx] == 32u8);
    lemma_coordinate_reads_back(s, xs, x);
    let ys = xs + lx + 1;
    assert(s.subrange(ys, ys + ly) =~= dy) by {
        assert forall|m: int| 0 <= m < ly implies s.subrange(ys, ys + ly)[m] == dy[m] by {
            assert(c[4 + lx + m] == dy[m]);
        }
    }
    assert(c[4 + lx + ly] == 10u8);
    lemma_coordinate_reads_back(s, ys, y);
}

/// Setting a pixel and then querying it: a buffer that starts with `PX {x} {y} {rrggbb}\n` and
/// then `PX {x} {y}\n`, with at least a lookahead of bytes after them, yields first the write of
/// the color to the offset cell, then the query of that same cell; and the reply to the query,
/// given the color written, is byte for byte the set command.
pub proof fn lemma_set_then_get_round_trip(
    x: nat,
    y: nat,
    rgb: nat,
    rest: Seq<u8>,
    x_offset: nat,
    y_offset: nat,
)
    requires
        x <= 9999,
        y <= 9999,
        rgb < 0x100_0000,
        rest.len() >= PARSER_LOOKAHEAD,
    ensures
        ({
            let s = set_command(x, y, rgb) + get_command(x, y) + rest;
            let p = parse_from(s, 0, x_offset, y_offset, None);
            &&& p.commands.len() >= 2
            &&& p.commands[0] == Command::SetPixel {
                x: (x + x_offset) as usize,
                y: (y + y_offset) as usize,
                rgb: rgb as u32,
            }
            &&& p.commands[1] == Command::GetPixel {
                x: (x + x_offset) as usize,
                y: (y + y_offset) as usize,
                client_x: x as usize,
                client_y: y as usize,
            }
            &&& pixel_reply_bytes(x, y, rgb) == set_command(x, y, rgb)
        }),
{
    let a = set_command(x, y, rgb);
    let b = get_command(x, y);
    let s = a + b + rest;
    assert(s.subrange(0, a.len() as int) =~= a);
    let la = a.len() as int;
    let lb = b.len() as int;
    assert(s.subrange(la, la + lb) =~= b);
    lemma_set_command_step(s, 0, x, y, rgb, x_offset, y_offset);
    lemma_get_command_step(s, a.len() as int, x, y, x_offset, y_offset);
    let set = Command::SetPixel {
        x: (x + x_offset) as usize,
        y: (y + y_offset) as usize,
        rgb: rgb as u32,
    };
    let get = Command::GetPixel {
        x: (x + x_offset) as usize,
        y: (y + y_offset) as usize,
        client_x: x as usize,
        client_y: y as usize,
    };
    lemma_parse_taken(s, 0, x_offset, y_offset, None, la, set);
    lemma_parse_taken(s, la, x_offset, y_offset, Some(la - 1), la + lb, get);
    assert(pixel_reply_bytes(x, y, rgb) =~= set_command(x, y, rgb));
}

/// Where a whole command is taken at `i`, the pass from `i` on yields it and then what the pass
/// from after it yields.
pub proof fn lemma_parse_taken(
    s: Seq<u8>,
    i: int,
    x_offset: nat,
    y_offset: nat,
    last_parsed: Option<int>,
    next: int,
    c: Command,
)
    requires
        in_window(s, i),
        step_at(s, i, x_offset, y_offset) == taken(next, c, x_offset, y_offset),
    ensures
        parse_from(s, i, x_offset, y_offset, last_parsed).commands == seq![c] + parse_from(
            s,
            next,
            x_offset,
            y_offset,
            Some(next - 1),
        ).commands,
{
}

/// A buffer no longer than the lookahead is left whole for the next pass: no command, no
/// position, offset unchanged.
pub proof fn lemma_short_buffer_untouched(s: Seq<u8>, x_offset: nat, y_offset: nat)
    requires
        s.len() <= PARSER_LOOKAHEAD,
    ensures
        parse_from(s, 0, x_offset, y_offset, None) == (Parsed {
            commands: seq![],
            x_offset,
            y_offset,
            last_parsed: None,
        }),
{
}

/// `SIZE` at an attempted position is always the size query, whatever the offset or what came
/// before; it takes the four bytes of the keyword.
pub proof fn lemma_size_step(s: Seq<u8>, i: int, x_offset: nat, y_offset: nat)
    requires
        in_window(s, i),
        s[i] == 83 && s[i + 1] == 73 && s[i + 2] == 90 && s[i + 3] == 69,
    ensures
        step_at(s, i, x_offset, y_offset) == taken(i + 4, Command::Size, x_offset, y_offset),
{
}

pub open spec fn shifted(p: Option<int>, d: int) -> Option<int> {
    match p {
        Some(v) => Some(v + d),
        None => None,
    }
}

/// Two buffers that hold the same `n` bytes at `i` and at `j`.
pub open spec fn agree(s: Seq<u8>, i: int, t: Seq<u8>, j: int, n: int) -> bool {
    &&& 0 <= i
    &&& 0 <= j
    &&& i + n <= s.len()
    &&& j + n <= t.len()
    &&& forall|m: int| 0 <= m < n ==> #[trigger] s[i + m] == t[j + m]
}

proof fn lemma_digit_run_agree(s: Seq<u8>, i: int, t: Seq<u8>, j: int, max: nat)
    requires
        agree(s, i, t, j, max as int),
    ensures
        digit_run(s, i, max) == digit_run(t, j, max),
    decreases max,
{
    if max > 0 {
        assert(s[i + 0] == t[j + 0]);
        assert forall|m: int| 0 <= m < max - 1 implies #[trigger] s[i + 1 + m] == t[j + 1 + m] by {
            assert(s[i + (m + 1)] == t[j + (m + 1)]);
        }
        lemma_digit_run_agree(s, i + 1, t, j + 1, (max - 1) as nat);
    }
}

proof fn lemma_coordinate_agree(s: Seq<u8>, i: int, t: Seq<u8>, j: int)
    requires
        agree(s, i, t, j, MAX_COORDINATE_DIGITS as int),
    ensures
        coordinate_end(s, i) - i == coordinate_end(t, j) - j,
        coordinate_at(s, i) == coordinate_at(t, j),
{
    lemma_digit_run_agree(s, i, t, j, MAX_COORDINATE_DIGITS as nat);
    lemma_digit_run_bound(t, j, MAX_COORDINATE_DIGITS as nat);
    let n = digit_run(t, j, MAX_COORDINATE_DIGITS as nat) as int;
    assert forall|m: int| 0 <= m < n implies #[trigger] s.subrange(i, i + n)[m] == t.subrange(
        j,
        j + n,
    )[m] by {
        assert(s[i + m] == t[j + m]);
    }
    assert(s.subrange(i, i + n) =~= t.subrange(j, j + n));
}

proof fn lemma_agree_within(s: Seq<u8>, i: int, t: Seq<u8>, j: int, n: int, a: int, b: int)
    requires
        agree(s, i, t, j, n),
        0 <= a,
        0 <= b,
        a + b <= n,
    ensures
        agree(s, i + a, t, j + a, b),
        s.subrange(i + a, i + a + b) == t.subrange(j + a, j + a + b),
        hex_field(s, i + a, b) == hex_field(t, j + a, b),
{
    assert forall|m: int| 0 <= m < b implies #[trigger] s[i + a + m] == t[j + a + m] by {
        assert(s[i + (a + m)] == t[j + (a + m)]);
    }
    assert forall|m: int| 0 <= m < b implies #[trigger] s.subrange(i + a, i + a + b)[m] == t.subrange(
        j + a,
        j + a + b,
    )[m] by {
        assert(s[i + (a + m)] == t[j + (a + m)]);
    }
    assert(s.subrange(i + a, i + a + b) =~= t.subrange(j + a, j + a + b));
    assert(hex_field(s, i + a, b) == hex_field(t, j + a, b)) by {
        if hex_field(s, i + a, b) {
            assert forall|m: int| 0 <= m < b implies is_hex_digit(#[trigger] t[j + a + m]) by {
                assert(s[i + a + m] == t[j + a + m]);
            }
        }
        if hex_field(t, j + a, b) {
            assert forall|m: int| 0 <= m < b implies is_hex_digit(#[trigger] s[i + a + m]) by {
                assert(s[i + a + m] == t[j + a + m]);
            }
        }
    }
}

proof fn lemma_pixel_step_agree(
    s: Seq<u8>,
    i: int,
    t: Seq<u8>,
    j: int,
    x_offset: nat,
    y_offset: nat,
)
    requires
        agree(s, i, t, j, PARSER_LOOKAHEAD as int),
    ensures
        ({
            let a = pixel_step(s, i, x_offset, y_offset);
            let b = pixel_step(t, j, x_offset, y_offset);
            &&& a.next - i == b.next - j
            &&& a.command == b.command
            &&& a.complete == b.complete
        }),
{
    let w = PARSER_LOOKAHEAD as int;
    lemma_agree_within(s, i, t, j, w, 3, 4);
    lemma_coordinate_agree(s, i + 3, t, j + 3);
    lemma_digit_run_bound(t, j + 3, 4);
    let ya = coordinate_end(t, j + 3) + 1 - j;
    lemma_agree_within(s, i, t, j, w, ya, 4);
    lemma_coordinate_agree(s, i + ya, t, j + ya);
    lemma_digit_run_bound(t, j + ya, 4);
    let k = coordinate_end(t, j + ya) + 1 - j;
    lemma_agree_within(s, i, t, j, w, k, 8);
    lemma_agree_within(s, i, t, j, w, k, 6);
    lemma_agree_within(s, i, t, j, w, k, 2);
    assert(s[i + (k - 1)] == t[j + (k - 1)]);
    assert(s[i + (k + 6)] == t[j + (k + 6)]);
    assert(s[i + (k + 8)] == t[j + (k + 8)]);
    assert(s[i + (k + 2)] == t[j + (k + 2)]);
}

proof fn lemma_offset_step_agree(
    s: Seq<u8>,
    i: int,
    t: Seq<u8>,
    j: int,
    x_offset: nat,
    y_offset: nat,
)
    requires
        agree(s, i, t, j, PARSER_LOOKAHEAD as int),
    ensures
        ({
            let a = offset_step(s, i, x_offset, y_offset);
            let b = offset_step(t, j, x_offset, y_offset);
            &&& a.next - i == b.next - j
            &&& a.command == b.command
            &&& a.x_offset == b.x_offset
            &&& a.y_offset == b.y_offset
            &&& a.complete == b.complete
        }),
{
    let w = PARSER_LOOKAHEAD as int;
    lemma_agree_within(s, i, t, j, w, 7, 4);
    lemma_coordinate_agree(s, i + 7, t, j + 7);
    lemma_digit_run_bound(t, j + 7, 4);
    let yb = coordinate_end(t, j + 7) + 1 - j;
    lemma_agree_within(s, i, t, j, w, yb, 4);
    lemma_coordinate_agree(s, i + yb, t, j + yb);
    lemma_digit_run_bound(t, j + yb, 4);
    let e = coordinate_end(t, j + yb) - j;
    assert(s[i + e] == t[j + e]);
}

/// An attempt depends only on the lookahead bytes at its cursor.
proof fn lemma_step_agree(
    s: Seq<u8>,
    i: int,
    t: Seq<u8>,
    j: int,
    x_offset: nat,
    y_offset: nat,
)
    requires
        agree(s, i, t, j, PARSER_LOOKAHEAD as int),
    ensures
        ({
            let a = step_at(s, i, x_offset, y_offset);
            let b = step_at(t, j, x_offset, y_offset);
            &&& a.next - i == b.next - j
            &&& a.command == b.command
            &&& a.x_offset == b.x_offset
            &&& a.y_offset == b.y_offset
            &&& a.complete == b.complete
        }),
{
    lemma_pixel_step_agree(s, i, t, j, x_offset, y_offset);
    lemma_offset_step_agree(s, i, t, j, x_offset, y_offset);
    assert(s[i + 0] == t[j + 0]);
    assert(s[i + 1] == t[j + 1]);
    assert(s[i + 2] == t[j + 2]);
    assert(s[i + 3] == t[j + 3]);
    assert(s[i + 4] == t[j + 4]);
    assert(s[i + 5] == t[j + 5]);
    assert(s[i + 6] == t[j + 6]);
}

/// A pass depends only on the bytes from its cursor on: dropping the first `d` bytes of a buffer
/// and starting `d` bytes earlier yields the same commands and offset, and positions `d` less.
pub proof fn lemma_parse_shift(
    s: Seq<u8>,
    t: Seq<u8>,
    d: int,
    i: int,
    x_offset: nat,
    y_offset: nat,
    last_parsed: Option<int>,
)
    requires
        0 <= d <= s.len(),
        t == s.subrange(d, s.len() as int),
        0 <= i,
    ensures
        ({
            let a = parse_from(s, i + d, x_offset, y_offset, shifted(last_parsed, d));
            let b = parse_from(t, i, x_offset, y_offset, last_parsed);
            &&& a.commands == b.commands
            &&& a.x_offset == b.x_offset
            &&& a.y_offset == b.y_offset
            &&& a.last_parsed == shifted(b.last_parsed, d)
        }),
    decreases t.len() - i,
{
    if in_window(t, i) {
        assert forall|m: int| 0 <= m < PARSER_LOOKAHEAD implies #[trigger] s[i + d + m] == t[i
            + m] by {}
        lemma_step_agree(s, i + d, t, i, x_offset, y_offset);
        lemma_step_bounds(t, i, x_offset, y_offset);
        let st = step_at(t, i, x_offset, y_offset);
        let next_last = if st.complete {
            Some(st.next - 1)
        } else {
            last_parsed
        };
        lemma_parse_shift(s, t, d, st.next, st.x_offset, st.y_offset, next_last);
        assert(shifted(next_last, d) == if st.complete {
            Some(st.next + d - 1)
        } else {
            shifted(last_parsed, d)
        });
    }
}

/// Resynchronization: a byte that begins no keyword in front of a buffer is skipped, and the pass
/// yields the same commands and offset as without it, its positions one later.
pub proof fn lemma_garbage_byte_skipped(b: u8, t: Seq<u8>, x_offset: nat, y_offset: nat)
    requires
        b != 80 && b != 79 && b != 83 && b != 72,
    ensures
        ({
            let a = parse_from(seq![b] + t, 0, x_offset, y_offset, None);
            let p = parse_from(t, 0, x_offset, y_offset, None);
            &&& a.commands == p.commands
            &&& a.x_offset == p.x_offset
            &&& a.y_offset == p.y_offset
            &&& a.last_parsed == shifted(p.last_parsed, 1)
        }),
{
    let s = seq![b] + t;
    assert(s.subrange(1, s.len() as int) =~= t);
    assert(s[0] == b);
    lemma_parse_shift(s, t, 1, 0, x_offset, y_offset, None);
}

/// Bytes that arrive later never change what a pass made of the bytes already there: the
/// commands of a pass over `s` are the first commands of a pass over `s` followed by `more`.
pub proof fn lemma_more_bytes_keep_commands(
    s: Seq<u8>,
    more: Seq<u8>,
    i: int,
    x_offset: nat,
    y_offset: nat,
    last_parsed: Option<int>,
)
    requires
        0 <= i,
    ensures
        ({
            let a = parse_from(s, i, x_offset, y_offset, last_parsed).commands;
            let b = parse_from(s + more, i, x_offset, y_offset, last_parsed).commands;
            &&& a.len() <= b.len()
            &&& b.subrange(0, a.len() as int) == a
        }),
    decreases s.len() - i,
{
    let t = s + more;
    let a = parse_from(s, i, x_offset, y_offset, last_parsed).commands;
    let b = parse_from(t, i, x_offset, y_offset, last_parsed).commands;
    if in_window(s, i) {
        assert forall|m: int| 0 <= m < PARSER_LOOKAHEAD implies #[trigger] s[i + m] == t[i + m] by {}
        lemma_step_agree(s, i, t, i, x_offset, y_offset);
        lemma_step_bounds(s, i, x_offset, y_offset);
        let st = step_at(s, i, x_offset, y_offset);
        let next_last = if st.complete {
            Some(st.next - 1)
        } else {
            last_parsed
        };
        lemma_more_bytes_keep_commands(s, more, st.next, st.x_offset, st.y_offset, next_last);
        let a1 = parse_from(s, st.next, st.x_offset, st.y_offset, next_last).commands;
        let b1 = parse_from(t, st.next, st.x_offset, st.y_offset, next_last).commands;
        match st.command {
            Some(c) => {
                assert(b.subrange(0, a.len() as int) =~= seq![c] + b1.subrange(0, a1.len() as int));
            },
            None => {},
        }
    } else {
        assert(b.subrange(0, 0) =~= a);
    }
}

pub proof fn lemma_hex_fixed_digits(v: nat, n: nat)
    ensures
        forall|m: int| 0 <= m < n ==> is_hex_digit(#[trigger] hex_fixed(v, n)[m]),
    decreases n,
{
    lemma_hex_len(v, n);
    if n > 0 {
        lemma_hex_fixed_digits(v / 16, (n - 1) as nat);
        lemma_hex_len(v / 16, (n - 1) as nat);
        let h = hex_fixed(v, n);
        let t = hex_fixed(v / 16, (n - 1) as nat);
        assert forall|m: int| 0 <= m < n implies is_hex_digit(#[trigger] h[m]) by {
            if m < n - 1 {
                assert(h[m] == t[m]);
            }
        }
    }
}

/// A whole command taken before a newline at `q - 1` ends at that newline or before it, where
/// the byte at `q` (if any) is no digit.
proof fn lemma_step_ends_before_cut(s: Seq<u8>, i: int, q: int, x_offset: nat, y_offset: nat)
    requires
        in_window(s, i),
        i < q <= s.len(),
        s[q - 1] == 10,
        q == s.len() || !is_digit(s[q]),
    ensures
        step_at(s, i, x_offset, y_offset).complete ==> step_at(s, i, x_offset, y_offset).next <= q,
{
    let st = step_at(s, i, x_offset, y_offset);
    lemma_step_bounds(s, i, x_offset, y_offset);
    lemma_digit_run_bound(s, i + 3, 4);
    lemma_digit_run_bound(s, i + 7, 4);
    let ya = coordinate_end(s, i + 3) + 1;
    let yb = coordinate_end(s, i + 7) + 1;
    lemma_digit_run_bound(s, ya, 4);
    lemma_digit_run_bound(s, yb, 4);
    let k = coordinate_end(s, ya) + 1;
    if st.complete && st.next > q {
        assert(!is_digit(s[q - 1]));
        assert(!is_hex_digit(s[q - 1]));
        if q - 1 >= k {
            assert(s[k + (q - 1 - k)] == s[q - 1]);
        }
        if ya == q || yb == q {
            assert(q < s.len());
            assert(s[q] == s[ya] || s[q] == s[yb]);
        }
    }
}

proof fn lemma_cut_kept_from(
    s: Seq<u8>,
    i: int,
    q: int,
    x_offset: nat,
    y_offset: nat,
    last_parsed: Option<int>,
)
    requires
        0 <= i,
        0 < q <= s.len(),
        s.len() - q <= PARSER_LOOKAHEAD,
        s[q - 1] == 10,
        q == s.len() || !is_digit(s[q]),
        last_parsed matches Some(p) ==> p < q,
    ensures
        parse_from(s, i, x_offset, y_offset, last_parsed).last_parsed matches Some(p) ==> p < q,
    decreases s.len() - i,
{
    if in_window(s, i) {
        lemma_step_bounds(s, i, x_offset, y_offset);
        lemma_step_ends_before_cut(s, i, q, x_offset, y_offset);
        let st = step_at(s, i, x_offset, y_offset);
        let next_last = if st.complete {
            Some(st.next - 1)
        } else {
            last_parsed
        };
        lemma_cut_kept_from(s, st.next, q, st.x_offset, st.y_offset, next_last);
    }
}

/// A command cut short by the end of a buffer is left whole for the next pass: where the buffer
/// ends in at most a lookahead of bytes after a newline, and those bytes do not begin with a
/// digit (a command begins with a keyword), the last position reported lies before them.
pub proof fn lemma_cut_command_kept(s: Seq<u8>, q: int, x_offset: nat, y_offset: nat)
    requires
        0 < q <= s.len(),
        s.len() - q <= PARSER_LOOKAHEAD,
        s[q - 1] == 10,
        q == s.len() || !is_digit(s[q]),
    ensures
        parse_from(s, 0, x_offset, y_offset, None).last_parsed matches Some(p) ==> p < q,
{
    lemma_cut_kept_from(s, 0, q, x_offset, y_offset, None);
}

/// The commands and the offset of a pass do not depend on the position it was handed.
proof fn lemma_last_irrelevant(
    s: Seq<u8>,
    i: int,
    x_offset: nat,
    y_offset: nat,
    l1: Option<int>,
    l2: Option<int>,
)
    requires
        0 <= i,
    ensures
        parse_from(s, i, x_offset, y_offset, l1).commands == parse_from(
            s,
            i,
            x_offset,
            y_offset,
            l2,
        ).commands,
        parse_from(s, i, x_offset, y_offset, l1).x_offset == parse_from(
            s,
            i,
            x_offset,
            y_offset,
            l2,
        ).x_offset,
        parse_from(s, i, x_offset, y_offset, l1).y_offset == parse_from(
            s,
            i,
            x_offset,
            y_offset,
            l2,
        ).y_offset,
    decreases s.len() - i,
{
    if in_window(s, i) {
        lemma_step_bounds(s, i, x_offset, y_offset);
        let st = step_at(s, i, x_offset, y_offset);
        lemma_last_irrelevant(
            s,
            st.next,
            st.x_offset,
            st.y_offset,
            if st.complete {
                Some(st.next - 1)
            } else {
                l1
            },
            if st.complete {
                Some(st.next - 1)
            } else {
                l2
            },
        );
    }
}

/// Where the next pass resumes after a pass that reported `last`, started at `h`.
pub open spec fn resume_at(last: Option<int>, h: int) -> int {
    match last {
        Some(p) => p + 1,
        None => h,
    }
}

proof fn lemma_split_from(
    b1: Seq<u8>,
    b2: Seq<u8>,
    i: int,
    h: int,
    x_offset: nat,
    y_offset: nat,
    last_parsed: Option<int>,
)
    requires
        0 <= h <= i,
        resume_at(last_parsed, h) == h,
        parse_from(b1 + b2, h, x_offset, y_offset, None).commands == parse_from(
            b1 + b2,
            i,
            x_offset,
            y_offset,
            None,
        ).commands,
        parse_from(b1 + b2, h, x_offset, y_offset, None).x_offset == parse_from(
            b1 + b2,
            i,
            x_offset,
            y_offset,
            None,
        ).x_offset,
        parse_from(b1 + b2, h, x_offset, y_offset, None).y_offset == parse_from(
            b1 + b2,
            i,
            x_offset,
            y_offset,
            None,
        ).y_offset,
    ensures
        ({
            let p = parse_from(b1, i, x_offset, y_offset, last_parsed);
            let whole = parse_from(b1 + b2, i, x_offset, y_offset, last_parsed);
            let rest = parse_from(
                b1 + b2,
                resume_at(p.last_parsed, h),
                p.x_offset,
                p.y_offset,
                None,
            );
            &&& whole.commands == p.commands + rest.commands
            &&& whole.x_offset == rest.x_offset
            &&& whole.y_offset == rest.y_offset
            &&& (last_parsed is Some ==> p.last_parsed is Some)
        }),
    decreases b1.len() - i,
{
    let t = b1 + b2;
    lemma_last_irrelevant(t, i, x_offset, y_offset, last_parsed, None);
    if in_window(b1, i) {
        assert forall|m: int| 0 <= m < PARSER_LOOKAHEAD implies #[trigger] b1[i + m] == t[i + m] by {}
        lemma_step_agree(b1, i, t, i, x_offset, y_offset);
        lemma_step_bounds(b1, i, x_offset, y_offset);
        let st = step_at(b1, i, x_offset, y_offset);
        let next_last = if st.complete {
            Some(st.next - 1)
        } else {
            last_parsed
        };
        let h2 = if st.complete {
            st.next
        } else {
            h
        };
        lemma_last_irrelevant(t, st.next, st.x_offset, st.y_offset, next_last, None);
        lemma_split_from(b1, b2, st.next, h2, st.x_offset, st.y_offset, next_last);
        let p2 = parse_from(b1, st.next, st.x_offset, st.y_offset, next_last);
        let rest = parse_from(t, resume_at(p2.last_parsed, h2), p2.x_offset, p2.y_offset, None);
        match st.command {
            Some(c) => {
                assert(seq![c] + (p2.commands + rest.commands) =~= (seq![c] + p2.commands)
                    + rest.commands);
            },
            None => {},
        }
    } else {
        assert(parse_from(b1, i, x_offset, y_offset, last_parsed).commands =~= Seq::<
            Command,
        >::empty());
        assert(Seq::<Command>::empty() + parse_from(t, h, x_offset, y_offset, None).commands
            =~= parse_from(t, h, x_offset, y_offset, None).commands);
    }
}

/// A read split in two: a pass over `b1`, then a pass over what it left (everything after the
/// last position it reported, or all of `b1`) followed by `b2`, from the offset the first pass
/// ended with, together yield the commands and the offset of one pass over `b1` and `b2`.
pub proof fn lemma_split_read(b1: Seq<u8>, b2: Seq<u8>, x_offset: nat, y_offset: nat)
    ensures
        ({
            let p = parse_from(b1, 0, x_offset, y_offset, None);
            let r = resume_at(p.last_parsed, 0);
            let q = parse_from(b1.subrange(r, b1.len() as int) + b2, 0, p.x_offset, p.y_offset, None);
            let whole = parse_from(b1 + b2, 0, x_offset, y_offset, None);
            &&& whole.commands == p.commands + q.commands
            &&& whole.x_offset == q.x_offset
            &&& whole.y_offset == q.y_offset
        }),
{
    let t = b1 + b2;
    lemma_split_from(b1, b2, 0, 0, x_offset, y_offset, None);
    let p = parse_from(b1, 0, x_offset, y_offset, None);
    let r = resume_at(p.last_parsed, 0);
    lemma_cut_bounds(b1, 0, x_offset, y_offset, None);
    let tail = b1.subrange(r, b1.len() as int) + b2;
    assert(t.subrange(r, t.len() as int) =~= tail);
    lemma_parse_shift(t, tail, r, 0, p.x_offset, p.y_offset, None);
}

/// The position a pass reports lies inside the buffer.
proof fn lemma_cut_bounds(
    s: Seq<u8>,
    i: int,
    x_offset: nat,
    y_offset: nat,
    last_parsed: Option<int>,
)
    requires
        0 <= i,
        last_parsed matches Some(p) ==> 0 <= p < s.len(),
    ensures
        parse_from(s, i, x_offset, y_offset, last_parsed).last_parsed matches Some(p) ==> 0 <= p
            < s.len(),
    decreases s.len() - i,
{
    if in_window(s, i) {
        lemma_step_bounds(s, i, x_offset, y_offset);
        let st = step_at(s, i, x_offset, y_offset);
        lemma_cut_bounds(
            s,
            st.next,
            st.x_offset,
            st.y_offset,
            if st.complete {
                Some(st.next - 1)
            } else {
                last_parsed
            },
        );
    }
}

/// From `i` on a buffer holds only newlines: a pass from there takes nothing.
proof fn lemma_newlines_take_nothing(
    s: Seq<u8>,
    i: int,
    x_offset: nat,
    y_offset: nat,
    last_parsed: Option<int>,
)
    requires
        0 <= i,
        forall|m: int| i <= m < s.len() ==> #[trigger] s[m] == 10,
    ensures
        parse_from(s, i, x_offset, y_offset, last_parsed).commands.len() == 0,
    decreases s.len() - i,
{
    if in_window(s, i) {
        assert(s[i] == 10);
        lemma_newlines_take_nothing(s, i + 1, x_offset, y_offset, last_parsed);
    }
}

proof fn lemma_size_last_from(
    s: Seq<u8>,
    i: int,
    q: int,
    x_offset: nat,
    y_offset: nat,
    last_parsed: Option<int>,
)
    requires
        0 <= i <= q,
        in_window(s, q),
        q == 0 || s[q - 1] == 10,
        s[q] == 83 && s[q + 1] == 73 && s[q + 2] == 90 && s[q + 3] == 69,
        forall|m: int| q + 4 <= m < s.len() ==> #[trigger] s[m] == 10,
    ensures
        parse_from(s, i, x_offset, y_offset, last_parsed).commands.len() > 0,
        parse_from(s, i, x_offset, y_offset, last_parsed).commands.last() == Command::Size,
    decreases q - i,
{
    let st = step_at(s, i, x_offset, y_offset);
    let next_last = if st.complete {
        Some(st.next - 1)
    } else {
        last_parsed
    };
    if i == q {
        lemma_size_step(s, q, x_offset, y_offset);
        lemma_newlines_take_nothing(s, q + 4, x_offset, y_offset, Some(q + 3));
        assert(parse_from(s, i, x_offset, y_offset, last_parsed).commands =~= seq![Command::Size]);
    } else {
        lemma_step_bounds(s, i, x_offset, y_offset);
        lemma_step_ends_before_cut(s, i, q, x_offset, y_offset);
        lemma_size_last_from(s, st.next, q, st.x_offset, st.y_offset, next_last);
        let rest = parse_from(s, st.next, st.x_offset, st.y_offset, next_last).commands;
        match st.command {
            Some(c) => {
                assert((seq![c] + rest).last() == rest.last());
            },
            None => {},
        }
    }
}

/// `SIZE` after any whole lines, with only newlines after it (at least a lookahead of them):
/// the last command a pass yields is the size query, whatever the lines before it did.
pub proof fn lemma_size_answered_last(a: Seq<u8>, n: nat, x_offset: nat, y_offset: nat)
    requires
        a.len() == 0 || a.last() == 10,
        n > PARSER_LOOKAHEAD - 4,
    ensures
        ({
            let s = a + seq![83u8, 73u8, 90u8, 69u8] + Seq::new(n, |m: int| 10u8);
            let p = parse_from(s, 0, x_offset, y_offset, None);
            &&& p.commands.len() > 0
            &&& p.commands.last() == Command::Size
        }),
{
    let s = a + seq![83u8, 73u8, 90u8, 69u8] + Seq::new(n, |m: int| 10u8);
    let q = a.len() as int;
    assert(s[q] == 83 && s[q + 1] == 73 && s[q + 2] == 90 && s[q + 3] == 69);
    assert(q == 0 || s[q - 1] == 10);
    assert forall|m: int| q + 4 <= m < s.len() implies #[trigger] s[m] == 10 by {}
    lemma_size_last_from(s, 0, q, x_offset, y_offset, None);
}

pub proof fn lemma_hex_len(v: nat, n: nat)
    ensures
        hex_fixed(v, n).len() == n,
    decreases n,
{
    if n > 0 {
        lemma_hex_len(v / 16, (n - 1) as nat);
    }
}

} // verus!
