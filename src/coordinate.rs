//! Fixed-width decimal coordinates.
use vstd::prelude::*;

verus! {

/// Most digits a coordinate may have.
pub const MAX_COORDINATE_DIGITS: usize = 4;

/// An ASCII decimal digit, `0` (48) to `9` (57).
pub open spec fn is_digit(b: u8) -> bool {
    48 <= b && b <= 57
}

/// How many decimal digits follow position `i` in `s`, looking at no more than `max` bytes.
pub open spec fn digit_run(s: Seq<u8>, i: int, max: nat) -> nat
    decreases max,
{
    if max == 0 || i < 0 || i >= s.len() || !is_digit(s[i]) {
        0
    } else {
        1 + digit_run(s, i + 1, (max - 1) as nat)
    }
}

/// The number that a string of decimal digits spells, most significant digit first.
pub open spec fn decimal_value(s: Seq<u8>) -> nat
    decreases s.len(),
{
    if s.len() == 0 {
        0
    } else {
        decimal_value(s.drop_last()) * 10 + (s.last() - 48) as nat
    }
}

/// The coordinate that starts at `i`: the digits there, at most four of them.
pub open spec fn coordinate_at(s: Seq<u8>, i: int) -> nat {
    decimal_value(s.subrange(i, i + digit_run(s, i, MAX_COORDINATE_DIGITS as nat)))
}

pub proof fn lemma_digit_run_bound(s: Seq<u8>, i: int, max: nat)
    ensures
        digit_run(s, i, max) <= max,
        forall|k: int| i <= k < i + digit_run(s, i, max) ==> is_digit(#[trigger] s[k]),
        i + digit_run(s, i, max) <= s.len() || digit_run(s, i, max) == 0,
    decreases max,
{
    if max > 0 && 0 <= i < s.len() && is_digit(s[i]) {
        lemma_digit_run_bound(s, i + 1, (max - 1) as nat);
    }
}

pub open spec fn pow10(n: nat) -> nat
    decreases n,
{
    if n == 0 {
        1
    } else {
        10 * pow10((n - 1) as nat)
    }
}

/// Reads up to four decimal digits at `*current_index`, moving the index past each digit read.
/// Returns the number they spell and whether there was at least one.
pub fn parse_coordinate(buffer: &[u8], current_index: &mut usize) -> (r: (usize, bool))
    requires
        *old(current_index) + MAX_COORDINATE_DIGITS <= buffer@.len(),
    ensures
        *final(current_index) == *old(current_index) + digit_run(
            buffer@,
            *old(current_index) as int,
            MAX_COORDINATE_DIGITS as nat,
        ),
        r.0 == coordinate_at(buffer@, *old(current_index) as int),
        r.1 == (*final(current_index) > *old(current_index)),
        r.0 <= 9999,
        *final(current_index) <= *old(current_index) + MAX_COORDINATE_DIGITS,
{
    let start: usize = *current_index;
    let mut result: usize = 0;
    let mut visited = false;
    let mut pos: usize = 0;
    proof {
        lemma_digit_run_bound(buffer@, start as int, 4);
    }
    let mut done = false;
    while pos < MAX_COORDINATE_DIGITS && !done
        invariant
            done ==> digit_run(buffer@, start as int, 4) == pos,
            start + MAX_COORDINATE_DIGITS <= buffer@.len(),
            pos <= MAX_COORDINATE_DIGITS,
            pos <= digit_run(buffer@, start as int, 4),
            *current_index == start + pos,
            visited == (pos > 0),
            result == decimal_value(buffer@.subrange(start as int, start + pos)),
            result < pow10(pos as nat),
            digit_run(buffer@, start as int, 4) == pos + digit_run(
                buffer@,
                start + pos,
                (4 - pos) as nat,
            ),
        decreases MAX_COORDINATE_DIGITS - pos + (if done { 0int } else { 1int }),
    {
        let digit = buffer[start + pos];
        if digit >= 48 && digit <= 57 {
            let ghost prev = buffer@.subrange(start as int, start + pos);
            let ghost next = buffer@.subrange(start as int, start + pos + 1);
            assert(next.drop_last() =~= prev);
            assert(pow10((pos + 1) as nat) == 10 * pow10(pos as nat));
            reveal_with_fuel(pow10, 5);
            assert(result * 10 + (digit - 48) < 10 * pow10(pos as nat)) by (nonlinear_arith)
                requires
                    result < pow10(pos as nat),
                    digit - 48 < 10,
            ;
            result = 10 * result + (digit - 48) as usize;
            *current_index = *current_index + 1;
            visited = true;
            pos = pos + 1;
        } else {
            assert(digit_run(buffer@, start + pos, (4 - pos) as nat) == 0);
            done = true;
        }
    }
    assert(digit_run(buffer@, start + pos, (4 - pos) as nat) == 0 || done);
    proof {
        reveal_with_fuel(pow10, 5);
    }
    (result, visited)
}

/// Where the digits of a coordinate that starts at `i` end.
pub open spec fn coordinate_end(s: Seq<u8>, i: int) -> int {
    i + digit_run(s, i, MAX_COORDINATE_DIGITS as nat)
}

/// Reads an x and a y coordinate at `*current_index`, with the one byte between them skipped.
/// The flag tells whether both had at least one digit.
pub fn parse_pixel_coordinates(buffer: &[u8], current_index: &mut usize) -> (r: (usize, usize, bool))
    requires
        *old(current_index) + 2 * MAX_COORDINATE_DIGITS + 1 <= buffer@.len(),
    ensures
        ({
            let start = *old(current_index) as int;
            let y_start = coordinate_end(buffer@, start) + 1;
            &&& *final(current_index) == coordinate_end(buffer@, y_start)
            &&& r.0 == coordinate_at(buffer@, start)
            &&& r.1 == coordinate_at(buffer@, y_start)
            &&& r.2 == (coordinate_end(buffer@, start) > start && coordinate_end(buffer@, y_start)
                > y_start)
        }),
        r.0 <= 9999,
        r.1 <= 9999,
        *final(current_index) <= *old(current_index) + 2 * MAX_COORDINATE_DIGITS + 1,
{
    proof {
        assert(buffer@.len() == buffer.len());
    }
    let (x, x_visited) = parse_coordinate(buffer, current_index);
    *current_index = *current_index + 1;
    let (y, y_visited) = parse_coordinate(buffer, current_index);
    (x, y, x_visited && y_visited)
}

} // verus!
