//! The command dispatcher: one pass over a buffer of protocol text.
use vstd::prelude::*;

use crate::color::{
    hex_field, hex_to_int, is_hex_field, lemma_unhex_bound, pow16, simd_unhex,
};
use crate::command::{lemma_mask3, pack8, lemma_mask4, lemma_mask7, read_word, string_to_number};
use crate::coordinate::{
    coordinate_at, coordinate_end, lemma_digit_run_bound, parse_pixel_coordinates,
};

verus! {

/// Length of the longest command, `PX 1234 1234 rrggbbaa\n`: a command is only attempted where
/// more than this many bytes are left from its first byte on.
pub const PARSER_LOOKAHEAD: usize = 22;

/// A recognized command, with coordinates already moved by the connection offset.
#[derive(PartialEq, Eq, Structural, Clone, Copy, Debug)]
pub enum Command {
    /// Write the `0xRRGGBB` color at a cell (from the six-digit and the two-digit gray form).
    SetPixel { x: usize, y: usize, rgb: u32 },
    /// Write or composite the `0xRRGGBBAA` value at a cell.
    SetRgba { x: usize, y: usize, rgba: u32 },
    /// Report the color of the cell `(x, y)`, naming it `(client_x, client_y)` in the reply.
    GetPixel { x: usize, y: usize, client_x: usize, client_y: usize },
    /// Replace the connection offset with `(x, y)`.
    Offset { x: usize, y: usize },
    /// Report the canvas size.
    Size,
    /// Send the help text.
    Help,
}

/// What one attempt at a cursor position does.
pub struct Step {
    /// Where the cursor goes next.
    pub next: int,
    /// The command recognized there, if any.
    pub command: Option<Command>,
    pub x_offset: nat,
    pub y_offset: nat,
    /// Whether a whole command was taken.
    pub complete: bool,
}

/// What a pass over a buffer does from some cursor on.
pub struct Parsed {
    pub commands: Seq<Command>,
    pub x_offset: nat,
    pub y_offset: nat,
    /// Position of the last byte of the last whole command.
    pub last_parsed: Option<int>,
}

/// `PX ` at `i`.
pub open spec fn is_pixel_at(s: Seq<u8>, i: int) -> bool {
    s[i] == 80 && s[i + 1] == 88 && s[i + 2] == 32
}

/// `OFFSET ` at `i`.
pub open spec fn is_offset_at(s: Seq<u8>, i: int) -> bool {
    s[i] == 79 && s[i + 1] == 70 && s[i + 2] == 70 && s[i + 3] == 83 && s[i + 4] == 69 && s[i
        + 5] == 84 && s[i + 6] == 32
}

/// `SIZE` at `i`.
pub open spec fn is_size_at(s: Seq<u8>, i: int) -> bool {
    s[i] == 83 && s[i + 1] == 73 && s[i + 2] == 90 && s[i + 3] == 69
}

/// `HELP` at `i`.
pub open spec fn is_help_at(s: Seq<u8>, i: int) -> bool {
    s[i] == 72 && s[i + 1] == 69 && s[i + 2] == 76 && s[i + 3] == 80
}

/// No command at `i`: move on by one byte.
pub open spec fn skip(i: int, x_offset: nat, y_offset: nat) -> Step {
    Step { next: i + 1, command: None, x_offset, y_offset, complete: false }
}

pub open spec fn taken(next: int, c: Command, x_offset: nat, y_offset: nat) -> Step {
    Step { next, command: Some(c), x_offset, y_offset, complete: true }
}

/// `n` hex digits at `k`, then a newline.
pub open spec fn color_field(s: Seq<u8>, k: int, n: int) -> bool {
    hex_field(s, k, n) && s[k + n] == 10
}

/// The `PX` command at `i`: a query, or a set whose color field is six, eight or two hex digits
/// and a newline, the forms tried in that order. Anything else there is no command.
pub open spec fn pixel_step(s: Seq<u8>, i: int, x_offset: nat, y_offset: nat) -> Step {
    let xs = i + 3;
    let ys = coordinate_end(s, xs) + 1;
    let j = coordinate_end(s, ys);
    let cx = coordinate_at(s, xs);
    let cy = coordinate_at(s, ys);
    let x = (cx + x_offset) as usize;
    let y = (cy + y_offset) as usize;
    if coordinate_end(s, xs) > xs && j > ys {
        if s[j] == 32 {
            let k = j + 1;
            if color_field(s, k, 6) {
                taken(
                    k + 7,
                    Command::SetPixel { x, y, rgb: hex_to_int(s.subrange(k, k + 6)) as u32 },
                    x_offset,
                    y_offset,
                )
            } else if color_field(s, k, 8) {
                taken(
                    k + 9,
                    Command::SetRgba { x, y, rgba: hex_to_int(s.subrange(k, k + 8)) as u32 },
                    x_offset,
                    y_offset,
                )
            } else if color_field(s, k, 2) {
                taken(
                    k + 3,
                    Command::SetPixel {
                        x,
                        y,
                        rgb: (hex_to_int(s.subrange(k, k + 2)) * 0x10101) as u32,
                    },
                    x_offset,
                    y_offset,
                )
            } else {
                skip(i, x_offset, y_offset)
            }
        } else if s[j] == 10 {
            taken(
                j + 1,
                Command::GetPixel { x, y, client_x: cx as usize, client_y: cy as usize },
                x_offset,
                y_offset,
            )
        } else {
            skip(i, x_offset, y_offset)
        }
    } else {
        skip(i, x_offset, y_offset)
    }
}

/// The `OFFSET` command at `i`: both coordinates and a newline replace the connection offset.
pub open spec fn offset_step(s: Seq<u8>, i: int, x_offset: nat, y_offset: nat) -> Step {
    let xs = i + 7;
    let ys = coordinate_end(s, xs) + 1;
    let j = coordinate_end(s, ys);
    if coordinate_end(s, xs) > xs && j > ys && s[j] == 10 {
        Step {
            next: j + 1,
            command: Some(
                Command::Offset {
                    x: coordinate_at(s, xs) as usize,
                    y: coordinate_at(s, ys) as usize,
                },
            ),
            x_offset: coordinate_at(s, xs),
            y_offset: coordinate_at(s, ys),
            complete: true,
        }
    } else {
        skip(i, x_offset, y_offset)
    }
}

/// One attempt at `i`, keywords tried in the order `PX `, `OFFSET `, `SIZE`, `HELP`.
pub open spec fn step_at(s: Seq<u8>, i: int, x_offset: nat, y_offset: nat) -> Step {
    if is_pixel_at(s, i) {
        pixel_step(s, i, x_offset, y_offset)
    } else if is_offset_at(s, i) {
        offset_step(s, i, x_offset, y_offset)
    } else if is_size_at(s, i) {
        taken(i + 4, Command::Size, x_offset, y_offset)
    } else if is_help_at(s, i) {
        taken(i + 4, Command::Help, x_offset, y_offset)
    } else {
        skip(i, x_offset, y_offset)
    }
}

/// Whether a command is attempted at `i`: more than the lookahead is left from `i` on.
pub open spec fn in_window(s: Seq<u8>, i: int) -> bool {
    0 <= i && i + PARSER_LOOKAHEAD < s.len()
}

/// The pass over `s` from the cursor `i` on.
pub open spec fn parse_from(
    s: Seq<u8>,
    i: int,
    x_offset: nat,
    y_offset: nat,
    last_parsed: Option<int>,
) -> Parsed
    decreases s.len() - i,
    via parse_from_decreases
{
    if !in_window(s, i) {
        Parsed { commands: seq![], x_offset, y_offset, last_parsed }
    } else {
        let st = step_at(s, i, x_offset, y_offset);
        let rest = parse_from(
            s,
            st.next,
            st.x_offset,
            st.y_offset,
            if st.complete {
                Some(st.next - 1)
            } else {
                last_parsed
            },
        );
        Parsed {
            commands: match st.command {
                Some(c) => seq![c] + rest.commands,
                None => rest.commands,
            },
            ..rest
        }
    }
}

/// The last parsed position as the pass reports it.
pub open spec fn position(p: Option<usize>) -> Option<int> {
    match p {
        Some(v) => Some(v as int),
        None => None,
    }
}

/// The result of one pass: the commands in the order they came, and the position of the last
/// byte of the last whole command, if any command was whole.
pub struct ParseResult {
    pub commands: Vec<Command>,
    pub last_parsed: Option<usize>,
}

/// The decoder of one connection. It owns the connection's offset, which starts at `(0, 0)` and
/// is changed only by an `OFFSET` command.
pub struct SimpleParser {
    connection_x_offset: usize,
    connection_y_offset: usize,
}

impl SimpleParser {
    /// An offset is spelled by at most four digits.
    #[verifier::type_invariant]
    spec fn offset_fits(&self) -> bool {
        self.connection_x_offset <= 9999 && self.connection_y_offset <= 9999
    }

    /// The connection offset `(x, y)`.
    pub closed spec fn offset(&self) -> (nat, nat) {
        (self.connection_x_offset as nat, self.connection_y_offset as nat)
    }

    pub fn new() -> (r: SimpleParser)
        ensures
            r.offset() == (0nat, 0nat),
    {
        SimpleParser { connection_x_offset: 0, connection_y_offset: 0 }
    }

    pub fn x_offset(&self) -> (r: usize)
        ensures
            r == self.offset().0,
    {
        self.connection_x_offset
    }

    pub fn y_offset(&self) -> (r: usize)
        ensures
            r == self.offset().1,
    {
        self.connection_y_offset
    }

    /// How many bytes from a command's first byte on must be in the buffer before it is tried.
    pub fn parser_lookahead() -> (r: usize)
        ensures
            r == PARSER_LOOKAHEAD,
    {
        PARSER_LOOKAHEAD
    }

    /// Moves client coordinates onto the canvas.
    pub fn apply_offset(&self, x: usize, y: usize) -> (r: (usize, usize))
        requires
            x + self.offset().0 <= usize::MAX,
            y + self.offset().1 <= usize::MAX,
        ensures
            r.0 == x + self.offset().0,
            r.1 == y + self.offset().1,
    {
        proof {
            use_type_invariant(self);
        }
        (x + self.connection_x_offset, y + self.connection_y_offset)
    }

    /// Replaces the connection offset, where both coordinates have at most four digits; otherwise
    /// leaves it and returns `false`.
    pub fn set_offset(&mut self, x: usize, y: usize) -> (r: bool)
        ensures
            r == (x <= 9999 && y <= 9999),
            r ==> final(self).offset() == (x as nat, y as nat),
            !r ==> final(self).offset() == old(self).offset(),
    {
        if x <= 9999 && y <= 9999 {
            *self = SimpleParser { connection_x_offset: x, connection_y_offset: y };
            true
        } else {
            false
        }
    }

    fn handle_pixel(&self, buffer: &[u8], i: usize) -> (r: (usize, Option<Command>))
        requires
            in_window(buffer@, i as int),
        ensures
            r.0 == pixel_step(buffer@, i as int, self.offset().0, self.offset().1).next,
            r.1 == pixel_step(buffer@, i as int, self.offset().0, self.offset().1).command,
    {
        proof {
            use_type_invariant(self);
        }
        proof {
            assert(buffer@.len() == buffer.len());
        }
        let mut idx = i + 3;
        let (x, y, present) = parse_pixel_coordinates(buffer, &mut idx);
        if present {
            let (ax, ay) = self.apply_offset(x, y);
            if buffer[idx] == 32 {
                let k = idx + 1;
                if is_hex_field(buffer, k, 6) && buffer[k + 6] == 10 {
                    let rgb = simd_unhex(buffer, k, 6);
                    (k + 7, Some(Command::SetPixel { x: ax, y: ay, rgb }))
                } else if is_hex_field(buffer, k, 8) && buffer[k + 8] == 10 {
                    let rgba = simd_unhex(buffer, k, 8);
                    (k + 9, Some(Command::SetRgba { x: ax, y: ay, rgba }))
                } else if is_hex_field(buffer, k, 2) && buffer[k + 2] == 10 {
                    let g = simd_unhex(buffer, k, 2);
                    proof {
                        lemma_unhex_bound(buffer@.subrange(k as int, k + 2));
                        reveal_with_fuel(pow16, 3);
                    }
                    assert(g < 256 ==> (g << 16) | (g << 8) | g == g * 0x10101) by (bit_vector);
                    let rgb = (g << 16) | (g << 8) | g;
                    (k + 3, Some(Command::SetPixel { x: ax, y: ay, rgb }))
                } else {
                    (i + 1, None)
                }
            } else if buffer[idx] == 10 {
                (idx + 1, Some(Command::GetPixel { x: ax, y: ay, client_x: x, client_y: y }))
            } else {
                (i + 1, None)
            }
        } else {
            (i + 1, None)
        }
    }

    fn handle_offset(&mut self, buffer: &[u8], i: usize) -> (r: Option<(usize, Command)>)
        requires
            in_window(buffer@, i as int),
        ensures
            ({
                let st = offset_step(buffer@, i as int, old(self).offset().0, old(self).offset().1);
                &&& st.complete == r.is_some()
                &&& r matches Some((n, c)) ==> n == st.next && st.command == Some(c)
                &&& final(self).offset() == (st.x_offset, st.y_offset)
            }),
    {
        proof {
            assert(buffer@.len() == buffer.len());
        }
        let mut idx = i + 7;
        let (x, y, present) = parse_pixel_coordinates(buffer, &mut idx);
        if present && buffer[idx] == 10 {
            self.set_offset(x, y);
            Some((idx + 1, Command::Offset { x, y }))
        } else {
            None
        }
    }

    /// One pass over `buffer`. Where a command is attempted, its keyword is recognized by masking
    /// the eight bytes there read as one integer; a command that is malformed, or no keyword at
    /// all, moves the cursor on by one byte. Only a cursor that leaves more than
    /// [`PARSER_LOOKAHEAD`] bytes before the end is tried, so a command cut short by the end of
    /// the buffer is left for the next pass, after the position returned.
    ///
    /// An `OFFSET` moves the coordinates of the commands after it in the same buffer at once, and
    /// comes out as [`Command::Offset`]; the connection's own offset changes only when the caller
    /// applies that command with [`SimpleParser::set_offset`].
    pub fn parse(&self, buffer: &[u8]) -> (r: ParseResult)
        ensures
            ({
                let p = parse_from(buffer@, 0, self.offset().0, self.offset().1, None);
                &&& r.commands@ == p.commands
                &&& position(r.last_parsed) == p.last_parsed
            }),
    {
        proof {
            use_type_invariant(self);
        }
        let ghost total = parse_from(buffer@, 0, self.offset().0, self.offset().1, None);
        let mut running = SimpleParser {
            connection_x_offset: self.connection_x_offset,
            connection_y_offset: self.connection_y_offset,
        };
        let len = buffer.len();
        let mut commands: Vec<Command> = Vec::new();
        let mut last_parsed: Option<usize> = None;
        let mut i: usize = 0;
        // Each keyword as the integer its bytes make, zero past its end.
        let px = string_to_number(&[80u8, 88u8, 32u8, 0u8, 0u8, 0u8, 0u8, 0u8]);
        let offset = string_to_number(&[79u8, 70u8, 70u8, 83u8, 69u8, 84u8, 32u8, 0u8]);
        let size = string_to_number(&[83u8, 73u8, 90u8, 69u8, 0u8, 0u8, 0u8, 0u8]);
        let help = string_to_number(&[72u8, 69u8, 76u8, 80u8, 0u8, 0u8, 0u8, 0u8]);
        while i < len && len - i > PARSER_LOOKAHEAD
            invariant
                len == buffer@.len(),
                i <= len,
                px == pack8(80, 88, 32, 0, 0, 0, 0, 0),
                offset == pack8(79, 70, 70, 83, 69, 84, 32, 0),
                size == pack8(83, 73, 90, 69, 0, 0, 0, 0),
                help == pack8(72, 69, 76, 80, 0, 0, 0, 0),
                ({
                    let rest = parse_from(
                        buffer@,
                        i as int,
                        running.offset().0,
                        running.offset().1,
                        position(last_parsed),
                    );
                    &&& total.commands == commands@ + rest.commands
                    &&& total.last_parsed == rest.last_parsed
                    &&& total.x_offset == rest.x_offset
                    &&& total.y_offset == rest.y_offset
                }),
            decreases len - i,
        {
            let ghost s = buffer@;
            let ghost ii = i as int;
            proof {
                lemma_step_bounds(s, ii, running.offset().0, running.offset().1);
                lemma_mask3(
                    s[ii], s[ii + 1], s[ii + 2], s[ii + 3], s[ii + 4], s[ii + 5], s[ii + 6], s[ii + 7],
                    80, 88, 32,
                );
                lemma_mask7(
                    s[ii], s[ii + 1], s[ii + 2], s[ii + 3], s[ii + 4], s[ii + 5], s[ii + 6], s[ii + 7],
                    79, 70, 70, 83, 69, 84, 32,
                );
                lemma_mask4(
                    s[ii], s[ii + 1], s[ii + 2], s[ii + 3], s[ii + 4], s[ii + 5], s[ii + 6], s[ii + 7],
                    83, 73, 90, 69,
                );
                lemma_mask4(
                    s[ii], s[ii + 1], s[ii + 2], s[ii + 3], s[ii + 4], s[ii + 5], s[ii + 6], s[ii + 7],
                    72, 69, 76, 80,
                );
            }
            let current_command = read_word(buffer, i);
            let (next, command, complete) = if current_command & 0x00ff_ffff == px {
                let (next, command) = running.handle_pixel(buffer, i);
                (next, command, command.is_some())
            } else if current_command & 0x00ff_ffff_ffff_ffff == offset {
                match running.handle_offset(buffer, i) {
                    Some((next, command)) => (next, Some(command), true),
                    None => (i + 1, None, false),
                }
            } else if current_command & 0xffff_ffff == size {
                (i + 4, Some(Command::Size), true)
            } else if current_command & 0xffff_ffff == help {
                (i + 4, Some(Command::Help), true)
            } else {
                (i + 1, None, false)
            };
            match command {
                Some(c) => {
                    commands.push(c);
                },
                None => {},
            }
            if complete {
                last_parsed = Some(next - 1);
            }
            i = next;
        }
        ParseResult { commands, last_parsed }
    }
}

/// Every attempt moves the cursor forward, and never past the lookahead.
pub proof fn lemma_step_bounds(s: Seq<u8>, i: int, x_offset: nat, y_offset: nat)
    requires
        in_window(s, i),
    ensures
        i < step_at(s, i, x_offset, y_offset).next <= i + PARSER_LOOKAHEAD,
{
    lemma_digit_run_bound(s, i + 3, 4);
    lemma_digit_run_bound(s, coordinate_end(s, i + 3) + 1, 4);
    lemma_digit_run_bound(s, i + 7, 4);
    lemma_digit_run_bound(s, coordinate_end(s, i + 7) + 1, 4);
}

#[via_fn]
proof fn parse_from_decreases(
    s: Seq<u8>,
    i: int,
    x_offset: nat,
    y_offset: nat,
    last_parsed: Option<int>,
) {
    if in_window(s, i) {
        lemma_step_bounds(s, i, x_offset, y_offset);
    }
}

} // verus!
