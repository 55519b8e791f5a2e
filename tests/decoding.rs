use std::collections::HashMap;

use breakwater_parser::color::{blend, rgba_to_rgb, should_blend, simd_unhex};
use breakwater_parser::coordinate::parse_coordinate;
use breakwater_parser::reply::{pixel_reply, size_reply};
use breakwater_parser::{
    parse_pixel_coordinates, string_to_number, AssemblerParser, Command, SimpleParser,
    PARSER_LOOKAHEAD,
};

fn padded(text: &[u8]) -> Vec<u8> {
    let mut v = text.to_vec();
    v.extend_from_slice(&[b' '; 22]);
    v
}

/// A stand-in canvas: performs the commands and collects the replies.
fn run(
    parser: &mut SimpleParser,
    commands: &[Command],
    canvas: &mut HashMap<(usize, usize), u32>,
    w: usize,
    h: usize,
) -> Vec<u8> {
    let mut out = Vec::new();
    for c in commands {
        match *c {
            Command::Offset { x, y } => assert!(parser.set_offset(x, y)),
            Command::SetPixel { x, y, rgb } => {
                if x < w && y < h {
                    canvas.insert((x, y), rgb);
                }
            }
            Command::SetRgba { x, y, rgba } => {
                if x < w && y < h {
                    canvas.insert((x, y), rgba_to_rgb(rgba));
                }
            }
            Command::GetPixel { x, y, client_x, client_y } => {
                if x < w && y < h {
                    let rgb = *canvas.get(&(x, y)).unwrap_or(&0);
                    out.extend(pixel_reply(client_x, client_y, rgb));
                }
            }
            Command::Size => out.extend(size_reply(w, h)),
            Command::Help => out.extend_from_slice(b"help\n"),
        }
    }
    out
}

#[test]
fn coordinate_of_each_width() {
    for (text, value, digits) in [
        (&b"7 aaaa"[..], 7usize, 1usize),
        (b"42\naaa", 42, 2),
        (b"999 aaa", 999, 3),
        (b"1234 aaa", 1234, 4),
        (b"0000 aaa", 0, 4),
    ] {
        let mut idx = 0usize;
        assert_eq!(parse_coordinate(text, &mut idx), (value, true));
        assert_eq!(idx, digits);
    }
}

#[test]
fn coordinate_absent() {
    let mut idx = 1usize;
    assert_eq!(parse_coordinate(b" x123", &mut idx), (0, false));
    assert_eq!(idx, 1);
}

#[test]
fn coordinate_stops_after_four_digits() {
    let mut idx = 0usize;
    assert_eq!(parse_coordinate(b"12345 ", &mut idx), (1234, true));
    assert_eq!(idx, 4);
}

#[test]
fn pixel_coordinates_pair() {
    let mut idx = 3usize;
    assert_eq!(parse_pixel_coordinates(b"PX 12 345 ff\naaaa", &mut idx), (12, 345, true));
    assert_eq!(idx, 9);
    let mut idx = 3usize;
    assert_eq!(parse_pixel_coordinates(b"PX 12  345 ff\naaa", &mut idx), (12, 0, false));
}

#[test]
fn keyword_words() {
    assert_eq!(string_to_number(b"PX \0\0\0\0\0"), 0x0020_5850);
    assert_eq!(string_to_number(b"HELP\0\0\0\0"), 0x504c_4548);
    assert_eq!(string_to_number(b"OFFSET \0"), 0x0020_5445_5346_464f);
}

#[test]
fn hex_any_case() {
    assert_eq!(simd_unhex(b"ff8800\nx", 0, 6), 0xff8800);
    assert_eq!(simd_unhex(b"FF8800\nx", 0, 6), 0xff8800);
    assert_eq!(simd_unhex(b"aBcDeF09", 0, 8), 0xabcdef09);
    assert_eq!(simd_unhex(b"7f\nzzzzz", 0, 2), 0x7f);
    assert_eq!(simd_unhex(b"xx0123456789", 2, 8), 0x01234567);
}

#[test]
fn blend_weights() {
    assert!(!should_blend(0x11223300, 1, 1, 10, 10));
    assert!(!should_blend(0x112233ff, 10, 1, 10, 10));
    assert!(should_blend(0x11223301, 9, 9, 10, 10));
    assert_eq!(blend(0x445566, 0x112233ff), 0x112233);
    assert_eq!(blend(0x000000, 0xff000080), 0x800000);
    assert_eq!(blend(0x10ff20, 0x30004080), 0x207f30);
}

#[test]
fn replies() {
    assert_eq!(pixel_reply(12, 3, 0x0a0b0c), b"PX 12 3 0a0b0c\n".to_vec());
    assert_eq!(pixel_reply(0, 0, 0xff0000), b"PX 0 0 ff0000\n".to_vec());
    assert_eq!(size_reply(1920, 1080), b"SIZE 1920 1080\n".to_vec());
}

#[test]
fn set_then_get_round_trip() {
    let mut parser = SimpleParser::new();
    let buffer = padded(b"PX 12 34 ff8800\nPX 12 34\n");
    let r = parser.parse(&buffer);
    assert_eq!(
        r.commands,
        vec![
            Command::SetPixel { x: 12, y: 34, rgb: 0xff8800 },
            Command::GetPixel { x: 12, y: 34, client_x: 12, client_y: 34 },
        ]
    );
    assert_eq!(r.last_parsed, Some(24));
    let mut canvas = HashMap::new();
    assert_eq!(run(&mut parser, &r.commands, &mut canvas, 100, 100), b"PX 12 34 ff8800\n".to_vec());
}

#[test]
fn offset_isolation() {
    let mut parser = SimpleParser::new();
    let buffer = padded(b"OFFSET 100 100\nPX 0 0 ff0000\nPX 0 0\n");
    let r = parser.parse(&buffer);
    assert_eq!(
        r.commands,
        vec![
            Command::Offset { x: 100, y: 100 },
            Command::SetPixel { x: 100, y: 100, rgb: 0xff0000 },
            Command::GetPixel { x: 100, y: 100, client_x: 0, client_y: 0 },
        ]
    );
    assert_eq!((parser.x_offset(), parser.y_offset()), (0, 0));
    let mut canvas = HashMap::new();
    assert_eq!(run(&mut parser, &r.commands, &mut canvas, 200, 200), b"PX 0 0 ff0000\n".to_vec());
    assert_eq!((parser.x_offset(), parser.y_offset()), (100, 100));
    assert_eq!(canvas.get(&(100, 100)), Some(&0xff0000));
    assert_eq!(canvas.get(&(0, 0)), None);
}

#[test]
fn garbage_byte_is_skipped() {
    let a = SimpleParser::new();
    let b = SimpleParser::new();
    let with = a.parse(&padded(b"XPX 1 1 ff0000\n"));
    let without = b.parse(&padded(b"PX 1 1 ff0000\n"));
    assert_eq!(with.commands, vec![Command::SetPixel { x: 1, y: 1, rgb: 0xff0000 }]);
    assert_eq!(with.commands, without.commands);
    assert_eq!(with.last_parsed, Some(14));
    assert_eq!(without.last_parsed, Some(13));
}

#[test]
fn short_buffer_not_consumed() {
    let parser = SimpleParser::new();
    let r = parser.parse(b"PX 1 1 ff0000\n");
    assert!(r.commands.is_empty());
    assert_eq!(r.last_parsed, None);
    let r = parser.parse(b"");
    assert_eq!(r.last_parsed, None);
}

#[test]
fn split_command_reappears() {
    let parser = SimpleParser::new();
    let first = b"PX 1 1 ff0000\nPX 2 2 00ff00".to_vec();
    let r = parser.parse(&first);
    assert_eq!(r.commands, vec![Command::SetPixel { x: 1, y: 1, rgb: 0xff0000 }]);
    assert_eq!(r.last_parsed, Some(13));
    let mut next = first[r.last_parsed.unwrap() + 1..].to_vec();
    assert_eq!(next, b"PX 2 2 00ff00".to_vec());
    next.extend_from_slice(&padded(b"\n"));
    let r = parser.parse(&next);
    assert_eq!(r.commands, vec![Command::SetPixel { x: 2, y: 2, rgb: 0x00ff00 }]);
}

#[test]
fn size_after_pixels() {
    let mut parser = SimpleParser::new();
    let r = parser.parse(&padded(b"SIZE\nPX 1 1 ff0000\nSIZE\n"));
    assert_eq!(
        r.commands,
        vec![Command::Size, Command::SetPixel { x: 1, y: 1, rgb: 0xff0000 }, Command::Size]
    );
    let mut canvas = HashMap::new();
    assert_eq!(
        run(&mut parser, &r.commands, &mut canvas, 1920, 1080),
        b"SIZE 1920 1080\nSIZE 1920 1080\n".to_vec()
    );
}

#[test]
fn gray_rgba_and_help() {
    let parser = SimpleParser::new();
    let r = parser.parse(&padded(b"PX 5 6 7f\nPX 5 6 11223344\nHELP\n"));
    assert_eq!(
        r.commands,
        vec![
            Command::SetPixel { x: 5, y: 6, rgb: 0x7f7f7f },
            Command::SetRgba { x: 5, y: 6, rgba: 0x11223344 },
            Command::Help,
        ]
    );
    assert_eq!(rgba_to_rgb(0x11223344), 0x112233);
}

#[test]
fn malformed_commands_are_ignored() {
    let parser = SimpleParser::new();
    let r = parser.parse(&padded(b"PX 1 1 ff00\nPX a 1\nOFFSET 1\nPX 1 1\t"));
    assert!(r.commands.is_empty());
    assert_eq!(r.last_parsed, None);
    assert_eq!((parser.x_offset(), parser.y_offset()), (0, 0));
}

#[test]
fn offset_limits() {
    let mut parser = SimpleParser::new();
    assert!(parser.set_offset(9999, 12));
    assert!(!parser.set_offset(10000, 1));
    assert_eq!((parser.x_offset(), parser.y_offset()), (9999, 12));
    let r = parser.parse(&padded(b"PX 1 1
"));
    assert_eq!(r.commands, vec![Command::GetPixel { x: 10000, y: 13, client_x: 1, client_y: 1 }]);
}

#[test]
fn five_digit_coordinate_is_cut() {
    let parser = SimpleParser::new();
    let r = parser.parse(&padded(b"PX 12345 1\n"));
    assert!(r.commands.is_empty());
}

#[test]
fn lookahead_is_longest_command() {
    assert_eq!(PARSER_LOOKAHEAD, b"PX 1234 1234 rrggbbaa\n".len());
    assert_eq!(SimpleParser::parser_lookahead(), 22);
    assert_eq!(AssemblerParser::parser_lookahead(), 22);
}

#[test]
fn more_bytes_keep_commands() {
    let mut text = b"PX 1 1 ff0000\nOFFSET 2 3\nSIZE\nPX 4 4".to_vec();
    text.extend_from_slice(&[b' '; 22]);
    let before = SimpleParser::new().parse(&text);
    let mut longer = text.clone();
    longer.extend_from_slice(&padded(b"HELP\nPX 1 1\n"));
    let after = SimpleParser::new().parse(&longer);
    assert!(before.commands.len() <= after.commands.len());
    assert_eq!(&after.commands[..before.commands.len()], &before.commands[..]);
    assert_eq!(
        after.commands[before.commands.len()..].to_vec(),
        vec![Command::Help, Command::GetPixel { x: 3, y: 4, client_x: 1, client_y: 1 }]
    );
}

#[test]
fn non_hex_color_is_no_command() {
    let parser = SimpleParser::new();
    let r = parser.parse(&padded(b"PX 1 1 zzzzzz\nPX 1 1 ff00g0\nPX 1 1 1234567x\nPX 1 1 g0\n"));
    assert!(r.commands.is_empty());
    assert_eq!(r.last_parsed, None);
}

#[test]
fn gray_followed_by_newlines() {
    let parser = SimpleParser::new();
    let mut buffer = b"PX 1 1 ab".to_vec();
    buffer.extend_from_slice(&[b'\n'; 30]);
    let r = parser.parse(&buffer);
    assert_eq!(r.commands, vec![Command::SetPixel { x: 1, y: 1, rgb: 0xababab }]);
    assert_eq!(r.last_parsed, Some(9));
}

#[test]
fn buffer_of_exactly_lookahead_is_left_whole() {
    let mut buffer = b"SIZE".to_vec();
    buffer.extend_from_slice(&[b'\n'; 18]);
    assert_eq!(buffer.len(), PARSER_LOOKAHEAD);
    let r = SimpleParser::new().parse(&buffer);
    assert!(r.commands.is_empty());
    assert_eq!(r.last_parsed, None);
    let mut buffer = b"XSIZE".to_vec();
    buffer.extend_from_slice(&[b'\n'; 18]);
    let r = SimpleParser::new().parse(&buffer);
    assert!(r.commands.is_empty());
    buffer.push(b'\n');
    let r = SimpleParser::new().parse(&buffer);
    assert_eq!(r.commands, vec![Command::Size]);
    assert_eq!(r.last_parsed, Some(4));
}
