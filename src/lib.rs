//! Decoder for the pixel-drawing text protocol of a shared canvas server.
//!
//! A pass over a buffer of received bytes yields the commands found there, in order, and the
//! position of the last byte of the last whole command. Performing the commands on a canvas and
//! sending the replies (built by [`reply`]) is left to the caller.
pub mod assembler;
pub mod color;
pub mod command;
pub mod coordinate;
pub mod protocol;
pub mod reply;
pub mod simple;

pub use assembler::AssemblerParser;
pub use command::string_to_number;
pub use coordinate::parse_pixel_coordinates;
pub use simple::{Command, ParseResult, SimpleParser, PARSER_LOOKAHEAD};
