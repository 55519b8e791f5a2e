//! An alternative decoder that does not decode yet; only its lookahead is fixed.
use vstd::prelude::*;

use crate::simple::PARSER_LOOKAHEAD;

verus! {

#[derive(Clone, Copy, Debug)]
pub struct AssemblerParser {}

impl AssemblerParser {
    pub fn new() -> (r: AssemblerParser)
        ensures
            r == (AssemblerParser {  }),
    {
        AssemblerParser {  }
    }

    /// The same lookahead as the working decoder: the length of the longest command.
    pub fn parser_lookahead() -> (r: usize)
        ensures
            r == PARSER_LOOKAHEAD,
    {
        PARSER_LOOKAHEAD
    }
}

impl Default for AssemblerParser {
    fn default() -> (r: AssemblerParser)
        ensures
            r == (AssemblerParser {  }),
    {
        AssemblerParser {  }
    }
}

} // verus!
