//! Grammar alphabet constants.

use vstd::prelude::*;

verus! {

/// A pair of two chars that delimit a parseable block.
pub struct Pair {
    /// Block start symbol
    pub start: char,
    /// Block end symbol
    pub end: char,
}

impl Pair {
    /// Creates a new symbol pair.
    pub fn new(start: char, end: char) -> (p: Pair)
        ensures
            p.start == start,
            p.end == end,
    {
        Pair { start, end }
    }
}

/// Starts a brex block (`[preamble]<brex block>[postamble]`).
pub const BREX_BLOCK_START: char = '❮';

/// Ends a brex block.
pub const BREX_BLOCK_END: char = '❯';

/// Starts a group block.
pub const GROUP_BLOCK_START: char = '{';

/// Ends a group block.
pub const GROUP_BLOCK_END: char = '}';

/// Starts a numeric block.
pub const NUMERIC_BLOCK_START: char = '{';

/// Ends a numeric block.
pub const NUMERIC_BLOCK_END: char = '}';

/// A numeric range delimiter.
pub const NUMERIC_RANGE_DELIM: char = '→';

/// Numeric list separator.
pub const NUMERIC_LIST_SEP: char = ',';

/// Group suffix list separator.
pub const GROUP_SUFFIX_SEP: char = ',';

} // verus!
