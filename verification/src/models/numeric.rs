//! A number or inclusive range of numbers.

use vstd::prelude::*;

verus! {

/// A number/range of numbers.
#[derive(Debug, Clone, Copy)]
pub enum Numeric {
    /// A single number
    Single(u32),
    /// A range of numbers (inclusive)
    Range(u32, u32),
}

impl Numeric {
    /// The first value covered.
    pub open spec fn lo(self) -> nat {
        match self {
            Numeric::Single(v) => v as nat,
            Numeric::Range(s, _) => s as nat,
        }
    }

    /// The last value covered.
    pub open spec fn hi(self) -> nat {
        match self {
            Numeric::Single(v) => v as nat,
            Numeric::Range(_, e) => e as nat,
        }
    }

    /// A well-formed numeric covers a non-empty range.
    pub open spec fn wf(self) -> bool {
        self.lo() <= self.hi()
    }

    /// Create a single number.
    pub fn new(v: u32) -> (r: Self)
        ensures
            r == Numeric::Single(v),
    {
        Numeric::Single(v)
    }

    /// The start of this numeric. A [`Numeric::Single`] returns its one
    /// value for both [`Self::start()`] and [`Self::end()`].
    pub fn start(&self) -> (r: u32)
        ensures
            r as nat == self.lo(),
    {
        match self {
            Numeric::Single(start) | Numeric::Range(start, _) => *start,
        }
    }

    /// The end of this numeric. A [`Numeric::Single`] returns its one
    /// value for both [`Self::start()`] and [`Self::end()`].
    pub fn end(&self) -> (r: u32)
        ensures
            r as nat == self.hi(),
    {
        match self {
            Numeric::Single(end) | Numeric::Range(_, end) => *end,
        }
    }

    /// Creates a new numeric with the given end, keeping the start.
    /// Converts a [`Numeric::Single`] to a [`Numeric::Range`]; refuses an
    /// end below the start.
    pub fn with_end(self, end: u32) -> (r: Option<Self>)
        ensures
            r == if self.lo() <= end as nat {
                Some(Numeric::Range(self.lo() as u32, end))
            } else {
                None::<Numeric>
            },
    {
        match self {
            Numeric::Single(start) | Numeric::Range(start, _) => {
                if end >= start {
                    Some(Numeric::Range(start, end))
                } else {
                    None
                }
            },
        }
    }
}

} // verus!
