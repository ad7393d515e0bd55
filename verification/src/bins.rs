//! Ranges of frequency bins.

use vstd::prelude::*;
use vstd::std_specs::convert::FromSpecImpl;

verus! {

/// A half-open range `start..end` of bin indices
#[derive(Clone, Copy, Debug, PartialEq, Eq)]
pub struct BinRange {
    /// First bin in the range
    pub start: u16,
    /// One past the last bin in the range
    pub end: u16,
}

impl BinRange {
    /// Number of bins in a range whose end is not before its start
    pub open spec fn size_spec(self) -> int {
        self.end - self.start
    }

    /// The middle bin: `start + size / 2`
    pub open spec fn middle_spec(self) -> int {
        self.start + (self.end - self.start) / 2
    }

    /// Creates the range `start..end`
    pub fn new(start: u16, end: u16) -> (r: BinRange)
        ensures
            r.start == start,
            r.end == end,
    {
        BinRange { start, end }
    }

    /// Returns the first bin
    pub fn start(&self) -> (r: u16)
        ensures
            r == self.start,
    {
        self.start
    }

    /// Returns one past the last bin
    pub fn end(&self) -> (r: u16)
        ensures
            r == self.end,
    {
        self.end
    }

    /// Returns the number of bins
    pub fn size(&self) -> (r: u16)
        requires
            self.start <= self.end,
        ensures
            r == self.size_spec(),
    {
        self.end - self.start
    }

    /// Returns the middle bin, `start + size / 2`
    pub fn middle(&self) -> (r: u16)
        requires
            self.start <= self.end,
        ensures
            r == self.middle_spec(),
    {
        self.start + (self.end - self.start) / 2
    }
}

impl From<core::ops::Range<u16>> for BinRange {
    fn from(range: core::ops::Range<u16>) -> (r: BinRange) {
        BinRange { start: range.start, end: range.end }
    }
}

impl FromSpecImpl<core::ops::Range<u16>> for BinRange {
    open spec fn obeys_from_spec() -> bool {
        true
    }

    open spec fn from_spec(range: core::ops::Range<u16>) -> BinRange {
        BinRange { start: range.start, end: range.end }
    }
}

} // verus!
