//! Boundaries of a range and the unit-counting policy.
use vstd::prelude::*;

verus! {

/// One side of a range: an offset from the beginning or from the end.
#[derive(Debug, Clone, Copy, PartialEq, Eq, Structural)]
pub enum SliceIdx {
    FromStart(usize),
    FromEnd(usize),
}

impl From<isize> for SliceIdx {
    /// Non-negative values count from the start, negative ones from the end.
    fn from(i: isize) -> (r: SliceIdx) {
        if i >= 0 {
            SliceIdx::FromStart(i as usize)
        } else {
            let k: isize = i + 1;
            SliceIdx::FromEnd(((-k) as usize) + 1)
        }
    }
}

impl vstd::std_specs::convert::FromSpecImpl<isize> for SliceIdx {
    open spec fn obeys_from_spec() -> bool {
        true
    }

    open spec fn from_spec(i: isize) -> SliceIdx {
        if i >= 0 {
            SliceIdx::FromStart(i as usize)
        } else {
            SliceIdx::FromEnd((-i) as usize)
        }
    }
}

/// How bytes are counted: every byte is a unit, or every line delimiter ends one.
#[derive(Debug, Clone, Copy, PartialEq, Eq, Structural)]
pub enum CountModeEnum {
    Byte,
    Line,
}

/// The byte that ends a line.
pub const LINE_DELIMITER: u8 = 10u8;

/// Number of units (0 or 1) that byte `c` completes under `mode`.
pub open spec fn unit(mode: CountModeEnum, c: u8) -> int {
    match mode {
        CountModeEnum::Byte => 1,
        CountModeEnum::Line => if c == LINE_DELIMITER { 1 } else { 0 },
    }
}

impl CountModeEnum {
    /// Number of units that `c` completes.
    pub fn count(&self, c: u8) -> (r: usize)
        ensures
            r == unit(*self, c),
    {
        match self {
            CountModeEnum::Byte => 1,
            CountModeEnum::Line => if c == LINE_DELIMITER { 1 } else { 0 },
        }
    }
}

} // verus!
