use vstd::prelude::*;
use vstd::string::StringSliceAdditionalSpecFns;

verus! {

/// One square of the board: unassigned, or holding a digit.
/// A well-formed cell holds a digit in `1..=9` (see `Cell::valid`).
#[derive(Clone, Copy, Debug, PartialEq, Eq, Structural)]
pub enum Cell {
    Empty,
    Digit(u8),
}

impl Cell {
    /// The cell is unassigned, or holds a digit in `1..=9`.
    pub open spec fn valid(self) -> bool {
        match self {
            Cell::Empty => true,
            Cell::Digit(d) => 1 <= d <= 9,
        }
    }

    /// Reads a cell from text: the empty text is an unassigned cell, a single
    /// character `1` to `9` is that digit, and anything else is refused.
    pub fn parse(text: &str) -> (r: Result<Cell, InvalidInput>)
        ensures
            r == cell_of_text(text.spec_bytes()),
            r matches Ok(c) ==> c.valid(),
    {
        let bytes = text.as_bytes();
        if bytes.len() == 0 {
            Ok(Cell::Empty)
        } else if bytes.len() == 1 && 49 <= bytes[0] && bytes[0] <= 57 {
            Ok(Cell::Digit(bytes[0] - 48))
        } else {
            Err(InvalidInput)
        }
    }

    pub fn is_empty(&self) -> (r: bool)
        ensures
            r == (*self is Empty),
    {
        match self {
            Cell::Empty => true,
            Cell::Digit(_) => false,
        }
    }
}

/// The cell that a text (as UTF-8 bytes) denotes: nothing is unassigned, one
/// ASCII digit `1`..=`9` is that digit.
pub open spec fn cell_of_text(b: Seq<u8>) -> Result<Cell, InvalidInput> {
    if b.len() == 0 {
        Ok(Cell::Empty)
    } else if b.len() == 1 && 49 <= b[0] <= 57 {
        Ok(Cell::Digit((b[0] - 48) as u8))
    } else {
        Err(InvalidInput)
    }
}

/// A unit of the board in which some digit is assigned twice.
/// `Box(br, bc)` is the 3×3 block of rows `3*br..3*br+3` and columns `3*bc..3*bc+3`.
#[derive(Clone, Copy, Debug, PartialEq, Eq, Structural)]
pub enum Conflict {
    Row(usize),
    Column(usize),
    Box(usize, usize),
}

/// Text that is neither empty nor a single digit `1`..=`9`.
#[derive(Clone, Copy, Debug, PartialEq, Eq, Structural)]
pub struct InvalidInput;

} // verus!
