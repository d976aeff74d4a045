use vstd::prelude::*;

verus! {

/// Why the library turned an input down. The board is never changed when one
/// of these is returned.
#[derive(Clone, Copy, Debug, PartialEq, Eq, Structural)]
pub enum BoardError {
    /// A position names no cell of the board.
    OutOfBounds,
    /// More distinct positions were asked for than the dimensions hold.
    SamplerExhausted,
    /// A board needs at least one row and one column, and a cell count that
    /// fits a machine integer.
    InvalidSize,
}

} // verus!
