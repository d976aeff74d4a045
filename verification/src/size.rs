use vstd::prelude::*;

verus! {

/// Dimensions of a board: a number of rows and a number of columns.
#[derive(Clone, Copy, Debug, PartialEq, Eq, Structural)]
pub struct Size {
    rows: usize,
    cols: usize,
}

impl Size {
    /// Number of rows, as a mathematical integer.
    pub closed spec fn rows(self) -> int {
        self.rows as int
    }

    /// Number of columns, as a mathematical integer.
    pub closed spec fn cols(self) -> int {
        self.cols as int
    }

    /// Number of cells of a board with these dimensions.
    pub open spec fn cells(self) -> int {
        self.rows() * self.cols()
    }

    /// Both dimensions are positive and the cell count is a machine integer.
    pub open spec fn valid(self) -> bool {
        self.rows() > 0 && self.cols() > 0 && self.cells() <= usize::MAX
    }

    /// Whether row `r`, column `c` lies within these dimensions.
    pub open spec fn inside(self, r: int, c: int) -> bool {
        0 <= r < self.rows() && 0 <= c < self.cols()
    }

    pub fn new(cols: usize, rows: usize) -> (size: Size)
        ensures
            size.cols() == cols,
            size.rows() == rows,
    {
        Size { rows, cols }
    }

    pub fn get_rows(&self) -> (rows: usize)
        ensures
            rows == self.rows(),
    {
        self.rows
    }

    pub fn get_cols(&self) -> (cols: usize)
        ensures
            cols == self.cols(),
    {
        self.cols
    }

    /// The cell count. The product has to fit a machine integer.
    pub fn total(&self) -> (total: usize)
        requires
            self.cells() <= usize::MAX,
        ensures
            total == self.cells(),
    {
        self.get_cols() * self.get_rows()
    }

    /// The cell count, or `None` where it does not fit a machine integer.
    pub fn checked_total(&self) -> (total: Option<usize>)
        ensures
            total == if self.cells() <= usize::MAX {
                Some(self.cells() as usize)
            } else {
                None
            },
    {
        if self.rows == 0 || self.cols == 0 {
            assert(self.rows() * self.cols() == 0) by (nonlinear_arith)
                requires
                    self.rows() == 0 || self.cols() == 0,
            ;
            return Some(0);
        }
        let limit: usize = usize::MAX / self.cols;
        if self.rows > limit {
            assert(self.rows() * self.cols() > usize::MAX) by (nonlinear_arith)
                requires
                    self.cols() > 0,
                    self.rows() > limit,
                    limit == (usize::MAX as int) / self.cols(),
            ;
            None
        } else {
            assert(self.rows() * self.cols() <= usize::MAX) by (nonlinear_arith)
                requires
                    self.cols() > 0,
                    0 <= self.rows() <= limit,
                    limit == (usize::MAX as int) / self.cols(),
            ;
            Some(self.rows * self.cols)
        }
    }
}

} // verus!
