//! The puzzle board: geometry plus the flat sequence of cell values.

use vstd::prelude::*;

verus! {

/// A Sudoku board with rectangular boxes of `height` rows and `width`
/// columns. The grid is `side * side` cells, `side = height * width`,
/// stored row by row in `nums`; `0` marks an empty cell.
pub struct Board {
    pub height: usize,
    pub width: usize,
    pub nums: Vec<u8>,
}

impl Board {
    /// Cells per row (and per column, and per box).
    pub open spec fn side(&self) -> nat {
        (self.height * self.width) as nat
    }

    /// The geometry is positive and small enough that every cell value
    /// fits in a `u8` and every index computation fits in a `usize`.
    pub open spec fn geom_wf(&self) -> bool {
        &&& 1 <= self.height
        &&& 1 <= self.width
        &&& self.height * self.width <= 255
    }

    /// The value vector matches the geometry: one entry per cell.
    pub open spec fn wf(&self) -> bool {
        &&& self.geom_wf()
        &&& self.nums@.len() == self.side() * self.side()
    }

    /// Number of cells per row, as an executable value.
    pub fn side_len(&self) -> (n: usize)
        requires
            self.geom_wf(),
        ensures
            n == self.side(),
    {
        self.height * self.width
    }
}

impl Default for Board {
    /// An empty standard 9x9 board (3x3 boxes).
    fn default() -> (b: Board)
        ensures
            b.height == 3,
            b.width == 3,
            b.nums@ == Seq::<u8>::new(81, |i: int| 0u8),
            b.wf(),
    {
        let nums: Vec<u8> = vec![0u8; 81];
        proof {
            assert(nums@ =~= Seq::<u8>::new(81, |i: int| 0u8));
        }
        let b = Board { height: 3, width: 3, nums };
        proof {
            assert(b.side() == 9);
            assert(b.nums@.len() == b.side() * b.side());
        }
        b
    }
}

} // verus!
