//! Board geometry: a fixed square grid of cells, and the positions on it.
//!
//! The board is a pure bounds authority: it owns no tiles and never
//! changes once constructed.

use vstd::prelude::*;

verus! {

/// A grid cell coordinate.  Two positions are equal iff both coordinates
/// match; a position is the unique key of a tile.
#[derive(Clone, Copy, PartialEq, Eq, Structural, Debug)]
pub struct Position {
    pub x: u8,
    pub y: u8,
}

/// A fixed square grid of `size * size` cells; coordinates on both axes
/// are legal exactly when they lie in `[0, size)`.
#[derive(Clone, Copy, PartialEq, Eq, Structural, Debug)]
pub struct Board {
    pub size: u8,
}

impl Board {
    /// Whether `pos` lies on the board.
    pub open spec fn spec_is_valid(self, pos: Position) -> bool {
        pos.x < self.size && pos.y < self.size
    }

    pub fn new(size: u8) -> (b: Board)
        requires
            size >= 1,
        ensures
            b.size == size,
    {
        Board { size }
    }

    /// True iff both coordinates lie in `[0, size)`.
    pub fn is_valid(&self, pos: Position) -> (r: bool)
        ensures
            r == self.spec_is_valid(pos),
    {
        pos.x < self.size && pos.y < self.size
    }

    /// All `size * size` positions of the board, in row-major order:
    /// the cell at `(x, y)` is the element at index `y * size + x`.
    pub fn cells(&self) -> (r: Vec<Position>)
        ensures
            r@.len() == self.size * self.size,
            forall|k: int| 0 <= k < r@.len() ==> {
                &&& r@[k].x == k % (self.size as int)
                &&& r@[k].y == k / (self.size as int)
            },
            forall|k: int| 0 <= k < r@.len() ==> self.spec_is_valid(#[trigger] r@[k]),
    {
        let n = self.size as usize;
        let mut out: Vec<Position> = Vec::new();
        let mut y: usize = 0;
        while y < n
            invariant
                n == self.size,
                y <= n,
                out@.len() == y * n,
                forall|k: int| 0 <= k < out@.len() ==> {
                    &&& out@[k].x == k % (n as int)
                    &&& out@[k].y == k / (n as int)
                },
                forall|k: int| 0 <= k < out@.len() ==> self.spec_is_valid(#[trigger] out@[k]),
            decreases n - y,
        {
            let mut x: usize = 0;
            while x < n
                invariant
                    n == self.size,
                    y < n,
                    x <= n,
                    out@.len() == y * n + x,
                    forall|k: int| 0 <= k < out@.len() ==> {
                        &&& out@[k].x == k % (n as int)
                        &&& out@[k].y == k / (n as int)
                    },
                    forall|k: int| 0 <= k < out@.len() ==> self.spec_is_valid(#[trigger] out@[k]),
                decreases n - x,
            {
                proof {
                    let k = y * n + x;
                    assert(k % (n as int) == x && k / (n as int) == y) by (nonlinear_arith)
                        requires 0 <= x < n && 0 <= y && k == y * n + x;
                }
                out.push(Position { x: x as u8, y: y as u8 });
                x = x + 1;
            }
            proof {
                assert(y * n + n == (y + 1) * n) by (nonlinear_arith);
            }
            y = y + 1;
        }
        proof {
            assert(n * n == self.size * self.size) by (nonlinear_arith)
                requires n == self.size;
        }
        out
    }
}

} // verus!
