//! Terminal-state detection: the game is over exactly when the board is
//! full and no tile has an axis-aligned neighbor of equal value, so that
//! no shift in any direction could compact or merge anything.

use vstd::prelude::*;
use crate::tiles::TileStore;
use crate::tiles::cell_index;
use crate::tiles::grid_at;
use crate::tiles::lemma_cell_index_bounds;

verus! {

/// Whether every cell of the grid holds a tile.
pub open spec fn spec_full(g: Seq<u64>) -> bool {
    forall|k: int| 0 <= k < g.len() ==> g[k] != 0
}

/// Whether the tile at `(x, y)` has an axis-aligned neighbor, on the
/// board, of equal value.
pub open spec fn has_equal_neighbor(g: Seq<u64>, size: int, x: int, y: int) -> bool {
    ||| (x + 1 < size && grid_at(g, size, x + 1, y) == grid_at(g, size, x, y))
    ||| (x > 0 && grid_at(g, size, x - 1, y) == grid_at(g, size, x, y))
    ||| (y + 1 < size && grid_at(g, size, x, y + 1) == grid_at(g, size, x, y))
    ||| (y > 0 && grid_at(g, size, x, y - 1) == grid_at(g, size, x, y))
}

/// The terminal state: the board is full and no tile has an equal-valued
/// axis neighbor, so no legal move remains.
pub open spec fn spec_game_over(g: Seq<u64>, size: int) -> bool {
    &&& spec_full(g)
    &&& forall|x: int, y: int| 0 <= x < size && 0 <= y < size
        ==> !has_equal_neighbor(g, size, x, y)
}

/// Whether the cell at `(x, y)` matches its right or its lower neighbor;
/// checking only these two over all cells still covers every adjacent
/// pair, each pair once.
spec fn matches_next(g: Seq<u64>, size: int, x: int, y: int) -> bool {
    ||| (x + 1 < size && grid_at(g, size, x + 1, y) == grid_at(g, size, x, y))
    ||| (y + 1 < size && grid_at(g, size, x, y + 1) == grid_at(g, size, x, y))
}

/// Decides whether the game has ended: true iff the board is full and no
/// tile has an axis-aligned neighbor of equal value.  A board with an
/// empty cell always has a legal move, so it is never terminal.
pub fn is_game_over(store: &TileStore) -> (r: bool)
    requires
        store.wf(),
    ensures
        r == spec_game_over(store@, store.size as int),
{
    let n = store.size as usize;
    let ghost sz = store.size as int;
    let mut k: usize = 0;
    while k < store.grid.len()
        invariant
            store.wf(),
            n == store.size,
            k <= store@.len(),
            forall|j: int| 0 <= j < k ==> store@[j] != 0,
        decreases store@.len() - k,
    {
        if store.grid[k] == 0 {
            return false;
        }
        k = k + 1;
    }
    let mut y: usize = 0;
    while y < n
        invariant
            store.wf(),
            n == store.size,
            sz == n as int,
            spec_full(store@),
            y <= n,
            forall|x2: int, y2: int| 0 <= x2 < n && 0 <= y2 < y
                ==> !matches_next(store@, n as int, x2, y2),
        decreases n - y,
    {
        let mut x: usize = 0;
        while x < n
            invariant
                store.wf(),
                n == store.size,
                sz == n as int,
                spec_full(store@),
                y < n,
                x <= n,
                forall|x2: int, y2: int| 0 <= x2 < n && 0 <= y2 < y
                    ==> !matches_next(store@, n as int, x2, y2),
                forall|x2: int| 0 <= x2 < x ==> !matches_next(store@, n as int, x2, y as int),
            decreases n - x,
        {
            proof {
                lemma_cell_index_bounds(sz, x as int, y as int);
                assert(y * n + x < n * n && n * n <= 65025) by (nonlinear_arith)
                    requires 1 <= n <= 255 && x < n && y < n;
                if x + 1 < n {
                    lemma_cell_index_bounds(sz, x + 1, y as int);
                    assert(y * n + (x + 1) < n * n) by (nonlinear_arith)
                        requires 1 <= n && x + 1 < n && y < n;
                }
                if y + 1 < n {
                    lemma_cell_index_bounds(sz, x as int, y + 1);
                    assert((y + 1) * n + x < n * n) by (nonlinear_arith)
                        requires 1 <= n && x < n && y + 1 < n;
                }
            }
            let here = store.grid[y * n + x];
            if x + 1 < n && store.grid[y * n + (x + 1)] == here {
                proof {
                    assert(grid_at(store@, sz, x as int + 1, y as int)
                        == grid_at(store@, sz, x as int, y as int));
                    assert(has_equal_neighbor(store@, sz, x as int, y as int));
                }
                return false;
            }
            if y + 1 < n && store.grid[(y + 1) * n + x] == here {
                proof {
                    assert(grid_at(store@, sz, x as int, y as int + 1)
                        == grid_at(store@, sz, x as int, y as int));
                    assert(has_equal_neighbor(store@, sz, x as int, y as int));
                }
                return false;
            }
            x = x + 1;
        }
        y = y + 1;
    }
    proof {
        assert forall|x: int, y2: int| 0 <= x < sz && 0 <= y2 < sz
            implies !has_equal_neighbor(store@, sz, x, y2) by {
            assert(!matches_next(store@, sz, x, y2));
            if x > 0 {
                assert(!matches_next(store@, sz, x - 1, y2));
            }
            if y2 > 0 {
                assert(!matches_next(store@, sz, x, y2 - 1));
            }
        }
    }
    true
}

} // verus!
