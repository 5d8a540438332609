//! The set of live tiles, stored densely: one value per board cell, with
//! `0` standing for an empty cell.  The cell at `(x, y)` is the entry at
//! index `y * size + x` of the grid, so no two tiles can ever share a
//! position.

use vstd::prelude::*;
use vstd::pervasive::VecAdditionalExecFns;
use crate::board::Position;

verus! {

/// A positioned tile: a board cell together with the power-of-two value
/// that occupies it.
#[derive(Clone, Copy, PartialEq, Eq, Structural, Debug)]
pub struct Tile {
    pub pos: Position,
    pub value: u64,
}

/// The live tiles of one game, as a dense grid in row-major order.
pub struct TileStore {
    pub size: u8,
    pub grid: Vec<u64>,
}

/// Whether `v` is a power of two (1, 2, 4, ...).
pub open spec fn is_pow2(v: int) -> bool
    decreases v,
{
    if v <= 0 {
        false
    } else if v == 1 {
        true
    } else {
        v % 2 == 0 && is_pow2(v / 2)
    }
}

/// A legal cell content: empty, or a tile value, which is a power of two
/// starting at 2.
pub open spec fn cell_ok(v: u64) -> bool {
    v == 0 || (v >= 2 && is_pow2(v as int))
}

/// The grid index of the cell at `(x, y)`.
pub open spec fn cell_index(size: int, x: int, y: int) -> int {
    y * size + x
}

/// How many cells of `g` hold a tile.
pub open spec fn count_occupied(g: Seq<u64>) -> int
    decreases g.len(),
{
    if g.len() == 0 {
        0
    } else {
        count_occupied(g.drop_last()) + if g.last() != 0 { 1int } else { 0int }
    }
}

/// The tiles held by the first `k` cells of `g`, in cell-index order.
pub open spec fn tiles_upto(g: Seq<u64>, size: int, k: int) -> Seq<Tile>
    decreases k,
{
    if k <= 0 {
        Seq::empty()
    } else if g[k - 1] != 0 {
        tiles_upto(g, size, k - 1) + seq![
            (Tile {
                pos: Position { x: ((k - 1) % size) as u8, y: ((k - 1) / size) as u8 },
                value: g[k - 1],
            }),
        ]
    } else {
        tiles_upto(g, size, k - 1)
    }
}

/// All tiles of `g`, in cell-index order.
pub open spec fn tiles_of(g: Seq<u64>, size: int) -> Seq<Tile> {
    tiles_upto(g, size, g.len() as int)
}

pub proof fn lemma_cell_index_bounds(size: int, x: int, y: int)
    requires
        1 <= size,
        0 <= x < size,
        0 <= y < size,
    ensures
        0 <= cell_index(size, x, y) < size * size,
{
    assert(0 <= y * size + x < size * size) by (nonlinear_arith)
        requires 1 <= size && 0 <= x < size && 0 <= y < size;
}

pub proof fn lemma_cell_index_injective(size: int, x1: int, y1: int, x2: int, y2: int)
    requires
        1 <= size,
        0 <= x1 < size,
        0 <= y1 < size,
        0 <= x2 < size,
        0 <= y2 < size,
        cell_index(size, x1, y1) == cell_index(size, x2, y2),
    ensures
        x1 == x2,
        y1 == y2,
{
    assert(x1 == x2 && y1 == y2) by (nonlinear_arith)
        requires
            1 <= size && 0 <= x1 < size && 0 <= y1 < size && 0 <= x2 < size && 0 <= y2 < size
                && y1 * size + x1 == y2 * size + x2;
}

/// Doubling keeps a value a power of two.
pub proof fn lemma_pow2_double(v: int)
    requires
        is_pow2(v),
    ensures
        is_pow2(2 * v),
{
    assert(2 * v >= 2 && (2 * v) % 2 == 0 && (2 * v) / 2 == v);
}

pub proof fn lemma_count_occupied_le_len(g: Seq<u64>)
    ensures
        0 <= count_occupied(g) <= g.len(),
    decreases g.len(),
{
    if g.len() > 0 {
        lemma_count_occupied_le_len(g.drop_last());
    }
}

/// A grid of empty cells holds no tile.
pub proof fn lemma_count_zero(g: Seq<u64>)
    requires
        forall|k: int| 0 <= k < g.len() ==> g[k] == 0,
    ensures
        count_occupied(g) == 0,
    decreases g.len(),
{
    if g.len() > 0 {
        assert(forall|k: int| 0 <= k < g.len() - 1 ==> g.drop_last()[k] == g[k]);
        lemma_count_zero(g.drop_last());
    }
}

/// Filling one empty cell adds exactly one tile.
pub proof fn lemma_count_update_occupy(g: Seq<u64>, k: int, v: u64)
    requires
        0 <= k < g.len(),
        g[k] == 0,
        v != 0,
    ensures
        count_occupied(g.update(k, v)) == count_occupied(g) + 1,
    decreases g.len(),
{
    let gu = g.update(k, v);
    if k == g.len() - 1 {
        assert(gu.drop_last() =~= g.drop_last());
        assert(gu.last() == v && g.last() == 0);
    } else {
        assert(gu.drop_last() =~= g.drop_last().update(k, v));
        assert(gu.last() == g.last());
        lemma_count_update_occupy(g.drop_last(), k, v);
    }
}

proof fn lemma_tiles_upto_props(g: Seq<u64>, size: int, k: int)
    requires
        1 <= size <= 255,
        g.len() == size * size,
        0 <= k <= g.len(),
    ensures
        tiles_upto(g, size, k).len() == count_occupied(g.take(k)),
        forall|j: int| 0 <= j < tiles_upto(g, size, k).len() ==> {
            &&& (#[trigger] tiles_upto(g, size, k)[j]).pos.x < size
            &&& tiles_upto(g, size, k)[j].pos.y < size
            &&& 0 <= cell_index(size, tiles_upto(g, size, k)[j].pos.x as int,
                    tiles_upto(g, size, k)[j].pos.y as int) < k
            &&& g[cell_index(size, tiles_upto(g, size, k)[j].pos.x as int,
                    tiles_upto(g, size, k)[j].pos.y as int)] == tiles_upto(g, size, k)[j].value
            &&& tiles_upto(g, size, k)[j].value != 0
        },
        forall|j1: int, j2: int| 0 <= j1 < j2 < tiles_upto(g, size, k).len()
            ==> cell_index(size, (#[trigger] tiles_upto(g, size, k)[j1]).pos.x as int,
                    tiles_upto(g, size, k)[j1].pos.y as int)
                < cell_index(size, (#[trigger] tiles_upto(g, size, k)[j2]).pos.x as int,
                    tiles_upto(g, size, k)[j2].pos.y as int),
    decreases k,
{
    if k > 0 {
        lemma_tiles_upto_props(g, size, k - 1);
        assert(g.take(k).drop_last() =~= g.take(k - 1));
        assert(g.take(k).last() == g[k - 1]);
        let prev = tiles_upto(g, size, k - 1);
        let cur = tiles_upto(g, size, k);
        if g[k - 1] != 0 {
            assert(((k - 1) % size) + ((k - 1) / size) * size == k - 1 && 0 <= (k - 1) % size
                < size && 0 <= (k - 1) / size < size) by (nonlinear_arith)
                requires 1 <= size && 0 <= k - 1 < size * size;
            let t = Tile {
                pos: Position { x: ((k - 1) % size) as u8, y: ((k - 1) / size) as u8 },
                value: g[k - 1],
            };
            assert(cur == prev + seq![t]);
            assert(forall|j: int| 0 <= j < prev.len() ==> #[trigger] cur[j] == prev[j]);
            assert(cur[cur.len() - 1] == t);
            assert(cell_index(size, t.pos.x as int, t.pos.y as int) == k - 1);
        } else {
            assert(cur == prev);
        }
    } else {
        assert(g.take(0) =~= Seq::<u64>::empty());
    }
}

/// The uniqueness invariant of the store: listing the tiles of a
/// well-formed store yields every live tile exactly once — each at a
/// position on the board, no two at the same position — and never more
/// than `size * size` of them.
pub proof fn lemma_tiles_unique(s: TileStore)
    requires
        s.wf(),
    ensures
        tiles_of(s@, s.size as int).len() == count_occupied(s@) <= s.size * s.size,
        forall|j: int| 0 <= j < tiles_of(s@, s.size as int).len() ==> {
            &&& (#[trigger] tiles_of(s@, s.size as int)[j]).pos.x < s.size
            &&& tiles_of(s@, s.size as int)[j].pos.y < s.size
            &&& tiles_of(s@, s.size as int)[j].value == s.spec_at(
                    tiles_of(s@, s.size as int)[j].pos.x as int,
                    tiles_of(s@, s.size as int)[j].pos.y as int)
            &&& tiles_of(s@, s.size as int)[j].value != 0
        },
        forall|j1: int, j2: int| 0 <= j1 < j2 < tiles_of(s@, s.size as int).len()
            ==> (#[trigger] tiles_of(s@, s.size as int)[j1]).pos
                != (#[trigger] tiles_of(s@, s.size as int)[j2]).pos,
{
    let size = s.size as int;
    lemma_tiles_upto_props(s@, size, s@.len() as int);
    assert(s@.take(s@.len() as int) =~= s@);
    lemma_count_occupied_le_len(s@);
    assert forall|j1: int, j2: int| 0 <= j1 < j2 < tiles_of(s@, size).len()
        implies (#[trigger] tiles_of(s@, size)[j1]).pos
            != (#[trigger] tiles_of(s@, size)[j2]).pos by {
        let t1 = tiles_of(s@, size)[j1];
        let t2 = tiles_of(s@, size)[j2];
        assert(cell_index(size, t1.pos.x as int, t1.pos.y as int)
            < cell_index(size, t2.pos.x as int, t2.pos.y as int));
    }
}

/// The value of the cell at `(x, y)` of a raw grid.
pub open spec fn grid_at(g: Seq<u64>, size: int, x: int, y: int) -> u64 {
    g[cell_index(size, x, y)]
}

impl View for TileStore {
    type V = Seq<u64>;

    open spec fn view(&self) -> Seq<u64> {
        self.grid@
    }
}

impl TileStore {
    /// The internal consistency of the store: a positive size, a grid of
    /// exactly `size * size` cells, every cell empty or a power of two.
    pub open spec fn wf(self) -> bool {
        &&& 1 <= self.size
        &&& self.grid@.len() == self.size * self.size
        &&& forall|k: int| 0 <= k < self.grid@.len() ==> cell_ok(#[trigger] self.grid@[k])
    }

    /// Whether `pos` lies on this store's board.
    pub open spec fn in_bounds(self, pos: Position) -> bool {
        pos.x < self.size && pos.y < self.size
    }

    /// The value held at `(x, y)`; `0` means the cell is empty.
    pub open spec fn spec_at(self, x: int, y: int) -> u64 {
        self.grid@[cell_index(self.size as int, x, y)]
    }

    /// An empty store for a `size`-by-`size` board.
    pub fn new_empty(size: u8) -> (s: TileStore)
        requires
            size >= 1,
        ensures
            s.wf(),
            s.size == size,
            s@.len() == size * size,
            forall|k: int| 0 <= k < s@.len() ==> s@[k] == 0,
    {
        let n = size as usize;
        proof {
            assert(n * n <= 65025) by (nonlinear_arith)
                requires n <= 255;
        }
        let total = n * n;
        let mut grid: Vec<u64> = Vec::new();
        let mut k: usize = 0;
        while k < total
            invariant
                k <= total,
                grid@.len() == k,
                forall|j: int| 0 <= j < k ==> grid@[j] == 0,
            decreases total - k,
        {
            grid.push(0);
            k = k + 1;
        }
        proof {
            assert(n * n == size * size) by (nonlinear_arith)
                requires n == size;
        }
        TileStore { size, grid }
    }

    /// The grid index of `pos`, as a spec value.
    #[verifier::inline]
    pub open spec fn spec_index_of(self, pos: Position) -> int {
        cell_index(self.size as int, pos.x as int, pos.y as int)
    }

    /// The grid index of `pos`.
    fn index_of(&self, pos: Position) -> (i: usize)
        requires
            self.wf(),
            self.in_bounds(pos),
        ensures
            i == self.spec_index_of(pos),
            i < self@.len(),
    {
        proof {
            lemma_cell_index_bounds(self.size as int, pos.x as int, pos.y as int);
            assert(pos.y * self.size + pos.x < 65025) by (nonlinear_arith)
                requires pos.x < self.size && pos.y < self.size && self.size <= 255;
        }
        pos.y as usize * self.size as usize + pos.x as usize
    }

    /// The tile at `pos`, if that cell is occupied.
    pub fn get(&self, pos: Position) -> (r: Option<Tile>)
        requires
            self.wf(),
            self.in_bounds(pos),
        ensures
            r == (if self.spec_at(pos.x as int, pos.y as int) != 0 {
                Some(Tile { pos, value: self.spec_at(pos.x as int, pos.y as int) })
            } else {
                None::<Tile>
            }),
    {
        let i = self.index_of(pos);
        let v = self.grid[i];
        if v != 0 {
            Some(Tile { pos, value: v })
        } else {
            None
        }
    }

    /// Places a new tile.  The cell must be on the board and empty, and
    /// the value a power of two starting at 2: the engine bounds-checks
    /// every position it constructs, so a violation is a programming
    /// error, excluded by precondition rather than reported.
    pub fn insert(&mut self, pos: Position, value: u64)
        requires
            old(self).wf(),
            old(self).in_bounds(pos),
            old(self).spec_at(pos.x as int, pos.y as int) == 0,
            value >= 2,
            is_pow2(value as int),
        ensures
            final(self).wf(),
            final(self).size == old(self).size,
            final(self)@ == old(self)@.update(old(self).spec_index_of(pos), value),
    {
        let i = self.index_of(pos);
        self.grid.set(i, value);
    }

    /// Empties the cell at `pos`.
    pub fn remove(&mut self, pos: Position)
        requires
            old(self).wf(),
            old(self).in_bounds(pos),
        ensures
            final(self).wf(),
            final(self).size == old(self).size,
            final(self)@ == old(self)@.update(old(self).spec_index_of(pos), 0u64),
    {
        let i = self.index_of(pos);
        self.grid.set(i, 0);
    }

    /// Slides the tile at `from` to the empty cell `to`.  Moving a tile
    /// onto a different occupied cell, or moving from an empty cell, is a
    /// programming error, excluded by precondition.
    pub fn move_tile(&mut self, from: Position, to: Position)
        requires
            old(self).wf(),
            old(self).in_bounds(from),
            old(self).in_bounds(to),
            old(self).spec_at(from.x as int, from.y as int) != 0,
            from != to ==> old(self).spec_at(to.x as int, to.y as int) == 0,
        ensures
            final(self).wf(),
            final(self).size == old(self).size,
            from == to ==> final(self)@ == old(self)@,
            from != to ==> final(self)@ == old(self)@
                .update(old(self).spec_index_of(to), old(self).spec_at(from.x as int, from.y as int))
                .update(old(self).spec_index_of(from), 0u64),
    {
        if from.x == to.x && from.y == to.y {
            return;
        }
        let i_from = self.index_of(from);
        let i_to = self.index_of(to);
        proof {
            if i_from == i_to {
                lemma_cell_index_injective(
                    self.size as int, from.x as int, from.y as int, to.x as int, to.y as int);
            }
        }
        let v = self.grid[i_from];
        self.grid.set(i_to, v);
        self.grid.set(i_from, 0);
    }

    /// How many tiles are live.
    pub fn count(&self) -> (r: usize)
        requires
            self.wf(),
        ensures
            r == count_occupied(self@),
    {
        let mut c: usize = 0;
        let mut k: usize = 0;
        while k < self.grid.len()
            invariant
                self.wf(),
                k <= self@.len(),
                c == count_occupied(self@.take(k as int)),
                c <= k,
            decreases self@.len() - k,
        {
            proof {
                assert(self@.take(k + 1 as int).drop_last() =~= self@.take(k as int));
                assert(self@.take(k + 1 as int).last() == self@[k as int]);
            }
            if self.grid[k] != 0 {
                c = c + 1;
            }
            k = k + 1;
        }
        proof {
            assert(self@.take(self@.len() as int) =~= self@);
        }
        c
    }

    /// Every live tile, in cell-index (row-major) order.
    pub fn all(&self) -> (r: Vec<Tile>)
        requires
            self.wf(),
        ensures
            r@ == tiles_of(self@, self.size as int),
    {
        let n = self.size as usize;
        let mut out: Vec<Tile> = Vec::new();
        let mut k: usize = 0;
        while k < self.grid.len()
            invariant
                self.wf(),
                n == self.size,
                k <= self@.len(),
                out@ == tiles_upto(self@, self.size as int, k as int),
            decreases self@.len() - k,
        {
            let v = self.grid[k];
            if v != 0 {
                let pos = Position { x: (k % n) as u8, y: (k / n) as u8 };
                out.push(Tile { pos, value: v });
            }
            k = k + 1;
        }
        out
    }
}

} // verus!
