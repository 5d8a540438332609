//! Random tile spawning: a new tile of value 2 on a uniformly random
//! empty cell.  A full board makes the spawn a benign no-op, not an
//! error.
//!
//! The random choice is the only nondeterministic step of the engine, so
//! it is split off: `spawn_at` places the tile on the `k`-th empty cell
//! for any caller-chosen `k` — which also makes deterministic testing
//! possible — and `spawn_random` draws `k` from the process-wide
//! generator.

use vstd::prelude::*;
use rand::Rng;
use crate::board::Position;
use crate::tiles::TileStore;
use crate::tiles::cell_index;
use crate::tiles::count_occupied;
use crate::tiles::lemma_cell_index_bounds;
use crate::tiles::lemma_count_occupied_le_len;
use crate::tiles::lemma_count_update_occupy;
use crate::tiles::is_pow2;

verus! {

/// The empty cells among the first `k` cells of `g`, in cell-index
/// order.
pub open spec fn empties_upto(g: Seq<u64>, size: int, k: int) -> Seq<Position>
    decreases k,
{
    if k <= 0 {
        Seq::empty()
    } else if g[k - 1] == 0 {
        empties_upto(g, size, k - 1) + seq![
            (Position { x: ((k - 1) % size) as u8, y: ((k - 1) / size) as u8 }),
        ]
    } else {
        empties_upto(g, size, k - 1)
    }
}

/// All empty cells of `g`, in cell-index order.
pub open spec fn empty_cells_of(g: Seq<u64>, size: int) -> Seq<Position> {
    empties_upto(g, size, g.len() as int)
}

proof fn lemma_empties_upto_props(g: Seq<u64>, size: int, k: int)
    requires
        1 <= size <= 255,
        g.len() == size * size,
        0 <= k <= g.len(),
    ensures
        empties_upto(g, size, k).len() + count_occupied(g.take(k)) == k,
        forall|j: int| 0 <= j < empties_upto(g, size, k).len() ==> {
            &&& (#[trigger] empties_upto(g, size, k)[j]).x < size
            &&& empties_upto(g, size, k)[j].y < size
            &&& 0 <= cell_index(size, empties_upto(g, size, k)[j].x as int,
                    empties_upto(g, size, k)[j].y as int) < k
            &&& g[cell_index(size, empties_upto(g, size, k)[j].x as int,
                    empties_upto(g, size, k)[j].y as int)] == 0
        },
    decreases k,
{
    if k > 0 {
        lemma_empties_upto_props(g, size, k - 1);
        assert(g.take(k).drop_last() =~= g.take(k - 1));
        assert(g.take(k).last() == g[k - 1]);
        let prev = empties_upto(g, size, k - 1);
        let cur = empties_upto(g, size, k);
        if g[k - 1] == 0 {
            assert(((k - 1) % size) + ((k - 1) / size) * size == k - 1 && 0 <= (k - 1) % size
                < size && 0 <= (k - 1) / size < size) by (nonlinear_arith)
                requires 1 <= size && 0 <= k - 1 < size * size;
            let p = Position { x: ((k - 1) % size) as u8, y: ((k - 1) / size) as u8 };
            assert(cur == prev + seq![p]);
            assert(forall|j: int| 0 <= j < prev.len() ==> #[trigger] cur[j] == prev[j]);
            assert(cur[cur.len() - 1] == p);
            assert(cell_index(size, p.x as int, p.y as int) == k - 1);
        } else {
            assert(cur == prev);
        }
    } else {
        assert(g.take(0) =~= Seq::<u64>::empty());
    }
}

/// What holds of the list of empty cells of a well-formed grid: each is
/// on the board and empty, and together with the live tiles they account
/// for every cell.
pub proof fn lemma_empty_cells_props(g: Seq<u64>, size: int)
    requires
        1 <= size <= 255,
        g.len() == size * size,
    ensures
        empty_cells_of(g, size).len() + count_occupied(g) == g.len(),
        forall|j: int| 0 <= j < empty_cells_of(g, size).len() ==> {
            &&& (#[trigger] empty_cells_of(g, size)[j]).x < size
            &&& empty_cells_of(g, size)[j].y < size
            &&& g[cell_index(size, empty_cells_of(g, size)[j].x as int,
                    empty_cells_of(g, size)[j].y as int)] == 0
        },
{
    lemma_empties_upto_props(g, size, g.len() as int);
    assert(g.take(g.len() as int) =~= g);
}

/// Relies on `rand::thread_rng` and `rand::Rng::gen_range`: a uniformly
/// random index below `n`, from the process-wide generator.  `gen_range`
/// panics only on an empty range, which the precondition excludes; the
/// drawn value itself is random, so nothing more is assumed of it.
#[verifier::external_body]
fn random_below(n: usize) -> (r: usize)
    requires
        n >= 1,
    ensures
        r < n,
{
    rand::thread_rng().gen_range(0..n)
}

/// The empty cells of the board, in row-major order.
pub fn empty_cells(store: &TileStore) -> (r: Vec<Position>)
    requires
        store.wf(),
    ensures
        r@ == empty_cells_of(store@, store.size as int),
{
    let n = store.size as usize;
    let mut out: Vec<Position> = Vec::new();
    let mut k: usize = 0;
    while k < store.grid.len()
        invariant
            store.wf(),
            n == store.size,
            k <= store@.len(),
            out@ == empties_upto(store@, store.size as int, k as int),
        decreases store@.len() - k,
    {
        if store.grid[k] == 0 {
            out.push(Position { x: (k % n) as u8, y: (k / n) as u8 });
        }
        k = k + 1;
    }
    out
}

/// Places a tile of value 2 on the `k`-th empty cell (in row-major
/// order) and returns that cell.
pub fn spawn_at(store: &mut TileStore, k: usize) -> (p: Position)
    requires
        old(store).wf(),
        k < empty_cells_of(old(store)@, old(store).size as int).len(),
    ensures
        final(store).wf(),
        final(store).size == old(store).size,
        p == empty_cells_of(old(store)@, old(store).size as int)[k as int],
        old(store).in_bounds(p),
        old(store).spec_at(p.x as int, p.y as int) == 0,
        final(store).spec_at(p.x as int, p.y as int) == 2,
        final(store)@ == old(store)@.update(old(store).spec_index_of(p), 2u64),
        count_occupied(final(store)@) == count_occupied(old(store)@) + 1,
    {
    proof {
        lemma_empty_cells_props(store@, store.size as int);
        assert(is_pow2(1));
        assert(is_pow2(2));
    }
    let cells = empty_cells(store);
    let p = cells[k];
    proof {
        lemma_cell_index_bounds(store.size as int, p.x as int, p.y as int);
    }
    store.insert(p, 2);
    proof {
        lemma_count_update_occupy(old(store)@, old(store).spec_index_of(p), 2u64);
    }
    p
}

/// Places a tile of value 2 on a uniformly random empty cell and returns
/// it; on a full board, does nothing and returns no cell — an expected
/// condition, not a failure.
pub fn spawn_random(store: &mut TileStore) -> (r: Option<Position>)
    requires
        old(store).wf(),
    ensures
        final(store).wf(),
        final(store).size == old(store).size,
        r is None <==> count_occupied(old(store)@) == old(store)@.len(),
        r is None ==> final(store)@ == old(store)@,
        r matches Some(p) ==> {
            &&& old(store).in_bounds(p)
            &&& old(store).spec_at(p.x as int, p.y as int) == 0
            &&& final(store).spec_at(p.x as int, p.y as int) == 2
            &&& final(store)@ == old(store)@.update(old(store).spec_index_of(p), 2u64)
            &&& count_occupied(final(store)@) == count_occupied(old(store)@) + 1
            &&& count_occupied(old(store)@) < old(store)@.len()
        },
{
    proof {
        lemma_empty_cells_props(store@, store.size as int);
        lemma_count_occupied_le_len(store@);
    }
    let cells = empty_cells(store);
    if cells.len() == 0 {
        None
    } else {
        let k = random_below(cells.len());
        let p = spawn_at(store, k);
        Some(p)
    }
}

} // verus!
