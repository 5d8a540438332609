//! The directional shift-and-merge algorithm.
//!
//! A shift processes each row (or column) of the grid independently, from
//! the leading edge of the shift direction inward: the occupied cells are
//! compacted toward the edge, and each pair of adjacent equal values in
//! that order merges once, leading pair first, into a tile of double
//! value.  The merged value is the score gained by the merge.

use vstd::prelude::*;
use vstd::pervasive::VecAdditionalExecFns;
use crate::tiles::TileStore;
use crate::tiles::cell_ok;
use crate::tiles::lemma_pow2_double;

verus! {

/// The four shift directions.
#[derive(Clone, Copy, PartialEq, Eq, Structural, Debug)]
pub enum Direction {
    Left,
    Right,
    Up,
    Down,
}

/// The largest tile value a shift accepts; keeps every doubling and every
/// score addition inside `u64`.
pub const VALUE_LIMIT: u64 = 0x100_0000_0000;

/// The largest score a shift accepts; one shift can gain at most
/// `VALUE_LIMIT` per cell of the grid, which this leaves room for.
pub const SCORE_LIMIT: u64 = 0xFE00_0000_0000_0000;

/// The values of the occupied cells of `s`, in order.
pub open spec fn compacted(s: Seq<u64>) -> Seq<u64>
    decreases s.len(),
{
    if s.len() == 0 {
        Seq::empty()
    } else if s[0] == 0 {
        compacted(s.skip(1))
    } else {
        seq![s[0]] + compacted(s.skip(1))
    }
}

/// One left-to-right merge pass over a gap-free line: the leading pair of
/// equal adjacent values becomes one doubled value, and the pass resumes
/// after the pair, so a run of equal values merges pairwise and no tile
/// merges twice.
pub open spec fn merge_pairs(s: Seq<u64>) -> Seq<u64>
    decreases s.len(),
{
    if s.len() >= 2 && s[0] == s[1] {
        seq![((2 * s[0]) as u64)] + merge_pairs(s.skip(2))
    } else if s.len() >= 1 {
        seq![s[0]] + merge_pairs(s.skip(1))
    } else {
        Seq::empty()
    }
}

/// The score gained by the merge pass: the sum of the doubled values.
pub open spec fn merge_score(s: Seq<u64>) -> int
    decreases s.len(),
{
    if s.len() >= 2 && s[0] == s[1] {
        2 * s[0] + merge_score(s.skip(2))
    } else if s.len() >= 1 {
        merge_score(s.skip(1))
    } else {
        0
    }
}

/// `n` empty cells.
pub open spec fn zeros(n: int) -> Seq<u64> {
    Seq::new(if n >= 0 { n as nat } else { 0nat }, |i: int| 0u64)
}

/// What one line becomes under a shift toward its start: its tiles
/// compacted, adjacent equal pairs merged once, and the rest empty.
pub open spec fn shifted_line(l: Seq<u64>) -> Seq<u64> {
    merge_pairs(compacted(l)) + zeros(l.len() - merge_pairs(compacted(l)).len())
}

/// The score one line yields under a shift.
pub open spec fn line_gain(l: Seq<u64>) -> int {
    merge_score(compacted(l))
}

proof fn lemma_compacted_step(s: Seq<u64>, i: int)
    requires
        0 <= i < s.len(),
    ensures
        compacted(s.skip(i)) == if s[i] == 0 {
            compacted(s.skip(i + 1))
        } else {
            seq![s[i]] + compacted(s.skip(i + 1))
        },
{
    assert(s.skip(i).skip(1) =~= s.skip(i + 1));
    assert(s.skip(i)[0] == s[i]);
}

proof fn lemma_merge_step(s: Seq<u64>, i: int)
    requires
        0 <= i < s.len(),
    ensures
        i + 1 < s.len() && s[i] == s[i + 1] ==> {
            &&& merge_pairs(s.skip(i)) == seq![((2 * s[i]) as u64)] + merge_pairs(s.skip(i + 2))
            &&& merge_score(s.skip(i)) == 2 * s[i] + merge_score(s.skip(i + 2))
        },
        !(i + 1 < s.len() && s[i] == s[i + 1]) ==> {
            &&& merge_pairs(s.skip(i)) == seq![s[i]] + merge_pairs(s.skip(i + 1))
            &&& merge_score(s.skip(i)) == merge_score(s.skip(i + 1))
        },
{
    assert(s.skip(i)[0] == s[i]);
    if i + 1 < s.len() {
        assert(s.skip(i)[1] == s[i + 1]);
        assert(s.skip(i).skip(2) =~= s.skip(i + 2));
    }
    assert(s.skip(i).skip(1) =~= s.skip(i + 1));
}

/// The values the compaction step yields: the nonzero values of the line,
/// within the same bound.
pub proof fn lemma_compacted_values(s: Seq<u64>, vmax: u64)
    requires
        forall|i: int| 0 <= i < s.len() ==> s[i] <= vmax && cell_ok(#[trigger] s[i]),
    ensures
        compacted(s).len() <= s.len(),
        forall|j: int| 0 <= j < compacted(s).len()
            ==> 0 < #[trigger] compacted(s)[j] <= vmax && cell_ok(compacted(s)[j]),
    decreases s.len(),
{
    if s.len() > 0 {
        assert(forall|i: int| 0 <= i < s.skip(1).len()
            ==> #[trigger] s.skip(1)[i] == s[i + 1]);
        lemma_compacted_values(s.skip(1), vmax);
    }
}

/// The values the merge pass yields: each a value of the input or its
/// double, so still a power of two, within double the input bound; and
/// the score gained is at most the bound per input cell.
pub proof fn lemma_merge_pairs_values(s: Seq<u64>, vmax: u64)
    requires
        vmax <= 0x7FFF_FFFF_FFFF_FFFF,
        forall|i: int| 0 <= i < s.len() ==> 0 < #[trigger] s[i] <= vmax && cell_ok(s[i]),
    ensures
        merge_pairs(s).len() <= s.len(),
        forall|j: int| 0 <= j < merge_pairs(s).len()
            ==> 0 < #[trigger] merge_pairs(s)[j] && merge_pairs(s)[j] <= 2 * vmax
                && cell_ok(merge_pairs(s)[j]),
        0 <= merge_score(s) <= vmax * s.len(),
    decreases s.len(),
{
    if s.len() >= 2 && s[0] == s[1] {
        assert(forall|i: int| 0 <= i < s.skip(2).len()
            ==> #[trigger] s.skip(2)[i] == s[i + 2]);
        lemma_merge_pairs_values(s.skip(2), vmax);
        lemma_pow2_double(s[0] as int);
        assert(merge_score(s) <= vmax * s.len()) by (nonlinear_arith)
            requires
                merge_score(s) == 2 * s[0] + merge_score(s.skip(2)),
                s[0] <= vmax,
                merge_score(s.skip(2)) <= vmax * (s.len() - 2),
                s.len() >= 2;
    } else if s.len() >= 1 {
        assert(forall|i: int| 0 <= i < s.skip(1).len()
            ==> #[trigger] s.skip(1)[i] == s[i + 1]);
        lemma_merge_pairs_values(s.skip(1), vmax);
        assert(merge_score(s) <= vmax * s.len()) by (nonlinear_arith)
            requires
                merge_score(s) == merge_score(s.skip(1)),
                vmax >= 0,
                merge_score(s.skip(1)) <= vmax * (s.len() - 1),
                s.len() >= 1;
    }
}

/// What a whole shifted line holds: as many cells as before, each empty
/// or a power of two at most double the old bound; and the gain is at
/// most the old bound per cell.
pub proof fn lemma_shifted_line_values(l: Seq<u64>, vmax: u64)
    requires
        vmax <= 0x7FFF_FFFF_FFFF_FFFF,
        forall|i: int| 0 <= i < l.len() ==> l[i] <= vmax && cell_ok(#[trigger] l[i]),
    ensures
        shifted_line(l).len() == l.len(),
        forall|j: int| 0 <= j < l.len()
            ==> #[trigger] shifted_line(l)[j] <= 2 * vmax && cell_ok(shifted_line(l)[j]),
        0 <= line_gain(l) <= vmax * l.len(),
{
    lemma_compacted_values(l, vmax);
    lemma_merge_pairs_values(compacted(l), vmax);
    assert(vmax * compacted(l).len() <= vmax * l.len()) by (nonlinear_arith)
        requires vmax >= 0 && compacted(l).len() <= l.len();
}

/// The doubling rule itself: when the two leading tiles of a gap-free
/// line are equal, the merge yields a single tile of exactly double the
/// value — strictly greater than before — and the score gains exactly
/// that doubled value.
pub proof fn lemma_merge_doubles(s: Seq<u64>)
    requires
        s.len() >= 2,
        s[0] == s[1],
        0 < s[0] <= 0x7FFF_FFFF_FFFF_FFFF,
    ensures
        merge_pairs(s)[0] == 2 * s[0],
        merge_pairs(s)[0] > s[0],
        merge_pairs(s).len() == 1 + merge_pairs(s.skip(2)).len(),
        merge_score(s) == 2 * s[0] + merge_score(s.skip(2)),
{
}

/// Shifts one line toward its start: compacts its tiles, merges adjacent
/// equal pairs once each, pads with empty cells, and reports the score
/// gained.
pub fn shift_line(line: &Vec<u64>) -> (r: (Vec<u64>, u64))
    requires
        line@.len() <= 255,
        forall|i: int| 0 <= i < line@.len()
            ==> line@[i] <= VALUE_LIMIT && cell_ok(#[trigger] line@[i]),
    ensures
        r.0@ == shifted_line(line@),
        r.0@.len() == line@.len(),
        r.1 == line_gain(line@),
{
    let n = line.len();
    let mut nz: Vec<u64> = Vec::new();
    let mut i: usize = 0;
    proof {
        assert(line@.skip(0) =~= line@);
        assert(nz@ + compacted(line@) =~= compacted(line@));
    }
    while i < n
        invariant
            n == line@.len() <= 255,
            i <= n,
            forall|j: int| 0 <= j < line@.len()
                ==> line@[j] <= VALUE_LIMIT && cell_ok(#[trigger] line@[j]),
            compacted(line@) == nz@ + compacted(line@.skip(i as int)),
            nz@.len() <= i,
            forall|j: int| 0 <= j < nz@.len()
                ==> 0 < #[trigger] nz@[j] <= VALUE_LIMIT && cell_ok(nz@[j]),
        decreases n - i,
    {
        proof {
            lemma_compacted_step(line@, i as int);
        }
        let v = line[i];
        if v != 0 {
            nz.push(v);
            proof {
                assert(nz@ =~= nz@.drop_last() + seq![v]);
                assert((nz@.drop_last() + seq![v]) + compacted(line@.skip(i + 1))
                    =~= nz@.drop_last() + (seq![v] + compacted(line@.skip(i + 1))));
            }
        }
        i = i + 1;
    }
    proof {
        assert(line@.skip(n as int) =~= Seq::<u64>::empty());
        assert(nz@ + compacted(line@.skip(n as int)) =~= nz@);
    }

    let m = nz.len();
    let mut out: Vec<u64> = Vec::new();
    let mut gained: u64 = 0;
    let mut k: usize = 0;
    proof {
        assert(nz@.skip(0) =~= nz@);
        assert(out@ + merge_pairs(nz@) =~= merge_pairs(nz@));
    }
    while k < m
        invariant
            m == nz@.len() <= 255,
            k <= m,
            forall|j: int| 0 <= j < nz@.len()
                ==> 0 < #[trigger] nz@[j] <= VALUE_LIMIT && cell_ok(nz@[j]),
            merge_pairs(nz@) == out@ + merge_pairs(nz@.skip(k as int)),
            merge_score(nz@) == gained + merge_score(nz@.skip(k as int)),
            gained <= VALUE_LIMIT * k,
        decreases m - k,
    {
        proof {
            lemma_merge_step(nz@, k as int);
        }
        let v = nz[k];
        if k + 1 < m && nz[k + 1] == v {
            proof {
                assert(gained + 2 * v <= VALUE_LIMIT * (k + 2) && VALUE_LIMIT * (k + 2)
                    <= VALUE_LIMIT * 257) by (nonlinear_arith)
                    requires
                        gained <= VALUE_LIMIT * k,
                        0 < v <= VALUE_LIMIT,
                        k + 2 <= 257;
                assert(out@ + (seq![((2 * v) as u64)] + merge_pairs(nz@.skip(k + 2)))
                    =~= (out@ + seq![((2 * v) as u64)]) + merge_pairs(nz@.skip(k + 2)));
            }
            let merged = 2 * v;
            out.push(merged);
            gained = gained + merged;
            k = k + 2;
        } else {
            proof {
                assert(out@ + (seq![v] + merge_pairs(nz@.skip(k + 1)))
                    =~= (out@ + seq![v]) + merge_pairs(nz@.skip(k + 1)));
            }
            out.push(v);
            k = k + 1;
        }
    }
    proof {
        assert(nz@.skip(k as int) =~= Seq::<u64>::empty());
        assert(out@ + merge_pairs(nz@.skip(k as int)) =~= out@);
        lemma_merge_pairs_values(nz@, VALUE_LIMIT);
    }

    while out.len() < n
        invariant
            n == line@.len(),
            merge_pairs(compacted(line@)).len() <= out@.len() <= n,
            forall|j: int| 0 <= j < out@.len() ==> out@[j] == shifted_line(line@)[j],
            shifted_line(line@).len() == n,
        decreases n - out.len(),
    {
        out.push(0);
    }
    proof {
        assert(out@ =~= shifted_line(line@));
    }
    (out, gained)
}

/// The grid index of the `i`-th cell of line `r` of a shift, counted
/// from the leading edge of the direction inward.  For a horizontal
/// shift a line is the row `y == r`; for a vertical one, the column
/// `x == r`.
pub open spec fn line_index(d: Direction, size: int, r: int, i: int) -> int {
    match d {
        Direction::Left => r * size + i,
        Direction::Right => r * size + (size - 1 - i),
        Direction::Up => (size - 1 - i) * size + r,
        Direction::Down => i * size + r,
    }
}

/// Which line the cell at grid index `k` belongs to.
pub open spec fn row_of_cell(d: Direction, size: int, k: int) -> int {
    match d {
        Direction::Left | Direction::Right => k / size,
        Direction::Up | Direction::Down => k % size,
    }
}

/// How far from the leading edge the cell at grid index `k` sits.
pub open spec fn slot_of_cell(d: Direction, size: int, k: int) -> int {
    match d {
        Direction::Left => k % size,
        Direction::Right => size - 1 - (k % size),
        Direction::Up => size - 1 - (k / size),
        Direction::Down => k / size,
    }
}

/// Line `r` of the grid `g`, read from the leading edge inward.
pub open spec fn line_of(g: Seq<u64>, size: int, d: Direction, r: int) -> Seq<u64> {
    Seq::new(size as nat, |i: int| g[line_index(d, size, r, i)])
}

/// The whole grid after a shift in direction `d`: every line shifted
/// toward the leading edge independently.
pub open spec fn shift_spec(g: Seq<u64>, size: int, d: Direction) -> Seq<u64> {
    Seq::new(
        g.len(),
        |k: int| shifted_line(line_of(g, size, d, row_of_cell(d, size, k)))[slot_of_cell(
            d,
            size,
            k,
        )],
    )
}

/// The score gained by the first `r` lines of a shift.
pub open spec fn gain_upto(g: Seq<u64>, size: int, d: Direction, r: int) -> int
    decreases r,
{
    if r <= 0 {
        0
    } else {
        gain_upto(g, size, d, r - 1) + line_gain(line_of(g, size, d, r - 1))
    }
}

/// The score a whole shift gains.
pub open spec fn shift_gain(g: Seq<u64>, size: int, d: Direction) -> int {
    gain_upto(g, size, d, size)
}

pub proof fn lemma_line_index_bounds(d: Direction, size: int, r: int, i: int)
    requires
        1 <= size,
        0 <= r < size,
        0 <= i < size,
    ensures
        0 <= line_index(d, size, r, i) < size * size,
{
    assert(0 <= r * size + i < size * size) by (nonlinear_arith)
        requires 1 <= size && 0 <= r < size && 0 <= i < size;
    assert(0 <= r * size + (size - 1 - i) < size * size) by (nonlinear_arith)
        requires 1 <= size && 0 <= r < size && 0 <= i < size;
    assert(0 <= (size - 1 - i) * size + r < size * size) by (nonlinear_arith)
        requires 1 <= size && 0 <= r < size && 0 <= i < size;
    assert(0 <= i * size + r < size * size) by (nonlinear_arith)
        requires 1 <= size && 0 <= r < size && 0 <= i < size;
}

/// Every cell of the grid belongs to exactly one line and slot, and the
/// two coordinate readings invert each other.
pub proof fn lemma_cells_and_lines(d: Direction, size: int)
    requires
        1 <= size,
    ensures
        forall|k: int| 0 <= k < size * size ==> {
            &&& 0 <= #[trigger] row_of_cell(d, size, k) < size
            &&& 0 <= slot_of_cell(d, size, k) < size
            &&& line_index(d, size, row_of_cell(d, size, k), slot_of_cell(d, size, k)) == k
        },
        forall|r: int, i: int| 0 <= r < size && 0 <= i < size ==> {
            &&& row_of_cell(d, size, #[trigger] line_index(d, size, r, i)) == r
            &&& slot_of_cell(d, size, line_index(d, size, r, i)) == i
        },
{
    assert forall|k: int| 0 <= k < size * size implies {
        &&& 0 <= #[trigger] row_of_cell(d, size, k) < size
        &&& 0 <= slot_of_cell(d, size, k) < size
        &&& line_index(d, size, row_of_cell(d, size, k), slot_of_cell(d, size, k)) == k
    } by {
        assert(0 <= k / size < size && 0 <= k % size < size && (k / size) * size + k % size
            == k) by (nonlinear_arith)
            requires 1 <= size && 0 <= k < size * size;
    }
    assert forall|r: int, i: int| 0 <= r < size && 0 <= i < size implies {
        &&& row_of_cell(d, size, #[trigger] line_index(d, size, r, i)) == r
        &&& slot_of_cell(d, size, line_index(d, size, r, i)) == i
    } by {
        match d {
            Direction::Left | Direction::Right => {
                let b = if d == Direction::Left { i } else { size - 1 - i };
                assert((r * size + b) / size == r && (r * size + b) % size
                    == b) by (nonlinear_arith)
                    requires 1 <= size && 0 <= r && 0 <= b < size;
            },
            Direction::Up | Direction::Down => {
                let a = if d == Direction::Down { i } else { size - 1 - i };
                assert((a * size + r) / size == a && (a * size + r) % size
                    == r) by (nonlinear_arith)
                    requires 1 <= size && 0 <= a && 0 <= r < size;
            },
        }
    }
}

/// What holds of one line of a well-formed grid whose values are within
/// `VALUE_LIMIT`, and of its shifted image.
pub proof fn lemma_line_shift_props(g: Seq<u64>, size: int, d: Direction, r: int)
    requires
        1 <= size,
        g.len() == size * size,
        0 <= r < size,
        forall|k: int| 0 <= k < g.len() ==> #[trigger] g[k] <= VALUE_LIMIT,
        forall|k: int| 0 <= k < g.len() ==> cell_ok(#[trigger] g[k]),
    ensures
        line_of(g, size, d, r).len() == size,
        shifted_line(line_of(g, size, d, r)).len() == size,
        forall|j: int| 0 <= j < size
            ==> #[trigger] shifted_line(line_of(g, size, d, r))[j] <= 2 * VALUE_LIMIT
                && cell_ok(shifted_line(line_of(g, size, d, r))[j]),
        0 <= line_gain(line_of(g, size, d, r)) <= VALUE_LIMIT * size,
{
    assert forall|i: int| 0 <= i < line_of(g, size, d, r).len()
        implies line_of(g, size, d, r)[i] <= VALUE_LIMIT && cell_ok(
        #[trigger] line_of(g, size, d, r)[i]) by {
        lemma_line_index_bounds(d, size, r, i);
    }
    lemma_shifted_line_values(line_of(g, size, d, r), VALUE_LIMIT);
}

/// What a shift returns beside the moved tiles: the score it gained and
/// whether any tile moved or merged.
#[derive(Clone, Copy, PartialEq, Eq, Structural, Debug)]
pub struct ShiftOutcome {
    pub gained: u64,
    pub changed: bool,
}

fn line_index_exec(d: Direction, size: u8, r: usize, i: usize) -> (idx: usize)
    requires
        1 <= size,
        r < size,
        i < size,
    ensures
        idx == line_index(d, size as int, r as int, i as int),
        idx < size * size,
{
    proof {
        lemma_line_index_bounds(d, size as int, r as int, i as int);
        assert(size * size <= 65025) by (nonlinear_arith)
            requires size <= 255;
    }
    let n = size as usize;
    match d {
        Direction::Left => r * n + i,
        Direction::Right => r * n + (n - 1 - i),
        Direction::Up => (n - 1 - i) * n + r,
        Direction::Down => i * n + r,
    }
}

fn vecs_equal(a: &Vec<u64>, b: &Vec<u64>) -> (r: bool)
    requires
        a@.len() == b@.len(),
    ensures
        r == (a@ == b@),
{
    let mut i: usize = 0;
    while i < a.len()
        invariant
            a@.len() == b@.len(),
            i <= a@.len(),
            forall|j: int| 0 <= j < i ==> a@[j] == b@[j],
        decreases a@.len() - i,
    {
        if a[i] != b[i] {
            return false;
        }
        i = i + 1;
    }
    proof {
        assert(a@ =~= b@);
    }
    true
}

/// Shifts every tile of the board in direction `d`: each line compacts
/// toward the leading edge and merges its adjacent equal pairs once.
/// Reports the score gained and whether the board changed at all.
pub fn shift(store: &mut TileStore, d: Direction) -> (r: ShiftOutcome)
    requires
        old(store).wf(),
        forall|k: int| 0 <= k < old(store)@.len() ==> #[trigger] old(store)@[k] <= VALUE_LIMIT,
    ensures
        final(store).wf(),
        final(store).size == old(store).size,
        final(store)@ == shift_spec(old(store)@, old(store).size as int, d),
        r.gained == shift_gain(old(store)@, old(store).size as int, d),
        r.gained <= VALUE_LIMIT * (old(store).size as int) * (old(store).size as int),
        r.changed == (final(store)@ != old(store)@),
{
    let n = store.size as usize;
    let ghost g0 = store@;
    let ghost sz = store.size as int;
    proof {
        lemma_cells_and_lines(d, sz);
    }
    let mut row: usize = 0;
    let mut gained: u64 = 0;
    let mut changed: bool = false;
    while row < n
        invariant
            store.size == old(store).size,
            n == store.size,
            1 <= sz == store.size as int <= 255,
            g0 == old(store)@,
            old(store).wf(),
            forall|k: int| 0 <= k < g0.len() ==> #[trigger] g0[k] <= VALUE_LIMIT,
            store@.len() == g0.len() == sz * sz,
            row <= n,
            forall|k: int| 0 <= k < g0.len() ==> #[trigger] store@[k] == (
                if row_of_cell(d, sz, k) < row {
                    shifted_line(line_of(g0, sz, d, row_of_cell(d, sz, k)))[slot_of_cell(d, sz, k)]
                } else {
                    g0[k]
                }),
            gained == gain_upto(g0, sz, d, row as int),
            gained <= VALUE_LIMIT * sz * row,
            changed == exists|rr: int| 0 <= rr < row
                && shifted_line(#[trigger] line_of(g0, sz, d, rr)) != line_of(g0, sz, d, rr),
        decreases n - row,
    {
        proof {
            lemma_cells_and_lines(d, sz);
        }
        // Read line `row` from the leading edge inward.
        let mut linebuf: Vec<u64> = Vec::new();
        let mut i: usize = 0;
        while i < n
            invariant
                store.size == old(store).size,
                n == store.size,
                1 <= sz == store.size as int <= 255,
                old(store).wf(),
                forall|k: int| 0 <= k < g0.len() ==> #[trigger] g0[k] <= VALUE_LIMIT,
                store@.len() == g0.len() == sz * sz,
                row < n,
                i <= n,
                linebuf@.len() == i,
                forall|j: int| 0 <= j < i ==> linebuf@[j] == line_of(g0, sz, d, row as int)[j],
                forall|k: int| 0 <= k < g0.len() ==> #[trigger] store@[k] == (
                    if row_of_cell(d, sz, k) < row {
                        shifted_line(line_of(g0, sz, d, row_of_cell(d, sz, k)))[slot_of_cell(
                            d, sz, k)]
                    } else {
                        g0[k]
                    }),
            decreases n - i,
        {
            proof {
                lemma_cells_and_lines(d, sz);
            }
            let idx = line_index_exec(d, store.size, row, i);
            linebuf.push(store.grid[idx]);
            i = i + 1;
        }
        proof {
            assert(linebuf@ =~= line_of(g0, sz, d, row as int));
            assert forall|j: int| 0 <= j < linebuf@.len()
                implies linebuf@[j] <= VALUE_LIMIT && cell_ok(#[trigger] linebuf@[j]) by {
                lemma_line_index_bounds(d, sz, row as int, j);
            }
        }
        let (newline, line_pts) = shift_line(&linebuf);
        proof {
            lemma_shifted_line_values(linebuf@, VALUE_LIMIT);
            assert(gained + line_pts <= VALUE_LIMIT * sz * (row + 1) && VALUE_LIMIT * sz * (row
                + 1) <= VALUE_LIMIT * 65025) by (nonlinear_arith)
                requires
                    gained <= VALUE_LIMIT * sz * row,
                    0 <= line_pts <= VALUE_LIMIT * sz,
                    1 <= sz <= 255,
                    0 <= row < 255,
            ;
        }
        if !vecs_equal(&linebuf, &newline) {
            changed = true;
        }
        gained = gained + line_pts;
        // Write the shifted line back.
        let ghost before = store@;
        let mut w: usize = 0;
        while w < n
            invariant
                store.size == old(store).size,
                n == store.size,
                1 <= sz == store.size as int <= 255,
                store@.len() == before.len() == g0.len() == sz * sz,
                row < n,
                w <= n,
                newline@.len() == n,
                forall|k: int| 0 <= k < g0.len() ==> #[trigger] store@[k] == (
                    if row_of_cell(d, sz, k) == row && slot_of_cell(d, sz, k) < w {
                        newline@[slot_of_cell(d, sz, k)]
                    } else {
                        before[k]
                    }),
            decreases n - w,
        {
            proof {
                lemma_cells_and_lines(d, sz);
            }
            let idx = line_index_exec(d, store.size, row, w);
            self_set(store, idx, newline[w]);
            w = w + 1;
        }
        proof {
            lemma_cells_and_lines(d, sz);
            assert(gain_upto(g0, sz, d, row + 1) == gain_upto(g0, sz, d, row as int) + line_gain(
                line_of(g0, sz, d, row as int)));
        }
        row = row + 1;
    }
    proof {
        lemma_cells_and_lines(d, sz);
        assert(store@ =~= shift_spec(g0, sz, d));
        assert forall|k: int| 0 <= k < store@.len() implies cell_ok(#[trigger] store@[k]) by {
            lemma_line_shift_props(g0, sz, d, row_of_cell(d, sz, k));
        }
        // `changed` is exactly whether the grid changed.
        if changed {
            let rr = choose|rr: int| 0 <= rr < sz
                && shifted_line(#[trigger] line_of(g0, sz, d, rr)) != line_of(g0, sz, d, rr);
            lemma_line_shift_props(g0, sz, d, rr);
            if store@ == g0 {
                assert forall|j: int| 0 <= j < sz
                    implies shifted_line(line_of(g0, sz, d, rr))[j] == line_of(g0, sz, d, rr)[j]
                by {
                    lemma_line_index_bounds(d, sz, rr, j);
                    assert(store@[line_index(d, sz, rr, j)] == shifted_line(
                        line_of(g0, sz, d, rr))[j]);
                }
                assert(shifted_line(line_of(g0, sz, d, rr)) =~= line_of(g0, sz, d, rr));
            }
        } else {
            assert forall|k: int| 0 <= k < g0.len() implies store@[k] == g0[k] by {
                lemma_line_shift_props(g0, sz, d, row_of_cell(d, sz, k));
            }
            assert(store@ =~= g0);
        }
    }
    ShiftOutcome { gained, changed }
}

fn self_set(store: &mut TileStore, idx: usize, v: u64)
    requires
        idx < old(store).grid@.len(),
    ensures
        final(store).size == old(store).size,
        final(store)@ == old(store)@.update(idx as int, v),
{
    store.grid.set(idx, v);
}

} // verus!
