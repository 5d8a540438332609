//! The game controller: one discrete turn at a time.
//!
//! A turn takes a direction, shifts the board, and — only when a tile
//! moved or merged — spawns one random tile and checks for the terminal
//! state.  The controller also tracks the score of the current game and
//! the best score seen since the process started, which a reset leaves
//! untouched.

use vstd::prelude::*;
use crate::board::Position;
use crate::shift::Direction;
use crate::shift::SCORE_LIMIT;
use crate::shift::VALUE_LIMIT;
use crate::shift::ShiftOutcome;
use crate::shift::shift;
use crate::shift::shift_gain;
use crate::shift::shift_spec;
use crate::spawn::spawn_random;
use crate::terminal::is_game_over;
use crate::terminal::spec_game_over;
use crate::tiles::TileStore;
use crate::tiles::cell_index;
use crate::tiles::count_occupied;
use crate::tiles::lemma_cell_index_bounds;
use crate::tiles::lemma_count_zero;
use crate::tiles::lemma_count_occupied_le_len;

verus! {

/// The two phases of a game.  `GameOver` is entered only through the
/// terminal check and left only through an explicit reset.
#[derive(Clone, Copy, PartialEq, Eq, Structural, Debug)]
pub enum GameState {
    Playing,
    GameOver,
}

/// What one turn reports to the host: whether the board changed, where a
/// tile spawned (for entry animation), and whether the game just ended.
#[derive(Clone, Copy, PartialEq, Eq, Debug)]
pub struct TurnReport {
    pub moved: bool,
    pub spawned: Option<Position>,
    pub game_over: bool,
}

/// One running game: the live tiles, the current score, the best score
/// of the process lifetime, and the phase.
pub struct Game {
    pub store: TileStore,
    pub score: u64,
    pub best_score: u64,
    pub state: GameState,
}

impl Game {
    /// Internal consistency: a well-formed store, and a best score that
    /// never lags behind the current score.
    pub open spec fn wf(self) -> bool {
        &&& self.store.wf()
        &&& self.score <= self.best_score
    }

    /// The arithmetic headroom a turn needs: machine limits only, far
    /// beyond any reachable game.
    pub open spec fn within_limits(self) -> bool {
        &&& forall|k: int| 0 <= k < self.store@.len() ==> #[trigger] self.store@[k] <= VALUE_LIMIT
        &&& self.score <= SCORE_LIMIT
    }

    /// Decides whether the turn limits hold; a host should check this
    /// before calling `turn`.
    pub fn check_limits(&self) -> (r: bool)
        requires
            self.wf(),
        ensures
            r == self.within_limits(),
    {
        if self.score > SCORE_LIMIT {
            return false;
        }
        let mut k: usize = 0;
        while k < self.store.grid.len()
            invariant
                self.wf(),
                self.score <= SCORE_LIMIT,
                k <= self.store@.len(),
                forall|j: int| 0 <= j < k ==> #[trigger] self.store@[j] <= VALUE_LIMIT,
            decreases self.store@.len() - k,
        {
            if self.store.grid[k] > VALUE_LIMIT {
                return false;
            }
            k = k + 1;
        }
        true
    }

    /// A fresh game: an empty board of the given size with two starting
    /// tiles of value 2 spawned on distinct random cells, score zero,
    /// best score zero, playing.
    pub fn new(size: u8) -> (g: Game)
        requires
            size >= 1,
        ensures
            g.wf(),
            g.within_limits(),
            g.store.size == size,
            g.score == 0,
            g.best_score == 0,
            g.state == GameState::Playing,
            count_occupied(g.store@) == if size >= 2 { 2int } else { 1int },
            forall|k: int| 0 <= k < g.store@.len()
                ==> #[trigger] g.store@[k] == 0 || g.store@[k] == 2,
    {
        let store = seeded_store(size);
        Game { store, score: 0, best_score: 0, state: GameState::Playing }
    }

    /// Clears the board, spawns two fresh starting tiles, and zeroes the
    /// score; the best score is deliberately left as it was.
    pub fn reset(&mut self)
        requires
            old(self).wf(),
        ensures
            final(self).wf(),
            final(self).within_limits(),
            final(self).store.size == old(self).store.size,
            final(self).score == 0,
            final(self).best_score == old(self).best_score,
            final(self).state == GameState::Playing,
            count_occupied(final(self).store@) == if old(self).store.size >= 2 { 2int } else { 1int },
            forall|k: int| 0 <= k < final(self).store@.len()
                ==> #[trigger] final(self).store@[k] == 0 || final(self).store@[k] == 2,
    {
        self.store = seeded_store(self.store.size);
        self.score = 0;
        self.state = GameState::Playing;
    }

    /// One discrete turn.  While playing: shift in the given direction,
    /// add the merge gains to the score; if anything moved or merged,
    /// spawn one random tile and check for the terminal state.  While
    /// game over, directional commands are ignored entirely.  The best
    /// score rises to the new score whenever that is higher, so it never
    /// decreases.
    pub fn turn(&mut self, d: Direction) -> (r: TurnReport)
        requires
            old(self).wf(),
            old(self).within_limits(),
        ensures
            final(self).wf(),
            final(self).store.size == old(self).store.size,
            final(self).score >= old(self).score,
            final(self).best_score >= old(self).best_score,
            final(self).best_score == (if final(self).score > old(self).best_score {
                final(self).score
            } else {
                old(self).best_score
            }),
            r.game_over == (final(self).state == GameState::GameOver),
            old(self).state == GameState::GameOver ==> {
                &&& final(self).store@ == old(self).store@
                &&& final(self).score == old(self).score
                &&& final(self).best_score == old(self).best_score
                &&& final(self).state == GameState::GameOver
                &&& !r.moved
                &&& r.spawned is None
            },
            old(self).state == GameState::Playing ==> ({
                let g0 = old(self).store@;
                let sz = old(self).store.size as int;
                let mid = shift_spec(g0, sz, d);
                &&& r.moved == (mid != g0)
                &&& final(self).score == old(self).score + shift_gain(g0, sz, d)
                &&& (!r.moved ==> {
                    &&& final(self).store@ == g0
                    &&& final(self).state == GameState::Playing
                    &&& r.spawned is None
                })
                &&& (r.moved ==> match r.spawned {
                    Some(p) => {
                        &&& p.x < old(self).store.size
                        &&& p.y < old(self).store.size
                        &&& mid[cell_index(sz, p.x as int, p.y as int)] == 0
                        &&& final(self).store@ == mid.update(
                            cell_index(sz, p.x as int, p.y as int), 2u64)
                    },
                    None => {
                        &&& count_occupied(mid) == mid.len()
                        &&& final(self).store@ == mid
                    },
                })
                &&& (r.moved ==> final(self).state == (if spec_game_over(final(self).store@, sz) {
                    GameState::GameOver
                } else {
                    GameState::Playing
                }))
            }),
    {
        match self.state {
            GameState::GameOver => {
                return TurnReport { moved: false, spawned: None, game_over: true };
            },
            GameState::Playing => {},
        }
        let ghost sz = self.store.size as int;
        let outcome: ShiftOutcome = shift(&mut self.store, d);
        proof {
            assert(outcome.gained <= VALUE_LIMIT * 65025) by (nonlinear_arith)
                requires
                    outcome.gained <= VALUE_LIMIT * sz * sz,
                    1 <= sz <= 255,
            ;
        }
        let mut spawned: Option<Position> = None;
        if outcome.changed {
            spawned = spawn_random(&mut self.store);
            if is_game_over(&self.store) {
                self.state = GameState::GameOver;
            }
        }
        self.score = self.score + outcome.gained;
        if self.best_score < self.score {
            self.best_score = self.score;
        }
        let over = match self.state {
            GameState::GameOver => true,
            GameState::Playing => false,
        };
        TurnReport { moved: outcome.changed, spawned, game_over: over }
    }
}

/// An empty board of the given size with two starting tiles spawned on
/// distinct random cells (one tile only if the board has a single cell).
fn seeded_store(size: u8) -> (s: TileStore)
    requires
        size >= 1,
    ensures
        s.wf(),
        s.size == size,
        count_occupied(s@) == if size >= 2 { 2int } else { 1int },
        forall|k: int| 0 <= k < s@.len() ==> #[trigger] s@[k] == 0 || s@[k] == 2,
{
    let mut store = TileStore::new_empty(size);
    proof {
        lemma_count_zero(store@);
        assert(size * size >= 1 && (size >= 2 ==> size * size >= 2)) by (nonlinear_arith)
            requires size >= 1;
    }
    let first = spawn_random(&mut store);
    proof {
        if let Some(p) = first {
            lemma_cell_index_bounds(size as int, p.x as int, p.y as int);
        }
        assert forall|k: int| 0 <= k < store@.len()
            implies #[trigger] store@[k] == 0 || store@[k] == 2 by {}
    }
    let second = spawn_random(&mut store);
    proof {
        if let Some(p) = second {
            lemma_cell_index_bounds(size as int, p.x as int, p.y as int);
        }
        lemma_count_occupied_le_len(store@);
        assert forall|k: int| 0 <= k < store@.len()
            implies #[trigger] store@[k] == 0 || store@[k] == 2 by {}
    }
    store
}

/// The possible direction of one host key: the total mapping from key
/// identifiers to shift directions; every other key means no direction.
pub open spec fn spec_direction_of_key(key: char) -> Option<Direction> {
    if key == 'a' || key == 'A' {
        Some(Direction::Left)
    } else if key == 'd' || key == 'D' {
        Some(Direction::Right)
    } else if key == 'w' || key == 'W' {
        Some(Direction::Up)
    } else if key == 's' || key == 'S' {
        Some(Direction::Down)
    } else {
        None
    }
}

/// Resolves a host key to a shift direction; unrecognized keys resolve
/// to nothing and the caller ignores them.
pub fn direction_from_key(key: char) -> (r: Option<Direction>)
    ensures
        r == spec_direction_of_key(key),
{
    match key {
        'a' | 'A' => Some(Direction::Left),
        'd' | 'D' => Some(Direction::Right),
        'w' | 'W' => Some(Direction::Up),
        's' | 'S' => Some(Direction::Down),
        _ => None,
    }
}

} // verus!
