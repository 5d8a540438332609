use grid2048::board::Position;
use grid2048::game::Game;
use grid2048::game::GameState;
use grid2048::game::direction_from_key;
use grid2048::shift::Direction;
use grid2048::tiles::TileStore;

fn game_with(size: u8, tiles: &[(u8, u8, u64)]) -> Game {
    let mut store = TileStore::new_empty(size);
    for &(x, y, v) in tiles {
        store.insert(Position { x, y }, v);
    }
    Game { store, score: 0, best_score: 0, state: GameState::Playing }
}

fn value_at(g: &Game, x: u8, y: u8) -> u64 {
    match g.store.get(Position { x, y }) {
        Some(t) => t.value,
        None => 0,
    }
}

#[test]
fn new_game_starts_with_two_tiles() {
    let g = Game::new(4);
    assert_eq!(g.score, 0);
    assert_eq!(g.best_score, 0);
    assert!(matches!(g.state, GameState::Playing));
    let tiles = g.store.all();
    assert_eq!(tiles.len(), 2);
    assert_ne!(tiles[0].pos, tiles[1].pos);
    assert_eq!(tiles[0].value, 2);
    assert_eq!(tiles[1].value, 2);
    assert!(g.check_limits());
}

#[test]
fn wasted_move_changes_nothing_and_spawns_nothing() {
    // [2,4] already compacted to the left: a Left command moves nothing,
    // so no tile spawns and the turn is a no-op.
    let mut g = game_with(4, &[(0, 0, 2), (1, 0, 4)]);
    let r = g.turn(Direction::Left);
    assert!(!r.moved);
    assert!(r.spawned.is_none());
    assert!(!r.game_over);
    assert_eq!(g.score, 0);
    assert_eq!(g.store.all().len(), 2);
    assert_eq!(value_at(&g, 0, 0), 2);
    assert_eq!(value_at(&g, 1, 0), 4);
}

#[test]
fn merge_raises_score_and_spawns_one_tile() {
    let mut g = game_with(4, &[(0, 0, 2), (1, 0, 2)]);
    let r = g.turn(Direction::Left);
    assert!(r.moved);
    assert_eq!(g.score, 4);
    assert_eq!(g.best_score, 4);
    assert_eq!(value_at(&g, 0, 0), 4);
    let p = r.spawned.unwrap();
    assert_eq!(value_at(&g, p.x, p.y), 2);
    assert_eq!(g.store.all().len(), 2);
    assert!(matches!(g.state, GameState::Playing));
}

#[test]
fn score_accumulates_over_turns() {
    let mut g = game_with(4, &[(0, 0, 2), (0, 1, 2), (3, 2, 8), (3, 3, 8)]);
    let r1 = g.turn(Direction::Down);
    assert!(r1.moved);
    assert_eq!(g.score, 4 + 16);
    assert_eq!(value_at(&g, 0, 0), 4);
    assert_eq!(value_at(&g, 3, 0), 16);
    assert!(g.best_score >= g.score);
}

#[test]
fn best_score_survives_reset() {
    let mut g = game_with(4, &[(0, 0, 2), (1, 0, 2)]);
    g.turn(Direction::Left);
    assert_eq!(g.best_score, 4);
    g.reset();
    assert_eq!(g.score, 0);
    assert_eq!(g.best_score, 4);
    assert!(matches!(g.state, GameState::Playing));
    assert_eq!(g.store.all().len(), 2);
}

#[test]
fn game_over_ignores_directions() {
    let mut g = game_with(2, &[(0, 0, 2), (1, 0, 4), (0, 1, 8), (1, 1, 16)]);
    g.state = GameState::GameOver;
    g.best_score = 7;
    g.score = 7;
    let r = g.turn(Direction::Left);
    assert!(!r.moved);
    assert!(r.spawned.is_none());
    assert!(r.game_over);
    assert_eq!(g.score, 7);
    assert_eq!(g.best_score, 7);
    assert_eq!(value_at(&g, 0, 0), 2);
    assert_eq!(value_at(&g, 1, 0), 4);
}

#[test]
fn turn_detects_the_terminal_state() {
    // After the shift, the spawned 2 must land on the one empty cell and
    // leave a full board with no equal neighbors anywhere.
    let mut g = game_with(2, &[(1, 0, 4), (0, 1, 8), (1, 1, 16)]);
    let r = g.turn(Direction::Left);
    assert!(r.moved);
    assert_eq!(r.spawned, Some(Position { x: 1, y: 0 }));
    assert_eq!(value_at(&g, 0, 0), 4);
    assert_eq!(value_at(&g, 1, 0), 2);
    assert_eq!(value_at(&g, 0, 1), 8);
    assert_eq!(value_at(&g, 1, 1), 16);
    assert!(r.game_over);
    assert!(matches!(g.state, GameState::GameOver));
    assert_eq!(g.score, 0);
}

#[test]
fn reset_after_game_over_returns_to_play() {
    let mut g = game_with(2, &[(1, 0, 4), (0, 1, 8), (1, 1, 16)]);
    let r = g.turn(Direction::Left);
    assert!(r.game_over);
    g.reset();
    assert!(matches!(g.state, GameState::Playing));
    assert_eq!(g.store.all().len(), 2);
}

#[test]
fn keys_resolve_to_directions() {
    assert_eq!(direction_from_key('a'), Some(Direction::Left));
    assert_eq!(direction_from_key('D'), Some(Direction::Right));
    assert_eq!(direction_from_key('w'), Some(Direction::Up));
    assert_eq!(direction_from_key('s'), Some(Direction::Down));
    assert_eq!(direction_from_key('x'), None);
    assert_eq!(direction_from_key('\n'), None);
}
