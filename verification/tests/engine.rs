use grid2048::board::Board;
use grid2048::board::Position;
use grid2048::shift::Direction;
use grid2048::shift::shift;
use grid2048::spawn::empty_cells;
use grid2048::spawn::spawn_at;
use grid2048::spawn::spawn_random;
use grid2048::terminal::is_game_over;
use grid2048::tiles::TileStore;

fn store_with(size: u8, tiles: &[(u8, u8, u64)]) -> TileStore {
    let mut s = TileStore::new_empty(size);
    for &(x, y, v) in tiles {
        s.insert(Position { x, y }, v);
    }
    s
}

fn value_at(s: &TileStore, x: u8, y: u8) -> u64 {
    match s.get(Position { x, y }) {
        Some(t) => t.value,
        None => 0,
    }
}

fn row(s: &TileStore, y: u8, size: u8) -> Vec<u64> {
    let mut out = Vec::new();
    for x in 0..size {
        out.push(value_at(s, x, y));
    }
    out
}

#[test]
fn board_validity() {
    let b = Board::new(4);
    assert!(b.is_valid(Position { x: 0, y: 0 }));
    assert!(b.is_valid(Position { x: 3, y: 3 }));
    assert!(!b.is_valid(Position { x: 4, y: 0 }));
    assert!(!b.is_valid(Position { x: 0, y: 4 }));
}

#[test]
fn board_cells_row_major() {
    let b = Board::new(2);
    let cells = b.cells();
    assert_eq!(cells.len(), 4);
    assert_eq!(cells[0], Position { x: 0, y: 0 });
    assert_eq!(cells[1], Position { x: 1, y: 0 });
    assert_eq!(cells[2], Position { x: 0, y: 1 });
    assert_eq!(cells[3], Position { x: 1, y: 1 });
}

#[test]
fn store_insert_get_remove() {
    let mut s = TileStore::new_empty(4);
    assert!(s.get(Position { x: 1, y: 2 }).is_none());
    s.insert(Position { x: 1, y: 2 }, 4);
    let t = s.get(Position { x: 1, y: 2 }).unwrap();
    assert_eq!(t.value, 4);
    assert_eq!(t.pos, Position { x: 1, y: 2 });
    assert_eq!(s.count(), 1);
    s.remove(Position { x: 1, y: 2 });
    assert!(s.get(Position { x: 1, y: 2 }).is_none());
    assert_eq!(s.count(), 0);
}

#[test]
fn store_move_tile() {
    let mut s = store_with(4, &[(0, 0, 2)]);
    s.move_tile(Position { x: 0, y: 0 }, Position { x: 3, y: 3 });
    assert!(s.get(Position { x: 0, y: 0 }).is_none());
    assert_eq!(value_at(&s, 3, 3), 2);
    s.move_tile(Position { x: 3, y: 3 }, Position { x: 3, y: 3 });
    assert_eq!(value_at(&s, 3, 3), 2);
    assert_eq!(s.count(), 1);
}

#[test]
fn store_all_lists_every_tile_once() {
    let s = store_with(4, &[(0, 0, 2), (3, 1, 4), (2, 2, 8)]);
    let tiles = s.all();
    assert_eq!(tiles.len(), 3);
    assert_eq!(tiles[0].pos, Position { x: 0, y: 0 });
    assert_eq!(tiles[0].value, 2);
    assert_eq!(tiles[1].pos, Position { x: 3, y: 1 });
    assert_eq!(tiles[1].value, 4);
    assert_eq!(tiles[2].pos, Position { x: 2, y: 2 });
    assert_eq!(tiles[2].value, 8);
}

#[test]
fn shift_left_merges_full_row_pairwise() {
    // Row [2,2,2,2] shifted left becomes [4,4,0,0] and gains 4 + 4.
    let mut s = store_with(4, &[(0, 0, 2), (1, 0, 2), (2, 0, 2), (3, 0, 2)]);
    let out = shift(&mut s, Direction::Left);
    assert_eq!(row(&s, 0, 4), vec![4, 4, 0, 0]);
    assert_eq!(out.gained, 8);
    assert!(out.changed);
}

#[test]
fn shift_left_without_equal_neighbors_changes_nothing() {
    // Row [2,4,2,0] shifted left stays [2,4,2,0] and gains nothing.
    let mut s = store_with(4, &[(0, 0, 2), (1, 0, 4), (2, 0, 2)]);
    let out = shift(&mut s, Direction::Left);
    assert_eq!(row(&s, 0, 4), vec![2, 4, 2, 0]);
    assert_eq!(out.gained, 0);
    assert!(!out.changed);
}

#[test]
fn shift_left_merges_leading_pair_only_once() {
    // Row [2,2,2,0] shifted left becomes [4,2,0,0]: the leftmost pair
    // merges, and the lone remaining 2 does not merge again.
    let mut s = store_with(4, &[(0, 0, 2), (1, 0, 2), (2, 0, 2)]);
    let out = shift(&mut s, Direction::Left);
    assert_eq!(row(&s, 0, 4), vec![4, 2, 0, 0]);
    assert_eq!(out.gained, 4);
    assert!(out.changed);
}

#[test]
fn shift_right_compacts_toward_right_edge() {
    let mut s = store_with(4, &[(0, 0, 2), (1, 0, 2)]);
    let out = shift(&mut s, Direction::Right);
    assert_eq!(row(&s, 0, 4), vec![0, 0, 0, 4]);
    assert_eq!(out.gained, 4);
    assert!(out.changed);
}

#[test]
fn shift_up_compacts_toward_top_edge() {
    let mut s = store_with(4, &[(0, 0, 2), (0, 1, 2), (0, 2, 4)]);
    let out = shift(&mut s, Direction::Up);
    assert_eq!(value_at(&s, 0, 3), 4);
    assert_eq!(value_at(&s, 0, 2), 4);
    assert_eq!(value_at(&s, 0, 1), 0);
    assert_eq!(value_at(&s, 0, 0), 0);
    assert_eq!(out.gained, 4);
    assert!(out.changed);
}

#[test]
fn shift_down_compacts_toward_bottom_edge() {
    let mut s = store_with(4, &[(0, 2, 2), (0, 3, 2)]);
    let out = shift(&mut s, Direction::Down);
    assert_eq!(value_at(&s, 0, 0), 4);
    assert_eq!(value_at(&s, 0, 2), 0);
    assert_eq!(value_at(&s, 0, 3), 0);
    assert_eq!(out.gained, 4);
    assert!(out.changed);
}

#[test]
fn shift_rows_are_independent() {
    let mut s = store_with(4, &[(1, 0, 2), (3, 1, 2), (2, 2, 8), (2, 3, 8)]);
    let out = shift(&mut s, Direction::Left);
    assert_eq!(row(&s, 0, 4), vec![2, 0, 0, 0]);
    assert_eq!(row(&s, 1, 4), vec![2, 0, 0, 0]);
    assert_eq!(row(&s, 2, 4), vec![8, 0, 0, 0]);
    assert_eq!(row(&s, 3, 4), vec![8, 0, 0, 0]);
    assert_eq!(out.gained, 0);
    assert!(out.changed);
}

#[test]
fn spawn_fills_an_empty_cell_with_two() {
    let mut s = TileStore::new_empty(2);
    let p = spawn_random(&mut s).unwrap();
    assert_eq!(value_at(&s, p.x, p.y), 2);
    assert_eq!(s.count(), 1);
}

#[test]
fn spawn_takes_the_single_remaining_cell() {
    let mut s = store_with(2, &[(0, 0, 2), (1, 0, 4), (0, 1, 8)]);
    let p = spawn_random(&mut s).unwrap();
    assert_eq!(p, Position { x: 1, y: 1 });
    assert_eq!(value_at(&s, 1, 1), 2);
    assert_eq!(s.count(), 4);
}

#[test]
fn spawn_on_full_board_is_a_no_op() {
    let mut s = store_with(2, &[(0, 0, 2), (1, 0, 4), (0, 1, 8), (1, 1, 16)]);
    assert!(spawn_random(&mut s).is_none());
    assert_eq!(s.count(), 4);
}

#[test]
fn spawn_at_picks_the_chosen_empty_cell() {
    let mut s = store_with(2, &[(1, 0, 2)]);
    let empties = empty_cells(&s);
    assert_eq!(empties.len(), 3);
    assert_eq!(empties[0], Position { x: 0, y: 0 });
    assert_eq!(empties[1], Position { x: 0, y: 1 });
    assert_eq!(empties[2], Position { x: 1, y: 1 });
    let p = spawn_at(&mut s, 1);
    assert_eq!(p, Position { x: 0, y: 1 });
    assert_eq!(value_at(&s, 0, 1), 2);
}

#[test]
fn terminal_needs_full_board() {
    let s = store_with(2, &[(0, 0, 2), (1, 0, 4), (0, 1, 8)]);
    assert!(!is_game_over(&s));
}

#[test]
fn terminal_full_board_with_all_distinct_neighbors() {
    // A full board where every tile's four neighbors all hold different
    // values: no move remains.
    let mut tiles = Vec::new();
    for y in 0..4u8 {
        for x in 0..4u8 {
            let v = if (x + y) % 2 == 0 { 2 } else { 4 };
            tiles.push((x, y, v));
        }
    }
    let s = store_with(4, &tiles);
    assert!(is_game_over(&s));
}

#[test]
fn terminal_full_board_with_an_equal_pair_continues() {
    let s = store_with(2, &[(0, 0, 2), (1, 0, 2), (0, 1, 4), (1, 1, 8)]);
    assert!(!is_game_over(&s));
}
