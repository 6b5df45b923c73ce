use rusty_battleships::board::{Board, CellState, HitResult, PlayerState, Ship, H, SHIP_COUNT, W};
use rusty_battleships::message::{Direction, Message};

fn ship(x: isize, y: isize, length: usize, horizontal: bool, health_points: usize) -> Ship {
    Ship { x, y, length, horizontal, health_points }
}

fn cells_with_ship(board: &Board) -> Vec<(usize, usize, u8)> {
    let mut out = vec![];
    for x in 0..W {
        for y in 0..H {
            if let Some(i) = board.state[x][y].ship_index {
                out.push((x, y, i));
            }
        }
    }
    out
}

#[test]
fn board_dimensions() {
    assert_eq!(W, 16);
    assert_eq!(H, 10);
    assert_eq!(SHIP_COUNT, 2);
}

#[test]
fn new_board_is_cleared_and_keeps_ships() {
    let b = Board::new(vec![ship(1, 2, 3, true, 3)]);
    assert_eq!(b.ships.len(), 1);
    assert_eq!(b.ships[0], ship(1, 2, 3, true, 3));
    for x in 0..W {
        for y in 0..H {
            assert_eq!(b.state[x][y], CellState::new());
            assert!(!b.state[x][y].visible);
            assert!(!b.state[x][y].has_ship());
        }
    }
}

#[test]
fn cell_state_set_ship() {
    let mut c = CellState::new();
    assert!(!c.has_ship());
    c.visible = true;
    c.set_ship(4);
    assert!(c.has_ship());
    assert_eq!(c, CellState { visible: true, ship_index: Some(4) });
}

#[test]
fn clear_resets_grid_only() {
    let mut b = Board::new(vec![ship(0, 0, 2, true, 2)]);
    assert!(b.compute_state().0);
    b.hit(0, 0);
    b.clear();
    assert_eq!(b.ships.len(), 1);
    assert_eq!(b.ships[0].health_points, 1);
    assert!(cells_with_ship(&b).is_empty());
    assert!(!b.state[0][0].visible);
}

#[test]
fn compute_state_places_ships() {
    let mut b = Board::new(vec![ship(0, 0, 3, true, 3), ship(5, 2, 2, false, 2)]);
    let (ok, updates) = b.compute_state();
    assert!(ok);
    assert!(updates.is_empty());
    assert_eq!(
        cells_with_ship(&b),
        vec![(0, 0, 1), (1, 0, 1), (2, 0, 1), (5, 2, 2), (5, 3, 2)]
    );
}

#[test]
fn compute_state_rejects_overlap_and_keeps_board() {
    let mut b = Board::new(vec![ship(0, 0, 3, true, 3), ship(1, 0, 2, false, 2)]);
    let before = b.state;
    let (ok, updates) = b.compute_state();
    assert!(!ok);
    assert!(updates.is_empty());
    assert_eq!(b.state, before);
}

#[test]
fn compute_state_accepts_last_column_and_row() {
    let mut b = Board::new(vec![ship(15, 9, 1, true, 1)]);
    assert_eq!(b.compute_state(), (true, vec![]));
    assert_eq!(b.state[15][9].ship_index, Some(1));
    let mut b = Board::new(vec![ship(14, 0, 2, true, 2)]);
    assert!(b.compute_state().0);
    assert_eq!(cells_with_ship(&b), vec![(14, 0, 1), (15, 0, 1)]);
}

#[test]
fn compute_state_rejects_ships_off_the_board() {
    let mut b = Board::new(vec![ship(15, 0, 2, true, 2)]);
    assert!(!b.compute_state().0);
    let mut b = Board::new(vec![ship(0, 9, 2, false, 2)]);
    assert!(!b.compute_state().0);
    assert!(cells_with_ship(&b).is_empty());
}

#[test]
fn compute_state_rejects_negative_coordinates() {
    let mut b = Board::new(vec![ship(-1, 0, 2, true, 2)]);
    assert!(!b.compute_state().0);
    let mut b = Board::new(vec![ship(3, -2, 1, false, 1)]);
    assert!(!b.compute_state().0);
}

#[test]
fn compute_state_skips_sunk_ships_and_numbers_afloat_ones() {
    let mut b = Board::new(vec![
        ship(0, 0, 2, true, 0),
        ship(0, 0, 2, false, 2),
    ]);
    let (ok, _) = b.compute_state();
    assert!(ok);
    // the sunk ship takes no cell and the afloat one is number 1
    assert_eq!(cells_with_ship(&b), vec![(0, 0, 1), (0, 1, 1)]);
}

#[test]
fn compute_state_hides_cells_a_ship_left() {
    let mut b = Board::new(vec![ship(0, 0, 2, true, 2)]);
    assert!(b.compute_state().0);
    assert_eq!(b.hit(0, 0), HitResult::Hit);
    assert!(b.ships[0].move_me(Direction::South));
    let (ok, updates) = b.compute_state();
    assert!(ok);
    assert_eq!(updates, vec![Message::EnemyInvisibleUpdate { x: 0, y: 0 }]);
    assert!(b.state[0][0].visible);
    assert!(!b.state[0][0].has_ship());
    assert_eq!(cells_with_ship(&b), vec![(0, 1, 1), (1, 1, 1)]);
}

#[test]
fn compute_state_uncovers_a_visible_empty_cell_a_ship_moves_into() {
    let mut b = Board::new(vec![ship(0, 0, 2, true, 2)]);
    assert!(b.compute_state().0);
    assert_eq!(b.hit(1, 0), HitResult::Hit);
    assert_eq!(b.hit(2, 0), HitResult::Miss);
    b.ships[0].x = 1;
    let (ok, updates) = b.compute_state();
    assert!(ok);
    assert_eq!(updates, vec![Message::EnemyVisibleUpdate { x: 2, y: 0 }]);
    assert_eq!(cells_with_ship(&b), vec![(1, 0, 1), (2, 0, 1)]);
}

#[test]
fn compute_state_reports_nothing_for_a_visible_cell_that_stays_taken() {
    let mut b = Board::new(vec![ship(0, 0, 1, true, 2), ship(2, 0, 1, true, 2)]);
    assert!(b.compute_state().0);
    assert_eq!(b.hit(0, 0), HitResult::Hit);
    assert!(b.ships[0].move_me(Direction::East));
    assert!(b.ships[1].move_me(Direction::West));
    assert!(b.ships[1].move_me(Direction::West));
    let (ok, updates) = b.compute_state();
    assert!(ok);
    assert!(updates.is_empty());
    assert_eq!(cells_with_ship(&b), vec![(0, 0, 2), (1, 0, 1)]);
}

#[test]
fn recomputing_twice_gives_the_same_grid() {
    let mut b = Board::new(vec![ship(3, 3, 4, true, 4), ship(0, 0, 3, false, 3)]);
    assert!(b.compute_state().0);
    b.hit(3, 3);
    let first = b.state;
    assert_eq!(b.compute_state(), (true, vec![]));
    assert_eq!(b.state, first);
}

#[test]
fn hit_off_the_grid_is_a_miss_that_changes_nothing() {
    let mut b = Board::new(vec![ship(0, 0, 2, true, 2)]);
    assert!(b.compute_state().0);
    let before = b.state;
    assert_eq!(b.hit(W, 0), HitResult::Miss);
    assert_eq!(b.hit(0, H), HitResult::Miss);
    assert_eq!(b.state, before);
    assert_eq!(b.ships[0].health_points, 2);
}

#[test]
fn hit_on_water_uncovers_the_cell() {
    let mut b = Board::new(vec![ship(0, 0, 2, true, 2)]);
    assert!(b.compute_state().0);
    assert_eq!(b.hit(7, 7), HitResult::Miss);
    assert!(b.state[7][7].visible);
    assert_eq!(b.ships[0].health_points, 2);
}

#[test]
fn hits_sink_a_ship() {
    let mut b = Board::new(vec![ship(0, 0, 2, true, 2), ship(4, 4, 1, true, 1)]);
    assert!(b.compute_state().0);
    assert_eq!(b.hit(1, 0), HitResult::Hit);
    assert_eq!(b.ships[0].health_points, 1);
    assert_eq!(b.hit(0, 0), HitResult::Destroyed);
    assert_eq!(b.ships[0].health_points, 0);
    assert!(b.ships[0].is_dead());
    assert!(!b.is_dead());
    assert_eq!(b.hit(4, 4), HitResult::Destroyed);
    assert!(b.is_dead());
}

#[test]
fn total_health_drops_by_one_per_hit() {
    let mut b = Board::new(vec![ship(0, 0, 3, true, 3), ship(0, 2, 2, true, 2)]);
    assert!(b.compute_state().0);
    let total = |b: &Board| b.ships.iter().map(|s| s.health_points).sum::<usize>();
    assert_eq!(total(&b), 5);
    b.hit(1, 2);
    assert_eq!(total(&b), 4);
    b.hit(9, 9);
    assert_eq!(total(&b), 4);
    b.hit(2, 0);
    assert_eq!(total(&b), 3);
}

#[test]
fn empty_fleet_is_dead() {
    let b = Board::new(vec![]);
    assert!(b.is_dead());
}

#[test]
fn move_me_follows_the_direction_codes() {
    let mut s = ship(5, 5, 2, true, 2);
    assert!(s.move_me(Direction::North));
    assert_eq!((s.x, s.y), (5, 4));
    assert!(s.move_me(Direction::West));
    assert_eq!((s.x, s.y), (4, 4));
    // east and south put the ship on the first column and row
    assert!(s.move_me(Direction::East));
    assert_eq!((s.x, s.y), (1, 4));
    assert!(s.move_me(Direction::South));
    assert_eq!((s.x, s.y), (1, 1));
    assert_eq!(s.length, 2);
    assert_eq!(s.health_points, 2);
}

#[test]
fn sunk_ship_does_not_move() {
    let mut s = ship(5, 5, 2, true, 0);
    assert!(!s.move_me(Direction::North));
    assert_eq!(s, ship(5, 5, 2, true, 0));
}

#[test]
fn coords_valid_is_the_board() {
    let b = Board::new(vec![]);
    assert!(b.coords_valid(0, 0));
    assert!(b.coords_valid(15, 9));
    assert!(b.coords_valid(15, 0));
    assert!(!b.coords_valid(16, 0));
    assert!(!b.coords_valid(0, 10));
    assert!(!b.coords_valid(usize::MAX, 0));
}

#[test]
fn ship_dest_coords() {
    assert_eq!(Board::get_ship_dest_coords(&ship(3, 4, 3, true, 3), 2), (5, 4));
    assert_eq!(Board::get_ship_dest_coords(&ship(3, 4, 3, false, 3), 2), (3, 6));
    assert_eq!(Board::get_ship_dest_coords(&ship(-1, 4, 3, true, 3), 0), (usize::MAX, 4));
}

#[test]
fn player_states_compare() {
    assert_eq!(PlayerState::Ready, PlayerState::Ready);
    assert_ne!(PlayerState::Available, PlayerState::Playing);
}
