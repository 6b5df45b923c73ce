//! The model of a grid recomputation: which cells the afloat ships take, in
//! which order they are laid out, and which visibility changes that causes.

use vstd::prelude::*;

use crate::board::{Board, CellState, Ship, H, W};
use crate::message::Message;

verus! {

/// One cell taken by a ship: its coordinates and the position `k` of the
/// ship among the afloat ships (so the cell carries the ship number `k + 1`).
pub struct PlacedCell {
    pub x: int,
    pub y: int,
    pub k: int,
}

/// A ship may stand on `(x, y)`: the cell lies on the board.
pub open spec fn placeable(x: int, y: int) -> bool {
    0 <= x < W && 0 <= y < H
}

/// Number of afloat ships among the first `n` ships.
pub open spec fn afloat_before(ships: Seq<Ship>, n: int) -> int
    decreases n,
{
    if n <= 0 {
        0
    } else {
        afloat_before(ships, n - 1) + if ships[n - 1].health_points > 0 {
            1int
        } else {
            0int
        }
    }
}

/// The cells of `ship`, from the bow, tagged with its afloat position `k`.
pub open spec fn ship_cells(ship: Ship, k: int) -> Seq<PlacedCell> {
    Seq::new(ship.length as nat, |i: int| PlacedCell { x: ship.seg_x(i), y: ship.seg_y(i), k })
}

/// The cells taken by the afloat ships among the first `n` ships, ship by
/// ship and bow first.
pub open spec fn fleet_cells(ships: Seq<Ship>, n: int) -> Seq<PlacedCell>
    decreases n,
{
    if n <= 0 {
        Seq::empty()
    } else if ships[n - 1].health_points > 0 {
        fleet_cells(ships, n - 1) + ship_cells(ships[n - 1], afloat_before(ships, n - 1))
    } else {
        fleet_cells(ships, n - 1)
    }
}

/// Two taken cells are at the same place.
pub open spec fn same_spot(a: PlacedCell, b: PlacedCell) -> bool {
    a.x == b.x && a.y == b.y
}

/// Every cell is placeable and no place is taken twice.
pub open spec fn layout_fits(cells: Seq<PlacedCell>) -> bool {
    &&& forall|j: int| 0 <= j < cells.len() ==> placeable(#[trigger] cells[j].x, cells[j].y)
    &&& forall|j1: int, j2: int|
        0 <= j1 < j2 < cells.len() ==> !same_spot(#[trigger] cells[j1], #[trigger] cells[j2])
}

/// Some cell of `cells` is at `(x, y)`.
pub open spec fn covers(cells: Seq<PlacedCell>, x: int, y: int) -> bool {
    exists|j: int| 0 <= j < cells.len() && (#[trigger] cells[j]).x == x && cells[j].y == y
}

/// The ship number that `cells` puts on `(x, y)`.
pub open spec fn occupant(cells: Seq<PlacedCell>, x: int, y: int) -> Option<u8> {
    if covers(cells, x, y) {
        let j = choose|j: int| 0 <= j < cells.len() && (#[trigger] cells[j]).x == x && cells[j].y == y;
        Some(((cells[j].k + 1) as u8))
    } else {
        None
    }
}

/// The cell `(x, y)` after a successful recomputation of the grid of `b`:
/// its visibility is kept and its ship number follows the layout.
pub open spec fn relaid_cell(b: Board, x: int, y: int) -> CellState {
    CellState { visible: b.cell(x, y).visible, ship_index: occupant(b.layout(), x, y) }
}

/// The messages that uncover the cells of `cells` that were visible and
/// empty in `b`: a ship has moved into them. They come in the order of
/// `cells`.
pub open spec fn reveal_updates(b: Board, cells: Seq<PlacedCell>) -> Seq<Message>
    decreases cells.len(),
{
    if cells.len() == 0 {
        Seq::empty()
    } else {
        let c = cells.last();
        let before = reveal_updates(b, cells.drop_last());
        if b.cell(c.x, c.y).visible && b.cell(c.x, c.y).ship_index is None {
            before.push(Message::EnemyVisibleUpdate { x: c.x as u8, y: c.y as u8 })
        } else {
            before
        }
    }
}

/// Column of the `p`-th cell of the grid in column-major order.
pub open spec fn column_of(p: int) -> int {
    p / (H as int)
}

/// Row of the `p`-th cell of the grid in column-major order.
pub open spec fn row_of(p: int) -> int {
    p % (H as int)
}

/// The messages that hide the cells among the first `p` cells of the grid
/// (column-major order) that were visible with a ship in `b` and that
/// `cells` leaves empty.
pub open spec fn hide_updates(b: Board, cells: Seq<PlacedCell>, p: int) -> Seq<Message>
    decreases p,
{
    if p <= 0 {
        Seq::empty()
    } else {
        let x = column_of(p - 1);
        let y = row_of(p - 1);
        let before = hide_updates(b, cells, p - 1);
        if b.cell(x, y).visible && b.cell(x, y).ship_index is Some && !covers(cells, x, y) {
            before.push(Message::EnemyInvisibleUpdate { x: x as u8, y: y as u8 })
        } else {
            before
        }
    }
}

/// `a` is a prefix of `b`.
pub open spec fn is_prefix(a: Seq<PlacedCell>, b: Seq<PlacedCell>) -> bool {
    a.len() <= b.len() && forall|j: int| 0 <= j < a.len() ==> a[j] == b[j]
}

/// The cells of the first `m` ships come first among those of the first
/// `n` ships.
pub proof fn lemma_fleet_prefix(ships: Seq<Ship>, m: int, n: int)
    requires
        0 <= m <= n,
    ensures
        is_prefix(fleet_cells(ships, m), fleet_cells(ships, n)),
    decreases n,
{
    if m < n {
        lemma_fleet_prefix(ships, m, n - 1);
    }
}

/// A layout that fits still fits when cut short.
pub proof fn lemma_fits_prefix(a: Seq<PlacedCell>, b: Seq<PlacedCell>)
    requires
        is_prefix(a, b),
        layout_fits(b),
    ensures
        layout_fits(a),
{
    assert forall|j1: int, j2: int| 0 <= j1 < j2 < a.len() implies !same_spot(
        #[trigger] a[j1],
        #[trigger] a[j2],
    ) by {
        assert(a[j1] == b[j1] && a[j2] == b[j2]);
    }
    assert forall|j: int| 0 <= j < a.len() implies placeable(#[trigger] a[j].x, a[j].y) by {
        assert(a[j] == b[j]);
    }
}

} // verus!
