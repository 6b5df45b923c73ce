use vstd::prelude::*;

use crate::fleet::{
    afloat_before, column_of, covers, fleet_cells, hide_updates, is_prefix, layout_fits,
    lemma_fits_prefix, lemma_fleet_prefix, placeable, relaid_cell, reveal_updates, row_of,
    same_spot, ship_cells, PlacedCell,
};
use crate::message::{Direction, Message};

verus! {

/// Width of the board (number of columns).
pub const W: usize = 16;

/// Height of the board (number of rows).
pub const H: usize = 10;

/// Number of ships of each player.
pub const SHIP_COUNT: usize = 2;

/// What the main thread asks of the thread that serves one player.
pub enum ToChildCommand {
    Message(Message),
    TerminateConnection,
}

/// What the thread that serves one player reports to the main thread.
pub enum ToMainThreadCommand {
    Message(Message),
    TerminatePlayer,
}

/// Where a player stands in the lobby.
#[derive(Copy, Clone, Debug, PartialEq, Eq, Structural)]
pub enum PlayerState {
    Available,
    Ready,
    Playing,
}

/// A ship: its bow at `(x, y)`, `length` cells long to the east (horizontal)
/// or to the south (vertical), with the hits it can still take.
#[derive(Copy, Clone, Debug, PartialEq, Eq, Structural)]
pub struct Ship {
    pub x: isize,
    pub y: isize,
    pub length: usize,
    pub horizontal: bool,
    pub health_points: usize,
}

/// One cell of the board: whether the opponent has uncovered it, and the
/// 1-based number of the ship on it, if any.
#[derive(Copy, Clone, Debug, PartialEq, Eq, Structural)]
pub struct CellState {
    pub visible: bool,
    pub ship_index: Option<u8>,
}

/// The board of one player: the ships and the grid of `W` columns of `H` cells.
pub struct Board {
    pub ships: Vec<Ship>,
    pub state: [[CellState; H]; W],
}

/// What a shot did.
#[derive(Copy, Clone, Debug, PartialEq, Eq, Structural)]
pub enum HitResult {
    Hit,
    Miss,
    Destroyed,
}

/// `(x, y)` lies on the grid.
pub open spec fn in_grid(x: int, y: int) -> bool {
    0 <= x < W && 0 <= y < H
}

/// The cell of a cleared board.
pub open spec fn empty_cell() -> CellState {
    CellState { visible: false, ship_index: None }
}

impl Ship {
    /// Column of the `i`-th cell of the ship, counted from the bow.
    pub open spec fn seg_x(self, i: int) -> int {
        if self.horizontal {
            self.x + i
        } else {
            self.x as int
        }
    }

    /// Row of the `i`-th cell of the ship, counted from the bow.
    pub open spec fn seg_y(self, i: int) -> int {
        if self.horizontal {
            self.y as int
        } else {
            self.y + i
        }
    }

    /// The ship after one more hit.
    pub open spec fn damaged(self) -> Ship {
        Ship { health_points: (self.health_points - 1) as usize, ..self }
    }

    /// The ship after a move order in `direction`.
    pub open spec fn moved(self, direction: Direction) -> Ship {
        match direction {
            Direction::North => Ship { y: (self.y - 1) as isize, ..self },
            Direction::East => Ship { x: 1, ..self },
            Direction::South => Ship { y: 1, ..self },
            Direction::West => Ship { x: (self.x - 1) as isize, ..self },
        }
    }

    /// A move order in `direction` stays within the range of `isize`.
    pub open spec fn can_move(self, direction: Direction) -> bool {
        match direction {
            Direction::North => self.y > isize::MIN,
            Direction::West => self.x > isize::MIN,
            _ => true,
        }
    }

    /// Moves a ship that is still afloat; a destroyed ship stays where it is.
    /// Returns whether the ship moved.
    pub fn move_me(&mut self, direction: Direction) -> (moved: bool)
        requires
            old(self).health_points > 0 ==> old(self).can_move(direction),
        ensures
            moved == (old(self).health_points > 0),
            moved ==> *final(self) == old(self).moved(direction),
            !moved ==> *final(self) == *old(self),
            final(self).length == old(self).length,
            final(self).horizontal == old(self).horizontal,
            final(self).health_points == old(self).health_points,
            moved && direction == Direction::North ==> final(self).y == old(self).y - 1
                && final(self).x == old(self).x,
            moved && direction == Direction::West ==> final(self).x == old(self).x - 1
                && final(self).y == old(self).y,
            moved && direction == Direction::East ==> final(self).x == 1 && final(self).y
                == old(self).y,
            moved && direction == Direction::South ==> final(self).y == 1 && final(self).x
                == old(self).x,
    {
        // cannot move destroyed ship
        if self.health_points == 0 {
            return false;
        }
        match direction {
            Direction::North => self.y = self.y - 1,
            Direction::East => self.x = 1,
            Direction::South => self.y = 1,
            Direction::West => self.x = self.x - 1,
        }
        true
    }

    /// The ship has no health left.
    pub fn is_dead(&self) -> (dead: bool)
        ensures
            dead == (self.health_points == 0),
    {
        self.health_points == 0
    }
}

impl CellState {
    /// An invisible cell without a ship.
    pub fn new() -> (cell: CellState)
        ensures
            cell == empty_cell(),
    {
        CellState { visible: false, ship_index: None }
    }

    /// A ship stands on the cell.
    pub fn has_ship(&self) -> (r: bool)
        ensures
            r == self.ship_index.is_some(),
    {
        self.ship_index.is_some()
    }

    /// Puts the ship numbered `ship_index` on the cell.
    pub fn set_ship(&mut self, ship_index: u8)
        ensures
            *final(self) == (CellState { ship_index: Some(ship_index), ..*old(self) }),
    {
        self.ship_index = Some(ship_index);
    }
}

impl Board {
    /// The cell in column `x`, row `y`.
    pub open spec fn cell(self, x: int, y: int) -> CellState {
        self.state[x][y]
    }

    /// Every cell of the grid is invisible and empty.
    pub open spec fn is_cleared(self) -> bool {
        forall|x: int, y: int| in_grid(x, y) ==> #[trigger] self.cell(x, y) == empty_cell()
    }

    /// A shot at `(x, y)` is defined: off the grid, on an empty cell, or on a
    /// cell whose ship number names a ship of the board that is still afloat.
    pub open spec fn shot_is_safe(self, x: int, y: int) -> bool {
        in_grid(x, y) ==> match self.cell(x, y).ship_index {
            None => true,
            Some(i) => 1 <= i <= self.ships@.len() && self.ships@[i - 1].health_points > 0,
        }
    }

    /// The cells of the afloat ships, in the order in which a recomputation
    /// of the grid lays them out.
    pub open spec fn layout(self) -> Seq<PlacedCell> {
        fleet_cells(self.ships@, self.ships@.len() as int)
    }

    /// Every ship of the board is sunk.
    pub open spec fn all_sunk(self) -> bool {
        forall|i: int| 0 <= i < self.ships@.len() ==> #[trigger] self.ships@[i].health_points == 0
    }

    /// A new board with the given ships and a cleared grid.
    pub fn new(ships: Vec<Ship>) -> (board: Board)
        ensures
            board.ships@ == ships@,
            board.is_cleared(),
    {
        Board { state: [[CellState::new();H];W], ships: ships }
    }

    /// Makes every cell invisible and empty; the ships stay.
    pub fn clear(&mut self)
        ensures
            final(self).ships@ == old(self).ships@,
            final(self).is_cleared(),
    {
        self.state = [[CellState::new();H];W];
    }

    /// Fires at `(x, y)`. Off the grid this is a miss that changes nothing;
    /// on the grid the cell becomes visible and a ship on it loses one
    /// health point.
    pub fn hit(&mut self, x: usize, y: usize) -> (result: HitResult)
        requires
            old(self).shot_is_safe(x as int, y as int),
        ensures
            !in_grid(x as int, y as int) ==> {
                &&& result == HitResult::Miss
                &&& final(self).ships@ == old(self).ships@
                &&& final(self).state == old(self).state
            },
            in_grid(x as int, y as int) ==> {
                &&& final(self).cell(x as int, y as int) == (CellState {
                    visible: true,
                    ..old(self).cell(x as int, y as int)
                })
                &&& forall|a: int, b: int|
                    in_grid(a, b) && !(a == x && b == y) ==> #[trigger] final(self).cell(a, b)
                        == old(self).cell(a, b)
            },
            in_grid(x as int, y as int) && old(self).cell(x as int, y as int).ship_index is None
                ==> result == HitResult::Miss && final(self).ships@ == old(self).ships@,
            in_grid(x as int, y as int) && old(self).cell(x as int, y as int).ship_index is Some
                ==> {
                let i = old(self).cell(x as int, y as int).ship_index->0 - 1;
                &&& final(self).ships@ == old(self).ships@.update(i, old(self).ships@[i].damaged())
                &&& final(self).ships@.len() == old(self).ships@.len()
                &&& final(self).ships@[i].health_points == old(self).ships@[i].health_points - 1
                &&& final(self).ships@[i].x == old(self).ships@[i].x
                &&& final(self).ships@[i].y == old(self).ships@[i].y
                &&& final(self).ships@[i].length == old(self).ships@[i].length
                &&& final(self).ships@[i].horizontal == old(self).ships@[i].horizontal
                &&& forall|j: int|
                    0 <= j < old(self).ships@.len() && j != i ==> #[trigger] final(self).ships@[j]
                        == old(self).ships@[j]
                &&& (result == HitResult::Destroyed) <==> final(self).ships@[i].health_points == 0
                &&& result == if old(self).ships@[i].health_points == 1 {
                    HitResult::Destroyed
                } else {
                    HitResult::Hit
                }
            },
    {
        if x >= W || y >= H {
            return HitResult::Miss;
        }
        self.state[x][y].visible = true;
        match self.state[x][y].ship_index {
            // no ship
            None => HitResult::Miss,
            Some(ship_index) => {
                let i = ship_index as usize - 1;
                let mut ship = self.ships[i];
                ship.health_points = ship.health_points - 1;
                self.ships.set(i, ship);
                if ship.health_points == 0 {
                    HitResult::Destroyed
                } else {
                    HitResult::Hit
                }
            },
        }
    }

    /// The cell `(x, y)` may hold a ship: it lies on the grid.
    pub fn coords_valid(&self, x: usize, y: usize) -> (valid: bool)
        ensures
            valid == placeable(x as int, y as int),
    {
        !(x >= W || y >= H)
    }

    /// The `i`-th cell of `ship`, counted from the bow, as grid coordinates;
    /// a coordinate below zero wraps around to a number past the grid.
    pub fn get_ship_dest_coords(ship: &Ship, i: usize) -> (coords: (usize, usize))
        requires
            ship.horizontal ==> isize::MIN <= ship.x + (i as isize) <= isize::MAX,
            !ship.horizontal ==> isize::MIN <= ship.y + (i as isize) <= isize::MAX,
        ensures
            coords.0 == (if ship.horizontal {
                (ship.x + (i as isize)) as isize
            } else {
                ship.x
            }) as usize,
            coords.1 == (if ship.horizontal {
                ship.y
            } else {
                (ship.y + (i as isize)) as isize
            }) as usize,
    {
        let mut dest = (ship.x, ship.y);
        if ship.horizontal {
            dest.0 = dest.0 + #[verifier::truncate] (i as isize);
        } else {
            dest.1 = dest.1 + #[verifier::truncate] (i as isize);
        }
        (dest.0 as usize, dest.1 as usize)
    }

    /// `g` is the grid built so far from the taken cells `cells`: nothing is
    /// visible, exactly the covered places hold a ship, and each taken cell
    /// holds the number of its ship.
    pub open spec fn grid_follows(g: [[CellState; H]; W], cells: Seq<PlacedCell>) -> bool {
        &&& forall|x: int, y: int| in_grid(x, y) ==> !(#[trigger] g[x][y]).visible
        &&& forall|x: int, y: int|
            in_grid(x, y) ==> ((#[trigger] g[x][y]).ship_index is Some <==> covers(cells, x, y))
        &&& forall|j: int|
            0 <= j < cells.len() ==> g[(#[trigger] cells[j]).x][cells[j].y].ship_index == Some(
                ((cells[j].k + 1) as u8),
            )
    }

    /// Recomputes the grid from the ships that are still afloat, numbering
    /// them from 1 in their order among the afloat ships. Returns `false`,
    /// and leaves the board unchanged, when an afloat ship leaves the
    /// grid or two afloat ships overlap. Otherwise the cells keep their
    /// visibility, and the messages returned uncover the visible cells that
    /// were empty and that a ship now takes, then hide the visible cells that
    /// held a ship before and are now empty.
    pub fn compute_state(&mut self) -> (result: (bool, Vec<Message>))
        ensures
            final(self).ships@ == old(self).ships@,
            result.0 == layout_fits(old(self).layout()),
            !result.0 ==> final(self).state == old(self).state && result.1@ == Seq::<
                Message,
            >::empty(),
            result.0 ==> forall|x: int, y: int|
                in_grid(x, y) ==> #[trigger] final(self).cell(x, y) == relaid_cell(
                    *old(self),
                    x,
                    y,
                ),
            result.0 ==> result.1@ == reveal_updates(*old(self), old(self).layout())
                + hide_updates(*old(self), old(self).layout(), (W * H) as int),
            forall|x: int, y: int|
                in_grid(x, y) ==> (#[trigger] final(self).cell(x, y)).visible == old(self).cell(
                    x,
                    y,
                ).visible,
            result.0 ==> forall|x: int, y: int|
                in_grid(x, y) ==> ((#[trigger] final(self).cell(x, y)).ship_index is Some
                    <==> covers(old(self).layout(), x, y)),
    {
        let ghost old_board: Board = *self;
        let ghost ships = self.ships@;
        let ghost full = self.layout();
        let mut new_state = [[CellState::new();H];W];
        let mut visibility_updates: Vec<Message> = Vec::new();
        let n = self.ships.len();
        let mut alive: usize = 0;
        let mut idx: usize = 0;
        assert(fleet_cells(ships, 0) =~= Seq::<PlacedCell>::empty());
        while idx < n
            invariant
                *self == old_board,
                ships == self.ships@,
                full == fleet_cells(ships, n as int),
                n == ships.len(),
                0 <= idx <= n,
                alive as int == afloat_before(ships, idx as int),
                alive <= idx,
                layout_fits(fleet_cells(ships, idx as int)),
                Self::grid_follows(new_state, fleet_cells(ships, idx as int)),
                visibility_updates@ == reveal_updates(old_board, fleet_cells(ships, idx as int)),
            decreases n - idx,
        {
            let ship = self.ships[idx];
            proof {
                lemma_afloat_bound(ships, idx as int);
            }
            if !ship.is_dead() {
                let ghost done = fleet_cells(ships, idx as int);
                let ghost mine = ship_cells(ship, alive as int);
                proof {
                    lemma_fleet_prefix(ships, idx + 1, n as int);
                    assert(fleet_cells(ships, idx + 1) == done + mine);
                    assert(done + mine.take(0) =~= done);
                }
                let mut i: usize = 0;
                while i < ship.length
                    invariant
                        *self == old_board,
                        ships == self.ships@,
                        full == fleet_cells(ships, n as int),
                        n == ships.len(),
                        0 <= idx < n,
                        ship == ships[idx as int],
                        alive < n,
                        done == fleet_cells(ships, idx as int),
                        mine == ship_cells(ship, alive as int),
                        is_prefix(done + mine, full),
                        0 <= i <= ship.length,
                        layout_fits(done + mine.take(i as int)),
                        Self::grid_follows(new_state, done + mine.take(i as int)),
                        visibility_updates@ == reveal_updates(old_board, done + mine.take(i as int)),
                    decreases ship.length - i,
                {
                    let ghost cur = done + mine.take(i as int);
                    let ghost c = mine[i as int];
                    proof {
                        assert(cur.push(c) =~= done + mine.take(i + 1));
                        if i > 0 {
                            assert(cur[cur.len() - 1] == mine[i - 1]);
                            assert(placeable(cur[cur.len() - 1].x, cur[cur.len() - 1].y));
                            assert(cur[done.len() as int] == mine[0]);
                            assert(placeable(cur[done.len() as int].x, cur[done.len() as int].y));
                        }
                    }
                    let (dest_x, dest_y) = Board::get_ship_dest_coords(&ship, i);
                    proof {
                        lemma_cast_coordinate(ship.seg_x(i as int) as isize);
                        lemma_cast_coordinate(ship.seg_y(i as int) as isize);
                    }
                    if !self.coords_valid(dest_x, dest_y) || new_state[dest_x][dest_y].has_ship() {
                        proof {
                            if layout_fits(full) {
                                assert(is_prefix(cur.push(c), full));
                                lemma_fits_prefix(cur.push(c), full);
                                assert(placeable(cur.push(c)[cur.len() as int].x, cur.push(c)[cur.len() as int].y));
                                assert(covers(cur, c.x, c.y));
                                let j = choose|j: int| 0 <= j < cur.len() && (#[trigger] cur[j]).x == c.x && cur[j].y == c.y;
                                assert(same_spot(cur.push(c)[j], cur.push(c)[cur.len() as int]));
                            }
                        }
                        return (false, Vec::new());
                    }
                    let cell = self.state[dest_x][dest_y];
                    if cell.visible && !cell.has_ship() {
                        // no ship was here before but now this ship occupies this cell
                        visibility_updates.push(
                            Message::EnemyVisibleUpdate { x: dest_x as u8, y: dest_y as u8 },
                        );
                    }
                    new_state[dest_x][dest_y].set_ship(#[verifier::truncate] ((alive + 1) as u8));
                    proof {
                        let nxt = cur.push(c);
                        assert(nxt.drop_last() =~= cur);
                        assert forall|j1: int, j2: int| 0 <= j1 < j2 < nxt.len() implies !same_spot(
                            #[trigger] nxt[j1],
                            #[trigger] nxt[j2],
                        ) by {
                            if j2 == cur.len() {
                                assert(nxt[j1] == cur[j1]);
                                if same_spot(nxt[j1], nxt[j2]) {
                                    assert(covers(cur, c.x, c.y));
                                }
                            } else {
                                assert(nxt[j1] == cur[j1] && nxt[j2] == cur[j2]);
                            }
                        }
                        assert forall|j: int| 0 <= j < nxt.len() implies placeable(#[trigger] nxt[j].x, nxt[j].y) by {
                            if j < cur.len() {
                                assert(nxt[j] == cur[j]);
                            }
                        }
                        assert forall|x: int, y: int| in_grid(x, y) implies ((#[trigger] new_state[x][y]).ship_index is Some <==> covers(nxt, x, y)) by {
                            if x == c.x && y == c.y {
                                assert(nxt[cur.len() as int] == c);
                            } else {
                                if covers(nxt, x, y) {
                                    let j = choose|j: int| 0 <= j < nxt.len() && (#[trigger] nxt[j]).x == x && nxt[j].y == y;
                                    assert(j < cur.len());
                                    assert(cur[j] == nxt[j]);
                                }
                                if covers(cur, x, y) {
                                    let j = choose|j: int| 0 <= j < cur.len() && (#[trigger] cur[j]).x == x && cur[j].y == y;
                                    assert(cur[j] == nxt[j]);
                                }
                            }
                        }
                        assert forall|j: int| 0 <= j < nxt.len() implies new_state[(#[trigger] nxt[j]).x][nxt[j].y].ship_index == Some(((nxt[j].k + 1) as u8)) by {
                            if j < cur.len() {
                                assert(nxt[j] == cur[j]);
                                assert(!same_spot(nxt[j], nxt[cur.len() as int]));
                            }
                        }
                    }
                    i = i + 1;
                }
                proof {
                    assert(mine.take(ship.length as int) =~= mine);
                }
                alive = alive + 1;
            }
            idx = idx + 1;
        }
        proof {
            assert(fleet_cells(ships, n as int) == full);
        }
        let ghost relaid = new_state;
        let mut x: usize = 0;
        while x < W
            invariant
                *self == old_board,
                full == old_board.layout(),
                layout_fits(full),
                Self::grid_follows(relaid, full),
                0 <= x <= W,
                forall|a: int, b: int|
                    in_grid(a, b) ==> (#[trigger] new_state[a][b]).ship_index == relaid[a][b].ship_index,
                forall|a: int, b: int|
                    in_grid(a, b) && a < x ==> (#[trigger] new_state[a][b]).visible == old_board.cell(a, b).visible,
                forall|a: int, b: int|
                    in_grid(a, b) && a >= x ==> #[trigger] new_state[a][b] == relaid[a][b],
                visibility_updates@ == reveal_updates(old_board, full) + hide_updates(old_board, full, x * H),
            decreases W - x,
        {
            let mut y: usize = 0;
            while y < H
                invariant
                    *self == old_board,
                    full == old_board.layout(),
                    Self::grid_follows(relaid, full),
                    0 <= x < W,
                    0 <= y <= H,
                    forall|a: int, b: int|
                        in_grid(a, b) ==> (#[trigger] new_state[a][b]).ship_index == relaid[a][b].ship_index,
                    forall|a: int, b: int|
                        in_grid(a, b) && (a < x || (a == x && b < y)) ==> (#[trigger] new_state[a][b]).visible == old_board.cell(a, b).visible,
                    forall|a: int, b: int|
                        in_grid(a, b) && (a > x || (a == x && b >= y)) ==> #[trigger] new_state[a][b] == relaid[a][b],
                    visibility_updates@ == reveal_updates(old_board, full) + hide_updates(old_board, full, x * H + y),
                decreases H - y,
            {
                // copy visibility information to new state
                new_state[x][y].visible = self.state[x][y].visible;
                proof {
                    lemma_position(x as int, y as int);
                }
                if self.state[x][y].visible && self.state[x][y].has_ship() && !new_state[x][y].has_ship() {
                    // a ship moved out of this cell
                    visibility_updates.push(Message::EnemyInvisibleUpdate { x: x as u8, y: y as u8 });
                }
                y = y + 1;
            }
            x = x + 1;
        }
        self.state = new_state;
        proof {
            assert forall|a: int, b: int| in_grid(a, b) implies #[trigger] self.cell(a, b) == relaid_cell(old_board, a, b) by {
                if covers(full, a, b) {
                    let j = choose|j: int| 0 <= j < full.len() && (#[trigger] full[j]).x == a && full[j].y == b;
                    assert(relaid[full[j].x][full[j].y].ship_index == Some(((full[j].k + 1) as u8)));
                }
            }
            assert forall|a: int, b: int| in_grid(a, b) implies (#[trigger] self.cell(a, b)).visible
                == old_board.cell(a, b).visible by {
                assert(new_state[a][b].visible == old_board.cell(a, b).visible);
            }
            assert forall|a: int, b: int| in_grid(a, b) implies ((#[trigger] self.cell(a, b)).ship_index is Some
                <==> covers(full, a, b)) by {
                assert(new_state[a][b].ship_index == relaid[a][b].ship_index);
            }
        }
        (true, visibility_updates)
    }

    /// Every ship of the board is sunk.
    pub fn is_dead(&self) -> (dead: bool)
        ensures
            dead == self.all_sunk(),
    {
        let n = self.ships.len();
        let mut i: usize = 0;
        while i < n
            invariant
                n == self.ships@.len(),
                0 <= i <= n,
                forall|j: int| 0 <= j < i ==> #[trigger] self.ships@[j].health_points == 0,
            decreases n - i,
        {
            if !self.ships[i].is_dead() {
                return false;
            }
            i = i + 1;
        }
        true
    }
}

/// A coordinate within the board is the same as a column or row number;
/// a negative one turns into a number past every bound.
proof fn lemma_cast_coordinate(v: isize)
    ensures
        ((v as usize) < 16) == (0 <= v < 16),
        ((v as usize) < 10) == (0 <= v < 10),
        0 <= v ==> (v as usize) as int == v as int,
{
    assert(((v as usize) < 16) == (0 <= v && v < 16)) by (bit_vector);
    assert(((v as usize) < 10) == (0 <= v && v < 10)) by (bit_vector);
}

/// The cell `(x, y)` is the cell at position `x * H + y` of the grid in
/// column-major order.
proof fn lemma_position(x: int, y: int)
    requires
        0 <= y < H,
    ensures
        column_of(x * H + y) == x,
        row_of(x * H + y) == y,
{
    assert((x * 10 + y) / 10 == x && (x * 10 + y) % 10 == y) by (nonlinear_arith)
        requires
            0 <= y < 10,
    ;
}

/// There are no more afloat ships than ships.
proof fn lemma_afloat_bound(ships: Seq<Ship>, n: int)
    requires
        0 <= n,
    ensures
        0 <= afloat_before(ships, n) <= n,
    decreases n,
{
    if n > 0 {
        lemma_afloat_bound(ships, n - 1);
    }
}

} // verus!
