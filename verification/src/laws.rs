//! Properties of the board that span several operations.

use vstd::prelude::*;

use crate::board::{in_grid, Board, Ship};
use crate::message::Direction;
use crate::fleet::{
    afloat_before, ship_cells, column_of, covers, fleet_cells, hide_updates, layout_fits, relaid_cell,
    reveal_updates, row_of, PlacedCell,
};
use crate::message::Message;
use crate::board::{H, W};

verus! {

/// The total health left in a fleet.
pub open spec fn fleet_health(ships: Seq<Ship>) -> int
    decreases ships.len(),
{
    if ships.len() == 0 {
        0
    } else {
        fleet_health(ships.drop_last()) + ships.last().health_points
    }
}

/// Every ship of the fleet is afloat.
pub open spec fn all_afloat(ships: Seq<Ship>) -> bool {
    forall|i: int| 0 <= i < ships.len() ==> #[trigger] ships[i].health_points > 0
}

/// Recomputing the grid is stable: once a board `after` holds the grid
/// recomputed from `before`, recomputing it again gives the same grid and
/// reports no visibility change, and the layout fits exactly when it fitted
/// before.
pub proof fn relayout_is_stable(before: Board, after: Board)
    requires
        layout_fits(before.layout()),
        after.ships@ == before.ships@,
        forall|x: int, y: int|
            in_grid(x, y) ==> #[trigger] after.cell(x, y) == relaid_cell(before, x, y),
    ensures
        layout_fits(after.layout()),
        forall|x: int, y: int|
            in_grid(x, y) ==> #[trigger] relaid_cell(after, x, y) == after.cell(x, y),
        reveal_updates(after, after.layout()) == Seq::<Message>::empty(),
        hide_updates(after, after.layout(), (W * H) as int) == Seq::<Message>::empty(),
{
    let cells = before.layout();
    assert forall|x: int, y: int| in_grid(x, y) implies #[trigger] relaid_cell(after, x, y)
        == after.cell(x, y) by {
        assert(after.cell(x, y) == relaid_cell(before, x, y));
    }
    assert forall|j: int| 0 <= j < cells.len() implies (#[trigger] after.cell(
        cells[j].x,
        cells[j].y,
    )).ship_index is Some by {
        assert(after.cell(cells[j].x, cells[j].y) == relaid_cell(before, cells[j].x, cells[j].y));
        assert(covers(cells, cells[j].x, cells[j].y));
    }
    assert(after.layout() == cells);
    lemma_no_reveal(after, cells);
    assert forall|x: int, y: int|
        in_grid(x, y) && (#[trigger] after.cell(x, y)).ship_index is Some implies covers(cells, x, y) by {
        assert(after.cell(x, y) == relaid_cell(before, x, y));
    }
    lemma_no_hide(after, cells, (W * H) as int);
}

/// No taken cell was empty: nothing is uncovered.
proof fn lemma_no_reveal(b: Board, cells: Seq<PlacedCell>)
    requires
        forall|j: int| 0 <= j < cells.len() ==> (#[trigger] b.cell(cells[j].x, cells[j].y)).ship_index is Some,
    ensures
        reveal_updates(b, cells) == Seq::<Message>::empty(),
    decreases cells.len(),
{
    if cells.len() > 0 {
        let rest = cells.drop_last();
        assert forall|j: int| 0 <= j < rest.len() implies (#[trigger] b.cell(rest[j].x, rest[j].y)).ship_index is Some by {
            assert(rest[j] == cells[j]);
        }
        lemma_no_reveal(b, rest);
        assert(b.cell(cells[cells.len() - 1].x, cells[cells.len() - 1].y).ship_index is Some);
    }
}

/// Every cell of the grid that holds a ship is covered by `cells`: nothing
/// is hidden.
proof fn lemma_no_hide(b: Board, cells: Seq<PlacedCell>, p: int)
    requires
        p <= W * H,
        forall|x: int, y: int|
            in_grid(x, y) && (#[trigger] b.cell(x, y)).ship_index is Some ==> covers(cells, x, y),
    ensures
        hide_updates(b, cells, p) == Seq::<Message>::empty(),
    decreases p,
{
    if p > 0 {
        lemma_no_hide(b, cells, p - 1);
        let x = column_of(p - 1);
        let y = row_of(p - 1);
        assert(in_grid(x, y));
        if b.cell(x, y).ship_index is Some {
            assert(covers(cells, x, y));
        }
    }
}

/// When every ship is afloat and there are at most 255 of them, a
/// successful recomputation of the grid leaves a board on which every shot
/// is defined: each ship number on the grid names an afloat ship.
pub proof fn relaid_board_takes_every_shot(before: Board, after: Board)
    requires
        all_afloat(before.ships@),
        before.ships@.len() <= 255,
        layout_fits(before.layout()),
        after.ships@ == before.ships@,
        forall|x: int, y: int|
            in_grid(x, y) ==> #[trigger] after.cell(x, y) == relaid_cell(before, x, y),
    ensures
        forall|x: int, y: int| #[trigger] after.shot_is_safe(x, y),
{
    let ships = before.ships@;
    let n = ships.len() as int;
    lemma_afloat_all(ships, n);
    lemma_fleet_numbers(ships, n);
    assert forall|x: int, y: int| #[trigger] after.shot_is_safe(x, y) by {
        if in_grid(x, y) {
            assert(after.cell(x, y) == relaid_cell(before, x, y));
            let cells = before.layout();
            if covers(cells, x, y) {
                let j = choose|j: int|
                    0 <= j < cells.len() && (#[trigger] cells[j]).x == x && cells[j].y == y;
                assert(0 <= cells[j].k < n);
            }
        }
    }
}

/// The afloat ships among the first `n` ships, in their order.
pub open spec fn afloat_ships(ships: Seq<Ship>, n: int) -> Seq<Ship>
    decreases n,
{
    if n <= 0 {
        Seq::empty()
    } else if ships[n - 1].health_points > 0 {
        afloat_ships(ships, n - 1).push(ships[n - 1])
    } else {
        afloat_ships(ships, n - 1)
    }
}

/// Some cell of ship `s` is `(x, y)`.
pub open spec fn ship_covers(s: Ship, x: int, y: int) -> bool {
    exists|i: int| 0 <= i < s.length && s.seg_x(i) == x && s.seg_y(i) == y
}

/// On a grid recomputed from `before`, for any mix of afloat and sunk
/// ships with at most 255 afloat: a cell carries a ship number exactly when
/// an afloat ship covers it, and the number `v` names the `v`-th afloat
/// ship, which covers that cell.
pub proof fn relaid_numbers_name_afloat_ships(before: Board, after: Board)
    requires
        layout_fits(before.layout()),
        afloat_before(before.ships@, before.ships@.len() as int) <= 255,
        after.ships@ == before.ships@,
        forall|x: int, y: int|
            in_grid(x, y) ==> #[trigger] after.cell(x, y) == relaid_cell(before, x, y),
    ensures
        forall|x: int, y: int|
            in_grid(x, y) ==> ((#[trigger] after.cell(x, y)).ship_index is Some <==> exists|k: int|
                0 <= k < afloat_ships(before.ships@, before.ships@.len() as int).len()
                    && ship_covers(
                    #[trigger] afloat_ships(before.ships@, before.ships@.len() as int)[k],
                    x,
                    y,
                )),
        forall|x: int, y: int|
            in_grid(x, y) && (#[trigger] after.cell(x, y)).ship_index is Some ==> {
                let v = after.cell(x, y).ship_index->0 as int;
                let afloat = afloat_ships(before.ships@, before.ships@.len() as int);
                &&& 1 <= v <= afloat.len()
                &&& ship_covers(afloat[v - 1], x, y)
            },
{
    let ships = before.ships@;
    let n = ships.len() as int;
    let cells = before.layout();
    let afloat = afloat_ships(ships, n);
    lemma_afloat_len(ships, n);
    lemma_fleet_origin(ships, n);
    lemma_afloat_covered(ships, n);
    assert forall|x: int, y: int| in_grid(x, y) implies ((#[trigger] after.cell(x, y)).ship_index is Some <==> exists|k: int|
        0 <= k < afloat.len() && ship_covers(#[trigger] afloat[k], x, y)) by {
        assert(after.cell(x, y) == relaid_cell(before, x, y));
        if after.cell(x, y).ship_index is Some {
            let j = choose|j: int| 0 <= j < cells.len() && (#[trigger] cells[j]).x == x && cells[j].y == y;
            assert(ship_covers(afloat[cells[j].k], x, y));
        }
        if exists|k: int| 0 <= k < afloat.len() && ship_covers(#[trigger] afloat[k], x, y) {
            let k = choose|k: int| 0 <= k < afloat.len() && ship_covers(#[trigger] afloat[k], x, y);
            let i = choose|i: int| 0 <= i < afloat[k].length && afloat[k].seg_x(i) == x && afloat[k].seg_y(i) == y;
            assert(covers(cells, afloat[k].seg_x(i), afloat[k].seg_y(i)));
        }
    }
    assert forall|x: int, y: int| in_grid(x, y) && (#[trigger] after.cell(x, y)).ship_index is Some implies {
        let v = after.cell(x, y).ship_index->0 as int;
        &&& 1 <= v <= afloat.len()
        &&& ship_covers(afloat[v - 1], x, y)
    } by {
        assert(after.cell(x, y) == relaid_cell(before, x, y));
        let j = choose|j: int| 0 <= j < cells.len() && (#[trigger] cells[j]).x == x && cells[j].y == y;
        assert(0 <= cells[j].k < afloat.len());
        assert(ship_covers(afloat[cells[j].k], x, y));
    }
}

proof fn lemma_afloat_len(ships: Seq<Ship>, n: int)
    requires
        0 <= n <= ships.len(),
    ensures
        afloat_ships(ships, n).len() == afloat_before(ships, n),
    decreases n,
{
    if n > 0 {
        lemma_afloat_len(ships, n - 1);
    }
}

/// Each taken cell comes from the afloat ship its number names.
proof fn lemma_fleet_origin(ships: Seq<Ship>, n: int)
    requires
        0 <= n <= ships.len(),
    ensures
        forall|j: int|
            0 <= j < fleet_cells(ships, n).len() ==> {
                let c = #[trigger] fleet_cells(ships, n)[j];
                &&& 0 <= c.k < afloat_before(ships, n)
                &&& ship_covers(afloat_ships(ships, n)[c.k], c.x, c.y)
            },
    decreases n,
{
    if n > 0 {
        lemma_fleet_origin(ships, n - 1);
        lemma_afloat_len(ships, n - 1);
        let prev = fleet_cells(ships, n - 1);
        let cur = fleet_cells(ships, n);
        assert forall|j: int| 0 <= j < cur.len() implies {
            let c = #[trigger] cur[j];
            &&& 0 <= c.k < afloat_before(ships, n)
            &&& ship_covers(afloat_ships(ships, n)[c.k], c.x, c.y)
        } by {
            if j < prev.len() {
                assert(cur[j] == prev[j]);
                if ships[n - 1].health_points > 0 {
                    assert(afloat_ships(ships, n)[prev[j].k] == afloat_ships(ships, n - 1)[prev[j].k]);
                }
            } else {
                let i = j - prev.len();
                let a = afloat_before(ships, n - 1);
                assert(cur[j] == ship_cells(ships[n - 1], a)[i]);
                assert(afloat_ships(ships, n)[a] == ships[n - 1]);
                assert(ships[n - 1].seg_x(i) == cur[j].x && ships[n - 1].seg_y(i) == cur[j].y);
            }
        }
    }
}

/// Every cell of every afloat ship is taken.
proof fn lemma_afloat_covered(ships: Seq<Ship>, n: int)
    requires
        0 <= n <= ships.len(),
    ensures
        forall|k: int, i: int|
            0 <= k < afloat_ships(ships, n).len() && 0 <= i < (#[trigger] afloat_ships(ships, n)[k]).length
                ==> covers(
                fleet_cells(ships, n),
                afloat_ships(ships, n)[k].seg_x(i),
                #[trigger] afloat_ships(ships, n)[k].seg_y(i),
            ),
    decreases n,
{
    if n > 0 {
        lemma_afloat_covered(ships, n - 1);
        lemma_afloat_len(ships, n - 1);
        let prev = fleet_cells(ships, n - 1);
        let cur = fleet_cells(ships, n);
        let afl = afloat_ships(ships, n);
        assert forall|k: int, i: int|
            0 <= k < afl.len() && 0 <= i < (#[trigger] afl[k]).length implies covers(
            cur,
            afl[k].seg_x(i),
            #[trigger] afl[k].seg_y(i),
        ) by {
            if k < afloat_ships(ships, n - 1).len() {
                assert(afl[k] == afloat_ships(ships, n - 1)[k]);
                assert(covers(prev, afl[k].seg_x(i), afl[k].seg_y(i)));
                let j = choose|j: int| 0 <= j < prev.len() && (#[trigger] prev[j]).x == afl[k].seg_x(i) && prev[j].y == afl[k].seg_y(i);
                assert(cur[j] == prev[j]);
            } else {
                let a = afloat_before(ships, n - 1);
                assert(afl[k] == ships[n - 1]);
                assert(cur[prev.len() + i] == ship_cells(ships[n - 1], a)[i]);
            }
        }
    }
}

/// A recomputed grid keeps the visibility of every cell: a cell the
/// opponent has uncovered stays uncovered whatever ship now stands on it,
/// and a covered cell stays covered.
pub proof fn recomputation_keeps_visibility(before: Board, after: Board)
    requires
        forall|x: int, y: int|
            in_grid(x, y) ==> #[trigger] after.cell(x, y) == relaid_cell(before, x, y),
    ensures
        forall|x: int, y: int|
            in_grid(x, y) ==> (#[trigger] after.cell(x, y)).visible == before.cell(x, y).visible,
{
    assert forall|x: int, y: int| in_grid(x, y) implies (#[trigger] after.cell(x, y)).visible
        == before.cell(x, y).visible by {
        assert(after.cell(x, y) == relaid_cell(before, x, y));
    }
}

/// A move order changes only the bow of a ship, whatever way the ship
/// lies: north takes one row off `y` and west one column off `x`, east puts
/// the bow on column 1 and south on row 1; the length, the orientation and
/// the health stay.
pub proof fn moves_change_only_the_bow(s: Ship)
    ensures
        forall|d: Direction|
            {
                &&& (#[trigger] s.moved(d)).length == s.length
                &&& s.moved(d).horizontal == s.horizontal
                &&& s.moved(d).health_points == s.health_points
            },
        s.can_move(Direction::North) ==> s.moved(Direction::North).y == s.y - 1 && s.moved(
            Direction::North,
        ).x == s.x,
        s.can_move(Direction::West) ==> s.moved(Direction::West).x == s.x - 1 && s.moved(
            Direction::West,
        ).y == s.y,
        s.moved(Direction::East).x == 1 && s.moved(Direction::East).y == s.y,
        s.moved(Direction::South).y == 1 && s.moved(Direction::South).x == s.x,
{
}

/// The message that uncovers the cell `(x, y)`.
pub open spec fn uncover_message(x: int, y: int) -> Message {
    Message::EnemyVisibleUpdate { x: x as u8, y: y as u8 }
}

/// The message that hides the cell `(x, y)`.
pub open spec fn hide_message(x: int, y: int) -> Message {
    Message::EnemyInvisibleUpdate { x: x as u8, y: y as u8 }
}

/// The uncovering messages of a recomputation name exactly the taken cells
/// that were uncovered water: each message is for such a cell, and each
/// such cell has a message.
pub proof fn reveal_updates_name_ships_entering_uncovered_water(
    b: Board,
    cells: Seq<PlacedCell>,
)
    ensures
        forall|k: int|
            0 <= k < reveal_updates(b, cells).len() ==> exists|j: int|
                0 <= j < cells.len() && b.cell(cells[j].x, cells[j].y).visible && b.cell(
                    cells[j].x,
                    cells[j].y,
                ).ship_index is None && #[trigger] reveal_updates(b, cells)[k]
                    == uncover_message(cells[j].x, cells[j].y),
        forall|j: int|
            0 <= j < cells.len() && b.cell(cells[j].x, cells[j].y).visible && b.cell(
                cells[j].x,
                cells[j].y,
            ).ship_index is None ==> exists|k: int|
                0 <= k < reveal_updates(b, cells).len() && #[trigger] reveal_updates(b, cells)[k]
                    == uncover_message((#[trigger] cells[j]).x, cells[j].y),
    decreases cells.len(),
{
    if cells.len() > 0 {
        let rest = cells.drop_last();
        let c = cells.last();
        reveal_updates_name_ships_entering_uncovered_water(b, rest);
        let r = reveal_updates(b, cells);
        let q = reveal_updates(b, rest);
        let hit = b.cell(c.x, c.y).visible && b.cell(c.x, c.y).ship_index is None;
        let m = uncover_message(c.x, c.y);
        assert(r == if hit { q.push(m) } else { q });
        assert forall|k: int| 0 <= k < r.len() implies exists|j: int|
            0 <= j < cells.len() && b.cell(cells[j].x, cells[j].y).visible && b.cell(
                cells[j].x,
                cells[j].y,
            ).ship_index is None && #[trigger] r[k] == uncover_message(cells[j].x, cells[j].y) by {
            if k < q.len() {
                assert(r[k] == q[k]);
                let j = choose|j: int|
                    0 <= j < rest.len() && b.cell(rest[j].x, rest[j].y).visible && b.cell(
                        rest[j].x,
                        rest[j].y,
                    ).ship_index is None && #[trigger] q[k] == uncover_message(rest[j].x, rest[j].y);
                assert(cells[j] == rest[j]);
            } else {
                assert(cells[cells.len() - 1] == c);
            }
        }
        assert forall|j: int|
            0 <= j < cells.len() && b.cell(cells[j].x, cells[j].y).visible && b.cell(
                cells[j].x,
                cells[j].y,
            ).ship_index is None implies exists|k: int|
                0 <= k < r.len() && #[trigger] r[k] == uncover_message((#[trigger] cells[j]).x, cells[j].y) by {
            if j < rest.len() {
                assert(cells[j] == rest[j]);
                assert(rest[j] == cells[j]);
                let k = choose|k: int|
                    0 <= k < q.len() && #[trigger] q[k] == uncover_message(rest[j].x, rest[j].y);
                assert(r[k] == q[k]);
            } else {
                assert(r[q.len() as int] == m);
            }
        }
    }
}

/// The hiding messages of a recomputation name exactly the cells of the
/// grid that were uncovered with a ship on them and that no ship takes any
/// more: each message is for such a cell, and each such cell has a message.
pub proof fn hide_updates_name_cells_ships_left(b: Board, cells: Seq<PlacedCell>)
    ensures
        forall|k: int|
            0 <= k < hide_updates(b, cells, (W * H) as int).len() ==> exists|x: int, y: int|
                in_grid(x, y) && b.cell(x, y).visible && b.cell(x, y).ship_index is Some && !covers(
                    cells,
                    x,
                    y,
                ) && #[trigger] hide_updates(b, cells, (W * H) as int)[k]
                    == hide_message(x, y),
        forall|x: int, y: int|
            in_grid(x, y) && (#[trigger] b.cell(x, y)).visible && b.cell(x, y).ship_index is Some
                && !covers(cells, x, y) ==> exists|k: int|
                0 <= k < hide_updates(b, cells, (W * H) as int).len() && #[trigger] hide_updates(
                    b,
                    cells,
                    (W * H) as int,
                )[k] == hide_message(x, y),
{
    lemma_hide_prefix(b, cells, (W * H) as int);
    assert forall|x: int, y: int|
        in_grid(x, y) && (#[trigger] b.cell(x, y)).visible && b.cell(x, y).ship_index is Some
            && !covers(cells, x, y) implies exists|k: int|
            0 <= k < hide_updates(b, cells, (W * H) as int).len() && #[trigger] hide_updates(
                b,
                cells,
                (W * H) as int,
            )[k] == hide_message(x, y) by {
        assert((x * 10 + y) / 10 == x && (x * 10 + y) % 10 == y && 0 <= x * 10 + y < 160) by (nonlinear_arith)
            requires
                0 <= y < 10,
                0 <= x < 16,
        ;
        assert(column_of(x * 10 + y) == x && row_of(x * 10 + y) == y);
    }
}

proof fn lemma_hide_prefix(b: Board, cells: Seq<PlacedCell>, p: int)
    requires
        0 <= p <= W * H,
    ensures
        forall|k: int|
            0 <= k < hide_updates(b, cells, p).len() ==> exists|x: int, y: int|
                in_grid(x, y) && b.cell(x, y).visible && b.cell(x, y).ship_index is Some && !covers(
                    cells,
                    x,
                    y,
                ) && #[trigger] hide_updates(b, cells, p)[k] == hide_message(x, y),
        forall|q: int|
            0 <= q < p && b.cell(column_of(q), row_of(q)).visible && b.cell(column_of(q), row_of(q)).ship_index is Some
                && !covers(cells, column_of(q), row_of(q)) ==> exists|k: int|
                0 <= k < hide_updates(b, cells, p).len() && #[trigger] hide_updates(b, cells, p)[k]
                    == hide_message(column_of(q), (#[trigger] row_of(q))),
    decreases p,
{
    if p > 0 {
        lemma_hide_prefix(b, cells, p - 1);
        let x0 = column_of(p - 1);
        let y0 = row_of(p - 1);
        let h = hide_updates(b, cells, p);
        let g = hide_updates(b, cells, p - 1);
        let hit = b.cell(x0, y0).visible && b.cell(x0, y0).ship_index is Some && !covers(cells, x0, y0);
        let m = hide_message(x0, y0);
        assert(h == if hit { g.push(m) } else { g });
        assert(in_grid(x0, y0));
        assert forall|k: int| 0 <= k < h.len() implies exists|x: int, y: int|
            in_grid(x, y) && b.cell(x, y).visible && b.cell(x, y).ship_index is Some && !covers(
                cells,
                x,
                y,
            ) && #[trigger] h[k] == hide_message(x, y) by {
            if k < g.len() {
                assert(h[k] == g[k]);
            } else {
                assert(h[k] == m);
            }
        }
        assert forall|q: int|
            0 <= q < p && b.cell(column_of(q), row_of(q)).visible && b.cell(column_of(q), row_of(q)).ship_index is Some
                && !covers(cells, column_of(q), row_of(q)) implies exists|k: int|
                0 <= k < h.len() && #[trigger] h[k] == hide_message(column_of(q), (#[trigger] row_of(q))) by {
            if q < p - 1 {
                let k = choose|k: int|
                    0 <= k < g.len() && #[trigger] g[k] == hide_message(column_of(q), row_of(q));
                assert(h[k] == g[k]);
            } else {
                assert(h[g.len() as int] == m);
            }
        }
    }
}

/// A shot that hits a ship costs the fleet exactly one health point.
pub proof fn hit_costs_one_health_point(ships: Seq<Ship>, i: int)
    requires
        0 <= i < ships.len(),
        ships[i].health_points > 0,
    ensures
        fleet_health(ships.update(i, ships[i].damaged())) == fleet_health(ships) - 1,
    decreases ships.len(),
{
    let updated = ships.update(i, ships[i].damaged());
    if i == ships.len() - 1 {
        assert(updated.drop_last() =~= ships.drop_last());
    } else {
        hit_costs_one_health_point(ships.drop_last(), i);
        assert(updated.drop_last() =~= ships.drop_last().update(i, ships[i].damaged()));
    }
}

/// A fleet is sunk exactly when it has no health left.
pub proof fn sunk_iff_no_health(b: Board)
    ensures
        b.all_sunk() <==> fleet_health(b.ships@) == 0,
{
    lemma_health_zero(b.ships@);
}

proof fn lemma_health_zero(ships: Seq<Ship>)
    ensures
        fleet_health(ships) >= 0,
        (forall|i: int| 0 <= i < ships.len() ==> #[trigger] ships[i].health_points == 0)
            <==> fleet_health(ships) == 0,
    decreases ships.len(),
{
    if ships.len() > 0 {
        let rest = ships.drop_last();
        lemma_health_zero(rest);
        if fleet_health(ships) == 0 {
            assert forall|i: int| 0 <= i < ships.len() implies #[trigger] ships[i].health_points
                == 0 by {
                if i < ships.len() - 1 {
                    assert(rest[i] == ships[i]);
                }
            }
        }
        if forall|i: int| 0 <= i < ships.len() ==> #[trigger] ships[i].health_points == 0 {
            assert forall|i: int| 0 <= i < rest.len() implies #[trigger] rest[i].health_points
                == 0 by {
                assert(rest[i] == ships[i]);
            }
            assert(ships[ships.len() - 1].health_points == 0);
        }
    }
}

/// With every ship afloat, each ship counts among the afloat ones.
proof fn lemma_afloat_all(ships: Seq<Ship>, n: int)
    requires
        all_afloat(ships),
        0 <= n <= ships.len(),
    ensures
        afloat_before(ships, n) == n,
    decreases n,
{
    if n > 0 {
        lemma_afloat_all(ships, n - 1);
    }
}

/// With every ship afloat, the cells of the first `n` ships carry the
/// numbers of ships among the first `n`.
proof fn lemma_fleet_numbers(ships: Seq<Ship>, n: int)
    requires
        all_afloat(ships),
        0 <= n <= ships.len(),
    ensures
        forall|j: int|
            0 <= j < fleet_cells(ships, n).len() ==> 0 <= (#[trigger] fleet_cells(ships, n)[j]).k
                < n,
    decreases n,
{
    if n > 0 {
        lemma_fleet_numbers(ships, n - 1);
        lemma_afloat_all(ships, n - 1);
        let prev = fleet_cells(ships, n - 1);
        assert forall|j: int| 0 <= j < fleet_cells(ships, n).len() implies 0 <= (
        #[trigger] fleet_cells(ships, n)[j]).k < n by {
            if j < prev.len() {
                assert(fleet_cells(ships, n)[j] == prev[j]);
            }
        }
    }
}

} // verus!
