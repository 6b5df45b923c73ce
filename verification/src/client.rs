//! What the game client computes: the requests it sends for the player's
//! actions, the order in which it places ships, the text views of the
//! boards it shows, and the server announcements it reads.

use vstd::prelude::*;

use byteorder::{BigEndian, ByteOrder};
use vstd::utf8::{decode_utf8, valid_utf8};

use crate::board::{in_grid, Board, CellState, Ship, H, W};
use crate::message::{Direction, Message};

verus! {

// ---------------------------------------------------------------------------
// Requests
// ---------------------------------------------------------------------------

/// `a % 10` as machine arithmetic computes it: the remainder takes the sign
/// of `a`.
pub open spec fn rem10(a: int) -> int {
    if a >= 0 {
        a % 10
    } else {
        -((-a) % 10)
    }
}

/// `a / 10` as machine arithmetic computes it: rounded toward zero.
pub open spec fn div10(a: int) -> int {
    if a >= 0 {
        a / 10
    } else {
        -((-a) / 10)
    }
}

/// Machine division by ten splits a number into quotient and remainder:
/// ten times the quotient plus the remainder gives the number back, the
/// remainder is a single digit, and both take the sign of the number.
pub proof fn division_by_ten_recomposes(a: int)
    ensures
        div10(a) * 10 + rem10(a) == a,
        -10 < rem10(a) < 10,
        a >= 0 ==> 0 <= rem10(a) && 0 <= div10(a),
        a < 0 ==> rem10(a) <= 0 && div10(a) <= 0,
{
    if a >= 0 {
        assert((a / 10) * 10 + a % 10 == a && 0 <= a % 10 < 10 && a / 10 >= 0) by (nonlinear_arith)
            requires
                a >= 0,
        ;
    } else {
        let b = -a;
        assert((b / 10) * 10 + b % 10 == b && 0 <= b % 10 < 10 && b / 10 >= 0) by (nonlinear_arith)
            requires
                b > 0,
        ;
    }
}

/// The cell `(x, y)` of the button numbered `button_index` in a grid of
/// buttons ten wide, numbered row by row.
pub fn coords_from_button_index(button_index: i64) -> (coords: (u8, u8))
    ensures
        coords == ((rem10(button_index as int) as u8), (div10(button_index as int) as u8)),
{
    (#[verifier::truncate] ((button_index % 10) as u8), #[verifier::truncate] ((button_index
        / 10) as u8))
}

/// The direction that the user interface codes as `code`: 0 north, 1 east,
/// 2 south, 3 west.
pub open spec fn direction_of_code(code: int) -> Direction {
    if code == 0 {
        Direction::North
    } else if code == 1 {
        Direction::East
    } else if code == 2 {
        Direction::South
    } else {
        Direction::West
    }
}

/// Decodes a direction code of the user interface.
pub fn direction_from_code(code: i64) -> (direction: Direction)
    requires
        0 <= code <= 3,
    ensures
        direction == direction_of_code(code as int),
{
    match code {
        0 => Direction::North,
        1 => Direction::East,
        2 => Direction::South,
        _ => Direction::West,
    }
}

/// The request for a shot at `(x, y)`; with a ship number other than -1
/// the ship `ship_index` also moves in the coded `direction` first.
pub fn move_and_shoot_request(x: i64, y: i64, ship_index: i64, direction: i64) -> (request:
    Message)
    requires
        ship_index != -1 ==> 0 <= direction <= 3,
    ensures
        ship_index == -1 ==> request == (Message::ShootRequest { x: x as u8, y: y as u8 }),
        ship_index != -1 ==> request == (Message::MoveAndShootRequest {
            x: x as u8,
            y: y as u8,
            id: ship_index as u8,
            direction: direction_of_code(direction as int),
        }),
{
    if ship_index == -1 {
        Message::ShootRequest { x: #[verifier::truncate] (x as u8), y: #[verifier::truncate] (y as u8) }
    } else {
        Message::MoveAndShootRequest {
            x: #[verifier::truncate] (x as u8),
            y: #[verifier::truncate] (y as u8),
            id: #[verifier::truncate] (ship_index as u8),
            direction: direction_from_code(direction),
        }
    }
}

/// The request that tells the server whether the player is ready: ready
/// exactly when `ready` is 1.
pub fn ready_request(ready: i64) -> (request: Message)
    ensures
        ready == 1 ==> request == Message::ReadyRequest,
        ready != 1 ==> request == Message::NotReadyRequest,
{
    if ready == 1 {
        Message::ReadyRequest
    } else {
        Message::NotReadyRequest
    }
}

/// How a reply of the server ends a login attempt.
#[derive(Copy, Clone, Debug, PartialEq, Eq, Structural)]
pub enum LoginReply {
    /// The server took the name: the player is logged in.
    Accepted,
    /// Another player has the name: the attempt failed.
    NameTaken,
    /// The server answered with something else.
    Illegal,
}

/// Classifies the server's reply to a login request.
pub fn login_reply(reply: &Message) -> (outcome: LoginReply)
    ensures
        reply is OkResponse ==> outcome == LoginReply::Accepted,
        reply is NameTakenResponse ==> outcome == LoginReply::NameTaken,
        !(reply is OkResponse) && !(reply is NameTakenResponse) ==> outcome == LoginReply::Illegal,
{
    match reply {
        Message::OkResponse => LoginReply::Accepted,
        Message::NameTakenResponse { .. } => LoginReply::NameTaken,
        _ => LoginReply::Illegal,
    }
}

// ---------------------------------------------------------------------------
// Text views of the boards
// ---------------------------------------------------------------------------

/// Appends one character to a string: std's `String::push`, which this
/// contract takes to grow the string by exactly `c` at its end.
#[verifier::external_body]
fn push_char(s: &mut String, c: char)
    ensures
        final(s)@ == old(s)@.push(c),
{
    s.push(c)
}

/// What the player sees of the opponent's cell `(x, y)`: `'?'` while there
/// is no board, `'"'` for a covered cell, `'X'` for an uncovered ship and
/// `'-'` for uncovered water.
pub open spec fn opponent_symbol(board: Option<&Board>, x: int, y: int) -> char {
    match board {
        None => '?',
        Some(b) => if !b.cell(x, y).visible {
            '"'
        } else if b.cell(x, y).ship_index is Some {
            'X'
        } else {
            '-'
        },
    }
}

/// The symbol at position `p` of the opponent view, which lists the cells
/// row by row.
pub open spec fn opponent_text_at(board: Option<&Board>, p: int) -> char {
    opponent_symbol(board, p % (W as int), p / (W as int))
}

/// `'1'` for an uncovered cell of the player's own board, `'0'` otherwise.
pub open spec fn visibility_symbol(b: &Board, x: int, y: int) -> char {
    if b.cell(x, y).visible {
        '1'
    } else {
        '0'
    }
}

/// The symbol at position `p` of the visibility view, row by row.
pub open spec fn visibility_text_at(b: &Board, p: int) -> char {
    visibility_symbol(b, p % (W as int), p / (W as int))
}

/// The cell at position `x + y * W` of a row-by-row listing is `(x, y)`.
proof fn lemma_row_position(x: int, y: int)
    requires
        0 <= x < W,
    ensures
        (y * W + x) % (W as int) == x,
        (y * W + x) / (W as int) == y,
{
    assert((y * 16 + x) % 16 == x && (y * 16 + x) / 16 == y) by (nonlinear_arith)
        requires
            0 <= x < 16,
    ;
}

/// The opponent view shows each cell of the board by what the opponent may
/// know of it: `'X'` exactly for an uncovered cell with a ship (whatever its
/// number), `'-'` exactly for uncovered water and `'"'` exactly for a
/// covered cell; with no board every symbol is `'?'`.
pub proof fn opponent_view_shows_each_cell(board: Option<&Board>)
    ensures
        board is None ==> forall|p: int| 0 <= p < W * H ==> #[trigger] opponent_text_at(board, p)
            == '?',
        board matches Some(b) ==> forall|x: int, y: int|
            in_grid(x, y) ==> {
                let c = #[trigger] b.cell(x, y);
                let symbol = opponent_text_at(board, y * W + x);
                &&& (symbol == 'X') <==> (c.visible && c.ship_index is Some)
                &&& (symbol == '-') <==> (c.visible && c.ship_index is None)
                &&& (symbol == '"') <==> !c.visible
            },
{
    if let Some(b) = board {
        assert forall|x: int, y: int| in_grid(x, y) implies {
            let c = #[trigger] b.cell(x, y);
            let symbol = opponent_text_at(board, y * W + x);
            &&& (symbol == 'X') <==> (c.visible && c.ship_index is Some)
            &&& (symbol == '-') <==> (c.visible && c.ship_index is None)
            &&& (symbol == '"') <==> !c.visible
        } by {
            lemma_row_position(x, y);
        }
    }
}

/// The visibility view shows `'1'` for a cell exactly when the opponent
/// has uncovered it, ship or water, and `'0'` otherwise.
pub proof fn own_view_shows_visibility(board: &Board)
    ensures
        forall|p: int| #[trigger] visibility_text_at(board, p) == '0' || visibility_text_at(board, p) == '1',
        forall|x: int, y: int|
            in_grid(x, y) ==> ((visibility_text_at(board, y * W + x) == '1') <==> (
            #[trigger] board.cell(x, y)).visible),
{
    assert forall|x: int, y: int| in_grid(x, y) implies ((visibility_text_at(board, y * W + x)
        == '1') <==> (#[trigger] board.cell(x, y)).visible) by {
        lemma_row_position(x, y);
    }
}

/// The opponent's board as the player sees it, one symbol per cell, row by
/// row; all `'?'` while there is no board yet.
pub fn opponent_board_view(board: Option<&Board>) -> (view: String)
    ensures
        view@ == Seq::new((W * H) as nat, |p: int| opponent_text_at(board, p)),
        view@.len() == W * H,
        board is None ==> forall|p: int| 0 <= p < W * H ==> #[trigger] view@[p] == '?',
        board matches Some(b) ==> forall|x: int, y: int|
            in_grid(x, y) ==> {
                let c = #[trigger] b.cell(x, y);
                &&& (view@[y * W + x] == 'X') <==> (c.visible && c.ship_index is Some)
                &&& (view@[y * W + x] == '-') <==> (c.visible && c.ship_index is None)
                &&& (view@[y * W + x] == '"') <==> !c.visible
            },
{
    let mut result = String::new();
    let mut y: usize = 0;
    while y < H
        invariant
            0 <= y <= H,
            result@ =~= Seq::new((y * W) as nat, |p: int| opponent_text_at(board, p)),
        decreases H - y,
    {
        let mut x: usize = 0;
        while x < W
            invariant
                0 <= y < H,
                0 <= x <= W,
                result@ =~= Seq::new((y * W + x) as nat, |p: int| opponent_text_at(board, p)),
            decreases W - x,
        {
            let character = match board {
                Some(b) => match b.state[x][y] {
                    CellState { visible: false, ship_index: _ } => '"',
                    CellState { visible: true, ship_index: Some(_) } => 'X',
                    CellState { visible: true, ship_index: None } => '-',
                },
                None => '?',
            };
            proof {
                lemma_row_position(x as int, y as int);
            }
            push_char(&mut result, character);
            x = x + 1;
        }
        y = y + 1;
    }
    proof {
        if let Some(b) = board {
            assert forall|x: int, y: int| in_grid(x, y) implies {
                let c = #[trigger] b.cell(x, y);
                &&& (result@[y * W + x] == 'X') <==> (c.visible && c.ship_index is Some)
                &&& (result@[y * W + x] == '-') <==> (c.visible && c.ship_index is None)
                &&& (result@[y * W + x] == '"') <==> !c.visible
            } by {
                lemma_row_position(x, y);
                assert(0 <= y * W + x < W * H) by (nonlinear_arith)
                    requires
                        0 <= x < 16,
                        0 <= y < 10,
                ;
                assert(result@[y * W + x] == opponent_text_at(board, y * W + x));
            }
        }
    }
    result
}

/// Which cells of the player's own board the opponent has uncovered, one
/// `'1'` or `'0'` per cell, row by row.
pub fn own_board_visibility(board: &Board) -> (view: String)
    ensures
        view@ == Seq::new((W * H) as nat, |p: int| visibility_text_at(board, p)),
        view@.len() == W * H,
        forall|p: int| 0 <= p < W * H ==> #[trigger] view@[p] == '0' || view@[p] == '1',
        forall|x: int, y: int|
            in_grid(x, y) ==> ((view@[y * W + x] == '1') <==> (#[trigger] board.cell(x, y)).visible),
{
    let mut result = String::new();
    let mut y: usize = 0;
    while y < H
        invariant
            0 <= y <= H,
            result@ =~= Seq::new((y * W) as nat, |p: int| visibility_text_at(board, p)),
        decreases H - y,
    {
        let mut x: usize = 0;
        while x < W
            invariant
                0 <= y < H,
                0 <= x <= W,
                result@ =~= Seq::new((y * W + x) as nat, |p: int| visibility_text_at(board, p)),
            decreases W - x,
        {
            let character = if board.state[x][y].visible {
                '1'
            } else {
                '0'
            };
            proof {
                lemma_row_position(x as int, y as int);
            }
            push_char(&mut result, character);
            x = x + 1;
        }
        y = y + 1;
    }
    proof {
        assert forall|x: int, y: int| in_grid(x, y) implies ((result@[y * W + x] == '1') <==> (
        #[trigger] board.cell(x, y)).visible) by {
            lemma_row_position(x, y);
            assert(0 <= y * W + x < W * H) by (nonlinear_arith)
                requires
                    0 <= x < 16,
                    0 <= y < 10,
            ;
            assert(result@[y * W + x] == visibility_text_at(board, y * W + x));
        }
    }
    result
}

/// The number of the ship on the player's cell `(x, y)`, or -1 for water.
pub fn ship_at(board: &Board, x: i64, y: i64) -> (ship: i64)
    requires
        0 <= x < W,
        0 <= y < H,
    ensures
        ship == match board.cell(x as int, y as int).ship_index {
            Some(i) => i as int,
            None => -1,
        },
{
    match board.state[x as usize][y as usize].ship_index {
        Some(ship_index) => ship_index as i64,
        None => -1,
    }
}

/// The character of the decimal digit `d`.
pub open spec fn digit_char(d: int) -> char {
    (48 + d) as char
}

/// The decimal notation of `n`, without leading zeros.
pub open spec fn decimal(n: nat) -> Seq<char>
    decreases n,
{
    if n < 10 {
        seq![digit_char(n as int)]
    } else {
        decimal(n / 10).push(digit_char((n % 10) as int))
    }
}

/// The health points of the ships in decimal, one after the other.
pub open spec fn health_text(ships: Seq<Ship>) -> Seq<char>
    decreases ships.len(),
{
    if ships.len() == 0 {
        Seq::empty()
    } else {
        health_text(ships.drop_last()) + decimal(ships.last().health_points as nat)
    }
}

/// The number that a string of decimal digits denotes.
pub open spec fn digits_value(s: Seq<char>) -> int
    decreases s.len(),
{
    if s.len() == 0 {
        0
    } else {
        digits_value(s.drop_last()) * 10 + (s.last() as int - 48)
    }
}

/// The decimal notation of `n` is a non-empty string of digits that
/// denotes `n` and starts with `'0'` only for zero itself.
pub proof fn decimal_denotes_its_number(n: nat)
    ensures
        decimal(n).len() > 0,
        forall|i: int| 0 <= i < decimal(n).len() ==> '0' <= #[trigger] decimal(n)[i] <= '9',
        digits_value(decimal(n)) == n,
        decimal(n)[0] == '0' ==> n == 0,
    decreases n,
{
    if n >= 10 {
        decimal_denotes_its_number(n / 10);
        let d = decimal(n);
        let prev = decimal(n / 10);
        assert(d == prev.push(digit_char((n % 10) as int)));
        assert(d.drop_last() =~= prev);
        assert(digit_char((n % 10) as int) as int == 48 + n % 10);
        assert forall|i: int| 0 <= i < d.len() implies '0' <= #[trigger] d[i] <= '9' by {
            if i < prev.len() {
                assert(d[i] == prev[i]);
            }
        }
        assert(d[0] == prev[0]);
        assert(d.last() == digit_char((n % 10) as int));
        assert(digits_value(d) == digits_value(prev) * 10 + (n % 10));
        assert((n / 10) * 10 + n % 10 == n);
    } else {
        let d = decimal(n);
        assert(digit_char(n as int) as int == 48 + n);
        assert(d.drop_last() =~= Seq::<char>::empty());
        assert(digits_value(d.drop_last()) == 0);
    }
}

/// Appends the decimal notation of `n`.
fn push_decimal(out: &mut String, n: usize)
    ensures
        final(out)@ == old(out)@ + decimal(n as nat),
    decreases n,
{
    if n >= 10 {
        push_decimal(out, n / 10);
    }
    let digit = (n % 10) as u8;
    push_char(out, (48u8 + digit) as char);
    proof {
        if n >= 10 {
            assert(decimal(n as nat) == decimal((n / 10) as nat).push(digit_char((n % 10) as int)));
        }
    }
}

/// The health points of the ships in decimal, concatenated in the order of
/// the ships.
pub fn ships_health_text(ships: &Vec<Ship>) -> (text: String)
    ensures
        text@ == health_text(ships@),
{
    let mut result = String::new();
    let mut i: usize = 0;
    while i < ships.len()
        invariant
            0 <= i <= ships@.len(),
            result@ == health_text(ships@.take(i as int)),
        decreases ships@.len() - i,
    {
        proof {
            assert(ships@.take(i + 1).drop_last() =~= ships@.take(i as int));
        }
        push_decimal(&mut result, ships[i].health_points);
        i = i + 1;
    }
    proof {
        assert(ships@.take(ships@.len() as int) =~= ships@);
    }
    result
}

// ---------------------------------------------------------------------------
// Server announcements
// ---------------------------------------------------------------------------

/// byteorder's `BigEndian::read_u16`: the first two bytes of `buf` as a
/// big-endian number. It panics on fewer than two bytes, which `requires`
/// leaves out.
#[verifier::external_body]
fn read_port(buf: &[u8]) -> (port: u16)
    requires
        buf@.len() >= 2,
    ensures
        port == buf@[0] * 256 + buf@[1],
{
    BigEndian::read_u16(buf)
}

/// std's `str::from_utf8`: the text that `bytes` encode when they are valid
/// UTF-8, and nothing otherwise.
#[verifier::external_body]
fn utf8_text(bytes: &[u8]) -> (text: Option<&str>)
    ensures
        text is Some <==> valid_utf8(bytes@),
        text matches Some(t) ==> t@ == decode_utf8(bytes@),
{
    std::str::from_utf8(bytes).ok()
}

/// The server name that an announcement carries after its port: the text
/// the bytes encode, or nothing when they are not valid UTF-8.
pub open spec fn announced_name(bytes: Seq<u8>) -> Seq<char> {
    if valid_utf8(bytes) {
        decode_utf8(bytes)
    } else {
        Seq::empty()
    }
}

/// Reads a server's announcement from the receive buffer `datagram`, of
/// which `num_bytes` were received: the port in the first two bytes (big
/// endian) and the server name in the rest of the buffer.
pub fn server_announcement(datagram: &[u8], num_bytes: usize) -> (announcement: (u16, String))
    requires
        num_bytes >= 2,
        datagram@.len() >= 2,
    ensures
        announcement.0 == datagram@[0] * 256 + datagram@[1],
        announcement.1@ == announced_name(datagram@.subrange(2, datagram@.len() as int)),
{
    let port = read_port(vstd::slice::slice_subrange(datagram, 0, 2));
    let rest = vstd::slice::slice_subrange(datagram, 2, datagram.len());
    let server_name = match utf8_text(rest) {
        Some(text) => text,
        None => "",
    };
    proof {
        reveal_strlit("");
    }
    (port, server_name.to_owned())
}

} // verus!
