use rusty_battleships::board::{Board, Ship, H, W};
use rusty_battleships::client::{
    coords_from_button_index, direction_from_code, login_reply, move_and_shoot_request,
    opponent_board_view, own_board_visibility, ready_request, server_announcement, ship_at,
    ships_health_text, LoginReply,
};
use rusty_battleships::message::{Direction, Message, ShipPlacement};
use rusty_battleships::placement::{
    order_by_length, place_ships_request, placement_request, to_ship_placement, PlacementSpec,
};

fn ship(x: isize, y: isize, length: usize, horizontal: bool, health_points: usize) -> Ship {
    Ship { x, y, length, horizontal, health_points }
}

fn spec(x: u64, length: u64, reverse: bool, horizontal: bool) -> PlacementSpec {
    PlacementSpec { x, y: x + 1, length, reverse, horizontal }
}

#[test]
fn button_index_to_coords() {
    assert_eq!(coords_from_button_index(0), (0, 0));
    assert_eq!(coords_from_button_index(37), (7, 3));
    assert_eq!(coords_from_button_index(99), (9, 9));
    // a negative index keeps the sign of the remainder, cut to a byte
    assert_eq!(coords_from_button_index(-3), (253, 0));
    assert_eq!(coords_from_button_index(-13), (253, 255));
}

#[test]
fn direction_codes() {
    assert_eq!(direction_from_code(0), Direction::North);
    assert_eq!(direction_from_code(1), Direction::East);
    assert_eq!(direction_from_code(2), Direction::South);
    assert_eq!(direction_from_code(3), Direction::West);
}

#[test]
fn shoot_without_moving() {
    assert_eq!(move_and_shoot_request(3, 4, -1, 9), Message::ShootRequest { x: 3, y: 4 });
}

#[test]
fn move_and_shoot() {
    assert_eq!(
        move_and_shoot_request(3, 4, 2, 1),
        Message::MoveAndShootRequest { x: 3, y: 4, id: 2, direction: Direction::East }
    );
    assert_eq!(
        move_and_shoot_request(300, 4, 0, 3),
        Message::MoveAndShootRequest { x: 44, y: 4, id: 0, direction: Direction::West }
    );
}

#[test]
fn ready_requests() {
    assert_eq!(ready_request(1), Message::ReadyRequest);
    assert_eq!(ready_request(0), Message::NotReadyRequest);
    assert_eq!(ready_request(2), Message::NotReadyRequest);
}

#[test]
fn login_replies() {
    assert_eq!(login_reply(&Message::OkResponse), LoginReply::Accepted);
    assert_eq!(
        login_reply(&Message::NameTakenResponse { nickname: String::from("bob") }),
        LoginReply::NameTaken
    );
    assert_eq!(login_reply(&Message::ReadyRequest), LoginReply::Illegal);
}

#[test]
fn placements_go_longest_first() {
    let specs = vec![
        spec(1, 2, false, true),
        spec(2, 5, false, false),
        spec(3, 3, true, true),
        spec(4, 3, true, false),
        spec(5, 4, false, true),
    ];
    let ordered = order_by_length(&specs);
    let xs: Vec<u64> = ordered.iter().map(|s| s.x).collect();
    // among the two ships of length 3 the later one comes first
    assert_eq!(xs, vec![2, 5, 4, 3, 1]);
}

#[test]
fn placements_of_equal_length_are_reversed() {
    let specs = vec![spec(1, 3, false, true), spec(2, 3, false, true), spec(3, 3, false, true)];
    let xs: Vec<u64> = order_by_length(&specs).iter().map(|s| s.x).collect();
    assert_eq!(xs, vec![3, 2, 1]);
    assert!(order_by_length(&vec![]).is_empty());
}

#[test]
fn placement_directions() {
    assert_eq!(to_ship_placement(&spec(1, 2, true, true)).direction, Direction::West);
    assert_eq!(to_ship_placement(&spec(1, 2, true, false)).direction, Direction::North);
    assert_eq!(to_ship_placement(&spec(1, 2, false, true)).direction, Direction::East);
    assert_eq!(to_ship_placement(&spec(1, 2, false, false)).direction, Direction::South);
    assert_eq!(
        to_ship_placement(&PlacementSpec { x: 258, y: 7, length: 2, reverse: false, horizontal: true }),
        ShipPlacement { x: 2, y: 7, direction: Direction::East }
    );
}

#[test]
fn place_ships_request_orders_and_converts() {
    let specs = vec![
        spec(1, 2, false, true),
        spec(2, 5, false, false),
        spec(3, 3, true, true),
        spec(4, 3, true, false),
        spec(5, 4, false, true),
    ];
    assert_eq!(
        place_ships_request(&specs),
        Message::PlaceShipsRequest {
            placement: [
                ShipPlacement { x: 2, y: 3, direction: Direction::South },
                ShipPlacement { x: 5, y: 6, direction: Direction::East },
                ShipPlacement { x: 4, y: 5, direction: Direction::North },
                ShipPlacement { x: 3, y: 4, direction: Direction::West },
                ShipPlacement { x: 1, y: 2, direction: Direction::East },
            ]
        }
    );
}

#[test]
fn opponent_view_without_board() {
    let view = opponent_board_view(None);
    assert_eq!(view.chars().count(), W * H);
    assert!(view.chars().all(|c| c == '?'));
}

#[test]
fn opponent_view_shows_uncovered_cells() {
    let mut b = Board::new(vec![ship(0, 0, 2, true, 2)]);
    assert!(b.compute_state().0);
    b.hit(1, 0);
    b.hit(3, 2);
    let view: Vec<char> = opponent_board_view(Some(&b)).chars().collect();
    assert_eq!(view.len(), W * H);
    assert_eq!(view[0], '"');
    assert_eq!(view[1], 'X');
    assert_eq!(view[2 * W + 3], '-');
    assert_eq!(view.iter().filter(|c| **c == '"').count(), W * H - 2);
}

#[test]
fn own_visibility_view() {
    let mut b = Board::new(vec![]);
    b.hit(15, 9);
    b.hit(2, 1);
    let view = own_board_visibility(&b);
    let chars: Vec<char> = view.chars().collect();
    assert_eq!(chars.len(), W * H);
    assert_eq!(chars[W * H - 1], '1');
    assert_eq!(chars[W + 2], '1');
    assert_eq!(chars.iter().filter(|c| **c == '1').count(), 2);
    assert!(chars.iter().all(|c| *c == '0' || *c == '1'));
}

#[test]
fn ship_lookup() {
    let mut b = Board::new(vec![ship(2, 2, 2, false, 2), ship(5, 5, 1, true, 1)]);
    assert!(b.compute_state().0);
    assert_eq!(ship_at(&b, 2, 3), 1);
    assert_eq!(ship_at(&b, 5, 5), 2);
    assert_eq!(ship_at(&b, 0, 0), -1);
}

#[test]
fn health_points_text() {
    // the example of the health encoding: 5, 4, 0, 2, 0
    let ships = vec![
        ship(0, 0, 5, true, 5),
        ship(0, 1, 4, true, 4),
        ship(0, 2, 3, true, 0),
        ship(0, 3, 2, true, 2),
        ship(0, 4, 2, true, 0),
    ];
    assert_eq!(ships_health_text(&ships), "54020");
    let ships = vec![ship(0, 0, 1, true, 12), ship(0, 0, 1, true, 305), ship(0, 0, 1, true, 10)];
    assert_eq!(ships_health_text(&ships), "1230510");
    assert_eq!(ships_health_text(&vec![]), "");
}

#[test]
fn server_announcement_reads_port_and_name() {
    let datagram = [0x1f, 0x90, b'h', b'i'];
    let (port, name) = server_announcement(&datagram, 4);
    assert_eq!(port, 8080);
    assert_eq!(name, "hi");
}

#[test]
fn server_announcement_keeps_the_whole_buffer() {
    let mut buf = [0u8; 8];
    buf[0] = 0xc3;
    buf[1] = 0x50;
    buf[2] = b'x';
    let (port, name) = server_announcement(&buf, 3);
    assert_eq!(port, 50000);
    assert_eq!(name, "x\0\0\0\0\0");
}

#[test]
fn server_announcement_with_invalid_text() {
    let (port, name) = server_announcement(&[0, 1, 0xff, 0xfe], 4);
    assert_eq!(port, 1);
    assert_eq!(name, "");
}

const PLACEMENT_JSON: &str = r#"{
  "0": {"x": 1, "y": 2, "length": 2, "reverse": false, "horizontal": true},
  "1": {"x": 2, "y": 3, "length": 5, "reverse": false, "horizontal": false},
  "2": {"x": 3, "y": 4, "length": 3, "reverse": true, "horizontal": true},
  "3": {"x": 4, "y": 5, "length": 3, "reverse": true, "horizontal": false},
  "4": {"x": 5, "y": 6, "length": 4, "reverse": false, "horizontal": true, "extra": [1, 2]}
}"#;

#[test]
fn placement_request_from_json_text() {
    assert_eq!(
        placement_request(PLACEMENT_JSON),
        Some(Message::PlaceShipsRequest {
            placement: [
                ShipPlacement { x: 2, y: 3, direction: Direction::South },
                ShipPlacement { x: 5, y: 6, direction: Direction::East },
                ShipPlacement { x: 4, y: 5, direction: Direction::North },
                ShipPlacement { x: 3, y: 4, direction: Direction::West },
                ShipPlacement { x: 1, y: 2, direction: Direction::East },
            ]
        })
    );
}

#[test]
fn placement_request_rejects_bad_text() {
    assert_eq!(placement_request("not json"), None);
    assert_eq!(placement_request("[1, 2]"), None);
    // a missing ship
    let missing = PLACEMENT_JSON.replace("\"4\"", "\"5\"");
    assert_eq!(placement_request(&missing), None);
    // a missing field
    let no_length = PLACEMENT_JSON.replace("\"length\": 5", "\"size\": 5");
    assert_eq!(placement_request(&no_length), None);
    // a negative coordinate
    let negative = PLACEMENT_JSON.replace("\"x\": 3", "\"x\": -3");
    assert_eq!(placement_request(&negative), None);
    // a field of the wrong kind
    let wrong = PLACEMENT_JSON.replace("\"reverse\": true, \"horizontal\": true", "\"reverse\": 1, \"horizontal\": true");
    assert_eq!(placement_request(&wrong), None);
}

fn placement_json_with_extra(extra: &str) -> String {
    PLACEMENT_JSON.replacen("\"extra\": [1, 2]", extra, 1)
}

#[test]
fn placement_request_refuses_an_overlong_key() {
    // a key of more than 65,535 bytes is past what the parser can keep
    let key = "\u{e9}".repeat(32768) + "aaa";
    let text = placement_json_with_extra(&format!("\"{}\": 1", key));
    assert_eq!(placement_request(&text), None);
}

#[test]
fn placement_request_refuses_an_overflowing_exponent() {
    let text = placement_json_with_extra("\"extra\": 1e99999999999999999999");
    assert_eq!(placement_request(&text), None);
}

#[test]
fn placement_request_accepts_long_values_and_many_keys() {
    // long string values and many short keys stay within the parser's limits
    let long_value = format!("\"note\": \"{}\"", "v".repeat(70000));
    let expected = placement_request(PLACEMENT_JSON);
    assert!(expected.is_some());
    assert_eq!(placement_request(&placement_json_with_extra(&long_value)), expected);
    let many: Vec<String> = (0..8000).map(|i| format!("\"key{:05}\": {}", i, i)).collect();
    let text = placement_json_with_extra(&format!("\"more\": {{{}}}", many.join(", ")));
    assert_eq!(placement_request(&text), expected);
    let small_exponent = placement_json_with_extra("\"extra\": 2.5e00000000000000000000003");
    assert_eq!(placement_request(&small_exponent), expected);
}
