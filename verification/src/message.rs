use vstd::prelude::*;

verus! {

/// A compass direction on the board; north decreases `y`, west decreases `x`.
#[derive(Copy, Clone, Debug, PartialEq, Eq, Structural)]
pub enum Direction {
    North,
    East,
    South,
    West,
}

/// Where a ship is put at the start of a game, and which way it points.
#[derive(Copy, Clone, Debug, PartialEq, Eq, Structural)]
pub struct ShipPlacement {
    pub x: u8,
    pub y: u8,
    pub direction: Direction,
}

/// The messages exchanged between client and server.
#[derive(Clone, Debug, PartialEq)]
pub enum Message {
    LoginRequest { username: String },
    ChallengePlayerRequest { username: String },
    ReadyRequest,
    NotReadyRequest,
    PlaceShipsRequest { placement: [ShipPlacement; 5] },
    ShootRequest { x: u8, y: u8 },
    MoveAndShootRequest { x: u8, y: u8, id: u8, direction: Direction },
    OkResponse,
    NameTakenResponse { nickname: String },
    EnemyVisibleUpdate { x: u8, y: u8 },
    EnemyInvisibleUpdate { x: u8, y: u8 },
}

} // verus!
