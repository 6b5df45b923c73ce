# rusty_battleships

The game logic of a two-player battleship client and server, verified with Verus.

- `src/board.rs`: ships, cells and the board; shots (`Board::hit`), ship moves
  (`Ship::move_me`) and the recomputation of the grid from the afloat ships
  (`Board::compute_state`).
- `src/fleet.rs`: the model of a recomputation: the cells the afloat ships take,
  whether they fit, and the visibility messages it causes.
- `src/laws.rs`: properties that span operations (stable recomputation, shots on a
  recomputed board, the health a hit costs, when a fleet is sunk).
- `src/message.rs`: the messages between client and server.
- `src/json.rs`: JSON values read with rustc-serialize and lookups in them.
- `src/placement.rs`: reading the ship placements from JSON text and the order in
  which the client sends them.
- `src/client.rs`: the client's requests, its text views of the boards and the
  reading of server announcements.
- `app/`: the Qt front end of the client (needs Qt and CMake to build).
