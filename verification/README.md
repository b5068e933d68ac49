# ecs_game

A small multiplayer game kit: an entity-component core, a cooperative and
competitive minesweeper, and the logic of a room-based game server. The
library under `src/` is written in Verus and every function there is
verified; each public function states what it returns or changes, except
where the value rests on chance, the clock or the machine (a fresh random
identifier, a type tag), where the contract says what holds of every
outcome or nothing.

## Layout

- `src/ecs/` — entities, component storage, queries and system ordering.
- `src/game/` — the minesweeper board and its rooms, the game's screen
  state machine, and shared resources (settings, asset paths).
- `src/input.rs` — held keys and mouse buttons, and the named actions
  bound to them, with key repeat.
- `src/server/` — configuration, helpers (timestamps, rate limiting,
  query strings, short ids), players, rooms and the room registry, lobby
  rooms with spectators and time-outs, the lobby request handler that
  checks each client request against its session and carries it out on
  the lobby rooms, the turn-based base game and the server's minesweeper.
- `src/platform.rs` — the trusted edge: clock, randomness, identifiers and
  JSON values, each a thin call into `std`, `rand`, `uuid` or
  `serde_json` whose contract states what that call's documentation or
  source promises.
- `app/` — what stays outside the proofs: type-indexed managers built on
  `std::any`, floating-point state (resources, pointer and touch input,
  gestures, network positions), the JSON wire types with serde's derives,
  game snapshots, and the glue from client messages to the room registry
  and the lobby handler.
- `tests/` — ordinary Rust tests of the library.

## Main guarantees

- A minesweeper board lays exactly the requested number of mines (bounded
  by the room outside the first move's safe zone), never next to the first
  opened square; the first reveal never loses; a flood opens exactly the
  closed squares reachable through squares with no mine around them, and
  never a mine beyond its first square.
- Room membership, hosts, readiness and scores keep the registry's
  invariants (one room per player, distinct ids, bounded seats).
- Each lobby request is refused with exactly the first check it fails,
  and otherwise changes the rooms and the session as stated, naming every
  recipient of what is to be sent.
- A held input action keeps the time it started; storage of components
  behaves as a map over any run of inserts, removals and clears.
- The rate limiter never admits more requests than its limit within its
  window.
