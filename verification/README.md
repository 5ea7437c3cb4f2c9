# board_games

A server for playing chess, checkers, go and gomoku in the browser, against
another person or the computer. The rules, the computer players, the rooms
and the handling of each message are a Verus library whose behaviour is
stated in contracts and proved; a thin actix-web program serves it.

## Layout

- `src/games/` — the four games and what they share.
  - `mod.rs`: colours, statuses, game types, move payloads and refusals,
    the `Game` enum that dispatches to the games, and `create_game`.
  - `chess.rs`, `checkers.rs`, `go.rs`, `gomoku.rs`: each game's state, its
    mathematical model (`position()` / `state()`), the rules as spec
    functions, `make_move` with an exact contract, and the computer
    players, whose searches are proved to compute the stated minimax
    values.
- `src/lobby.rs` — rooms, seats, and the set of rooms with the lobby list.
- `src/protocol.rs` — how a message's text reads, what each request and
  WebSocket message does to the rooms, and which messages go to whom.
- `tests/` — tests on concrete games, rooms and messages.
- `app/` — the HTTP routes, WebSocket sessions and JSON, around the library.

Each module ends with the laws it proves as public proof functions, such as
that a refused move leaves a game unchanged, that a seat is never taken
over, or that a second pass in a row ends a game of go.

## Running

The server listens on port 8080 and serves the client from `./static`.
