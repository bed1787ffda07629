# tetrust

A Tetris game engine with a websocket game server around it.

- `src/` is the verified library (Verus): the field (`board`, `grid`), the game
  (`tetris`, `motion`, `rotation`, `placement`), the session that turns players'
  commands into game operations (`webtetris`), the pace and commands of the
  game's driver (`driver`), the framing of messages to the account service
  (`framing`), the choice of game rooms (`rooms`) and the laws proved of them
  (`laws`, `stacking`).
- `app/` is the server: websockets, channels, timers and the account service
  connection, all driving the library.
- `tests/` runs the library on concrete games.
