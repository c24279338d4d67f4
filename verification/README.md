# matrix_io

A multiplayer game of territories: players walk out of their land, draw a trail, and take what the
trail cuts off when they come back. Whoever crosses a trail kills its owner.

`src/` is the game as a verified library. It does no input or output, holds numbers as the bits of
64-bit floats, and does their arithmetic in verified integer code.

- `float64`, `rounding`: numbers, their arithmetic and comparisons, and what rounding keeps.
- `geometry`, `segments`, `spatial_hash`, `sight`: crossings, outlines, captured polygons, boxes;
  what holds of crossings; a grid that finds who is near, and the proof that it loses nobody in
  sight.
- `protocol`, `codec`, `wire`: messages, as words and texts, and as bytes through Cap'n Proto.
- `player`, `game`, `spawn`, `tick`, `capture`, `update`, `broadcast`, `ranking`: the server's
  game. A tick is a sequence of questions and answers (`update::Phase`, `update::Answer`): what
  needs floating point functions or polygon operations is asked for and handed back.
- `laws`, `course`, `standing`, `board`, `edge`: what holds of every game, whatever its players do;
  of a whole tick; of rankings and the crown; of the radius of the board and who is put onto it.
- `client`, `input`, `render`, `text`: the client's state, what touches, keys and the wheel do to
  it, and the list of drawing operations that shows it.

`app/` runs the library: a server on `axum` and `tokio`, the polygon operations of `geo`, and a
client for browsers.
