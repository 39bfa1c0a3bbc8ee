# Bear Game Solver

The Bear Game on an undirected board graph: one bear and three hunters take
turns moving along edges. The hunters win when the bear has no legal move;
the bear wins when the hunters have used up their turn limit (or cannot
move). The library solves positions by exhaustive minimax with memoization,
with perfect play for both sides, and every function carries a contract
checked by Verus.

## Layout

- `src/game.rs` – board definitions, states, moves, outcomes, and their views.
- `src/graph.rs` – board validation and the graph built from a board.
- `src/rules.rs` – positions by node index, legal moves, applying a move.
- `src/minimax.rs` – the mathematical definition of perfect play and its laws.
- `src/solver.rs` – the memoizing solver, state evaluation, move generation.
- `src/play.rs` – example lines of play and recommended moves.
- `src/explore.rs` – the states reachable from a start, counts and policy.
- `src/laws.rs` – laws that tie the solver, the evaluation and the board together.
- `src/api.rs` – the web interface's requests and answers.
- `src/debug.rs`, `src/render.rs` – text listing and SVG picture of the board.
- `src/text.rs`, `src/cli.rs` – text helpers and `--limit` parsing.
- `app/` – the command line (`validate`, `moves`, `solve`, `policy`,
  `render-svg`, `serve`), the board the commands use, and the web server.

Coordinates are used for layout only; positive Y is down. Legal movement is
determined by the listed edges alone.
