# rusty_go

The rules of Go on a square board, verified with Verus, and a Bevy front end.

- `src/board.rs` — stones, the `Board` state, a new game, column labels.
- `src/grid.rs` — geometry of the board, walks over stones, groups, liberties.
- `src/group.rs` — flood fill over a group, liberty test, group removal.
- `src/capture.rs` — what a move captures, and lemmas on removing groups.
- `src/rules.rs` — playing a stone (captures, suicide, ko), clicks, pass and
  new game keys, the hover preview.
- `src/scoring.rs` — territory counting and the final score.
- `src/laws.rs` — properties of the rules proved for every position.
- `app/` — the Bevy program: window, drawing, input, and the score screen.
