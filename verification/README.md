# bevy_bits

The game logic of a set of micro games ("bits"), verified with Verus.

- `src/` is the verified library, one module per game: maze generation and
  the maze walk, the sliding puzzle, code breaking, the memory games, the
  quiz, whack-a-mole, the tower, match three, and the scoring and
  progression rules of the shape and reflex games. `random.rs` holds the
  only trusted items: the calls into `rand` and `fastrand`, each stating only
  what holds of every draw. Each module's laws are public proof functions
  named `law_*`; some are stated as postconditions, such as that the open
  walls of a generated maze form a tree spanning all its cells.
- `tests/` runs the library on concrete boards and rounds.
- `app/` holds what the verifier does not take: the text the screens show,
  floating-point geometry (cursor to grid cell, collisions), and the
  match-three redraw loop, which ends only with probability one.
