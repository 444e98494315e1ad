# robotac

Rules, move generation, evaluation and card knowledge for the board game Tac,
with an information-set Monte Carlo tree search to play it, verified with Verus.

- `src/` is the verified library: the board and its bit sets (`bitboard`, `bits`,
  `square`, `color`, `home`), the cards (`card`, `deck`, `hand`), moves and their
  packing (`tacmove`), the board and its rules (`board`), move generation
  (`movegen`, `seven`), evaluation (`eval`), what each player knows of the others'
  cards (`knowledge`), game records (`history`), the search (`mcts`) and a
  transposition table (`transposition`).
- `app/` is a terminal front end: drawing, keys, saved games, the search's game
  binding and its floating-point UCT policy.
- `tests/` holds the tests.
