# freyja_engine

A four-player chess engine library (14x14 board, Red/Blue/Yellow/Green),
verified with Verus.

- `src/` is the verified library: board representation, FEN4, move
  generation, make/unmake, game state and rules, evaluation terms on
  integers, move ordering, the Max^n / two-player alpha-beta search, the
  protocol's command and option parsing, and the NNUE network on integers.
- `app/` holds what stays outside: the program's I/O loop, the
  floating-point parts (MCTS, influence/tension/swarm features, the
  hybrid searcher) and the clock-driven protocol plumbing.
- `tests/` runs the library.

Move lists are plain `Vec<Move>`, whose contents vstd specifies, rather
than a fixed-capacity array vector; `arrayvec` is not used by the library.
