# rusty_duke

A Coup game engine for two to six players, with its rules, per-player
observations, determinization of an information set, and bots from uniform
random play to information-set Monte Carlo tree search — verified with Verus.

## Layout

- `src/cards.rs`, `src/state.rs`, `src/players.rs`: the cards, the game's data
  and their mathematical models.
- `src/rules.rs`: the rules as spec functions: legal moves, every transition
  (`apply`), and the well-formedness of a state.
- `src/game.rs`, `src/moves.rs`, `src/setup.rs`, `src/hands.rs`: the
  executable engine, each function proved against the rules — legal moves,
  making a move, dealing, observing and determinizing.
- `src/invariants.rs`: why every step keeps a state well formed.
- `src/laws.rs`: properties across moves and functions — seats and cards are
  kept, legal moves are accepted, a determinization looks to its viewer like
  the real game, and more.
- `src/interface.rs`: the `CoupGame` driver interface.
- `src/engine/`: evaluation, rollout policies, bots, the ISMCTS search and the
  benchmark harness.
- `src/random.rs`: the calls into `rand`, with the contracts they are trusted
  to meet.
- `app/`: floating-point rates and fractions on top of the integer results.

Scores are integers out of `WIN_SCORE` (twelve thousand for a win), and
the UCB exploration constant is given in thousandths.
