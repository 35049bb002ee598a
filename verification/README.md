# wabble

A turn-based word game on a 15x15 board, with its rules, a dictionary and a GADDAG
stored as finite-state transducers, and a computer opponent, written in Verus: every
function under `src/` carries a contract that the verifier proves.

## Layout

- `src/tile.rs`, `board.rs`, `rack.rs`, `placement.rs`, `scoring.rs`, `game.rs`: the
  rules: tiles and the bag, the board and its bonus squares, legal placements, scores,
  and the game state machine. No action creates a tile, and no accepted action loses
  one; a placement refused because one of its tiles is not on the rack leaves out of the
  rack the tiles taken from it before that one.
- `src/game_trait.rs`, `ai.rs`, `match_state.rs`, `player.rs`, `lobby.rs`: the
  game-agnostic platform: the turn-based game trait, matches and lobbies.
- `src/fst_set.rs`, `keys.rs`, `dict.rs`, `gaddag.rs`: the dictionary and the GADDAG,
  built with the `fst` crate; `fst_set.rs` holds the trusted declarations of what the
  calls into `fst` do.
- `src/movegen.rs`, `difficulty.rs`, `word_ai.rs`: move generation (cross-checks,
  anchors, the GADDAG walk, scoring of candidates) and the computer player's choices.
- `src/move_scores.rs`: the proof that move generation scores a placement the game
  accepts exactly as the game does.
- `src/pending.rs`, `session.rs`: the flow of a session on screen: tiles being placed,
  the score preview, the panels' texts, the turn buttons and the computer's timing.
- `src/cli.rs`: the arguments of the dictionary builder.
- `src/random.rs`, `text.rs`: seeded randomness (trusted, over `rand`) and text helpers.
- `app/`: the dictionary builder program (file I/O) and the hard computer player, whose
  rack-leave evaluation uses floating point.
- `tests/`: tests of the library.
