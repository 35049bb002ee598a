//! The computer player of the word game: its dictionary, GADDAG and difficulty, and the
//! decision it makes before it picks a move.
use vstd::prelude::*;
use crate::dict::FstDictionary;
use crate::difficulty::Difficulty;
use crate::gaddag::Gaddag;
use crate::game::WordGame;
use crate::movegen::{all_good, best_first, generate_moves, generation_of, rack_slots, CandidateMove};

verus! {

/// AI opponent for the word game.
pub struct WordGameAi {
    pub gaddag: Gaddag,
    pub dictionary: FstDictionary,
    pub difficulty: Difficulty,
}

/// What the computer player does on a turn, before it picks among moves.
pub enum AiTurn {
    /// The game is over, or it is not this player's turn.
    NoAction,
    /// No move can be made: pass.
    Pass,
    /// Pick one of these moves, best first.
    Choose(Vec<CandidateMove>),
}

impl WordGameAi {
    pub fn new(gaddag: Gaddag, dictionary: FstDictionary, difficulty: Difficulty) -> (ai: Self)
        ensures
            ai.gaddag == gaddag,
            ai.dictionary == dictionary,
            ai.difficulty == difficulty,
    {
        WordGameAi { gaddag, dictionary, difficulty }
    }

    /// The computer player's turn for `player_idx`: nothing when the game is over or another
    /// player is to move; otherwise the moves its rack can make on the board, or a pass when
    /// there are none.
    pub fn plan_turn(&self, game: &WordGame, player_idx: usize) -> (t: AiTurn)
        ensures
            ({
                let s = game.spec_state();
                match t {
                    AiTurn::NoAction => s.finished || s.current_player_idx != player_idx || player_idx
                        >= s.players@.len(),
                    AiTurn::Pass => {
                        &&& !s.finished && s.current_player_idx == player_idx && player_idx
                            < s.players@.len()
                        &&& generation_of(s.board, rack_slots(s.players@[player_idx as int].rack.tiles@), self.dictionary.keys(), self.gaddag.bytes(), Seq::empty())
                    },
                    AiTurn::Choose(moves) => {
                        &&& !s.finished && s.current_player_idx == player_idx && player_idx
                            < s.players@.len()
                        &&& moves@.len() > 0
                        &&& generation_of(s.board, rack_slots(s.players@[player_idx as int].rack.tiles@), self.dictionary.keys(), self.gaddag.bytes(), moves@)
                        &&& all_good(s.board, rack_slots(s.players@[player_idx as int].rack.tiles@), self.dictionary.keys(), self.gaddag.bytes(), moves@)
                        &&& best_first(moves@)
                    },
                }
            }),
    {
        let state = game.state();
        if state.finished {
            return AiTurn::NoAction;
        }
        if state.current_player_idx != player_idx {
            return AiTurn::NoAction;
        }
        let player = match game.player_state(player_idx) {
            Some(p) => p,
            None => {
                return AiTurn::NoAction;
            },
        };
        let moves = generate_moves(&state.board, player.rack.tiles.as_slice(), &self.gaddag, &self.dictionary);
        if moves.len() == 0 {
            assert(moves@ =~= Seq::<CandidateMove>::empty());
            return AiTurn::Pass;
        }
        AiTurn::Choose(moves)
    }
}

} // verus!
