//! Results of turns and of whole games, and the phases of a match.
use vstd::prelude::*;
use crate::game_trait::TurnBasedGame;
use crate::player::PlayerId;

verus! {

/// Result of applying a single turn action.
#[derive(Debug, Clone)]
pub struct TurnResult {
    pub score_delta: i32,
    pub turn_summary: String,
}

/// Final results of a completed game.
#[derive(Debug, Clone)]
pub struct GameResults {
    pub player_scores: Vec<i32>,
    /// Index of the winner. None = draw.
    pub winner: Option<usize>,
}

/// Phase of a match lifecycle.
#[derive(Debug, Clone, Copy, PartialEq, Eq, Structural)]
pub enum MatchPhase {
    WaitingForPlayers,
    InProgress,
    Finished,
}

/// The phase a match starts in: under way once it has enough players.
pub open spec fn starting_phase(num_ids: int, min_players: int) -> MatchPhase {
    if num_ids >= min_players {
        MatchPhase::InProgress
    } else {
        MatchPhase::WaitingForPlayers
    }
}

/// Game-agnostic match wrapper.
#[derive(Clone)]
pub struct Match<G: TurnBasedGame> {
    pub game: G,
    pub phase: MatchPhase,
    pub player_ids: Vec<PlayerId>,
    pub turn_number: u32,
    pub created_at: u64,
    pub updated_at: u64,
}

impl<G: TurnBasedGame> Match<G> {
    /// A match at turn 0, under way when it has as many players as the game needs.
    pub fn new(game: G, player_ids: Vec<PlayerId>, now: u64) -> (m: Self)
        ensures
            m.game == game,
            m.player_ids@ == player_ids@,
            m.phase == starting_phase(player_ids@.len() as int, G::count_range().0 as int),
            m.turn_number == 0,
            m.created_at == now,
            m.updated_at == now,
    {
        let phase = if player_ids.len() >= G::player_count_range().0 {
            MatchPhase::InProgress
        } else {
            MatchPhase::WaitingForPlayers
        };
        Match { game, phase, player_ids, turn_number: 0, created_at: now, updated_at: now }
    }

    /// Applies an action to the game. An accepted action counts a turn, stamps the match
    /// with `now`, and finishes the match when it finishes the game; a refused one leaves
    /// the match's own fields as they were.
    pub fn apply_action(&mut self, player_idx: usize, action: G::Action, now: u64) -> (r: Result<
        TurnResult,
        G::Error,
    >)
        requires
            old(self).game.valid(),
            old(self).turn_number < u32::MAX,
        ensures
            final(self).game.valid(),
            G::action_result(old(self).game, final(self).game, player_idx as int, action, r),
            final(self).player_ids == old(self).player_ids,
            final(self).created_at == old(self).created_at,
            r is Ok ==> final(self).turn_number == old(self).turn_number + 1 && final(self).updated_at == now
                && final(self).phase == if final(self).game.over() {
                MatchPhase::Finished
            } else {
                old(self).phase
            },
            r is Err ==> final(self).turn_number == old(self).turn_number && final(self).updated_at
                == old(self).updated_at && final(self).phase == old(self).phase,
    {
        let result = match self.game.apply_action(player_idx, action) {
            Ok(res) => res,
            Err(e) => {
                return Err(e);
            },
        };
        self.turn_number = self.turn_number + 1;
        self.updated_at = now;
        if self.game.is_finished() {
            self.phase = MatchPhase::Finished;
        }
        Ok(result)
    }
}

} // verus!
