//! The interface a turn-based game offers to the platform.
use vstd::prelude::*;
use crate::match_state::{GameResults, TurnResult};

verus! {

/// A turn-based game that can be plugged into the platform.
pub trait TurnBasedGame: Sized + Clone {
    /// Opaque game state (board, pieces, etc.)
    type State;
    /// A player's private state (hand, hidden info)
    type PlayerState;
    /// An action a player can take on their turn
    type Action;
    /// Public view of game state (what spectators/opponents can see)
    type PublicView;
    /// Game configuration / settings
    type Config;
    /// Game-specific error type
    type Error;

    /// The invariant a game keeps from its creation through every action.
    spec fn valid(&self) -> bool;

    /// Whether the game is over.
    spec fn over(&self) -> bool;

    /// The smallest and largest number of players.
    spec fn count_range() -> (usize, usize);

    /// What applying `action` for player `player` to game `before` may give: the game
    /// `after` and the result `r`.
    spec fn action_result(
        before: Self,
        after: Self,
        player: int,
        action: Self::Action,
        r: Result<TurnResult, Self::Error>,
    ) -> bool;

    /// Create a new game with the given number of players.
    fn new_game(config: &Self::Config, num_players: usize, rng_seed: u64) -> (g: Self)
        requires
            Self::count_range().0 <= num_players <= Self::count_range().1,
        ensures
            g.valid(),
    ;

    /// Get the full game state.
    fn state(&self) -> &Self::State;

    /// Get a player's private state (rack, hand, etc.).
    fn player_state(&self, player_idx: usize) -> Option<&Self::PlayerState>;

    /// Get the public view (for spectators/opponents).
    fn public_view(&self) -> Self::PublicView;

    /// Which player's turn is it? None if game is over.
    fn current_player(&self) -> (r: Option<usize>)
        ensures
            r is None <==> self.over(),
    ;

    /// Validate and apply an action. Returns score delta (if applicable).
    fn apply_action(&mut self, player_idx: usize, action: Self::Action) -> (r: Result<TurnResult, Self::Error>)
        requires
            old(self).valid(),
        ensures
            final(self).valid(),
            Self::action_result(*old(self), *final(self), player_idx as int, action, r),
    ;

    /// Is the game finished?
    fn is_finished(&self) -> (r: bool)
        ensures
            r == self.over(),
    ;

    /// Final results (scores, winner, etc.).
    fn results(&self) -> (r: Option<GameResults>)
        ensures
            r is Some <==> self.over(),
    ;

    /// Number of players.
    fn num_players(&self) -> usize;

    /// Minimum/maximum player count for this game type.
    fn player_count_range() -> (r: (usize, usize))
        ensures
            r == Self::count_range(),
    ;
}

} // verus!
