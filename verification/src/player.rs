//! Players of the platform: their identifiers and profiles.
use vstd::prelude::*;

verus! {

/// Unique player identifier.
#[derive(Debug, Clone, Copy, PartialEq, Eq, Hash, Structural)]
pub struct PlayerId(pub u64);

/// Player profile with stats.
#[derive(Debug, Clone)]
pub struct PlayerProfile {
    pub id: PlayerId,
    pub display_name: String,
    pub elo: i32,
    pub games_played: u32,
    pub games_won: u32,
}

impl PlayerProfile {
    /// A new player: rated 1200, with no game played yet.
    pub fn new(id: PlayerId, display_name: String) -> (p: Self)
        ensures
            p.id == id,
            p.display_name@ == display_name@,
            p.elo == 1200,
            p.games_played == 0,
            p.games_won == 0,
    {
        PlayerProfile { id, display_name, elo: 1200, games_played: 0, games_won: 0 }
    }
}

} // verus!
