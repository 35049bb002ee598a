//! A lobby where players gather before a match starts.
use vstd::prelude::*;
use crate::player::PlayerId;
use crate::text::owned;

verus! {

/// Why a lobby refused a player.
#[derive(Debug, Clone, PartialEq, Eq, Structural)]
pub enum LobbyError {
    Full,
    AlreadyJoined,
    NotInLobby,
}

/// The message that describes a lobby error.
pub open spec fn lobby_error_text(e: LobbyError) -> Seq<char> {
    match e {
        LobbyError::Full => "lobby is full"@,
        LobbyError::AlreadyJoined => "player already in lobby"@,
        LobbyError::NotInLobby => "player not in lobby"@,
    }
}

impl LobbyError {
    /// The message that describes this error.
    pub fn message(&self) -> (s: String)
        ensures
            s@ == lobby_error_text(*self),
    {
        match self {
            LobbyError::Full => owned("lobby is full"),
            LobbyError::AlreadyJoined => owned("player already in lobby"),
            LobbyError::NotInLobby => owned("player not in lobby"),
        }
    }
}

/// The players after `p` asks to join, and the answer: refused when the lobby is full, then
/// when `p` is already in it; otherwise `p` joins at the end.
pub open spec fn join_outcome(players: Seq<PlayerId>, max_players: int, p: PlayerId) -> (Seq<PlayerId>, Result<(), LobbyError>) {
    if players.len() >= max_players {
        (players, Err(LobbyError::Full))
    } else if players.contains(p) {
        (players, Err(LobbyError::AlreadyJoined))
    } else {
        (players.push(p), Ok(()))
    }
}

/// The first position of `p` among the players.
pub open spec fn first_index(players: Seq<PlayerId>, p: PlayerId) -> int {
    choose|i: int| 0 <= i < players.len() && players[i] == p && forall|j: int| 0 <= j < i ==> players[j] != p
}

/// `i` is the first position of `p` among the players.
proof fn lemma_first_index(players: Seq<PlayerId>, p: PlayerId, i: int)
    requires
        0 <= i < players.len(),
        players[i] == p,
        forall|j: int| 0 <= j < i ==> players[j] != p,
    ensures
        first_index(players, p) == i,
{
    let k = first_index(players, p);
    assert(0 <= k < players.len() && players[k] == p && forall|j: int| 0 <= j < k ==> players[j] != p);
    if k < i {
        assert(players[k] != p);
    } else if k > i {
        assert(players[i] != p);
    }
}

/// The players after `p` asks to leave, and the answer: refused when `p` is not in the
/// lobby; otherwise its first entry goes.
pub open spec fn leave_outcome(players: Seq<PlayerId>, p: PlayerId) -> (Seq<PlayerId>, Result<(), LobbyError>) {
    if players.contains(p) {
        (players.remove(first_index(players, p)), Ok(()))
    } else {
        (players, Err(LobbyError::NotInLobby))
    }
}

/// A lobby where players gather before a match starts.
#[derive(Debug, Clone)]
pub struct Lobby {
    pub id: u64,
    pub host: PlayerId,
    pub game_type: String,
    pub players: Vec<PlayerId>,
    pub max_players: usize,
    pub config_data: Vec<u8>,
    pub created_at: u64,
}

impl Lobby {
    /// A lobby with its host as the only player.
    pub fn new(
        id: u64,
        host: PlayerId,
        game_type: String,
        max_players: usize,
        config_data: Vec<u8>,
        now: u64,
    ) -> (l: Self)
        ensures
            l.id == id,
            l.host == host,
            l.game_type@ == game_type@,
            l.players@ == seq![host],
            l.max_players == max_players,
            l.config_data@ == config_data@,
            l.created_at == now,
    {
        Lobby { id, host, game_type, players: vec![host], max_players, config_data, created_at: now }
    }

    /// Whether the lobby has no room left.
    pub fn is_full(&self) -> (r: bool)
        ensures
            r == (self.players@.len() >= self.max_players),
    {
        self.players.len() >= self.max_players
    }

    /// Adds a player, unless the lobby is full or holds the player already.
    pub fn join(&mut self, player: PlayerId) -> (r: Result<(), LobbyError>)
        ensures
            (final(self).players@, r) == join_outcome(old(self).players@, old(self).max_players as int, player),
            final(self).id == old(self).id,
            final(self).host == old(self).host,
            final(self).game_type == old(self).game_type,
            final(self).max_players == old(self).max_players,
            final(self).config_data == old(self).config_data,
            final(self).created_at == old(self).created_at,
    {
        if self.is_full() {
            return Err(LobbyError::Full);
        }
        let mut i: usize = 0;
        while i < self.players.len()
            invariant
                i <= self.players@.len(),
                *self == *old(self),
                self.players@.len() < self.max_players,
                forall|k: int| 0 <= k < i ==> self.players@[k] != player,
            decreases self.players@.len() - i,
        {
            if self.players[i] == player {
                assert(self.players@[i as int] == player);
                assert(self.players@.contains(player));
                return Err(LobbyError::AlreadyJoined);
            }
            i = i + 1;
        }
        self.players.push(player);
        Ok(())
    }

    /// Removes a player, who must be in the lobby.
    pub fn leave(&mut self, player: PlayerId) -> (r: Result<(), LobbyError>)
        ensures
            (final(self).players@, r) == leave_outcome(old(self).players@, player),
            final(self).id == old(self).id,
            final(self).host == old(self).host,
            final(self).game_type == old(self).game_type,
            final(self).max_players == old(self).max_players,
            final(self).config_data == old(self).config_data,
            final(self).created_at == old(self).created_at,
    {
        let mut i: usize = 0;
        while i < self.players.len()
            invariant
                i <= self.players@.len(),
                *self == *old(self),
                forall|k: int| 0 <= k < i ==> self.players@[k] != player,
            decreases self.players@.len() - i,
        {
            if self.players[i] == player {
                proof {
                    lemma_first_index(self.players@, player, i as int);
                    assert(self.players@.contains(player));
                }
                self.players.remove(i);
                return Ok(());
            }
            i = i + 1;
        }
        proof {
            if self.players@.contains(player) {
                let j = choose|j: int| 0 <= j < self.players@.len() && self.players@[j] == player;
                assert(self.players@[j] != player);
            }
        }
        Err(LobbyError::NotInLobby)
    }
}

/// A player who joins a lobby and then leaves it leaves the lobby as it was.
pub proof fn lemma_join_then_leave(players: Seq<PlayerId>, max_players: int, p: PlayerId)
    requires
        join_outcome(players, max_players, p).1 is Ok,
    ensures
        leave_outcome(join_outcome(players, max_players, p).0, p) == (players, Ok::<(), LobbyError>(())),
{
    let joined = players.push(p);
    assert(!players.contains(p));
    assert forall|j: int| 0 <= j < players.len() implies joined[j] != p by {
        if joined[j] == p {
            assert(players[j] == p);
        }
    }
    lemma_first_index(joined, p, players.len() as int);
    assert(joined[players.len() as int] == p);
    assert(joined.contains(p));
    assert(joined.remove(players.len() as int) =~= players);
}

/// Joining never lets a lobby hold a player twice.
pub proof fn lemma_join_keeps_players_distinct(players: Seq<PlayerId>, max_players: int, p: PlayerId)
    requires
        players.no_duplicates(),
    ensures
        join_outcome(players, max_players, p).0.no_duplicates(),
{
    let (after, r) = join_outcome(players, max_players, p);
    if r is Ok {
        assert forall|i: int, j: int| 0 <= i < after.len() && 0 <= j < after.len() && i != j implies after[i]
            != after[j] by {
            if i == players.len() as int {
                assert(players[j] != p) by {
                    if players[j] == p {
                        assert(players.contains(p));
                    }
                }
            } else if j == players.len() as int {
                assert(players[i] != p) by {
                    if players[i] == p {
                        assert(players.contains(p));
                    }
                }
            }
        }
    }
}

/// Joining never takes a lobby past its size.
pub proof fn lemma_join_respects_size(players: Seq<PlayerId>, max_players: int, p: PlayerId)
    requires
        players.len() <= max_players,
    ensures
        join_outcome(players, max_players, p).0.len() <= max_players,
{
}

} // verus!
