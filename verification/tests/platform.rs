use wabble::game::{WordAction, WordGame, WordGameConfig};
use wabble::game_trait::TurnBasedGame;
use wabble::lobby::{Lobby, LobbyError};
use wabble::match_state::{Match, MatchPhase};
use wabble::player::{PlayerId, PlayerProfile};

fn lobby(max: usize) -> Lobby {
    Lobby::new(1, PlayerId(10), "words".to_string(), max, vec![1, 2], 99)
}

#[test]
fn lobby_starts_with_host() {
    let l = lobby(3);
    assert_eq!(l.players, vec![PlayerId(10)]);
    assert_eq!(l.max_players, 3);
    assert_eq!(l.created_at, 99);
    assert!(!l.is_full());
}

#[test]
fn lobby_join_until_full() {
    let mut l = lobby(2);
    assert_eq!(l.join(PlayerId(11)), Ok(()));
    assert!(l.is_full());
    assert_eq!(l.join(PlayerId(12)), Err(LobbyError::Full));
    assert_eq!(l.players, vec![PlayerId(10), PlayerId(11)]);
}

#[test]
fn lobby_refuses_second_join() {
    let mut l = lobby(4);
    assert_eq!(l.join(PlayerId(10)), Err(LobbyError::AlreadyJoined));
    assert_eq!(l.players.len(), 1);
}

#[test]
fn lobby_join_then_leave_restores() {
    let mut l = lobby(4);
    l.join(PlayerId(11)).unwrap();
    l.join(PlayerId(12)).unwrap();
    assert_eq!(l.leave(PlayerId(11)), Ok(()));
    assert_eq!(l.players, vec![PlayerId(10), PlayerId(12)]);
    assert_eq!(l.leave(PlayerId(11)), Err(LobbyError::NotInLobby));
    assert_eq!(l.leave(PlayerId(12)), Ok(()));
    assert_eq!(l.players, vec![PlayerId(10)]);
}

#[test]
fn lobby_error_messages() {
    assert_eq!(LobbyError::Full.message(), "lobby is full");
    assert_eq!(LobbyError::AlreadyJoined.message(), "player already in lobby");
    assert_eq!(LobbyError::NotInLobby.message(), "player not in lobby");
}

#[test]
fn profile_starts_at_default_rating() {
    let p = PlayerProfile::new(PlayerId(5), "Ada".to_string());
    assert_eq!(p.id, PlayerId(5));
    assert_eq!(p.display_name, "Ada");
    assert_eq!(p.elo, 1200);
    assert_eq!(p.games_played, 0);
    assert_eq!(p.games_won, 0);
}

#[test]
fn match_phase_follows_player_count() {
    let game = WordGame::new_game(&WordGameConfig::default(), 2, 7);
    let waiting = Match::new(game.clone(), vec![PlayerId(1)], 5);
    assert_eq!(waiting.phase, MatchPhase::WaitingForPlayers);
    let started = Match::new(game, vec![PlayerId(1), PlayerId(2)], 5);
    assert_eq!(started.phase, MatchPhase::InProgress);
    assert_eq!(started.turn_number, 0);
    assert_eq!(started.created_at, 5);
    assert_eq!(started.updated_at, 5);
}

#[test]
fn match_counts_accepted_turns() {
    let game = WordGame::new_game(&WordGameConfig::default(), 2, 7);
    let mut m = Match::new(game, vec![PlayerId(1), PlayerId(2)], 5);
    assert!(m.apply_action(1, WordAction::Pass, 6).is_err());
    assert_eq!(m.turn_number, 0);
    assert_eq!(m.updated_at, 5);
    assert!(m.apply_action(0, WordAction::Pass, 7).is_ok());
    assert_eq!(m.turn_number, 1);
    assert_eq!(m.updated_at, 7);
    assert_eq!(m.phase, MatchPhase::InProgress);
}

#[test]
fn match_finishes_with_game() {
    let game = WordGame::new_game(&WordGameConfig::default(), 2, 7);
    let mut m = Match::new(game, vec![PlayerId(1), PlayerId(2)], 0);
    for turn in 0..6u64 {
        let player = (turn % 2) as usize;
        m.apply_action(player, WordAction::Pass, turn + 1).unwrap();
    }
    assert!(m.game.is_finished());
    assert_eq!(m.phase, MatchPhase::Finished);
    assert_eq!(m.turn_number, 6);
    assert_eq!(<WordGame as TurnBasedGame>::player_count_range(), (2, 4));
    assert!(<WordGame as TurnBasedGame>::results(&m.game).is_some());
}
