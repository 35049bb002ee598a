use wabble::error::WordGameError;
use wabble::game::{WordAction, WordGame, WordGameConfig, WordValidator};
use wabble::placement::PlacedTile;
use wabble::tile::Tile;

fn new_game() -> WordGame {
    WordGame::new_game(&WordGameConfig::default(), 2, 42)
}

#[test]
fn game_starts_correctly() {
    let game = new_game();
    assert_eq!(game.num_players(), 2);
    assert_eq!(game.current_player(), Some(0));
    assert!(!game.is_finished());
    // Each player drew 7, bag should have 86
    assert_eq!(game.state().bag.remaining(), 86);
    assert_eq!(game.player_state(0).unwrap().rack.len(), 7);
    assert_eq!(game.player_state(1).unwrap().rack.len(), 7);
}

#[test]
fn wrong_player_cant_move() {
    let mut game = new_game();
    let result = game.apply_action(1, WordAction::Pass);
    assert!(matches!(result, Err(WordGameError::NotYourTurn)));
}

#[test]
fn pass_advances_turn() {
    let mut game = new_game();
    let result = game.apply_action(0, WordAction::Pass);
    assert!(result.is_ok());
    assert_eq!(game.current_player(), Some(1));
}

#[test]
fn six_consecutive_passes_ends_game() {
    let mut game = new_game();
    for i in 0..6 {
        let player = i % 2;
        game.apply_action(player, WordAction::Pass).unwrap();
    }
    assert!(game.is_finished());
    assert!(game.results().is_some());
}

#[test]
fn place_first_word_scores() {
    let mut game = new_game();
    let rack_tiles: Vec<Tile> = game.player_state(0).unwrap().rack.tiles.clone();
    if rack_tiles.len() >= 2 {
        let t0 = rack_tiles[0];
        let t1 = rack_tiles[1];
        let tiles = vec![
            PlacedTile { row: 7, col: 7, tile: t0 },
            PlacedTile { row: 7, col: 8, tile: t1 },
        ];
        let result = game.apply_action(0, WordAction::Place(tiles));
        assert!(result.is_ok());
        let tr = result.unwrap();
        assert!(tr.score_delta > 0 || tr.score_delta == 0); // blanks could score 0
        assert_eq!(game.current_player(), Some(1));
    }
}

#[test]
fn exchange_tiles() {
    let mut game = new_game();
    let first_tile = game.player_state(0).unwrap().rack.tiles[0];
    let result = game.apply_action(0, WordAction::Exchange(vec![first_tile]));
    assert!(result.is_ok());
    assert_eq!(game.current_player(), Some(1));
    // Rack should still have 7 tiles
    assert_eq!(game.player_state(0).unwrap().rack.len(), 7);
}

#[test]
fn public_view_hides_racks() {
    let game = new_game();
    let view = game.public_view();
    assert_eq!(view.scores.len(), 2);
    assert_eq!(view.tiles_remaining, 86);
    assert!(!view.finished);
}

#[test]
fn tile_conservation() {
    let game = new_game();
    let bag_count = game.state().bag.remaining();
    let rack_count: usize = game.state().players.iter().map(|p| p.rack.len()).sum();
    // No tiles on board yet
    assert_eq!(bag_count + rack_count, 100);
}

#[test]
fn full_game_simulation() {
    let mut game = new_game();
    let mut turn = 0;
    while !game.is_finished() && turn < 200 {
        let player = game.current_player().unwrap();
        if turn < 2 {
            let rack = game.player_state(player).unwrap().rack.tiles.clone();
            if turn == 0 && rack.len() >= 2 {
                let tiles = vec![
                    PlacedTile { row: 7, col: 7, tile: rack[0] },
                    PlacedTile { row: 7, col: 8, tile: rack[1] },
                ];
                let _ = game.apply_action(player, WordAction::Place(tiles));
            } else if turn == 1 && rack.len() >= 2 {
                let tiles = vec![
                    PlacedTile { row: 6, col: 7, tile: rack[0] },
                    PlacedTile { row: 8, col: 7, tile: rack[1] },
                ];
                let result = game.apply_action(player, WordAction::Place(tiles));
                if result.is_err() {
                    game.apply_action(player, WordAction::Pass).unwrap();
                }
            } else {
                game.apply_action(player, WordAction::Pass).unwrap();
            }
        } else {
            game.apply_action(player, WordAction::Pass).unwrap();
        }
        turn += 1;
    }
    assert!(game.is_finished());
    let results = game.results().unwrap();
    assert_eq!(results.player_scores.len(), 2);
}

struct RejectAll;

impl WordValidator for RejectAll {
    fn is_valid_word(&self, _word: &str) -> bool {
        false
    }
}

struct AcceptAll;

impl WordValidator for AcceptAll {
    fn is_valid_word(&self, _word: &str) -> bool {
        true
    }
}

#[test]
fn word_validation_rejects_invalid() {
    let config = WordGameConfig { validate_words: true };
    let mut game = WordGame::new_game(&config, 2, 42);
    let rack = game.player_state(0).unwrap().rack.tiles.clone();
    let tiles = vec![
        PlacedTile { row: 7, col: 7, tile: rack[0] },
        PlacedTile { row: 7, col: 8, tile: rack[1] },
    ];
    let result = game.apply_action_with_validator(0, WordAction::Place(tiles), Some(&RejectAll));
    assert!(matches!(result, Err(WordGameError::InvalidWord(_))));
}

#[test]
fn word_validation_accepts_valid() {
    let config = WordGameConfig { validate_words: true };
    let mut game = WordGame::new_game(&config, 2, 42);
    let rack = game.player_state(0).unwrap().rack.tiles.clone();
    let tiles = vec![
        PlacedTile { row: 7, col: 7, tile: rack[0] },
        PlacedTile { row: 7, col: 8, tile: rack[1] },
    ];
    let result = game.apply_action_with_validator(0, WordAction::Place(tiles), Some(&AcceptAll));
    assert!(result.is_ok());
}

#[test]
fn pass_summary_and_history() {
    let mut game = new_game();
    let tr = game.apply_action(0, WordAction::Pass).unwrap();
    assert_eq!(tr.turn_summary, "passed");
    assert_eq!(tr.score_delta, 0);
    let view = game.public_view();
    assert_eq!(view.turn_history.len(), 1);
    assert_eq!(view.turn_history[0].action_type, "pass");
    assert_eq!(game.state().consecutive_zero_turns, 1);
}

#[test]
fn finished_game_refuses_actions() {
    let mut game = new_game();
    for i in 0..6 {
        game.apply_action(i % 2, WordAction::Pass).unwrap();
    }
    assert!(matches!(game.apply_action(0, WordAction::Pass), Err(WordGameError::GameAlreadyFinished)));
    assert_eq!(game.current_player(), None);
}

#[test]
fn six_passes_subtract_rack_values() {
    let mut game = new_game();
    let pen: Vec<i32> = game
        .state()
        .players
        .iter()
        .map(|p| p.rack.tiles.iter().map(|t| t.points() as i32).sum())
        .collect();
    for i in 0..6 {
        game.apply_action(i % 2, WordAction::Pass).unwrap();
    }
    let results = game.results().unwrap();
    assert_eq!(results.player_scores, vec![-pen[0], -pen[1]]);
    let expected_winner = if pen[0] < pen[1] { Some(0) } else if pen[1] < pen[0] { Some(1) } else { None };
    assert_eq!(results.winner, expected_winner);
}

#[test]
fn place_with_tile_not_in_rack() {
    let mut game = new_game();
    let rack = game.player_state(0).unwrap().rack.tiles.clone();
    // A tile that is surely not on the rack: more blanks than the bag holds.
    let blanks = rack.iter().filter(|t| t.is_blank()).count();
    let mut tiles = vec![];
    for k in 0..(blanks + 1) {
        tiles.push(PlacedTile { row: 7, col: 7 + k, tile: Tile::Blank(Some('A')) });
    }
    if tiles.len() == 1 {
        tiles.push(PlacedTile { row: 7, col: 8, tile: Tile::Blank(Some('A')) });
    }
    let result = game.apply_action(0, WordAction::Place(tiles));
    assert!(matches!(result, Err(WordGameError::TileNotInRack('A'))));
    assert_eq!(game.current_player(), Some(0));
}

#[test]
fn exchange_errors() {
    let mut game = new_game();
    let r = game.apply_action(0, WordAction::Exchange(vec![]));
    assert_eq!(r.unwrap_err(), WordGameError::InvalidPlacement("must exchange at least one tile".to_string()));
    let tr = game.apply_action(0, WordAction::Exchange(vec![game.player_state(0).unwrap().rack.tiles[0]])).unwrap();
    assert_eq!(tr.turn_summary, "exchanged 1 tiles");
    assert_eq!(game.state().bag.remaining(), 86);
}

#[test]
fn place_summary_and_score() {
    let mut game = new_game();
    let rack = game.player_state(0).unwrap().rack.tiles.clone();
    let tiles = vec![
        PlacedTile { row: 7, col: 7, tile: rack[0] },
        PlacedTile { row: 7, col: 8, tile: rack[1] },
    ];
    let expected = 2 * (rack[0].points() as i32 + rack[1].points() as i32);
    let tr = game.apply_action(0, WordAction::Place(tiles)).unwrap();
    assert_eq!(tr.score_delta, expected);
    assert!(tr.turn_summary.starts_with("played "));
    assert!(tr.turn_summary.ends_with(&format!(" for {} points", expected)));
    assert_eq!(game.state().players[0].score, expected);
    assert_eq!(game.state().players[0].rack.len(), 7);
    assert_eq!(game.state().bag.remaining(), 84);
    assert!(game.state().board.is_occupied(7, 8));
}
