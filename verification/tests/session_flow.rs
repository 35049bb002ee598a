use wabble::board::Board;
use wabble::game::{WordAction, WordGame, WordGameConfig};
use wabble::match_state::GameResults;
use wabble::pending::{PendingPlacement, PendingTile};
use wabble::session::{
    ai_move, ai_step, bag_text, can_pick, drop_tile, game_over_text, press_pass, press_play,
    preview_text, scores_text, score_preview, start_game, thinking_text, turn_text,
    visible_rack_slots, AiStep, AiTimer, MenuChoice, ScorePreview,
};
use wabble::movegen::score_candidate;
use wabble::placement::PlacedTile;
use wabble::tile::Tile;

fn cat_pending() -> PendingPlacement {
    let mut p = PendingPlacement::default();
    p.tiles.push(PendingTile { row: 7, col: 7, tile: Tile::Letter('C', 3), rack_index: 0 });
    p.tiles.push(PendingTile { row: 7, col: 8, tile: Tile::Letter('A', 1), rack_index: 1 });
    p.tiles.push(PendingTile { row: 7, col: 9, tile: Tile::Letter('T', 1), rack_index: 2 });
    p
}

#[test]
fn score_line_lists_every_player() {
    assert_eq!(scores_text(&[10, -5]), "Scores: P1: 10  P2: -5");
    assert_eq!(scores_text(&[0, 3, 12]), "Scores: P1: 0  P2: 3  P3: 12");
    assert_eq!(scores_text(&[]), "Scores: ");
}

#[test]
fn turn_and_bag_lines() {
    assert_eq!(turn_text(0), "Player 1's Turn");
    assert_eq!(turn_text(3), "Player 4's Turn");
    assert_eq!(bag_text(86), "Bag: 86 tiles");
    assert_eq!(bag_text(0), "Bag: 0 tiles");
    assert_eq!(thinking_text(), "AI is thinking...");
}

#[test]
fn final_screen_names_winner_or_draw() {
    assert_eq!(game_over_text(None), "Game Over");
    let won = GameResults { player_scores: vec![12, 7], winner: Some(0) };
    assert_eq!(game_over_text(Some(&won)), "Player 1 wins!\n\nPlayer 1: 12\nPlayer 2: 7");
    let draw = GameResults { player_scores: vec![5, 5, -2], winner: None };
    assert_eq!(
        game_over_text(Some(&draw)),
        "It's a draw!\n\nPlayer 1: 5\nPlayer 2: 5\nPlayer 3: -2"
    );
}

#[test]
fn preview_of_first_word() {
    let board = Board::new();
    let p = score_preview(&board, &cat_pending());
    assert!(p.valid);
    // C3 + A1 + T1 on the centre square, which doubles the word.
    assert_eq!(p.total_score, 10);
    assert_eq!(p.words, vec![("CAT".to_string(), 10)]);
    assert_eq!(preview_text(&p), Some("CAT  +10".to_string()));
}

#[test]
fn preview_hidden_when_placement_illegal() {
    let board = Board::new();
    let mut p = PendingPlacement::default();
    // Off the centre on the first move.
    p.tiles.push(PendingTile { row: 0, col: 0, tile: Tile::Letter('A', 1), rack_index: 0 });
    p.tiles.push(PendingTile { row: 0, col: 1, tile: Tile::Letter('T', 1), rack_index: 1 });
    let pv = score_preview(&board, &p);
    assert!(!pv.valid);
    assert!(pv.words.is_empty());
    assert_eq!(pv.total_score, 0);
    assert_eq!(preview_text(&pv), None);
    let empty = score_preview(&board, &PendingPlacement::default());
    assert!(!empty.valid);
}

#[test]
fn preview_with_several_words_shows_total() {
    let pv = ScorePreview {
        words: vec![("AT".to_string(), 4), ("TO".to_string(), 6)],
        total_score: 10,
        valid: true,
    };
    assert_eq!(
        preview_text(&pv),
        Some("AT  +4\nTO  +6\n\u{2500}\u{2500}\u{2500}\u{2500}\u{2500}\u{2500}\nTotal  +10".to_string())
    );
}

#[test]
fn play_without_tiles_asks_for_some() {
    let mut game = WordGame::new_game(&WordGameConfig::default(), 2, 42);
    let mut pending = PendingPlacement::default();
    let o = press_play(&mut game, &mut pending);
    assert_eq!(o.status, "Place some tiles first!");
    assert!(!o.cleared);
    assert_eq!(o.hand_over, None);
    assert_eq!(game.current_player(), Some(0));
}

#[test]
fn play_of_rack_tiles_hands_over() {
    let mut game = WordGame::new_game(&WordGameConfig::default(), 2, 42);
    let rack: Vec<Tile> = game.player_state(0).unwrap().rack.tiles.clone();
    let mut pending = PendingPlacement::default();
    pending.tiles.push(PendingTile { row: 7, col: 7, tile: rack[0], rack_index: 0 });
    pending.tiles.push(PendingTile { row: 7, col: 8, tile: rack[1], rack_index: 1 });
    let o = press_play(&mut game, &mut pending);
    assert!(o.cleared);
    assert!(pending.tiles.is_empty());
    assert_eq!(o.hand_over, Some(1));
    assert!(!o.game_over);
    assert!(o.status.starts_with("played"));
}

#[test]
fn refused_play_keeps_tiles() {
    let mut game = WordGame::new_game(&WordGameConfig::default(), 2, 42);
    let rack: Vec<Tile> = game.player_state(0).unwrap().rack.tiles.clone();
    let mut pending = PendingPlacement::default();
    pending.tiles.push(PendingTile { row: 0, col: 0, tile: rack[0], rack_index: 0 });
    let o = press_play(&mut game, &mut pending);
    assert!(!o.cleared);
    assert_eq!(pending.tiles.len(), 1);
    assert!(o.status.starts_with("Invalid: "));
    assert_eq!(game.current_player(), Some(0));
}

#[test]
fn pass_hands_over_then_ends_game() {
    let mut game = WordGame::new_game(&WordGameConfig::default(), 2, 42);
    let mut pending = cat_pending();
    let o = press_pass(&mut game, &mut pending);
    assert_eq!(o.status, "passed");
    assert!(o.cleared);
    assert!(pending.tiles.is_empty());
    assert_eq!(o.hand_over, Some(1));
    assert!(!o.game_over);
    for _ in 0..4 {
        let o = press_pass(&mut game, &mut pending);
        assert!(!o.game_over);
    }
    let last = press_pass(&mut game, &mut pending);
    assert!(last.game_over);
    assert_eq!(last.hand_over, None);
    let after = press_pass(&mut game, &mut pending);
    assert_eq!(after.status, "Error: game is already finished");
    assert!(!after.cleared);
}

#[test]
fn computer_waits_for_its_turn_and_delay() {
    assert!(ai_step(false, false, 1, 1, AiTimer::Absent) == AiStep::StartTimer);
    assert!(ai_step(false, false, 1, 1, AiTimer::Running) == AiStep::Wait);
    assert!(ai_step(false, false, 1, 1, AiTimer::Elapsed) == AiStep::Move);
    assert!(ai_step(false, false, 0, 1, AiTimer::Elapsed) == AiStep::Idle);
    assert!(ai_step(true, false, 1, 1, AiTimer::Elapsed) == AiStep::Idle);
    assert!(ai_step(false, true, 1, 1, AiTimer::Elapsed) == AiStep::Idle);
}

#[test]
fn computer_passes_without_a_move() {
    let mut game = WordGame::new_game(&WordGameConfig::default(), 2, 42);
    let (status, over) = ai_move(&mut game, 0, None);
    assert_eq!(status, "AI passed");
    assert!(!over);
    assert_eq!(game.current_player(), Some(1));
}

#[test]
fn computer_passes_when_move_refused() {
    let mut game = WordGame::new_game(&WordGameConfig::default(), 2, 42);
    let rack: Vec<Tile> = game.player_state(0).unwrap().rack.tiles.clone();
    let bad = vec![wabble::placement::PlacedTile { row: 0, col: 0, tile: rack[0] }];
    let (status, over) = ai_move(&mut game, 0, Some(WordAction::Place(bad)));
    assert_eq!(status, "AI passed");
    assert!(!over);
    assert_eq!(game.current_player(), Some(1));
}

#[test]
fn menu_starts_games() {
    assert_eq!(MenuChoice::TwoPlayers.players(), 2);
    assert_eq!(MenuChoice::ThreePlayers.players(), 3);
    assert_eq!(MenuChoice::FourPlayers.players(), 4);
    let g = start_game(MenuChoice::ThreePlayers, 7);
    assert_eq!(g.num_players(), 3);
    assert_eq!(g.state().bag.remaining(), 79);
}

#[test]
fn dropping_and_picking_tiles() {
    let mut board = Board::new();
    board.set(7, 7, Tile::Letter('Z', 10));
    let mut pending = PendingPlacement::default();
    assert!(!drop_tile(&board, &mut pending, 7, 7, Tile::Letter('A', 1), 0));
    assert!(!drop_tile(&board, &mut pending, 15, 0, Tile::Letter('A', 1), 0));
    assert!(drop_tile(&board, &mut pending, 7, 8, Tile::Letter('A', 1), 3));
    assert!(!drop_tile(&board, &mut pending, 7, 8, Tile::Letter('B', 3), 4));
    assert_eq!(pending.tiles.len(), 1);
    assert!(!can_pick(&pending, 7, 3));
    assert!(can_pick(&pending, 7, 4));
    assert!(!can_pick(&pending, 7, 7));
    assert_eq!(visible_rack_slots(7, &pending, false), vec![0, 1, 2, 4, 5, 6]);
    assert_eq!(visible_rack_slots(7, &pending, true), Vec::<usize>::new());
}

#[test]
fn computer_scores_a_move_as_the_game_does() {
    // A first move, and a later move that forms a main word and a cross word.
    let empty = Board::new();
    let cat = cat_pending();
    let cat_tiles: Vec<PlacedTile> =
        cat.tiles.iter().map(|t| PlacedTile { row: t.row, col: t.col, tile: t.tile }).collect();
    assert_eq!(score_candidate(&empty, &cat_tiles), score_preview(&empty, &cat).total_score);

    let mut board = Board::new();
    board.set(7, 7, Tile::Letter('C', 3));
    board.set(7, 8, Tile::Letter('A', 1));
    board.set(7, 9, Tile::Letter('T', 1));
    let mut p = PendingPlacement::default();
    p.tiles.push(PendingTile { row: 8, col: 9, tile: Tile::Letter('O', 1), rack_index: 0 });
    p.tiles.push(PendingTile { row: 8, col: 10, tile: Tile::Letter('X', 8), rack_index: 1 });
    let tiles: Vec<PlacedTile> =
        p.tiles.iter().map(|t| PlacedTile { row: t.row, col: t.col, tile: t.tile }).collect();
    let preview = score_preview(&board, &p);
    assert!(preview.valid);
    assert_eq!(score_candidate(&board, &tiles), preview.total_score);
}
