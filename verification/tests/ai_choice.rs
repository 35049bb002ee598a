use rand::rngs::StdRng;
use rand::SeedableRng;
use wabble::cli::parse_args;
use wabble::difficulty::{compute_leave, select_easy, select_medium, selection_seed};
use wabble::error::WordGameError;
use wabble::movegen::CandidateMove;
use wabble::placement::PlacedTile;
use wabble::tile::{letter_points, Tile};

fn make_candidate(word: &str, score: i32) -> CandidateMove {
    let tiles: Vec<PlacedTile> = word
        .chars()
        .enumerate()
        .map(|(i, ch)| PlacedTile {
            row: 7,
            col: 7 + i,
            tile: Tile::Letter(ch, letter_points(ch)),
        })
        .collect();
    CandidateMove {
        tiles,
        score,
        primary_word: word.to_string(),
    }
}

#[test]
fn easy_picks_from_the_bottom_third() {
    let moves: Vec<CandidateMove> = (0..20)
        .map(|i| make_candidate(&"ABCDEFGHIJKLMNOPQRST"[i..i + 1], 100 - i as i32 * 5))
        .collect();
    for seed in 0..30 {
        let mut rng = StdRng::seed_from_u64(seed);
        let tiles = select_easy(&moves, &mut rng);
        let idx = moves.iter().position(|m| m.tiles == tiles).unwrap();
        assert!(idx >= 14, "easy picked move {idx}");
    }
}

#[test]
fn easy_with_one_move_takes_it() {
    let moves = vec![make_candidate("AT", 2)];
    let mut rng = StdRng::seed_from_u64(1);
    assert_eq!(select_easy(&moves, &mut rng), moves[0].tiles);
}

#[test]
fn medium_picks_from_the_top_five() {
    let moves: Vec<CandidateMove> = (0..9)
        .map(|i| make_candidate(&"ABCDEFGHI"[i..i + 1], 50 - i as i32))
        .collect();
    for seed in 0..30 {
        let mut rng = StdRng::seed_from_u64(seed);
        let tiles = select_medium(&moves, &mut rng);
        let idx = moves.iter().position(|m| m.tiles == tiles).unwrap();
        assert!(idx < 5, "medium picked move {idx}");
    }
}

#[test]
fn seed_counts_turns_and_bag() {
    assert_eq!(selection_seed(0, 86), 86);
    assert_eq!(selection_seed(3, 80), 173);
}

#[test]
fn leave_removes_played_tiles_once() {
    let rack = vec![
        Tile::Letter('C', 3),
        Tile::Letter('a', 1),
        Tile::Blank(None),
        Tile::Letter('A', 1),
        Tile::Letter('T', 1),
    ];
    let played = vec![
        PlacedTile { row: 7, col: 7, tile: Tile::Letter('A', 1) },
        PlacedTile { row: 7, col: 8, tile: Tile::Blank(Some('X')) },
        PlacedTile { row: 7, col: 9, tile: Tile::Letter('Z', 10) },
    ];
    let left = compute_leave(&rack, &played);
    assert_eq!(left, vec![Tile::Letter('C', 3), Tile::Letter('A', 1), Tile::Letter('T', 1)]);
}

#[test]
fn command_line_is_parsed() {
    let args: Vec<String> = ["prog", "--input", "w.txt", "--output", "d.fst"]
        .iter()
        .map(|s| s.to_string())
        .collect();
    assert_eq!(parse_args(&args), Some(("w.txt".to_string(), "d.fst".to_string(), None)));
    let args: Vec<String> = ["prog", "--gaddag", "g.fst", "--output", "d.fst", "--input", "w.txt"]
        .iter()
        .map(|s| s.to_string())
        .collect();
    assert_eq!(
        parse_args(&args),
        Some(("w.txt".to_string(), "d.fst".to_string(), Some("g.fst".to_string())))
    );
}

#[test]
fn command_line_errors() {
    let to_args = |xs: &[&str]| xs.iter().map(|s| s.to_string()).collect::<Vec<String>>();
    assert_eq!(parse_args(&to_args(&["prog", "--input", "w.txt"])), None);
    assert_eq!(parse_args(&to_args(&["prog", "--input"])), None);
    assert_eq!(parse_args(&to_args(&["prog", "--input", "a", "--output", "b", "extra"])), None);
    assert_eq!(parse_args(&to_args(&["prog"])), None);
}

#[test]
fn error_messages() {
    assert_eq!(WordGameError::NotYourTurn.message(), "not your turn");
    assert_eq!(
        WordGameError::InvalidPlacement("gap".to_string()).message(),
        "invalid placement: gap"
    );
    assert_eq!(WordGameError::InvalidWord("QZX".to_string()).message(), "invalid word: QZX");
    assert_eq!(WordGameError::TileNotInRack('Q').message(), "tile 'Q' not in rack");
    assert_eq!(
        WordGameError::ExchangeNotAllowed.message(),
        "exchange not allowed when bag has fewer than 7 tiles"
    );
}
