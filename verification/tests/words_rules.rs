use wabble::board::{Board, BonusSquare, CENTER};
use wabble::error::WordGameError;
use wabble::placement::{validate_placement, PlacedTile};
use wabble::rack::Rack;
use wabble::tile::{letter_points, standard_distribution, Tile, TileBag};

fn place(row: usize, col: usize, ch: char) -> PlacedTile {
    PlacedTile { row, col, tile: Tile::Letter(ch, letter_points(ch)) }
}

#[test]
fn center_is_center_bonus() {
    assert_eq!(Board::bonus_at(CENTER, CENTER), BonusSquare::Center);
}

#[test]
fn corners_are_triple_word() {
    assert_eq!(Board::bonus_at(0, 0), BonusSquare::TripleWord);
    assert_eq!(Board::bonus_at(0, 14), BonusSquare::TripleWord);
    assert_eq!(Board::bonus_at(14, 0), BonusSquare::TripleWord);
    assert_eq!(Board::bonus_at(14, 14), BonusSquare::TripleWord);
}

#[test]
fn new_board_is_empty() {
    let board = Board::new();
    assert!(board.is_empty());
}

#[test]
fn set_and_get_tile() {
    let mut board = Board::new();
    let tile = Tile::Letter('A', 1);
    board.set(7, 7, tile);
    assert!(board.is_occupied(7, 7));
    assert_eq!(board.get(7, 7).unwrap().letter(), Some('A'));
}

#[test]
fn bonus_layout_rows() {
    assert_eq!(Board::bonus_at(0, 3), BonusSquare::DoubleLetter);
    assert_eq!(Board::bonus_at(1, 5), BonusSquare::TripleLetter);
    assert_eq!(Board::bonus_at(4, 4), BonusSquare::DoubleWord);
    assert_eq!(Board::bonus_at(7, 0), BonusSquare::TripleWord);
    assert_eq!(Board::bonus_at(6, 8), BonusSquare::DoubleLetter);
    assert_eq!(Board::bonus_at(13, 9), BonusSquare::TripleLetter);
    assert_eq!(Board::bonus_at(7, 1), BonusSquare::Normal);
}

#[test]
fn set_off_board_is_ignored() {
    let mut board = Board::new();
    board.set(15, 3, Tile::Letter('A', 1));
    assert!(board.is_empty());
    assert!(board.get(15, 3).is_none());
    assert!(!board.is_empty_at(15, 3));
    assert!(board.is_empty_at(3, 3));
}

#[test]
fn first_move_must_cover_center() {
    let board = Board::new();
    let tiles = vec![place(0, 0, 'A'), place(0, 1, 'B')];
    let result = validate_placement(&board, &tiles, true);
    assert!(result.is_err());
}

#[test]
fn valid_first_move() {
    let board = Board::new();
    let tiles = vec![place(7, 6, 'H'), place(7, 7, 'I')];
    let result = validate_placement(&board, &tiles, true);
    assert!(result.is_ok());
    let vp = result.unwrap();
    assert_eq!(vp.word_strings, vec!["HI"]);
}

#[test]
fn tiles_must_be_in_line() {
    let board = Board::new();
    let tiles = vec![place(7, 7, 'A'), place(8, 8, 'B')];
    let result = validate_placement(&board, &tiles, true);
    assert!(result.is_err());
}

#[test]
fn second_move_must_be_adjacent() {
    let mut board = Board::new();
    board.set(7, 7, Tile::Letter('A', 1));
    let tiles = vec![place(0, 0, 'B'), place(0, 1, 'C')];
    let result = validate_placement(&board, &tiles, false);
    assert!(result.is_err());
}

#[test]
fn cross_words_extracted() {
    let mut board = Board::new();
    board.set(7, 7, Tile::Letter('H', 4));
    board.set(7, 8, Tile::Letter('I', 1));
    let tiles = vec![place(6, 7, 'A'), place(8, 7, 'T')];
    let result = validate_placement(&board, &tiles, false);
    assert!(result.is_ok());
    let vp = result.unwrap();
    assert!(vp.word_strings.contains(&"AHT".to_string()));
}

#[test]
fn placement_error_messages() {
    let board = Board::new();
    let r = validate_placement(&board, &[], true);
    assert_eq!(r.unwrap_err(), WordGameError::InvalidPlacement("must place at least one tile".to_string()));
    let r = validate_placement(&board, &[place(7, 7, 'A'), place(15, 2, 'B')], true);
    assert_eq!(r.unwrap_err(), WordGameError::InvalidPlacement("position (15, 2) is out of bounds".to_string()));
    let r = validate_placement(&board, &[place(7, 7, 'A'), place(7, 7, 'B')], true);
    assert_eq!(r.unwrap_err(), WordGameError::InvalidPlacement("duplicate tile positions".to_string()));
    let r = validate_placement(&board, &[place(7, 7, 'A'), place(7, 9, 'B')], true);
    assert_eq!(r.unwrap_err(), WordGameError::InvalidPlacement("tiles must form a contiguous line".to_string()));
    let r = validate_placement(&board, &[place(7, 7, 'A')], true);
    assert_eq!(r.unwrap_err(), WordGameError::InvalidPlacement("first move must place at least 2 tiles".to_string()));
    let mut board = Board::new();
    board.set(7, 7, Tile::Letter('A', 1));
    let r = validate_placement(&board, &[place(7, 7, 'B')], false);
    assert_eq!(r.unwrap_err(), WordGameError::InvalidPlacement("position (7, 7) is already occupied".to_string()));
    let r = validate_placement(&board, &[place(3, 3, 'B')], false);
    assert_eq!(r.unwrap_err(), WordGameError::InvalidPlacement("tiles must be adjacent to existing tiles".to_string()));
    let r = validate_placement(&board, &[place(6, 6, 'B'), place(5, 5, 'C')], false);
    assert_eq!(r.unwrap_err(), WordGameError::InvalidPlacement("tiles must be in a single row or column".to_string()));
}

#[test]
fn words_through_existing_tiles() {
    let mut board = Board::new();
    board.set(7, 7, Tile::Letter('C', 3));
    board.set(7, 8, Tile::Letter('A', 1));
    let tiles = vec![place(7, 9, 'T'), place(7, 10, 'S')];
    let vp = validate_placement(&board, &tiles, false).unwrap();
    assert_eq!(vp.word_strings, vec!["CATS"]);
    assert_eq!(vp.words_formed, vec![vec![(7, 7), (7, 8), (7, 9), (7, 10)]]);
}

#[test]
fn new_rack_is_empty() {
    let rack = Rack::new();
    assert!(rack.is_empty());
    assert_eq!(rack.tiles_needed(), 7);
}

#[test]
fn remove_letter_tile() {
    let mut rack = Rack::new();
    rack.add_tiles(vec![Tile::Letter('A', 1), Tile::Letter('B', 3), Tile::Letter('C', 3)]);
    let removed = rack.remove_tile(&Tile::Letter('B', 3));
    assert!(removed.is_some());
    assert_eq!(rack.len(), 2);
}

#[test]
fn remove_blank_tile() {
    let mut rack = Rack::new();
    rack.add_tiles(vec![Tile::Letter('A', 1), Tile::Blank(None)]);
    let removed = rack.remove_tile(&Tile::Blank(Some('X')));
    assert!(removed.is_some());
    assert!(removed.unwrap().is_blank());
    assert_eq!(rack.len(), 1);
}

#[test]
fn remove_ignores_case_and_takes_first() {
    let mut rack = Rack::new();
    rack.add_tiles(vec![Tile::Letter('q', 10), Tile::Letter('Q', 3)]);
    assert_eq!(rack.remove_tile(&Tile::Letter('Q', 0)), Some(Tile::Letter('q', 10)));
    assert_eq!(rack.tiles, vec![Tile::Letter('Q', 3)]);
    assert_eq!(rack.remove_tile(&Tile::Blank(None)), None);
    assert_eq!(rack.len(), 1);
}

#[test]
fn standard_bag_has_100_tiles() {
    let bag = TileBag::new(42);
    assert_eq!(bag.remaining(), 100);
}

#[test]
fn standard_bag_has_2_blanks() {
    let tiles = standard_distribution();
    let blanks = tiles.iter().filter(|t| t.is_blank()).count();
    assert_eq!(blanks, 2);
}

#[test]
fn draw_reduces_count() {
    let mut bag = TileBag::new(42);
    let drawn = bag.draw(7);
    assert_eq!(drawn.len(), 7);
    assert_eq!(bag.remaining(), 93);
}

#[test]
fn draw_from_empty_bag() {
    let mut bag = TileBag::new(42);
    let _ = bag.draw(100);
    let drawn = bag.draw(5);
    assert!(drawn.is_empty());
}

#[test]
fn draw_takes_from_the_end() {
    let mut bag = TileBag::from_tiles(vec![Tile::Letter('A', 1), Tile::Letter('B', 3), Tile::Letter('C', 3)]);
    assert_eq!(bag.draw(2), vec![Tile::Letter('B', 3), Tile::Letter('C', 3)]);
    assert_eq!(bag.remaining(), 1);
    bag.return_tiles(vec![Tile::Blank(None)], 7);
    assert_eq!(bag.remaining(), 2);
}

#[test]
fn letter_points_correct() {
    assert_eq!(letter_points('A'), 1);
    assert_eq!(letter_points('Z'), 10);
    assert_eq!(letter_points('K'), 5);
    assert_eq!(letter_points('Q'), 10);
}

#[test]
fn letter_points_lower_case_and_others() {
    assert_eq!(letter_points('q'), 10);
    assert_eq!(letter_points('d'), 2);
    assert_eq!(letter_points('?'), 0);
    assert_eq!(letter_points('é'), 0);
}

#[test]
fn standard_distribution_counts() {
    let tiles = standard_distribution();
    assert_eq!(tiles.len(), 100);
    assert_eq!(tiles.iter().filter(|t| **t == Tile::Letter('E', 1)).count(), 12);
    assert_eq!(tiles.iter().filter(|t| **t == Tile::Letter('Z', 10)).count(), 1);
}
