use wabble::board::Board;
use wabble::dict::FstDictionary;
use wabble::gaddag::Gaddag;
use wabble::movegen::{compute_cross_checks, generate_moves, score_candidate};
use wabble::placement::PlacedTile;
use wabble::tile::Tile;

fn build_test_gaddag() -> (Gaddag, FstDictionary) {
    let words: Vec<&str> = vec![
        "AT", "IT", "TO", "ATE", "EAT", "TEA", "TIE", "CAT", "CAR", "CARE",
        "ACE", "ICE", "TAR", "RAT", "ART", "ARE", "EAR", "ERA", "IRE",
        "THE", "HE", "HI", "HA", "AH", "AN", "IN", "ON", "NO", "OR", "SO",
        "IS", "AS", "DO", "GO", "BE", "ME", "WE",
    ];
    let gaddag_bytes = Gaddag::build(&words).unwrap();
    let gaddag = Gaddag::from_bytes(gaddag_bytes).unwrap();
    let dict_bytes = FstDictionary::build(&words).unwrap();
    let dict = FstDictionary::from_bytes(dict_bytes).unwrap();
    (gaddag, dict)
}

#[test]
fn empty_board_generates_moves() {
    let (gaddag, dict) = build_test_gaddag();
    let board = Board::new();
    let rack = vec![
        Tile::Letter('C', 3),
        Tile::Letter('A', 1),
        Tile::Letter('T', 1),
    ];

    let moves = generate_moves(&board, &rack, &gaddag, &dict);
    assert!(!moves.is_empty(), "should generate moves on empty board");

    let words: Vec<&str> = moves.iter().map(|m| m.primary_word.as_str()).collect();
    assert!(
        moves.iter().any(|m| m.primary_word == "CAT"),
        "should find CAT, found: {:?}",
        words
    );
}

#[test]
fn extends_existing_words() {
    let (gaddag, dict) = build_test_gaddag();
    let mut board = Board::new();
    board.set(7, 7, Tile::Letter('A', 1));
    board.set(7, 8, Tile::Letter('T', 1));

    let rack = vec![
        Tile::Letter('C', 3),
        Tile::Letter('E', 1),
    ];

    let moves = generate_moves(&board, &rack, &gaddag, &dict);
    assert!(!moves.is_empty(), "should find moves extending AT");
}

#[test]
fn cross_checks_filter_invalid() {
    let (_, dict) = build_test_gaddag();
    let mut board = Board::new();
    board.set(7, 7, Tile::Letter('A', 1));
    board.set(7, 8, Tile::Letter('T', 1));

    let checks = compute_cross_checks(&board, &dict);
    let cc = checks[6][7].unwrap();
    assert_ne!(cc, 0, "some letters should be valid above A");
}

#[test]
fn scoring_includes_bonuses() {
    let board = Board::new();
    let placed = vec![
        PlacedTile {
            row: 7,
            col: 7,
            tile: Tile::Letter('A', 1),
        },
        PlacedTile {
            row: 7,
            col: 8,
            tile: Tile::Letter('T', 1),
        },
    ];
    let score = score_candidate(&board, &placed);
    assert_eq!(score, 4);
}

#[test]
fn cross_check_masks_name_letters() {
    let (_, dict) = build_test_gaddag();
    let mut board = Board::new();
    board.set(7, 7, Tile::Letter('A', 1));
    board.set(7, 8, Tile::Letter('T', 1));
    let checks = compute_cross_checks(&board, &dict);
    assert_eq!(checks[7][7], None);
    // Above A: only words ?A in the list: HA.
    let above_a = checks[6][7].unwrap();
    assert_eq!(above_a, 1 << (b'H' - b'A'));
    // Left of AT: ?AT in the list: CAT, EAT, RAT; and the column has no tile.
    let left = checks[7][6].unwrap();
    let expected = (1u32 << (b'C' - b'A')) | (1 << (b'E' - b'A')) | (1 << (b'R' - b'A'));
    assert_eq!(left, expected);
    // Far from every tile: all letters.
    assert_eq!(checks[0][0].unwrap(), (1 << 26) - 1);
}

#[test]
fn generated_moves_are_sorted_and_scored() {
    let (gaddag, dict) = build_test_gaddag();
    let mut board = Board::new();
    board.set(7, 7, Tile::Letter('A', 1));
    board.set(7, 8, Tile::Letter('T', 1));
    let rack = vec![Tile::Letter('C', 3), Tile::Letter('E', 1), Tile::Blank(None)];
    let moves = generate_moves(&board, &rack, &gaddag, &dict);
    assert!(!moves.is_empty());
    for w in moves.windows(2) {
        assert!(w[0].score >= w[1].score);
    }
    for m in &moves {
        assert!(!m.tiles.is_empty());
        assert_eq!(m.score, score_candidate(&board, &m.tiles));
        for t in &m.tiles {
            assert!(t.row < 15 && t.col < 15);
            assert!(!board.is_occupied(t.row, t.col));
        }
    }
    // CAT through the existing AT scores C on a normal square plus A and T.
    assert!(moves.iter().any(|m| m.tiles.len() == 1
        && m.tiles[0].row == 7
        && m.tiles[0].col == 6
        && m.tiles[0].tile == Tile::Letter('C', 3)));
}

#[test]
fn score_counts_cross_words_and_bingo() {
    let mut board = Board::new();
    board.set(7, 7, Tile::Letter('A', 1));
    // T below A forms AT down the column: A(1) + T(1) = 2; no bonus at (8, 7).
    let placed = vec![PlacedTile { row: 8, col: 7, tile: Tile::Letter('T', 1) }];
    assert_eq!(score_candidate(&board, &placed), 2);
    // Seven tiles across row 0 from column 0: triple word at (0, 0),
    // double letter at (0, 3): 1+1+1+2+1+1+1 = 8, times 3, plus 50.
    let empty = Board::new();
    let row: Vec<PlacedTile> = (0..7)
        .map(|c| PlacedTile { row: 0, col: c, tile: Tile::Letter('E', 1) })
        .collect();
    assert_eq!(score_candidate(&empty, &row), 8 * 3 + 50);
}

/// The main word of a move: the run of tiles, placed or on the board, along its line.
fn main_word(board: &Board, tiles: &[PlacedTile]) -> String {
    let at = |r: usize, c: usize| -> Option<char> {
        if let Some(t) = tiles.iter().find(|t| t.row == r && t.col == c) {
            return t.tile.letter();
        }
        board.get(r, c).and_then(|t| t.letter())
    };
    let horizontal = tiles.iter().all(|t| t.row == tiles[0].row)
        && (tiles.len() > 1 || {
            let (r, c) = (tiles[0].row, tiles[0].col);
            (c > 0 && at(r, c - 1).is_some()) || (c < 14 && at(r, c + 1).is_some())
        });
    let (r0, c0) = (tiles[0].row, tiles[0].col);
    let mut word = String::new();
    if horizontal {
        let mut c = c0;
        while c > 0 && at(r0, c - 1).is_some() {
            c -= 1;
        }
        while c < 15 && at(r0, c).is_some() {
            word.push(at(r0, c).unwrap().to_ascii_uppercase());
            c += 1;
        }
    } else {
        let mut r = r0;
        while r > 0 && at(r - 1, c0).is_some() {
            r -= 1;
        }
        while r < 15 && at(r, c0).is_some() {
            word.push(at(r, c0).unwrap().to_ascii_uppercase());
            r += 1;
        }
    }
    word
}

#[test]
fn generated_main_words_are_listed() {
    let (gaddag, dict) = build_test_gaddag();
    let mut board = Board::new();
    board.set(7, 7, Tile::Letter('A', 1));
    board.set(7, 8, Tile::Letter('T', 1));
    let rack = vec![Tile::Letter('C', 3), Tile::Letter('E', 1), Tile::Blank(None)];
    let moves = generate_moves(&board, &rack, &gaddag, &dict);
    assert!(!moves.is_empty());
    for m in &moves {
        let w = main_word(&board, &m.tiles);
        assert!(dict.contains(&w), "main word {} of a generated move is not listed", w);
    }
}

#[test]
fn two_letter_words_offered_at_centre() {
    let (gaddag, dict) = build_test_gaddag();
    let board = Board::new();
    let rack = vec![Tile::Letter('T', 1), Tile::Letter('A', 1), Tile::Letter('O', 1)];
    let moves = generate_moves(&board, &rack, &gaddag, &dict);
    // AT and TO are listed; both are offered across the centre.
    for (first, second) in [('A', 'T'), ('T', 'O')] {
        let want = vec![
            PlacedTile { row: 7, col: 7, tile: Tile::Letter(first, 1) },
            PlacedTile { row: 7, col: 8, tile: Tile::Letter(second, 1) },
        ];
        assert!(
            moves.iter().any(|m| m.tiles.len() == 2 && want.iter().all(|t| m.tiles.contains(t))),
            "missing {}{}",
            first,
            second
        );
    }
}

#[test]
fn board_word_extended_with_only_its_own_check() {
    let words: Vec<&str> = vec!["AT", "ATE"];
    let gaddag = Gaddag::from_bytes(Gaddag::build(&words).unwrap()).unwrap();
    let dict = FstDictionary::from_bytes(FstDictionary::build(&words).unwrap()).unwrap();
    let mut board = Board::new();
    board.set(7, 8, Tile::Letter('T', 1));
    let rack = vec![Tile::Letter('A', 1), Tile::Letter('E', 1)];
    let moves = generate_moves(&board, &rack, &gaddag, &dict);
    let want = vec![
        PlacedTile { row: 7, col: 7, tile: Tile::Letter('A', 1) },
        PlacedTile { row: 7, col: 9, tile: Tile::Letter('E', 1) },
    ];
    assert!(moves
        .iter()
        .any(|m| m.tiles == want && m.primary_word == "ATE"));
}

#[test]
fn built_from_words_directly() {
    let words: Vec<&str> = vec!["AT", "ATE"];
    let gaddag = Gaddag::from_words(&words);
    let dict = FstDictionary::from_words(&words);
    assert!(dict.contains("ate"));
    assert!(!dict.contains("eat"));
    assert!(gaddag.follow_path(b"A>TE").unwrap().is_terminal());
}

#[test]
fn word_after_board_tile_filled_with_two_rack_tiles() {
    let words: Vec<&str> = vec!["CAT"];
    let gaddag = Gaddag::from_bytes(Gaddag::build(&words).unwrap()).unwrap();
    let dict = FstDictionary::from_bytes(FstDictionary::build(&words).unwrap()).unwrap();
    let mut board = Board::new();
    board.set(7, 7, Tile::Letter('C', 3));
    let rack = vec![Tile::Letter('A', 1), Tile::Letter('T', 1)];
    let moves = generate_moves(&board, &rack, &gaddag, &dict);
    let want = vec![
        PlacedTile { row: 7, col: 8, tile: Tile::Letter('A', 1) },
        PlacedTile { row: 7, col: 9, tile: Tile::Letter('T', 1) },
    ];
    let found = moves.iter().find(|m| m.tiles == want).expect("CAT is offered");
    assert_eq!(found.primary_word, "CAT");
    // C (3) + A (1) + T (1), no bonus squares on those squares of the centre row.
    assert_eq!(found.score, 5);
}

#[test]
fn two_tiles_before_a_board_tile_are_offered() {
    let words: Vec<&str> = vec!["CAT"];
    let gaddag = Gaddag::from_bytes(Gaddag::build(&words).unwrap()).unwrap();
    let dict = FstDictionary::from_bytes(FstDictionary::build(&words).unwrap()).unwrap();
    let mut board = Board::new();
    board.set(7, 9, Tile::Letter('T', 1));
    let rack = vec![Tile::Letter('C', 3), Tile::Letter('A', 1)];
    let moves = generate_moves(&board, &rack, &gaddag, &dict);
    let a = PlacedTile { row: 7, col: 8, tile: Tile::Letter('A', 1) };
    let c = PlacedTile { row: 7, col: 7, tile: Tile::Letter('C', 3) };
    let found = moves
        .iter()
        .find(|m| m.tiles.len() == 2 && m.tiles.contains(&a) && m.tiles.contains(&c))
        .expect("C and A before the T are offered");
    assert_eq!(found.score, score_candidate(&board, &found.tiles));
}
