use wabble::board::BonusSquare;
use wabble::pending::{bonus_label, PendingPlacement, PendingTile};
use wabble::placement::PlacedTile;
use wabble::tile::Tile;

fn pending() -> PendingPlacement {
    let mut p = PendingPlacement::default();
    p.tiles.push(PendingTile { row: 7, col: 7, tile: Tile::Letter('C', 3), rack_index: 2 });
    p.tiles.push(PendingTile { row: 7, col: 8, tile: Tile::Blank(Some('A')), rack_index: 0 });
    p
}

#[test]
fn pending_tiles_become_placed_tiles() {
    let p = pending();
    assert_eq!(
        p.to_placed_tiles(),
        vec![
            PlacedTile { row: 7, col: 7, tile: Tile::Letter('C', 3) },
            PlacedTile { row: 7, col: 8, tile: Tile::Blank(Some('A')) },
        ]
    );
}

#[test]
fn pending_tiles_found_and_removed() {
    let mut p = pending();
    assert!(p.is_at(7, 8));
    assert!(!p.is_at(8, 7));
    let t = p.remove_at(7, 8).unwrap();
    assert_eq!(t.rack_index, 0);
    assert!(!p.is_at(7, 8));
    assert!(p.remove_at(7, 8).is_none());
    assert_eq!(p.tiles.len(), 1);
}

#[test]
fn bonus_labels() {
    assert_eq!(bonus_label(BonusSquare::Normal), "");
    assert_eq!(bonus_label(BonusSquare::DoubleLetter), "DL");
    assert_eq!(bonus_label(BonusSquare::TripleLetter), "TL");
    assert_eq!(bonus_label(BonusSquare::DoubleWord), "DW");
    assert_eq!(bonus_label(BonusSquare::TripleWord), "TW");
    assert_eq!(bonus_label(BonusSquare::Center), "*");
}
