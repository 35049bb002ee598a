//! What the client holds while a player builds a move: tiles put on the board but not yet
//! played, and the labels of the bonus squares.
use vstd::prelude::*;
use crate::board::BonusSquare;
use crate::placement::PlacedTile;
use crate::tile::Tile;

verus! {

/// A tile placed from rack to board, not yet committed.
#[derive(Clone, Copy)]
pub struct PendingTile {
    pub row: usize,
    pub col: usize,
    pub tile: Tile,
    pub rack_index: usize,
}

/// Tiles placed on the board this turn but not yet submitted.
pub struct PendingPlacement {
    pub tiles: Vec<PendingTile>,
}

/// The placed tile a pending tile stands for.
pub open spec fn as_placed(t: PendingTile) -> PlacedTile {
    PlacedTile { row: t.row, col: t.col, tile: t.tile }
}

/// Whether pending tile `t` stands at `(row, col)`.
pub open spec fn pending_at(t: PendingTile, row: usize, col: usize) -> bool {
    t.row == row && t.col == col
}

/// `i` is the first pending tile at `(row, col)`.
pub open spec fn first_pending_at(ts: Seq<PendingTile>, row: usize, col: usize, i: int) -> bool {
    &&& 0 <= i < ts.len()
    &&& pending_at(ts[i], row, col)
    &&& forall|j: int| 0 <= j < i ==> !pending_at(#[trigger] ts[j], row, col)
}

impl Default for PendingPlacement {
    fn default() -> (p: Self)
        ensures
            p.tiles@.len() == 0,
    {
        PendingPlacement { tiles: Vec::new() }
    }
}

impl PendingPlacement {
    /// The pending tiles as placed tiles, in the same order.
    pub fn to_placed_tiles(&self) -> (r: Vec<PlacedTile>)
        ensures
            r@ == self.tiles@.map_values(|t: PendingTile| as_placed(t)),
    {
        let mut out: Vec<PlacedTile> = Vec::new();
        let mut i: usize = 0;
        while i < self.tiles.len()
            invariant
                i <= self.tiles@.len(),
                out@ == self.tiles@.take(i as int).map_values(|t: PendingTile| as_placed(t)),
            decreases self.tiles@.len() - i,
        {
            let pt = self.tiles[i];
            out.push(PlacedTile { row: pt.row, col: pt.col, tile: pt.tile });
            i = i + 1;
            assert(out@ =~= self.tiles@.take(i as int).map_values(|t: PendingTile| as_placed(t)));
        }
        assert(self.tiles@.take(i as int) =~= self.tiles@);
        out
    }

    /// Whether a pending tile stands at `(row, col)`.
    pub fn is_at(&self, row: usize, col: usize) -> (r: bool)
        ensures
            r == exists|i: int| 0 <= i < self.tiles@.len() && pending_at(#[trigger] self.tiles@[i], row, col),
    {
        let mut i: usize = 0;
        while i < self.tiles.len()
            invariant
                i <= self.tiles@.len(),
                forall|j: int| 0 <= j < i ==> !pending_at(#[trigger] self.tiles@[j], row, col),
            decreases self.tiles@.len() - i,
        {
            if self.tiles[i].row == row && self.tiles[i].col == col {
                assert(pending_at(self.tiles@[i as int], row, col));
                return true;
            }
            i = i + 1;
        }
        false
    }

    /// Takes out the first pending tile at `(row, col)`, if there is one.
    pub fn remove_at(&mut self, row: usize, col: usize) -> (r: Option<PendingTile>)
        ensures
            match r {
                Some(t) => exists|i: int|
                    first_pending_at(old(self).tiles@, row, col, i) && t == old(self).tiles@[i]
                        && final(self).tiles@ == old(self).tiles@.remove(i),
                None => final(self).tiles@ == old(self).tiles@ && forall|i: int|
                    0 <= i < old(self).tiles@.len() ==> !pending_at(#[trigger] old(self).tiles@[i], row, col),
            },
    {
        let mut i: usize = 0;
        while i < self.tiles.len()
            invariant
                i <= self.tiles@.len(),
                self.tiles@ == old(self).tiles@,
                forall|j: int| 0 <= j < i ==> !pending_at(#[trigger] self.tiles@[j], row, col),
            decreases self.tiles@.len() - i,
        {
            if self.tiles[i].row == row && self.tiles[i].col == col {
                assert(first_pending_at(old(self).tiles@, row, col, i as int));
                let t = self.tiles.remove(i);
                return Some(t);
            }
            i = i + 1;
        }
        None
    }
}

/// The label a bonus square shows.
pub open spec fn bonus_label_text(bonus: BonusSquare) -> Seq<char> {
    match bonus {
        BonusSquare::Normal => ""@,
        BonusSquare::DoubleLetter => "DL"@,
        BonusSquare::TripleLetter => "TL"@,
        BonusSquare::DoubleWord => "DW"@,
        BonusSquare::TripleWord => "TW"@,
        BonusSquare::Center => "*"@,
    }
}

/// The label a bonus square shows.
pub fn bonus_label(bonus: BonusSquare) -> (s: &'static str)
    ensures
        s@ == bonus_label_text(bonus),
{
    match bonus {
        BonusSquare::Normal => "",
        BonusSquare::DoubleLetter => "DL",
        BonusSquare::TripleLetter => "TL",
        BonusSquare::DoubleWord => "DW",
        BonusSquare::TripleWord => "TW",
        BonusSquare::Center => "*",
    }
}

} // verus!
