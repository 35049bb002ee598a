//! The 15x15 board and its bonus squares.
use vstd::prelude::*;
use crate::tile::Tile;

verus! {

pub const BOARD_SIZE: usize = 15;

pub const CENTER: usize = 7;

/// Bonus type for a board square.
#[derive(Debug, Clone, Copy, PartialEq, Eq, Structural)]
pub enum BonusSquare {
    Normal,
    DoubleLetter,
    TripleLetter,
    DoubleWord,
    TripleWord,
    /// Also acts as a double word square.
    Center,
}

/// Whether `(r, c)` is a square of the board.
pub open spec fn in_bounds(r: int, c: int) -> bool {
    0 <= r < 15 && 0 <= c < 15
}

/// Distance of a coordinate from the nearest edge.
pub open spec fn fold(x: int) -> int {
    if x <= 7 { x } else { 14 - x }
}

/// The standard bonus layout. It is symmetric about the middle row, the middle column
/// and both diagonals, so it is given by the folded coordinates `x <= y` of one octant.
pub open spec fn bonus_spec(r: int, c: int) -> BonusSquare {
    let a = fold(r);
    let b = fold(c);
    let x = if a <= b { a } else { b };
    let y = if a <= b { b } else { a };
    if x == 7 && y == 7 {
        BonusSquare::Center
    } else if x == 0 && (y == 0 || y == 7) {
        BonusSquare::TripleWord
    } else if x == y && 1 <= x <= 4 {
        BonusSquare::DoubleWord
    } else if (x == 1 && y == 5) || (x == 5 && y == 5) {
        BonusSquare::TripleLetter
    } else if (x == 0 && y == 3) || (x == 2 && y == 6) || (x == 3 && y == 7) || (x == 6 && y == 6) {
        BonusSquare::DoubleLetter
    } else {
        BonusSquare::Normal
    }
}

/// The 15x15 game board.
#[derive(Debug, Clone, Copy)]
pub struct Board {
    /// Row-major grid of placed tiles. None = empty square.
    cells: [Option<Tile>; 225],
}

impl Board {
    /// The tile at `(r, c)`; `None` for an empty square and for any square off the board.
    pub closed spec fn at(self, r: int, c: int) -> Option<Tile> {
        if in_bounds(r, c) {
            self.cells@[r * 15 + c]
        } else {
            None
        }
    }

    /// The board after putting `tile` on `(r, c)`; unchanged when the square is off the board.
    pub closed spec fn spec_set(self, r: int, c: int, tile: Tile) -> Board {
        if in_bounds(r, c) {
            Board { cells: vstd::array::spec_array_update(self.cells, r * 15 + c, Some(tile)) }
        } else {
            self
        }
    }

    /// Number of tiles on the board.
    pub closed spec fn num_tiles(self) -> nat {
        count_some(self.cells@)
    }

    /// Putting a tile on an empty square adds one tile; putting one on an occupied
    /// square leaves the number unchanged. There are never more than 225 tiles.
    pub proof fn lemma_set_num_tiles(self, r: int, c: int, tile: Tile)
        ensures
            in_bounds(r, c) && self.at(r, c) is None ==> self.spec_set(r, c, tile).num_tiles()
                == self.num_tiles() + 1,
            !in_bounds(r, c) ==> self.spec_set(r, c, tile).num_tiles() == self.num_tiles(),
            self.num_tiles() <= 225,
            forall|r2: int, c2: int|
                #[trigger] self.spec_set(r, c, tile).at(r2, c2) == if r2 == r && c2 == c && in_bounds(r, c) {
                    Some(tile)
                } else {
                    self.at(r2, c2)
                },
    {
        lemma_count_some_le(self.cells@);
        if in_bounds(r, c) {
            let i = r * 15 + c;
            assert(self.cells@.len() == 225);
            if self.at(r, c) is None {
                lemma_count_some_update(self.cells@, i, Some(tile));
            }
            let n = self.spec_set(r, c, tile);
            assert forall|r2: int, c2: int| #[trigger] n.at(r2, c2) == if r2 == r && c2 == c && in_bounds(r, c) {
                Some(tile)
            } else {
                self.at(r2, c2)
            } by {
                if in_bounds(r2, c2) && !(r2 == r && c2 == c) {
                    assert(r2 * 15 + c2 != r * 15 + c);
                }
            }
        }
    }

    /// Whether `(r, c)` is a square of the board that holds a tile.
    pub open spec fn occupied(self, r: int, c: int) -> bool {
        self.at(r, c) is Some
    }

    /// Whether no square of the board holds a tile.
    pub open spec fn spec_is_empty(self) -> bool {
        forall|r: int, c: int| #[trigger] self.at(r, c) is None
    }

    /// Off the board there is never a tile.
    pub proof fn lemma_off_board(self, r: int, c: int)
        ensures
            !in_bounds(r, c) ==> self.at(r, c) is None,
    {
    }

    pub fn new() -> (b: Self)
        ensures
            b.spec_is_empty(),
    {
        let b = Board { cells: [None; 225] };
        proof {
            assert forall|r: int, c: int| #[trigger] b.at(r, c) is None by {
                if in_bounds(r, c) {
                    assert(b.cells@[r * 15 + c] is None);
                }
            }
        }
        b
    }

    pub fn get(&self, row: usize, col: usize) -> (r: Option<&Tile>)
        ensures
            match r {
                Some(t) => self.at(row as int, col as int) == Some(*t),
                None => self.at(row as int, col as int) is None,
            },
    {
        if row < BOARD_SIZE && col < BOARD_SIZE {
            self.cells[row * 15 + col].as_ref()
        } else {
            None
        }
    }

    pub fn set(&mut self, row: usize, col: usize, tile: Tile)
        ensures
            *final(self) == old(self).spec_set(row as int, col as int, tile),
            forall|r: int, c: int|
                #[trigger] final(self).at(r, c) == if r == row && c == col && in_bounds(r, c) {
                    Some(tile)
                } else {
                    old(self).at(r, c)
                },
    {
        if row < BOARD_SIZE && col < BOARD_SIZE {
            let ghost before = self.cells@;
            self.cells[row * 15 + col] = Some(tile);
            assert(self.cells@ =~= before.update(row * 15 + col, Some(tile)));
            assert(self.cells =~= vstd::array::spec_array_update(old(self).cells, row * 15 + col, Some(tile)));
            proof {
                assert forall|r: int, c: int| #[trigger] self.at(r, c) == if r == row && c == col
                    && in_bounds(r, c) {
                    Some(tile)
                } else {
                    old(self).at(r, c)
                } by {
                    if in_bounds(r, c) && !(r == row && c == col) {
                        assert(r * 15 + c != row * 15 + col);
                    }
                }
            }
        }
    }

    pub fn is_empty_at(&self, row: usize, col: usize) -> (r: bool)
        ensures
            r == (in_bounds(row as int, col as int) && self.at(row as int, col as int) is None),
    {
        row < BOARD_SIZE && col < BOARD_SIZE && self.cells[row * 15 + col].is_none()
    }

    pub fn is_occupied(&self, row: usize, col: usize) -> (r: bool)
        ensures
            r == self.occupied(row as int, col as int),
    {
        row < BOARD_SIZE && col < BOARD_SIZE && self.cells[row * 15 + col].is_some()
    }

    /// Whether the board has no tiles placed at all.
    pub fn is_empty(&self) -> (r: bool)
        ensures
            r == self.spec_is_empty(),
    {
        let mut i: usize = 0;
        while i < 225
            invariant
                i <= 225,
                forall|j: int| 0 <= j < i ==> #[trigger] self.cells@[j] is None,
            decreases 225 - i,
        {
            if self.cells[i].is_some() {
                proof {
                    let r = (i / 15) as int;
                    let c = (i % 15) as int;
                    assert(r * 15 + c == i);
                    assert(self.at(r, c) is Some);
                }
                return false;
            }
            i = i + 1;
        }
        proof {
            assert forall|r: int, c: int| #[trigger] self.at(r, c) is None by {
                if in_bounds(r, c) {
                    assert(0 <= r * 15 + c < 225);
                }
            }
        }
        true
    }

    /// Get the bonus type for a square.
    pub fn bonus_at(row: usize, col: usize) -> (b: BonusSquare)
        requires
            row < 15,
            col < 15,
        ensures
            b == bonus_spec(row as int, col as int),
    {
        let a = if row <= 7 { row } else { 14 - row };
        let b = if col <= 7 { col } else { 14 - col };
        let x = if a <= b { a } else { b };
        let y = if a <= b { b } else { a };
        if x == 7 && y == 7 {
            BonusSquare::Center
        } else if x == 0 && (y == 0 || y == 7) {
            BonusSquare::TripleWord
        } else if x == y && 1 <= x && x <= 4 {
            BonusSquare::DoubleWord
        } else if (x == 1 && y == 5) || (x == 5 && y == 5) {
            BonusSquare::TripleLetter
        } else if (x == 0 && y == 3) || (x == 2 && y == 6) || (x == 3 && y == 7) || (x == 6 && y
            == 6) {
            BonusSquare::DoubleLetter
        } else {
            BonusSquare::Normal
        }
    }
}

impl Default for Board {
    fn default() -> (b: Self)
        ensures
            b.spec_is_empty(),
    {
        Self::new()
    }
}

/// Number of occupied entries of `s`.
pub open spec fn count_some(s: Seq<Option<Tile>>) -> nat
    decreases s.len(),
{
    if s.len() == 0 {
        0
    } else {
        count_some(s.drop_last()) + if s.last() is Some { 1nat } else { 0nat }
    }
}

proof fn lemma_count_some_le(s: Seq<Option<Tile>>)
    ensures
        count_some(s) <= s.len(),
    decreases s.len(),
{
    if s.len() > 0 {
        lemma_count_some_le(s.drop_last());
    }
}

proof fn lemma_count_some_update(s: Seq<Option<Tile>>, i: int, v: Option<Tile>)
    requires
        0 <= i < s.len(),
        s[i] is None,
        v is Some,
    ensures
        count_some(s.update(i, v)) == count_some(s) + 1,
    decreases s.len(),
{
    let u = s.update(i, v);
    if i == s.len() - 1 {
        assert(u.drop_last() =~= s.drop_last());
    } else {
        assert(u.drop_last() =~= s.drop_last().update(i, v));
        lemma_count_some_update(s.drop_last(), i, v);
    }
}

/// The bonus layout is the same seen from any side of the board and across either
/// diagonal.
pub proof fn lemma_bonus_symmetric(r: int, c: int)
    requires
        in_bounds(r, c),
    ensures
        bonus_spec(r, c) == bonus_spec(c, r),
        bonus_spec(r, c) == bonus_spec(14 - r, c),
        bonus_spec(r, c) == bonus_spec(r, 14 - c),
        bonus_spec(r, c) == bonus_spec(14 - c, 14 - r),
{
}

/// Only the middle square is the center bonus.
pub proof fn lemma_center_unique(r: int, c: int)
    requires
        in_bounds(r, c),
    ensures
        (bonus_spec(r, c) == BonusSquare::Center) <==> (r == 7 && c == 7),
{
}

} // verus!
