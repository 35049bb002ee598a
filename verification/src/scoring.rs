//! Scoring of words, the bingo bonus and the end-of-game rack penalty.
use vstd::prelude::*;
use crate::board::{bonus_spec, in_bounds, Board, BonusSquare};
use crate::placement::{cell, has_new, Direction, PlacedTile};
use crate::rack::RACK_SIZE;
use crate::tile::Tile;

verus! {

/// Whether an entry of the placed-tiles map stands at `(r, c)`.
pub open spec fn entry_at(e: (usize, usize, Tile), r: int, c: int) -> bool {
    e.0 == r && e.1 == c
}

/// `i` is the first entry of `m` at `(r, c)`.
pub open spec fn is_first_entry(m: Seq<(usize, usize, Tile)>, r: int, c: int, i: int) -> bool {
    &&& 0 <= i < m.len()
    &&& entry_at(m[i], r, c)
    &&& forall|j: int| 0 <= j < i ==> !entry_at(#[trigger] m[j], r, c)
}

/// The tile of the first entry of `m` at `(r, c)`.
pub open spec fn map_tile(m: Seq<(usize, usize, Tile)>, r: int, c: int) -> Option<Tile> {
    if exists|i: int| is_first_entry(m, r, c, i) {
        Some(m[choose|i: int| is_first_entry(m, r, c, i)].2)
    } else {
        None
    }
}

/// The tile scored at `(r, c)`: the placed-tiles map wins over the board.
pub open spec fn scored_tile(b: Board, m: Seq<(usize, usize, Tile)>, r: int, c: int) -> Option<Tile> {
    if map_tile(m, r, c) is Some {
        map_tile(m, r, c)
    } else {
        b.at(r, c)
    }
}

/// The bonus that counts at `(r, c)`: only squares covered by a new tile count.
pub open spec fn live_bonus(nt: Seq<PlacedTile>, r: int, c: int) -> BonusSquare {
    if has_new(nt, r, c) {
        bonus_spec(r, c)
    } else {
        BonusSquare::Normal
    }
}

pub open spec fn letter_mult(b: BonusSquare) -> int {
    match b {
        BonusSquare::DoubleLetter => 2,
        BonusSquare::TripleLetter => 3,
        _ => 1,
    }
}

pub open spec fn word_mult(b: BonusSquare) -> int {
    match b {
        BonusSquare::DoubleWord | BonusSquare::Center => 2,
        BonusSquare::TripleWord => 3,
        _ => 1,
    }
}

/// Letter sum and word multiplier over the squares `ps`.
pub open spec fn word_sums(
    ps: Seq<(usize, usize)>,
    b: Board,
    nt: Seq<PlacedTile>,
    m: Seq<(usize, usize, Tile)>,
) -> (int, int)
    decreases ps.len(),
{
    if ps.len() == 0 {
        (0, 1)
    } else {
        let (sum, mult) = word_sums(ps.drop_last(), b, nt, m);
        let (r, c) = ps.last();
        match scored_tile(b, m, r as int, c as int) {
            None => (sum, mult),
            Some(t) => {
                let bonus = live_bonus(nt, r as int, c as int);
                (sum + t.spec_points() * letter_mult(bonus), mult * word_mult(bonus))
            },
        }
    }
}

/// The score of a word: the letter sum times the word multiplier.
pub open spec fn word_score(
    ps: Seq<(usize, usize)>,
    b: Board,
    nt: Seq<PlacedTile>,
    m: Seq<(usize, usize, Tile)>,
) -> int {
    word_sums(ps, b, nt, m).0 * word_sums(ps, b, nt, m).1
}

/// Whether scoring `ps` stays inside the range of `i32` at every step and looks up
/// bonuses on the board only.
pub open spec fn score_word_fits(
    ps: Seq<(usize, usize)>,
    b: Board,
    nt: Seq<PlacedTile>,
    m: Seq<(usize, usize, Tile)>,
) -> bool {
    &&& forall|k: int|
        0 <= k < ps.len() ==> (scored_tile(b, m, (#[trigger] ps[k]).0 as int, ps[k].1 as int) is Some
            && has_new(nt, ps[k].0 as int, ps[k].1 as int) ==> in_bounds(ps[k].0 as int, ps[k].1 as int))
    &&& forall|k: int|
        0 <= k <= ps.len() ==> #[trigger] word_sums(ps.subrange(0, k), b, nt, m).0 <= i32::MAX
            && word_sums(ps.subrange(0, k), b, nt, m).1 <= i32::MAX
    &&& word_score(ps, b, nt, m) <= i32::MAX
}

proof fn lemma_word_sums_nonneg(
    ps: Seq<(usize, usize)>,
    b: Board,
    nt: Seq<PlacedTile>,
    m: Seq<(usize, usize, Tile)>,
)
    ensures
        word_sums(ps, b, nt, m).0 >= 0,
        word_sums(ps, b, nt, m).1 >= 1,
    decreases ps.len(),
{
    if ps.len() > 0 {
        lemma_word_sums_nonneg(ps.drop_last(), b, nt, m);
        let (sum, mult) = word_sums(ps.drop_last(), b, nt, m);
        let (r, c) = ps.last();
        if let Some(t) = scored_tile(b, m, r as int, c as int) {
            let bonus = live_bonus(nt, r as int, c as int);
            assert(mult * word_mult(bonus) >= 1) by (nonlinear_arith)
                requires
                    mult >= 1,
                    word_mult(bonus) >= 1,
            ;
        }
    }
}

proof fn lemma_first_entry(m: Seq<(usize, usize, Tile)>, r: int, c: int, i: int)
    requires
        is_first_entry(m, r, c, i),
    ensures
        map_tile(m, r, c) == Some(m[i].2),
{
    let k = choose|k: int| is_first_entry(m, r, c, k);
    assert(is_first_entry(m, r, c, k));
    if k < i {
        assert(!entry_at(m[k], r, c));
    } else if i < k {
        assert(!entry_at(m[i], r, c));
    }
}

fn find_entry(m: &[(usize, usize, Tile)], row: usize, col: usize) -> (r: Option<Tile>)
    ensures
        r == map_tile(m@, row as int, col as int),
{
    let mut i: usize = 0;
    while i < m.len()
        invariant
            i <= m@.len(),
            forall|j: int| 0 <= j < i ==> !entry_at(#[trigger] m@[j], row as int, col as int),
        decreases m@.len() - i,
    {
        if m[i].0 == row && m[i].1 == col {
            proof {
                lemma_first_entry(m@, row as int, col as int, i as int);
            }
            return Some(m[i].2);
        }
        i = i + 1;
    }
    proof {
        if exists|k: int| is_first_entry(m@, row as int, col as int, k) {
            let k = choose|k: int| is_first_entry(m@, row as int, col as int, k);
            assert(!entry_at(m@[k], row as int, col as int));
        }
    }
    None
}

fn is_new_square(nt: &[PlacedTile], row: usize, col: usize) -> (r: bool)
    ensures
        r == has_new(nt@, row as int, col as int),
{
    let mut i: usize = 0;
    while i < nt.len()
        invariant
            i <= nt@.len(),
            forall|j: int| 0 <= j < i ==> !(#[trigger] nt@[j].row == row && nt@[j].col == col),
        decreases nt@.len() - i,
    {
        if nt[i].row == row && nt[i].col == col {
            assert(nt@[i as int].row == row && nt@[i as int].col == col);
            return true;
        }
        i = i + 1;
    }
    assert(!has_new(nt@, row as int, col as int)) by {
        if has_new(nt@, row as int, col as int) {
            let j = choose|j: int| 0 <= j < nt@.len() && crate::placement::at_pos(#[trigger] nt@[j], row as int, col as int);
            assert(!(nt@[j].row == row && nt@[j].col == col));
        }
    }
    false
}

/// Score a single word formed by a move. `new_tiles` are the newly placed tiles
/// (so we know which bonus squares are "fresh").
pub fn score_word(
    word_positions: &[(usize, usize)],
    board: &Board,
    new_tiles: &[PlacedTile],
    placed_tiles_map: &[(usize, usize, Tile)],
) -> (score: i32)
    requires
        score_word_fits(word_positions@, *board, new_tiles@, placed_tiles_map@),
    ensures
        score == word_score(word_positions@, *board, new_tiles@, placed_tiles_map@),
{
    let ghost ps = word_positions@;
    let ghost b = *board;
    let ghost nt = new_tiles@;
    let ghost m = placed_tiles_map@;
    let mut word_score: i32 = 0;
    let mut word_multiplier: i32 = 1;
    let mut k: usize = 0;
    assert(ps.subrange(0, 0) =~= Seq::<(usize, usize)>::empty());
    while k < word_positions.len()
        invariant
            k <= ps.len(),
            ps == word_positions@,
            b == *board,
            nt == new_tiles@,
            m == placed_tiles_map@,
            score_word_fits(ps, b, nt, m),
            (word_score as int, word_multiplier as int) == word_sums(ps.subrange(0, k as int), b, nt, m),
        decreases ps.len() - k,
    {
        let (row, col) = word_positions[k];
        assert(ps.subrange(0, k + 1).drop_last() =~= ps.subrange(0, k as int));
        assert(ps.subrange(0, k + 1).last() == ps[k as int]);
        let ghost prev = word_sums(ps.subrange(0, k as int), b, nt, m);
        proof {
            lemma_word_sums_nonneg(ps.subrange(0, k as int), b, nt, m);
        }
        let tile = match find_entry(placed_tiles_map, row, col) {
            Some(t) => t,
            None => match board.get(row, col) {
                Some(t) => *t,
                None => {
                    assert(word_sums(ps.subrange(0, k + 1), b, nt, m) == prev);
                    k = k + 1;
                    continue;
                },
            },
        };
        let is_new = is_new_square(new_tiles, row, col);
        let bonus = if is_new {
            assert(in_bounds(ps[k as int].0 as int, ps[k as int].1 as int));
            Board::bonus_at(row, col)
        } else {
            BonusSquare::Normal
        };
        assert(scored_tile(b, m, row as int, col as int) == Some(tile));
        assert(live_bonus(nt, row as int, col as int) == bonus);
        assert(word_sums(ps.subrange(0, k + 1), b, nt, m) == (prev.0 + tile.spec_points()
            * letter_mult(bonus), prev.1 * word_mult(bonus)));
        let letter_value = tile.points() as i32;
        let letter_mul: i32 = match bonus {
            BonusSquare::DoubleLetter => 2,
            BonusSquare::TripleLetter => 3,
            _ => 1,
        };
        assert(word_sums(ps.subrange(0, k + 1), b, nt, m).0 <= i32::MAX);
        assert(word_sums(ps.subrange(0, k + 1), b, nt, m).1 <= i32::MAX);
        word_score = word_score + letter_value * letter_mul;
        match bonus {
            BonusSquare::DoubleWord | BonusSquare::Center => {
                assert(word_mult(bonus) == 2);
                assert(prev.1 * word_mult(bonus) == word_multiplier * 2);
                word_multiplier = word_multiplier * 2;
            },
            BonusSquare::TripleWord => {
                assert(word_mult(bonus) == 3);
                assert(prev.1 * word_mult(bonus) == word_multiplier * 3);
                word_multiplier = word_multiplier * 3;
            },
            _ => {},
        }
        k = k + 1;
    }
    assert(ps.subrange(0, ps.len() as int) =~= ps);
    proof {
        lemma_word_sums_nonneg(ps, b, nt, m);
        assert(word_score * word_multiplier >= 0) by (nonlinear_arith)
            requires
                word_score >= 0,
                word_multiplier >= 1,
        ;
    }
    word_score * word_multiplier
}

/// Calculate the bingo bonus (50 points for using all 7 tiles).
pub fn bingo_bonus(tiles_placed: usize) -> (r: i32)
    ensures
        r == if tiles_placed == 7 { 50int } else { 0int },
{
    if tiles_placed == RACK_SIZE {
        50
    } else {
        0
    }
}

/// Sum of the point values of the tiles.
pub open spec fn points_sum(ts: Seq<Tile>) -> int
    decreases ts.len(),
{
    if ts.len() == 0 {
        0
    } else {
        points_sum(ts.drop_last()) + ts.last().spec_points()
    }
}

/// The value of a group of tiles is the sum of its tiles' values: a single tile is worth
/// its points (a blank nothing), and two groups together are worth what each is worth.
pub proof fn lemma_points_sum_adds(a: Seq<Tile>, b: Seq<Tile>, t: Tile)
    ensures
        points_sum(Seq::empty()) == 0,
        points_sum(seq![t]) == match t {
            Tile::Letter(_, p) => p as int,
            Tile::Blank(_) => 0int,
        },
        points_sum(a + b) == points_sum(a) + points_sum(b),
    decreases b.len(),
{
    assert(seq![t].drop_last() =~= Seq::<Tile>::empty());
    if b.len() > 0 {
        lemma_points_sum_adds(a, b.drop_last(), t);
        assert((a + b).drop_last() =~= a + b.drop_last());
    } else {
        assert(a + b =~= a);
    }
}

pub proof fn lemma_points_sum_bounds(ts: Seq<Tile>)
    ensures
        0 <= points_sum(ts) <= 255 * ts.len(),
    decreases ts.len(),
{
    if ts.len() > 0 {
        lemma_points_sum_bounds(ts.drop_last());
    }
}

/// Calculate the end-game rack penalty for a player (sum of remaining tile values).
pub fn rack_penalty(tiles: &[Tile]) -> (r: i32)
    requires
        points_sum(tiles@) <= i32::MAX,
    ensures
        r == points_sum(tiles@),
{
    let mut sum: i32 = 0;
    let mut k: usize = 0;
    while k < tiles.len()
        invariant
            k <= tiles@.len(),
            points_sum(tiles@) <= i32::MAX,
            sum == points_sum(tiles@.subrange(0, k as int)),
        decreases tiles@.len() - k,
    {
        assert(tiles@.subrange(0, k + 1).drop_last() =~= tiles@.subrange(0, k as int));
        proof {
            lemma_points_sum_prefix(tiles@, k + 1);
        }
        sum = sum + tiles[k].points() as i32;
        k = k + 1;
    }
    assert(tiles@.subrange(0, tiles@.len() as int) =~= tiles@);
    sum
}

/// A prefix never scores more than the whole.
pub proof fn lemma_points_sum_prefix(ts: Seq<Tile>, k: int)
    requires
        0 <= k <= ts.len(),
    ensures
        points_sum(ts.subrange(0, k)) <= points_sum(ts),
    decreases ts.len() - k,
{
    if k < ts.len() {
        lemma_points_sum_prefix(ts, k + 1);
        assert(ts.subrange(0, k + 1).drop_last() =~= ts.subrange(0, k));
        assert(points_sum(ts.subrange(0, k + 1)) == points_sum(ts.subrange(0, k)) + ts.subrange(0, k + 1).last().spec_points());
    } else {
        assert(ts.subrange(0, k) =~= ts);
    }
}


/// Product of the word multipliers of the squares `s..e` of a line.
pub open spec fn line_mult(d: Direction, fixed: int, s: int, e: int) -> int
    decreases e - s,
{
    if e <= s {
        1
    } else {
        line_mult(d, fixed, s, e - 1) * word_mult(
            bonus_spec(cell(d, fixed, e - 1).0, cell(d, fixed, e - 1).1),
        )
    }
}

proof fn lemma_line_mult_pos(d: Direction, fixed: int, s: int, e: int)
    ensures
        line_mult(d, fixed, s, e) >= 1,
    decreases e - s,
{
    if e > s {
        lemma_line_mult_pos(d, fixed, s, e - 1);
        let x = line_mult(d, fixed, s, e - 1);
        let w = word_mult(bonus_spec(cell(d, fixed, e - 1).0, cell(d, fixed, e - 1).1));
        assert(x * w >= 1) by (nonlinear_arith)
            requires
                x >= 1,
                w >= 1,
        ;
    }
}

proof fn lemma_line_mult_split(d: Direction, fixed: int, a: int, b: int, c: int)
    requires
        a <= b <= c,
    ensures
        line_mult(d, fixed, a, c) == line_mult(d, fixed, a, b) * line_mult(d, fixed, b, c),
    decreases c - b,
{
    if c > b {
        lemma_line_mult_split(d, fixed, a, b, c - 1);
        let x = line_mult(d, fixed, a, b);
        let y = line_mult(d, fixed, b, c - 1);
        let w = word_mult(bonus_spec(cell(d, fixed, c - 1).0, cell(d, fixed, c - 1).1));
        assert(x * y * w == x * (y * w)) by (nonlinear_arith);
    }
}

#[verifier::spinoff_prover]
proof fn lemma_row_mult_0()
    ensures
        line_mult(Direction::Horizontal, 0, 0, 15) <= 27,
{
    assert(line_mult(Direction::Horizontal, 0, 0, 0) == 1);
    assert(bonus_spec(0, 0) == BonusSquare::TripleWord);
    assert(line_mult(Direction::Horizontal, 0, 0, 1) == 3);
    assert(bonus_spec(0, 1) == BonusSquare::Normal);
    assert(line_mult(Direction::Horizontal, 0, 0, 2) == 3);
    assert(bonus_spec(0, 2) == BonusSquare::Normal);
    assert(line_mult(Direction::Horizontal, 0, 0, 3) == 3);
    assert(bonus_spec(0, 3) == BonusSquare::DoubleLetter);
    assert(line_mult(Direction::Horizontal, 0, 0, 4) == 3);
    assert(bonus_spec(0, 4) == BonusSquare::Normal);
    assert(line_mult(Direction::Horizontal, 0, 0, 5) == 3);
    assert(bonus_spec(0, 5) == BonusSquare::Normal);
    assert(line_mult(Direction::Horizontal, 0, 0, 6) == 3);
    assert(bonus_spec(0, 6) == BonusSquare::Normal);
    assert(line_mult(Direction::Horizontal, 0, 0, 7) == 3);
    assert(bonus_spec(0, 7) == BonusSquare::TripleWord);
    assert(line_mult(Direction::Horizontal, 0, 0, 8) == 9);
    assert(bonus_spec(0, 8) == BonusSquare::Normal);
    assert(line_mult(Direction::Horizontal, 0, 0, 9) == 9);
    assert(bonus_spec(0, 9) == BonusSquare::Normal);
    assert(line_mult(Direction::Horizontal, 0, 0, 10) == 9);
    assert(bonus_spec(0, 10) == BonusSquare::Normal);
    assert(line_mult(Direction::Horizontal, 0, 0, 11) == 9);
    assert(bonus_spec(0, 11) == BonusSquare::DoubleLetter);
    assert(line_mult(Direction::Horizontal, 0, 0, 12) == 9);
    assert(bonus_spec(0, 12) == BonusSquare::Normal);
    assert(line_mult(Direction::Horizontal, 0, 0, 13) == 9);
    assert(bonus_spec(0, 13) == BonusSquare::Normal);
    assert(line_mult(Direction::Horizontal, 0, 0, 14) == 9);
    assert(bonus_spec(0, 14) == BonusSquare::TripleWord);
    assert(line_mult(Direction::Horizontal, 0, 0, 15) == 27);
}

#[verifier::spinoff_prover]
proof fn lemma_row_mult_1()
    ensures
        line_mult(Direction::Horizontal, 1, 0, 15) <= 27,
{
    assert(line_mult(Direction::Horizontal, 1, 0, 0) == 1);
    assert(bonus_spec(1, 0) == BonusSquare::Normal);
    assert(line_mult(Direction::Horizontal, 1, 0, 1) == 1);
    assert(bonus_spec(1, 1) == BonusSquare::DoubleWord);
    assert(line_mult(Direction::Horizontal, 1, 0, 2) == 2);
    assert(bonus_spec(1, 2) == BonusSquare::Normal);
    assert(line_mult(Direction::Horizontal, 1, 0, 3) == 2);
    assert(bonus_spec(1, 3) == BonusSquare::Normal);
    assert(line_mult(Direction::Horizontal, 1, 0, 4) == 2);
    assert(bonus_spec(1, 4) == BonusSquare::Normal);
    assert(line_mult(Direction::Horizontal, 1, 0, 5) == 2);
    assert(bonus_spec(1, 5) == BonusSquare::TripleLetter);
    assert(line_mult(Direction::Horizontal, 1, 0, 6) == 2);
    assert(bonus_spec(1, 6) == BonusSquare::Normal);
    assert(line_mult(Direction::Horizontal, 1, 0, 7) == 2);
    assert(bonus_spec(1, 7) == BonusSquare::Normal);
    assert(line_mult(Direction::Horizontal, 1, 0, 8) == 2);
    assert(bonus_spec(1, 8) == BonusSquare::Normal);
    assert(line_mult(Direction::Horizontal, 1, 0, 9) == 2);
    assert(bonus_spec(1, 9) == BonusSquare::TripleLetter);
    assert(line_mult(Direction::Horizontal, 1, 0, 10) == 2);
    assert(bonus_spec(1, 10) == BonusSquare::Normal);
    assert(line_mult(Direction::Horizontal, 1, 0, 11) == 2);
    assert(bonus_spec(1, 11) == BonusSquare::Normal);
    assert(line_mult(Direction::Horizontal, 1, 0, 12) == 2);
    assert(bonus_spec(1, 12) == BonusSquare::Normal);
    assert(line_mult(Direction::Horizontal, 1, 0, 13) == 2);
    assert(bonus_spec(1, 13) == BonusSquare::DoubleWord);
    assert(line_mult(Direction::Horizontal, 1, 0, 14) == 4);
    assert(bonus_spec(1, 14) == BonusSquare::Normal);
    assert(line_mult(Direction::Horizontal, 1, 0, 15) == 4);
}

#[verifier::spinoff_prover]
proof fn lemma_row_mult_2()
    ensures
        line_mult(Direction::Horizontal, 2, 0, 15) <= 27,
{
    assert(line_mult(Direction::Horizontal, 2, 0, 0) == 1);
    assert(bonus_spec(2, 0) == BonusSquare::Normal);
    assert(line_mult(Direction::Horizontal, 2, 0, 1) == 1);
    assert(bonus_spec(2, 1) == BonusSquare::Normal);
    assert(line_mult(Direction::Horizontal, 2, 0, 2) == 1);
    assert(bonus_spec(2, 2) == BonusSquare::DoubleWord);
    assert(line_mult(Direction::Horizontal, 2, 0, 3) == 2);
    assert(bonus_spec(2, 3) == BonusSquare::Normal);
    assert(line_mult(Direction::Horizontal, 2, 0, 4) == 2);
    assert(bonus_spec(2, 4) == BonusSquare::Normal);
    assert(line_mult(Direction::Horizontal, 2, 0, 5) == 2);
    assert(bonus_spec(2, 5) == BonusSquare::Normal);
    assert(line_mult(Direction::Horizontal, 2, 0, 6) == 2);
    assert(bonus_spec(2, 6) == BonusSquare::DoubleLetter);
    assert(line_mult(Direction::Horizontal, 2, 0, 7) == 2);
    assert(bonus_spec(2, 7) == BonusSquare::Normal);
    assert(line_mult(Direction::Horizontal, 2, 0, 8) == 2);
    assert(bonus_spec(2, 8) == BonusSquare::DoubleLetter);
    assert(line_mult(Direction::Horizontal, 2, 0, 9) == 2);
    assert(bonus_spec(2, 9) == BonusSquare::Normal);
    assert(line_mult(Direction::Horizontal, 2, 0, 10) == 2);
    assert(bonus_spec(2, 10) == BonusSquare::Normal);
    assert(line_mult(Direction::Horizontal, 2, 0, 11) == 2);
    assert(bonus_spec(2, 11) == BonusSquare::Normal);
    assert(line_mult(Direction::Horizontal, 2, 0, 12) == 2);
    assert(bonus_spec(2, 12) == BonusSquare::DoubleWord);
    assert(line_mult(Direction::Horizontal, 2, 0, 13) == 4);
    assert(bonus_spec(2, 13) == BonusSquare::Normal);
    assert(line_mult(Direction::Horizontal, 2, 0, 14) == 4);
    assert(bonus_spec(2, 14) == BonusSquare::Normal);
    assert(line_mult(Direction::Horizontal, 2, 0, 15) == 4);
}

#[verifier::spinoff_prover]
proof fn lemma_row_mult_3()
    ensures
        line_mult(Direction::Horizontal, 3, 0, 15) <= 27,
{
    assert(line_mult(Direction::Horizontal, 3, 0, 0) == 1);
    assert(bonus_spec(3, 0) == BonusSquare::DoubleLetter);
    assert(line_mult(Direction::Horizontal, 3, 0, 1) == 1);
    assert(bonus_spec(3, 1) == BonusSquare::Normal);
    assert(line_mult(Direction::Horizontal, 3, 0, 2) == 1);
    assert(bonus_spec(3, 2) == BonusSquare::Normal);
    assert(line_mult(Direction::Horizontal, 3, 0, 3) == 1);
    assert(bonus_spec(3, 3) == BonusSquare::DoubleWord);
    assert(line_mult(Direction::Horizontal, 3, 0, 4) == 2);
    assert(bonus_spec(3, 4) == BonusSquare::Normal);
    assert(line_mult(Direction::Horizontal, 3, 0, 5) == 2);
    assert(bonus_spec(3, 5) == BonusSquare::Normal);
    assert(line_mult(Direction::Horizontal, 3, 0, 6) == 2);
    assert(bonus_spec(3, 6) == BonusSquare::Normal);
    assert(line_mult(Direction::Horizontal, 3, 0, 7) == 2);
    assert(bonus_spec(3, 7) == BonusSquare::DoubleLetter);
    assert(line_mult(Direction::Horizontal, 3, 0, 8) == 2);
    assert(bonus_spec(3, 8) == BonusSquare::Normal);
    assert(line_mult(Direction::Horizontal, 3, 0, 9) == 2);
    assert(bonus_spec(3, 9) == BonusSquare::Normal);
    assert(line_mult(Direction::Horizontal, 3, 0, 10) == 2);
    assert(bonus_spec(3, 10) == BonusSquare::Normal);
    assert(line_mult(Direction::Horizontal, 3, 0, 11) == 2);
    assert(bonus_spec(3, 11) == BonusSquare::DoubleWord);
    assert(line_mult(Direction::Horizontal, 3, 0, 12) == 4);
    assert(bonus_spec(3, 12) == BonusSquare::Normal);
    assert(line_mult(Direction::Horizontal, 3, 0, 13) == 4);
    assert(bonus_spec(3, 13) == BonusSquare::Normal);
    assert(line_mult(Direction::Horizontal, 3, 0, 14) == 4);
    assert(bonus_spec(3, 14) == BonusSquare::DoubleLetter);
    assert(line_mult(Direction::Horizontal, 3, 0, 15) == 4);
}

#[verifier::spinoff_prover]
proof fn lemma_row_mult_4()
    ensures
        line_mult(Direction::Horizontal, 4, 0, 15) <= 27,
{
    assert(line_mult(Direction::Horizontal, 4, 0, 0) == 1);
    assert(bonus_spec(4, 0) == BonusSquare::Normal);
    assert(line_mult(Direction::Horizontal, 4, 0, 1) == 1);
    assert(bonus_spec(4, 1) == BonusSquare::Normal);
    assert(line_mult(Direction::Horizontal, 4, 0, 2) == 1);
    assert(bonus_spec(4, 2) == BonusSquare::Normal);
    assert(line_mult(Direction::Horizontal, 4, 0, 3) == 1);
    assert(bonus_spec(4, 3) == BonusSquare::Normal);
    assert(line_mult(Direction::Horizontal, 4, 0, 4) == 1);
    assert(bonus_spec(4, 4) == BonusSquare::DoubleWord);
    assert(line_mult(Direction::Horizontal, 4, 0, 5) == 2);
    assert(bonus_spec(4, 5) == BonusSquare::Normal);
    assert(line_mult(Direction::Horizontal, 4, 0, 6) == 2);
    assert(bonus_spec(4, 6) == BonusSquare::Normal);
    assert(line_mult(Direction::Horizontal, 4, 0, 7) == 2);
    assert(bonus_spec(4, 7) == BonusSquare::Normal);
    assert(line_mult(Direction::Horizontal, 4, 0, 8) == 2);
    assert(bonus_spec(4, 8) == BonusSquare::Normal);
    assert(line_mult(Direction::Horizontal, 4, 0, 9) == 2);
    assert(bonus_spec(4, 9) == BonusSquare::Normal);
    assert(line_mult(Direction::Horizontal, 4, 0, 10) == 2);
    assert(bonus_spec(4, 10) == BonusSquare::DoubleWord);
    assert(line_mult(Direction::Horizontal, 4, 0, 11) == 4);
    assert(bonus_spec(4, 11) == BonusSquare::Normal);
    assert(line_mult(Direction::Horizontal, 4, 0, 12) == 4);
    assert(bonus_spec(4, 12) == BonusSquare::Normal);
    assert(line_mult(Direction::Horizontal, 4, 0, 13) == 4);
    assert(bonus_spec(4, 13) == BonusSquare::Normal);
    assert(line_mult(Direction::Horizontal, 4, 0, 14) == 4);
    assert(bonus_spec(4, 14) == BonusSquare::Normal);
    assert(line_mult(Direction::Horizontal, 4, 0, 15) == 4);
}

#[verifier::spinoff_prover]
proof fn lemma_row_mult_5()
    ensures
        line_mult(Direction::Horizontal, 5, 0, 15) <= 27,
{
    assert(line_mult(Direction::Horizontal, 5, 0, 0) == 1);
    assert(bonus_spec(5, 0) == BonusSquare::Normal);
    assert(line_mult(Direction::Horizontal, 5, 0, 1) == 1);
    assert(bonus_spec(5, 1) == BonusSquare::TripleLetter);
    assert(line_mult(Direction::Horizontal, 5, 0, 2) == 1);
    assert(bonus_spec(5, 2) == BonusSquare::Normal);
    assert(line_mult(Direction::Horizontal, 5, 0, 3) == 1);
    assert(bonus_spec(5, 3) == BonusSquare::Normal);
    assert(line_mult(Direction::Horizontal, 5, 0, 4) == 1);
    assert(bonus_spec(5, 4) == BonusSquare::Normal);
    assert(line_mult(Direction::Horizontal, 5, 0, 5) == 1);
    assert(bonus_spec(5, 5) == BonusSquare::TripleLetter);
    assert(line_mult(Direction::Horizontal, 5, 0, 6) == 1);
    assert(bonus_spec(5, 6) == BonusSquare::Normal);
    assert(line_mult(Direction::Horizontal, 5, 0, 7) == 1);
    assert(bonus_spec(5, 7) == BonusSquare::Normal);
    assert(line_mult(Direction::Horizontal, 5, 0, 8) == 1);
    assert(bonus_spec(5, 8) == BonusSquare::Normal);
    assert(line_mult(Direction::Horizontal, 5, 0, 9) == 1);
    assert(bonus_spec(5, 9) == BonusSquare::TripleLetter);
    assert(line_mult(Direction::Horizontal, 5, 0, 10) == 1);
    assert(bonus_spec(5, 10) == BonusSquare::Normal);
    assert(line_mult(Direction::Horizontal, 5, 0, 11) == 1);
    assert(bonus_spec(5, 11) == BonusSquare::Normal);
    assert(line_mult(Direction::Horizontal, 5, 0, 12) == 1);
    assert(bonus_spec(5, 12) == BonusSquare::Normal);
    assert(line_mult(Direction::Horizontal, 5, 0, 13) == 1);
    assert(bonus_spec(5, 13) == BonusSquare::TripleLetter);
    assert(line_mult(Direction::Horizontal, 5, 0, 14) == 1);
    assert(bonus_spec(5, 14) == BonusSquare::Normal);
    assert(line_mult(Direction::Horizontal, 5, 0, 15) == 1);
}

#[verifier::spinoff_prover]
proof fn lemma_row_mult_6()
    ensures
        line_mult(Direction::Horizontal, 6, 0, 15) <= 27,
{
    assert(line_mult(Direction::Horizontal, 6, 0, 0) == 1);
    assert(bonus_spec(6, 0) == BonusSquare::Normal);
    assert(line_mult(Direction::Horizontal, 6, 0, 1) == 1);
    assert(bonus_spec(6, 1) == BonusSquare::Normal);
    assert(line_mult(Direction::Horizontal, 6, 0, 2) == 1);
    assert(bonus_spec(6, 2) == BonusSquare::DoubleLetter);
    assert(line_mult(Direction::Horizontal, 6, 0, 3) == 1);
    assert(bonus_spec(6, 3) == BonusSquare::Normal);
    assert(line_mult(Direction::Horizontal, 6, 0, 4) == 1);
    assert(bonus_spec(6, 4) == BonusSquare::Normal);
    assert(line_mult(Direction::Horizontal, 6, 0, 5) == 1);
    assert(bonus_spec(6, 5) == BonusSquare::Normal);
    assert(line_mult(Direction::Horizontal, 6, 0, 6) == 1);
    assert(bonus_spec(6, 6) == BonusSquare::DoubleLetter);
    assert(line_mult(Direction::Horizontal, 6, 0, 7) == 1);
    assert(bonus_spec(6, 7) == BonusSquare::Normal);
    assert(line_mult(Direction::Horizontal, 6, 0, 8) == 1);
    assert(bonus_spec(6, 8) == BonusSquare::DoubleLetter);
    assert(line_mult(Direction::Horizontal, 6, 0, 9) == 1);
    assert(bonus_spec(6, 9) == BonusSquare::Normal);
    assert(line_mult(Direction::Horizontal, 6, 0, 10) == 1);
    assert(bonus_spec(6, 10) == BonusSquare::Normal);
    assert(line_mult(Direction::Horizontal, 6, 0, 11) == 1);
    assert(bonus_spec(6, 11) == BonusSquare::Normal);
    assert(line_mult(Direction::Horizontal, 6, 0, 12) == 1);
    assert(bonus_spec(6, 12) == BonusSquare::DoubleLetter);
    assert(line_mult(Direction::Horizontal, 6, 0, 13) == 1);
    assert(bonus_spec(6, 13) == BonusSquare::Normal);
    assert(line_mult(Direction::Horizontal, 6, 0, 14) == 1);
    assert(bonus_spec(6, 14) == BonusSquare::Normal);
    assert(line_mult(Direction::Horizontal, 6, 0, 15) == 1);
}

#[verifier::spinoff_prover]
proof fn lemma_row_mult_7()
    ensures
        line_mult(Direction::Horizontal, 7, 0, 15) <= 27,
{
    assert(line_mult(Direction::Horizontal, 7, 0, 0) == 1);
    assert(bonus_spec(7, 0) == BonusSquare::TripleWord);
    assert(line_mult(Direction::Horizontal, 7, 0, 1) == 3);
    assert(bonus_spec(7, 1) == BonusSquare::Normal);
    assert(line_mult(Direction::Horizontal, 7, 0, 2) == 3);
    assert(bonus_spec(7, 2) == BonusSquare::Normal);
    assert(line_mult(Direction::Horizontal, 7, 0, 3) == 3);
    assert(bonus_spec(7, 3) == BonusSquare::DoubleLetter);
    assert(line_mult(Direction::Horizontal, 7, 0, 4) == 3);
    assert(bonus_spec(7, 4) == BonusSquare::Normal);
    assert(line_mult(Direction::Horizontal, 7, 0, 5) == 3);
    assert(bonus_spec(7, 5) == BonusSquare::Normal);
    assert(line_mult(Direction::Horizontal, 7, 0, 6) == 3);
    assert(bonus_spec(7, 6) == BonusSquare::Normal);
    assert(line_mult(Direction::Horizontal, 7, 0, 7) == 3);
    assert(bonus_spec(7, 7) == BonusSquare::Center);
    assert(line_mult(Direction::Horizontal, 7, 0, 8) == 6);
    assert(bonus_spec(7, 8) == BonusSquare::Normal);
    assert(line_mult(Direction::Horizontal, 7, 0, 9) == 6);
    assert(bonus_spec(7, 9) == BonusSquare::Normal);
    assert(line_mult(Direction::Horizontal, 7, 0, 10) == 6);
    assert(bonus_spec(7, 10) == BonusSquare::Normal);
    assert(line_mult(Direction::Horizontal, 7, 0, 11) == 6);
    assert(bonus_spec(7, 11) == BonusSquare::DoubleLetter);
    assert(line_mult(Direction::Horizontal, 7, 0, 12) == 6);
    assert(bonus_spec(7, 12) == BonusSquare::Normal);
    assert(line_mult(Direction::Horizontal, 7, 0, 13) == 6);
    assert(bonus_spec(7, 13) == BonusSquare::Normal);
    assert(line_mult(Direction::Horizontal, 7, 0, 14) == 6);
    assert(bonus_spec(7, 14) == BonusSquare::TripleWord);
    assert(line_mult(Direction::Horizontal, 7, 0, 15) == 18);
}

#[verifier::spinoff_prover]
proof fn lemma_row_mult_8()
    ensures
        line_mult(Direction::Horizontal, 8, 0, 15) <= 27,
{
    assert(line_mult(Direction::Horizontal, 8, 0, 0) == 1);
    assert(bonus_spec(8, 0) == BonusSquare::Normal);
    assert(line_mult(Direction::Horizontal, 8, 0, 1) == 1);
    assert(bonus_spec(8, 1) == BonusSquare::Normal);
    assert(line_mult(Direction::Horizontal, 8, 0, 2) == 1);
    assert(bonus_spec(8, 2) == BonusSquare::DoubleLetter);
    assert(line_mult(Direction::Horizontal, 8, 0, 3) == 1);
    assert(bonus_spec(8, 3) == BonusSquare::Normal);
    assert(line_mult(Direction::Horizontal, 8, 0, 4) == 1);
    assert(bonus_spec(8, 4) == BonusSquare::Normal);
    assert(line_mult(Direction::Horizontal, 8, 0, 5) == 1);
    assert(bonus_spec(8, 5) == BonusSquare::Normal);
    assert(line_mult(Direction::Horizontal, 8, 0, 6) == 1);
    assert(bonus_spec(8, 6) == BonusSquare::DoubleLetter);
    assert(line_mult(Direction::Horizontal, 8, 0, 7) == 1);
    assert(bonus_spec(8, 7) == BonusSquare::Normal);
    assert(line_mult(Direction::Horizontal, 8, 0, 8) == 1);
    assert(bonus_spec(8, 8) == BonusSquare::DoubleLetter);
    assert(line_mult(Direction::Horizontal, 8, 0, 9) == 1);
    assert(bonus_spec(8, 9) == BonusSquare::Normal);
    assert(line_mult(Direction::Horizontal, 8, 0, 10) == 1);
    assert(bonus_spec(8, 10) == BonusSquare::Normal);
    assert(line_mult(Direction::Horizontal, 8, 0, 11) == 1);
    assert(bonus_spec(8, 11) == BonusSquare::Normal);
    assert(line_mult(Direction::Horizontal, 8, 0, 12) == 1);
    assert(bonus_spec(8, 12) == BonusSquare::DoubleLetter);
    assert(line_mult(Direction::Horizontal, 8, 0, 13) == 1);
    assert(bonus_spec(8, 13) == BonusSquare::Normal);
    assert(line_mult(Direction::Horizontal, 8, 0, 14) == 1);
    assert(bonus_spec(8, 14) == BonusSquare::Normal);
    assert(line_mult(Direction::Horizontal, 8, 0, 15) == 1);
}

#[verifier::spinoff_prover]
proof fn lemma_row_mult_9()
    ensures
        line_mult(Direction::Horizontal, 9, 0, 15) <= 27,
{
    assert(line_mult(Direction::Horizontal, 9, 0, 0) == 1);
    assert(bonus_spec(9, 0) == BonusSquare::Normal);
    assert(line_mult(Direction::Horizontal, 9, 0, 1) == 1);
    assert(bonus_spec(9, 1) == BonusSquare::TripleLetter);
    assert(line_mult(Direction::Horizontal, 9, 0, 2) == 1);
    assert(bonus_spec(9, 2) == BonusSquare::Normal);
    assert(line_mult(Direction::Horizontal, 9, 0, 3) == 1);
    assert(bonus_spec(9, 3) == BonusSquare::Normal);
    assert(line_mult(Direction::Horizontal, 9, 0, 4) == 1);
    assert(bonus_spec(9, 4) == BonusSquare::Normal);
    assert(line_mult(Direction::Horizontal, 9, 0, 5) == 1);
    assert(bonus_spec(9, 5) == BonusSquare::TripleLetter);
    assert(line_mult(Direction::Horizontal, 9, 0, 6) == 1);
    assert(bonus_spec(9, 6) == BonusSquare::Normal);
    assert(line_mult(Direction::Horizontal, 9, 0, 7) == 1);
    assert(bonus_spec(9, 7) == BonusSquare::Normal);
    assert(line_mult(Direction::Horizontal, 9, 0, 8) == 1);
    assert(bonus_spec(9, 8) == BonusSquare::Normal);
    assert(line_mult(Direction::Horizontal, 9, 0, 9) == 1);
    assert(bonus_spec(9, 9) == BonusSquare::TripleLetter);
    assert(line_mult(Direction::Horizontal, 9, 0, 10) == 1);
    assert(bonus_spec(9, 10) == BonusSquare::Normal);
    assert(line_mult(Direction::Horizontal, 9, 0, 11) == 1);
    assert(bonus_spec(9, 11) == BonusSquare::Normal);
    assert(line_mult(Direction::Horizontal, 9, 0, 12) == 1);
    assert(bonus_spec(9, 12) == BonusSquare::Normal);
    assert(line_mult(Direction::Horizontal, 9, 0, 13) == 1);
    assert(bonus_spec(9, 13) == BonusSquare::TripleLetter);
    assert(line_mult(Direction::Horizontal, 9, 0, 14) == 1);
    assert(bonus_spec(9, 14) == BonusSquare::Normal);
    assert(line_mult(Direction::Horizontal, 9, 0, 15) == 1);
}

#[verifier::spinoff_prover]
proof fn lemma_row_mult_10()
    ensures
        line_mult(Direction::Horizontal, 10, 0, 15) <= 27,
{
    assert(line_mult(Direction::Horizontal, 10, 0, 0) == 1);
    assert(bonus_spec(10, 0) == BonusSquare::Normal);
    assert(line_mult(Direction::Horizontal, 10, 0, 1) == 1);
    assert(bonus_spec(10, 1) == BonusSquare::Normal);
    assert(line_mult(Direction::Horizontal, 10, 0, 2) == 1);
    assert(bonus_spec(10, 2) == BonusSquare::Normal);
    assert(line_mult(Direction::Horizontal, 10, 0, 3) == 1);
    assert(bonus_spec(10, 3) == BonusSquare::Normal);
    assert(line_mult(Direction::Horizontal, 10, 0, 4) == 1);
    assert(bonus_spec(10, 4) == BonusSquare::DoubleWord);
    assert(line_mult(Direction::Horizontal, 10, 0, 5) == 2);
    assert(bonus_spec(10, 5) == BonusSquare::Normal);
    assert(line_mult(Direction::Horizontal, 10, 0, 6) == 2);
    assert(bonus_spec(10, 6) == BonusSquare::Normal);
    assert(line_mult(Direction::Horizontal, 10, 0, 7) == 2);
    assert(bonus_spec(10, 7) == BonusSquare::Normal);
    assert(line_mult(Direction::Horizontal, 10, 0, 8) == 2);
    assert(bonus_spec(10, 8) == BonusSquare::Normal);
    assert(line_mult(Direction::Horizontal, 10, 0, 9) == 2);
    assert(bonus_spec(10, 9) == BonusSquare::Normal);
    assert(line_mult(Direction::Horizontal, 10, 0, 10) == 2);
    assert(bonus_spec(10, 10) == BonusSquare::DoubleWord);
    assert(line_mult(Direction::Horizontal, 10, 0, 11) == 4);
    assert(bonus_spec(10, 11) == BonusSquare::Normal);
    assert(line_mult(Direction::Horizontal, 10, 0, 12) == 4);
    assert(bonus_spec(10, 12) == BonusSquare::Normal);
    assert(line_mult(Direction::Horizontal, 10, 0, 13) == 4);
    assert(bonus_spec(10, 13) == BonusSquare::Normal);
    assert(line_mult(Direction::Horizontal, 10, 0, 14) == 4);
    assert(bonus_spec(10, 14) == BonusSquare::Normal);
    assert(line_mult(Direction::Horizontal, 10, 0, 15) == 4);
}

#[verifier::spinoff_prover]
proof fn lemma_row_mult_11()
    ensures
        line_mult(Direction::Horizontal, 11, 0, 15) <= 27,
{
    assert(line_mult(Direction::Horizontal, 11, 0, 0) == 1);
    assert(bonus_spec(11, 0) == BonusSquare::DoubleLetter);
    assert(line_mult(Direction::Horizontal, 11, 0, 1) == 1);
    assert(bonus_spec(11, 1) == BonusSquare::Normal);
    assert(line_mult(Direction::Horizontal, 11, 0, 2) == 1);
    assert(bonus_spec(11, 2) == BonusSquare::Normal);
    assert(line_mult(Direction::Horizontal, 11, 0, 3) == 1);
    assert(bonus_spec(11, 3) == BonusSquare::DoubleWord);
    assert(line_mult(Direction::Horizontal, 11, 0, 4) == 2);
    assert(bonus_spec(11, 4) == BonusSquare::Normal);
    assert(line_mult(Direction::Horizontal, 11, 0, 5) == 2);
    assert(bonus_spec(11, 5) == BonusSquare::Normal);
    assert(line_mult(Direction::Horizontal, 11, 0, 6) == 2);
    assert(bonus_spec(11, 6) == BonusSquare::Normal);
    assert(line_mult(Direction::Horizontal, 11, 0, 7) == 2);
    assert(bonus_spec(11, 7) == BonusSquare::DoubleLetter);
    assert(line_mult(Direction::Horizontal, 11, 0, 8) == 2);
    assert(bonus_spec(11, 8) == BonusSquare::Normal);
    assert(line_mult(Direction::Horizontal, 11, 0, 9) == 2);
    assert(bonus_spec(11, 9) == BonusSquare::Normal);
    assert(line_mult(Direction::Horizontal, 11, 0, 10) == 2);
    assert(bonus_spec(11, 10) == BonusSquare::Normal);
    assert(line_mult(Direction::Horizontal, 11, 0, 11) == 2);
    assert(bonus_spec(11, 11) == BonusSquare::DoubleWord);
    assert(line_mult(Direction::Horizontal, 11, 0, 12) == 4);
    assert(bonus_spec(11, 12) == BonusSquare::Normal);
    assert(line_mult(Direction::Horizontal, 11, 0, 13) == 4);
    assert(bonus_spec(11, 13) == BonusSquare::Normal);
    assert(line_mult(Direction::Horizontal, 11, 0, 14) == 4);
    assert(bonus_spec(11, 14) == BonusSquare::DoubleLetter);
    assert(line_mult(Direction::Horizontal, 11, 0, 15) == 4);
}

#[verifier::spinoff_prover]
proof fn lemma_row_mult_12()
    ensures
        line_mult(Direction::Horizontal, 12, 0, 15) <= 27,
{
    assert(line_mult(Direction::Horizontal, 12, 0, 0) == 1);
    assert(bonus_spec(12, 0) == BonusSquare::Normal);
    assert(line_mult(Direction::Horizontal, 12, 0, 1) == 1);
    assert(bonus_spec(12, 1) == BonusSquare::Normal);
    assert(line_mult(Direction::Horizontal, 12, 0, 2) == 1);
    assert(bonus_spec(12, 2) == BonusSquare::DoubleWord);
    assert(line_mult(Direction::Horizontal, 12, 0, 3) == 2);
    assert(bonus_spec(12, 3) == BonusSquare::Normal);
    assert(line_mult(Direction::Horizontal, 12, 0, 4) == 2);
    assert(bonus_spec(12, 4) == BonusSquare::Normal);
    assert(line_mult(Direction::Horizontal, 12, 0, 5) == 2);
    assert(bonus_spec(12, 5) == BonusSquare::Normal);
    assert(line_mult(Direction::Horizontal, 12, 0, 6) == 2);
    assert(bonus_spec(12, 6) == BonusSquare::DoubleLetter);
    assert(line_mult(Direction::Horizontal, 12, 0, 7) == 2);
    assert(bonus_spec(12, 7) == BonusSquare::Normal);
    assert(line_mult(Direction::Horizontal, 12, 0, 8) == 2);
    assert(bonus_spec(12, 8) == BonusSquare::DoubleLetter);
    assert(line_mult(Direction::Horizontal, 12, 0, 9) == 2);
    assert(bonus_spec(12, 9) == BonusSquare::Normal);
    assert(line_mult(Direction::Horizontal, 12, 0, 10) == 2);
    assert(bonus_spec(12, 10) == BonusSquare::Normal);
    assert(line_mult(Direction::Horizontal, 12, 0, 11) == 2);
    assert(bonus_spec(12, 11) == BonusSquare::Normal);
    assert(line_mult(Direction::Horizontal, 12, 0, 12) == 2);
    assert(bonus_spec(12, 12) == BonusSquare::DoubleWord);
    assert(line_mult(Direction::Horizontal, 12, 0, 13) == 4);
    assert(bonus_spec(12, 13) == BonusSquare::Normal);
    assert(line_mult(Direction::Horizontal, 12, 0, 14) == 4);
    assert(bonus_spec(12, 14) == BonusSquare::Normal);
    assert(line_mult(Direction::Horizontal, 12, 0, 15) == 4);
}

#[verifier::spinoff_prover]
proof fn lemma_row_mult_13()
    ensures
        line_mult(Direction::Horizontal, 13, 0, 15) <= 27,
{
    assert(line_mult(Direction::Horizontal, 13, 0, 0) == 1);
    assert(bonus_spec(13, 0) == BonusSquare::Normal);
    assert(line_mult(Direction::Horizontal, 13, 0, 1) == 1);
    assert(bonus_spec(13, 1) == BonusSquare::DoubleWord);
    assert(line_mult(Direction::Horizontal, 13, 0, 2) == 2);
    assert(bonus_spec(13, 2) == BonusSquare::Normal);
    assert(line_mult(Direction::Horizontal, 13, 0, 3) == 2);
    assert(bonus_spec(13, 3) == BonusSquare::Normal);
    assert(line_mult(Direction::Horizontal, 13, 0, 4) == 2);
    assert(bonus_spec(13, 4) == BonusSquare::Normal);
    assert(line_mult(Direction::Horizontal, 13, 0, 5) == 2);
    assert(bonus_spec(13, 5) == BonusSquare::TripleLetter);
    assert(line_mult(Direction::Horizontal, 13, 0, 6) == 2);
    assert(bonus_spec(13, 6) == BonusSquare::Normal);
    assert(line_mult(Direction::Horizontal, 13, 0, 7) == 2);
    assert(bonus_spec(13, 7) == BonusSquare::Normal);
    assert(line_mult(Direction::Horizontal, 13, 0, 8) == 2);
    assert(bonus_spec(13, 8) == BonusSquare::Normal);
    assert(line_mult(Direction::Horizontal, 13, 0, 9) == 2);
    assert(bonus_spec(13, 9) == BonusSquare::TripleLetter);
    assert(line_mult(Direction::Horizontal, 13, 0, 10) == 2);
    assert(bonus_spec(13, 10) == BonusSquare::Normal);
    assert(line_mult(Direction::Horizontal, 13, 0, 11) == 2);
    assert(bonus_spec(13, 11) == BonusSquare::Normal);
    assert(line_mult(Direction::Horizontal, 13, 0, 12) == 2);
    assert(bonus_spec(13, 12) == BonusSquare::Normal);
    assert(line_mult(Direction::Horizontal, 13, 0, 13) == 2);
    assert(bonus_spec(13, 13) == BonusSquare::DoubleWord);
    assert(line_mult(Direction::Horizontal, 13, 0, 14) == 4);
    assert(bonus_spec(13, 14) == BonusSquare::Normal);
    assert(line_mult(Direction::Horizontal, 13, 0, 15) == 4);
}

#[verifier::spinoff_prover]
proof fn lemma_row_mult_14()
    ensures
        line_mult(Direction::Horizontal, 14, 0, 15) <= 27,
{
    assert(line_mult(Direction::Horizontal, 14, 0, 0) == 1);
    assert(bonus_spec(14, 0) == BonusSquare::TripleWord);
    assert(line_mult(Direction::Horizontal, 14, 0, 1) == 3);
    assert(bonus_spec(14, 1) == BonusSquare::Normal);
    assert(line_mult(Direction::Horizontal, 14, 0, 2) == 3);
    assert(bonus_spec(14, 2) == BonusSquare::Normal);
    assert(line_mult(Direction::Horizontal, 14, 0, 3) == 3);
    assert(bonus_spec(14, 3) == BonusSquare::DoubleLetter);
    assert(line_mult(Direction::Horizontal, 14, 0, 4) == 3);
    assert(bonus_spec(14, 4) == BonusSquare::Normal);
    assert(line_mult(Direction::Horizontal, 14, 0, 5) == 3);
    assert(bonus_spec(14, 5) == BonusSquare::Normal);
    assert(line_mult(Direction::Horizontal, 14, 0, 6) == 3);
    assert(bonus_spec(14, 6) == BonusSquare::Normal);
    assert(line_mult(Direction::Horizontal, 14, 0, 7) == 3);
    assert(bonus_spec(14, 7) == BonusSquare::TripleWord);
    assert(line_mult(Direction::Horizontal, 14, 0, 8) == 9);
    assert(bonus_spec(14, 8) == BonusSquare::Normal);
    assert(line_mult(Direction::Horizontal, 14, 0, 9) == 9);
    assert(bonus_spec(14, 9) == BonusSquare::Normal);
    assert(line_mult(Direction::Horizontal, 14, 0, 10) == 9);
    assert(bonus_spec(14, 10) == BonusSquare::Normal);
    assert(line_mult(Direction::Horizontal, 14, 0, 11) == 9);
    assert(bonus_spec(14, 11) == BonusSquare::DoubleLetter);
    assert(line_mult(Direction::Horizontal, 14, 0, 12) == 9);
    assert(bonus_spec(14, 12) == BonusSquare::Normal);
    assert(line_mult(Direction::Horizontal, 14, 0, 13) == 9);
    assert(bonus_spec(14, 13) == BonusSquare::Normal);
    assert(line_mult(Direction::Horizontal, 14, 0, 14) == 9);
    assert(bonus_spec(14, 14) == BonusSquare::TripleWord);
    assert(line_mult(Direction::Horizontal, 14, 0, 15) == line_mult(Direction::Horizontal, 14, 0, 14) * word_mult(
        bonus_spec(14, 14),
    ));
    assert(word_mult(bonus_spec(14, 14)) == 3);
    assert(line_mult(Direction::Horizontal, 14, 0, 15) == 27);
}

/// Along any row, the word multipliers multiply to at most 27.
proof fn lemma_row_mult(r: int)
    requires
        0 <= r < 15,
    ensures
        line_mult(Direction::Horizontal, r, 0, 15) <= 27,
{
    if r == 0 {
        lemma_row_mult_0();
    }
    if r == 1 {
        lemma_row_mult_1();
    }
    if r == 2 {
        lemma_row_mult_2();
    }
    if r == 3 {
        lemma_row_mult_3();
    }
    if r == 4 {
        lemma_row_mult_4();
    }
    if r == 5 {
        lemma_row_mult_5();
    }
    if r == 6 {
        lemma_row_mult_6();
    }
    if r == 7 {
        lemma_row_mult_7();
    }
    if r == 8 {
        lemma_row_mult_8();
    }
    if r == 9 {
        lemma_row_mult_9();
    }
    if r == 10 {
        lemma_row_mult_10();
    }
    if r == 11 {
        lemma_row_mult_11();
    }
    if r == 12 {
        lemma_row_mult_12();
    }
    if r == 13 {
        lemma_row_mult_13();
    }
    if r == 14 {
        lemma_row_mult_14();
    }
}

#[verifier::spinoff_prover]
proof fn lemma_col_mult_0()
    ensures
        line_mult(Direction::Vertical, 0, 0, 15) <= 27,
{
    assert(line_mult(Direction::Vertical, 0, 0, 0) == 1);
    assert(bonus_spec(0, 0) == BonusSquare::TripleWord);
    assert(line_mult(Direction::Vertical, 0, 0, 1) == 3);
    assert(bonus_spec(1, 0) == BonusSquare::Normal);
    assert(line_mult(Direction::Vertical, 0, 0, 2) == 3);
    assert(bonus_spec(2, 0) == BonusSquare::Normal);
    assert(line_mult(Direction::Vertical, 0, 0, 3) == 3);
    assert(bonus_spec(3, 0) == BonusSquare::DoubleLetter);
    assert(line_mult(Direction::Vertical, 0, 0, 4) == 3);
    assert(bonus_spec(4, 0) == BonusSquare::Normal);
    assert(line_mult(Direction::Vertical, 0, 0, 5) == 3);
    assert(bonus_spec(5, 0) == BonusSquare::Normal);
    assert(line_mult(Direction::Vertical, 0, 0, 6) == 3);
    assert(bonus_spec(6, 0) == BonusSquare::Normal);
    assert(line_mult(Direction::Vertical, 0, 0, 7) == 3);
    assert(bonus_spec(7, 0) == BonusSquare::TripleWord);
    assert(line_mult(Direction::Vertical, 0, 0, 8) == 9);
    assert(bonus_spec(8, 0) == BonusSquare::Normal);
    assert(line_mult(Direction::Vertical, 0, 0, 9) == 9);
    assert(bonus_spec(9, 0) == BonusSquare::Normal);
    assert(line_mult(Direction::Vertical, 0, 0, 10) == 9);
    assert(bonus_spec(10, 0) == BonusSquare::Normal);
    assert(line_mult(Direction::Vertical, 0, 0, 11) == 9);
    assert(bonus_spec(11, 0) == BonusSquare::DoubleLetter);
    assert(line_mult(Direction::Vertical, 0, 0, 12) == 9);
    assert(bonus_spec(12, 0) == BonusSquare::Normal);
    assert(line_mult(Direction::Vertical, 0, 0, 13) == 9);
    assert(bonus_spec(13, 0) == BonusSquare::Normal);
    assert(line_mult(Direction::Vertical, 0, 0, 14) == 9);
    assert(bonus_spec(14, 0) == BonusSquare::TripleWord);
    assert(line_mult(Direction::Vertical, 0, 0, 15) == 27);
}

#[verifier::spinoff_prover]
proof fn lemma_col_mult_1()
    ensures
        line_mult(Direction::Vertical, 1, 0, 15) <= 27,
{
    assert(line_mult(Direction::Vertical, 1, 0, 0) == 1);
    assert(bonus_spec(0, 1) == BonusSquare::Normal);
    assert(line_mult(Direction::Vertical, 1, 0, 1) == 1);
    assert(bonus_spec(1, 1) == BonusSquare::DoubleWord);
    assert(line_mult(Direction::Vertical, 1, 0, 2) == 2);
    assert(bonus_spec(2, 1) == BonusSquare::Normal);
    assert(line_mult(Direction::Vertical, 1, 0, 3) == 2);
    assert(bonus_spec(3, 1) == BonusSquare::Normal);
    assert(line_mult(Direction::Vertical, 1, 0, 4) == 2);
    assert(bonus_spec(4, 1) == BonusSquare::Normal);
    assert(line_mult(Direction::Vertical, 1, 0, 5) == 2);
    assert(bonus_spec(5, 1) == BonusSquare::TripleLetter);
    assert(line_mult(Direction::Vertical, 1, 0, 6) == 2);
    assert(bonus_spec(6, 1) == BonusSquare::Normal);
    assert(line_mult(Direction::Vertical, 1, 0, 7) == 2);
    assert(bonus_spec(7, 1) == BonusSquare::Normal);
    assert(line_mult(Direction::Vertical, 1, 0, 8) == 2);
    assert(bonus_spec(8, 1) == BonusSquare::Normal);
    assert(line_mult(Direction::Vertical, 1, 0, 9) == 2);
    assert(bonus_spec(9, 1) == BonusSquare::TripleLetter);
    assert(line_mult(Direction::Vertical, 1, 0, 10) == 2);
    assert(bonus_spec(10, 1) == BonusSquare::Normal);
    assert(line_mult(Direction::Vertical, 1, 0, 11) == 2);
    assert(bonus_spec(11, 1) == BonusSquare::Normal);
    assert(line_mult(Direction::Vertical, 1, 0, 12) == 2);
    assert(bonus_spec(12, 1) == BonusSquare::Normal);
    assert(line_mult(Direction::Vertical, 1, 0, 13) == 2);
    assert(bonus_spec(13, 1) == BonusSquare::DoubleWord);
    assert(line_mult(Direction::Vertical, 1, 0, 14) == 4);
    assert(bonus_spec(14, 1) == BonusSquare::Normal);
    assert(line_mult(Direction::Vertical, 1, 0, 15) == 4);
}

#[verifier::spinoff_prover]
proof fn lemma_col_mult_2()
    ensures
        line_mult(Direction::Vertical, 2, 0, 15) <= 27,
{
    assert(line_mult(Direction::Vertical, 2, 0, 0) == 1);
    assert(bonus_spec(0, 2) == BonusSquare::Normal);
    assert(line_mult(Direction::Vertical, 2, 0, 1) == 1);
    assert(bonus_spec(1, 2) == BonusSquare::Normal);
    assert(line_mult(Direction::Vertical, 2, 0, 2) == 1);
    assert(bonus_spec(2, 2) == BonusSquare::DoubleWord);
    assert(line_mult(Direction::Vertical, 2, 0, 3) == 2);
    assert(bonus_spec(3, 2) == BonusSquare::Normal);
    assert(line_mult(Direction::Vertical, 2, 0, 4) == 2);
    assert(bonus_spec(4, 2) == BonusSquare::Normal);
    assert(line_mult(Direction::Vertical, 2, 0, 5) == 2);
    assert(bonus_spec(5, 2) == BonusSquare::Normal);
    assert(line_mult(Direction::Vertical, 2, 0, 6) == 2);
    assert(bonus_spec(6, 2) == BonusSquare::DoubleLetter);
    assert(line_mult(Direction::Vertical, 2, 0, 7) == 2);
    assert(bonus_spec(7, 2) == BonusSquare::Normal);
    assert(line_mult(Direction::Vertical, 2, 0, 8) == 2);
    assert(bonus_spec(8, 2) == BonusSquare::DoubleLetter);
    assert(line_mult(Direction::Vertical, 2, 0, 9) == 2);
    assert(bonus_spec(9, 2) == BonusSquare::Normal);
    assert(line_mult(Direction::Vertical, 2, 0, 10) == 2);
    assert(bonus_spec(10, 2) == BonusSquare::Normal);
    assert(line_mult(Direction::Vertical, 2, 0, 11) == 2);
    assert(bonus_spec(11, 2) == BonusSquare::Normal);
    assert(line_mult(Direction::Vertical, 2, 0, 12) == 2);
    assert(bonus_spec(12, 2) == BonusSquare::DoubleWord);
    assert(line_mult(Direction::Vertical, 2, 0, 13) == 4);
    assert(bonus_spec(13, 2) == BonusSquare::Normal);
    assert(line_mult(Direction::Vertical, 2, 0, 14) == 4);
    assert(bonus_spec(14, 2) == BonusSquare::Normal);
    assert(line_mult(Direction::Vertical, 2, 0, 15) == 4);
}

#[verifier::spinoff_prover]
proof fn lemma_col_mult_3()
    ensures
        line_mult(Direction::Vertical, 3, 0, 15) <= 27,
{
    assert(line_mult(Direction::Vertical, 3, 0, 0) == 1);
    assert(bonus_spec(0, 3) == BonusSquare::DoubleLetter);
    assert(line_mult(Direction::Vertical, 3, 0, 1) == 1);
    assert(bonus_spec(1, 3) == BonusSquare::Normal);
    assert(line_mult(Direction::Vertical, 3, 0, 2) == 1);
    assert(bonus_spec(2, 3) == BonusSquare::Normal);
    assert(line_mult(Direction::Vertical, 3, 0, 3) == 1);
    assert(bonus_spec(3, 3) == BonusSquare::DoubleWord);
    assert(line_mult(Direction::Vertical, 3, 0, 4) == 2);
    assert(bonus_spec(4, 3) == BonusSquare::Normal);
    assert(line_mult(Direction::Vertical, 3, 0, 5) == 2);
    assert(bonus_spec(5, 3) == BonusSquare::Normal);
    assert(line_mult(Direction::Vertical, 3, 0, 6) == 2);
    assert(bonus_spec(6, 3) == BonusSquare::Normal);
    assert(line_mult(Direction::Vertical, 3, 0, 7) == 2);
    assert(bonus_spec(7, 3) == BonusSquare::DoubleLetter);
    assert(line_mult(Direction::Vertical, 3, 0, 8) == 2);
    assert(bonus_spec(8, 3) == BonusSquare::Normal);
    assert(line_mult(Direction::Vertical, 3, 0, 9) == 2);
    assert(bonus_spec(9, 3) == BonusSquare::Normal);
    assert(line_mult(Direction::Vertical, 3, 0, 10) == 2);
    assert(bonus_spec(10, 3) == BonusSquare::Normal);
    assert(line_mult(Direction::Vertical, 3, 0, 11) == 2);
    assert(bonus_spec(11, 3) == BonusSquare::DoubleWord);
    assert(line_mult(Direction::Vertical, 3, 0, 12) == 4);
    assert(bonus_spec(12, 3) == BonusSquare::Normal);
    assert(line_mult(Direction::Vertical, 3, 0, 13) == 4);
    assert(bonus_spec(13, 3) == BonusSquare::Normal);
    assert(line_mult(Direction::Vertical, 3, 0, 14) == 4);
    assert(bonus_spec(14, 3) == BonusSquare::DoubleLetter);
    assert(line_mult(Direction::Vertical, 3, 0, 15) == 4);
}

#[verifier::spinoff_prover]
proof fn lemma_col_mult_4()
    ensures
        line_mult(Direction::Vertical, 4, 0, 15) <= 27,
{
    assert(line_mult(Direction::Vertical, 4, 0, 0) == 1);
    assert(bonus_spec(0, 4) == BonusSquare::Normal);
    assert(line_mult(Direction::Vertical, 4, 0, 1) == 1);
    assert(bonus_spec(1, 4) == BonusSquare::Normal);
    assert(line_mult(Direction::Vertical, 4, 0, 2) == 1);
    assert(bonus_spec(2, 4) == BonusSquare::Normal);
    assert(line_mult(Direction::Vertical, 4, 0, 3) == 1);
    assert(bonus_spec(3, 4) == BonusSquare::Normal);
    assert(line_mult(Direction::Vertical, 4, 0, 4) == 1);
    assert(bonus_spec(4, 4) == BonusSquare::DoubleWord);
    assert(line_mult(Direction::Vertical, 4, 0, 5) == 2);
    assert(bonus_spec(5, 4) == BonusSquare::Normal);
    assert(line_mult(Direction::Vertical, 4, 0, 6) == 2);
    assert(bonus_spec(6, 4) == BonusSquare::Normal);
    assert(line_mult(Direction::Vertical, 4, 0, 7) == 2);
    assert(bonus_spec(7, 4) == BonusSquare::Normal);
    assert(line_mult(Direction::Vertical, 4, 0, 8) == 2);
    assert(bonus_spec(8, 4) == BonusSquare::Normal);
    assert(line_mult(Direction::Vertical, 4, 0, 9) == 2);
    assert(bonus_spec(9, 4) == BonusSquare::Normal);
    assert(line_mult(Direction::Vertical, 4, 0, 10) == 2);
    assert(bonus_spec(10, 4) == BonusSquare::DoubleWord);
    assert(line_mult(Direction::Vertical, 4, 0, 11) == 4);
    assert(bonus_spec(11, 4) == BonusSquare::Normal);
    assert(line_mult(Direction::Vertical, 4, 0, 12) == 4);
    assert(bonus_spec(12, 4) == BonusSquare::Normal);
    assert(line_mult(Direction::Vertical, 4, 0, 13) == 4);
    assert(bonus_spec(13, 4) == BonusSquare::Normal);
    assert(line_mult(Direction::Vertical, 4, 0, 14) == 4);
    assert(bonus_spec(14, 4) == BonusSquare::Normal);
    assert(line_mult(Direction::Vertical, 4, 0, 15) == 4);
}

#[verifier::spinoff_prover]
proof fn lemma_col_mult_5()
    ensures
        line_mult(Direction::Vertical, 5, 0, 15) <= 27,
{
    assert(line_mult(Direction::Vertical, 5, 0, 0) == 1);
    assert(bonus_spec(0, 5) == BonusSquare::Normal);
    assert(line_mult(Direction::Vertical, 5, 0, 1) == 1);
    assert(bonus_spec(1, 5) == BonusSquare::TripleLetter);
    assert(line_mult(Direction::Vertical, 5, 0, 2) == 1);
    assert(bonus_spec(2, 5) == BonusSquare::Normal);
    assert(line_mult(Direction::Vertical, 5, 0, 3) == 1);
    assert(bonus_spec(3, 5) == BonusSquare::Normal);
    assert(line_mult(Direction::Vertical, 5, 0, 4) == 1);
    assert(bonus_spec(4, 5) == BonusSquare::Normal);
    assert(line_mult(Direction::Vertical, 5, 0, 5) == 1);
    assert(bonus_spec(5, 5) == BonusSquare::TripleLetter);
    assert(line_mult(Direction::Vertical, 5, 0, 6) == 1);
    assert(bonus_spec(6, 5) == BonusSquare::Normal);
    assert(line_mult(Direction::Vertical, 5, 0, 7) == 1);
    assert(bonus_spec(7, 5) == BonusSquare::Normal);
    assert(line_mult(Direction::Vertical, 5, 0, 8) == 1);
    assert(bonus_spec(8, 5) == BonusSquare::Normal);
    assert(line_mult(Direction::Vertical, 5, 0, 9) == 1);
    assert(bonus_spec(9, 5) == BonusSquare::TripleLetter);
    assert(line_mult(Direction::Vertical, 5, 0, 10) == 1);
    assert(bonus_spec(10, 5) == BonusSquare::Normal);
    assert(line_mult(Direction::Vertical, 5, 0, 11) == 1);
    assert(bonus_spec(11, 5) == BonusSquare::Normal);
    assert(line_mult(Direction::Vertical, 5, 0, 12) == 1);
    assert(bonus_spec(12, 5) == BonusSquare::Normal);
    assert(line_mult(Direction::Vertical, 5, 0, 13) == 1);
    assert(bonus_spec(13, 5) == BonusSquare::TripleLetter);
    assert(line_mult(Direction::Vertical, 5, 0, 14) == 1);
    assert(bonus_spec(14, 5) == BonusSquare::Normal);
    assert(line_mult(Direction::Vertical, 5, 0, 15) == 1);
}

#[verifier::spinoff_prover]
proof fn lemma_col_mult_6()
    ensures
        line_mult(Direction::Vertical, 6, 0, 15) <= 27,
{
    assert(line_mult(Direction::Vertical, 6, 0, 0) == 1);
    assert(bonus_spec(0, 6) == BonusSquare::Normal);
    assert(line_mult(Direction::Vertical, 6, 0, 1) == 1);
    assert(bonus_spec(1, 6) == BonusSquare::Normal);
    assert(line_mult(Direction::Vertical, 6, 0, 2) == 1);
    assert(bonus_spec(2, 6) == BonusSquare::DoubleLetter);
    assert(line_mult(Direction::Vertical, 6, 0, 3) == 1);
    assert(bonus_spec(3, 6) == BonusSquare::Normal);
    assert(line_mult(Direction::Vertical, 6, 0, 4) == 1);
    assert(bonus_spec(4, 6) == BonusSquare::Normal);
    assert(line_mult(Direction::Vertical, 6, 0, 5) == 1);
    assert(bonus_spec(5, 6) == BonusSquare::Normal);
    assert(line_mult(Direction::Vertical, 6, 0, 6) == 1);
    assert(bonus_spec(6, 6) == BonusSquare::DoubleLetter);
    assert(line_mult(Direction::Vertical, 6, 0, 7) == 1);
    assert(bonus_spec(7, 6) == BonusSquare::Normal);
    assert(line_mult(Direction::Vertical, 6, 0, 8) == 1);
    assert(bonus_spec(8, 6) == BonusSquare::DoubleLetter);
    assert(line_mult(Direction::Vertical, 6, 0, 9) == 1);
    assert(bonus_spec(9, 6) == BonusSquare::Normal);
    assert(line_mult(Direction::Vertical, 6, 0, 10) == 1);
    assert(bonus_spec(10, 6) == BonusSquare::Normal);
    assert(line_mult(Direction::Vertical, 6, 0, 11) == 1);
    assert(bonus_spec(11, 6) == BonusSquare::Normal);
    assert(line_mult(Direction::Vertical, 6, 0, 12) == 1);
    assert(bonus_spec(12, 6) == BonusSquare::DoubleLetter);
    assert(line_mult(Direction::Vertical, 6, 0, 13) == 1);
    assert(bonus_spec(13, 6) == BonusSquare::Normal);
    assert(line_mult(Direction::Vertical, 6, 0, 14) == 1);
    assert(bonus_spec(14, 6) == BonusSquare::Normal);
    assert(line_mult(Direction::Vertical, 6, 0, 15) == 1);
}

#[verifier::spinoff_prover]
proof fn lemma_col_mult_7()
    ensures
        line_mult(Direction::Vertical, 7, 0, 15) <= 27,
{
    assert(line_mult(Direction::Vertical, 7, 0, 0) == 1);
    assert(bonus_spec(0, 7) == BonusSquare::TripleWord);
    assert(line_mult(Direction::Vertical, 7, 0, 1) == 3);
    assert(bonus_spec(1, 7) == BonusSquare::Normal);
    assert(line_mult(Direction::Vertical, 7, 0, 2) == 3);
    assert(bonus_spec(2, 7) == BonusSquare::Normal);
    assert(line_mult(Direction::Vertical, 7, 0, 3) == 3);
    assert(bonus_spec(3, 7) == BonusSquare::DoubleLetter);
    assert(line_mult(Direction::Vertical, 7, 0, 4) == 3);
    assert(bonus_spec(4, 7) == BonusSquare::Normal);
    assert(line_mult(Direction::Vertical, 7, 0, 5) == 3);
    assert(bonus_spec(5, 7) == BonusSquare::Normal);
    assert(line_mult(Direction::Vertical, 7, 0, 6) == 3);
    assert(bonus_spec(6, 7) == BonusSquare::Normal);
    assert(line_mult(Direction::Vertical, 7, 0, 7) == 3);
    assert(bonus_spec(7, 7) == BonusSquare::Center);
    assert(line_mult(Direction::Vertical, 7, 0, 8) == 6);
    assert(bonus_spec(8, 7) == BonusSquare::Normal);
    assert(line_mult(Direction::Vertical, 7, 0, 9) == 6);
    assert(bonus_spec(9, 7) == BonusSquare::Normal);
    assert(line_mult(Direction::Vertical, 7, 0, 10) == 6);
    assert(bonus_spec(10, 7) == BonusSquare::Normal);
    assert(line_mult(Direction::Vertical, 7, 0, 11) == 6);
    assert(bonus_spec(11, 7) == BonusSquare::DoubleLetter);
    assert(line_mult(Direction::Vertical, 7, 0, 12) == 6);
    assert(bonus_spec(12, 7) == BonusSquare::Normal);
    assert(line_mult(Direction::Vertical, 7, 0, 13) == 6);
    assert(bonus_spec(13, 7) == BonusSquare::Normal);
    assert(line_mult(Direction::Vertical, 7, 0, 14) == 6);
    assert(bonus_spec(14, 7) == BonusSquare::TripleWord);
    assert(line_mult(Direction::Vertical, 7, 0, 15) == 18);
}

#[verifier::spinoff_prover]
proof fn lemma_col_mult_8()
    ensures
        line_mult(Direction::Vertical, 8, 0, 15) <= 27,
{
    assert(line_mult(Direction::Vertical, 8, 0, 0) == 1);
    assert(bonus_spec(0, 8) == BonusSquare::Normal);
    assert(line_mult(Direction::Vertical, 8, 0, 1) == 1);
    assert(bonus_spec(1, 8) == BonusSquare::Normal);
    assert(line_mult(Direction::Vertical, 8, 0, 2) == 1);
    assert(bonus_spec(2, 8) == BonusSquare::DoubleLetter);
    assert(line_mult(Direction::Vertical, 8, 0, 3) == 1);
    assert(bonus_spec(3, 8) == BonusSquare::Normal);
    assert(line_mult(Direction::Vertical, 8, 0, 4) == 1);
    assert(bonus_spec(4, 8) == BonusSquare::Normal);
    assert(line_mult(Direction::Vertical, 8, 0, 5) == 1);
    assert(bonus_spec(5, 8) == BonusSquare::Normal);
    assert(line_mult(Direction::Vertical, 8, 0, 6) == 1);
    assert(bonus_spec(6, 8) == BonusSquare::DoubleLetter);
    assert(line_mult(Direction::Vertical, 8, 0, 7) == 1);
    assert(bonus_spec(7, 8) == BonusSquare::Normal);
    assert(line_mult(Direction::Vertical, 8, 0, 8) == 1);
    assert(bonus_spec(8, 8) == BonusSquare::DoubleLetter);
    assert(line_mult(Direction::Vertical, 8, 0, 9) == 1);
    assert(bonus_spec(9, 8) == BonusSquare::Normal);
    assert(line_mult(Direction::Vertical, 8, 0, 10) == 1);
    assert(bonus_spec(10, 8) == BonusSquare::Normal);
    assert(line_mult(Direction::Vertical, 8, 0, 11) == 1);
    assert(bonus_spec(11, 8) == BonusSquare::Normal);
    assert(line_mult(Direction::Vertical, 8, 0, 12) == 1);
    assert(bonus_spec(12, 8) == BonusSquare::DoubleLetter);
    assert(line_mult(Direction::Vertical, 8, 0, 13) == 1);
    assert(bonus_spec(13, 8) == BonusSquare::Normal);
    assert(line_mult(Direction::Vertical, 8, 0, 14) == 1);
    assert(bonus_spec(14, 8) == BonusSquare::Normal);
    assert(line_mult(Direction::Vertical, 8, 0, 15) == 1);
}

#[verifier::spinoff_prover]
proof fn lemma_col_mult_9()
    ensures
        line_mult(Direction::Vertical, 9, 0, 15) <= 27,
{
    assert(line_mult(Direction::Vertical, 9, 0, 0) == 1);
    assert(bonus_spec(0, 9) == BonusSquare::Normal);
    assert(line_mult(Direction::Vertical, 9, 0, 1) == 1);
    assert(bonus_spec(1, 9) == BonusSquare::TripleLetter);
    assert(line_mult(Direction::Vertical, 9, 0, 2) == 1);
    assert(bonus_spec(2, 9) == BonusSquare::Normal);
    assert(line_mult(Direction::Vertical, 9, 0, 3) == 1);
    assert(bonus_spec(3, 9) == BonusSquare::Normal);
    assert(line_mult(Direction::Vertical, 9, 0, 4) == 1);
    assert(bonus_spec(4, 9) == BonusSquare::Normal);
    assert(line_mult(Direction::Vertical, 9, 0, 5) == 1);
    assert(bonus_spec(5, 9) == BonusSquare::TripleLetter);
    assert(line_mult(Direction::Vertical, 9, 0, 6) == 1);
    assert(bonus_spec(6, 9) == BonusSquare::Normal);
    assert(line_mult(Direction::Vertical, 9, 0, 7) == 1);
    assert(bonus_spec(7, 9) == BonusSquare::Normal);
    assert(line_mult(Direction::Vertical, 9, 0, 8) == 1);
    assert(bonus_spec(8, 9) == BonusSquare::Normal);
    assert(line_mult(Direction::Vertical, 9, 0, 9) == 1);
    assert(bonus_spec(9, 9) == BonusSquare::TripleLetter);
    assert(line_mult(Direction::Vertical, 9, 0, 10) == 1);
    assert(bonus_spec(10, 9) == BonusSquare::Normal);
    assert(line_mult(Direction::Vertical, 9, 0, 11) == 1);
    assert(bonus_spec(11, 9) == BonusSquare::Normal);
    assert(line_mult(Direction::Vertical, 9, 0, 12) == 1);
    assert(bonus_spec(12, 9) == BonusSquare::Normal);
    assert(line_mult(Direction::Vertical, 9, 0, 13) == 1);
    assert(bonus_spec(13, 9) == BonusSquare::TripleLetter);
    assert(line_mult(Direction::Vertical, 9, 0, 14) == 1);
    assert(bonus_spec(14, 9) == BonusSquare::Normal);
    assert(line_mult(Direction::Vertical, 9, 0, 15) == 1);
}

#[verifier::spinoff_prover]
proof fn lemma_col_mult_10()
    ensures
        line_mult(Direction::Vertical, 10, 0, 15) <= 27,
{
    assert(line_mult(Direction::Vertical, 10, 0, 0) == 1);
    assert(bonus_spec(0, 10) == BonusSquare::Normal);
    assert(line_mult(Direction::Vertical, 10, 0, 1) == 1);
    assert(bonus_spec(1, 10) == BonusSquare::Normal);
    assert(line_mult(Direction::Vertical, 10, 0, 2) == 1);
    assert(bonus_spec(2, 10) == BonusSquare::Normal);
    assert(line_mult(Direction::Vertical, 10, 0, 3) == 1);
    assert(bonus_spec(3, 10) == BonusSquare::Normal);
    assert(line_mult(Direction::Vertical, 10, 0, 4) == 1);
    assert(bonus_spec(4, 10) == BonusSquare::DoubleWord);
    assert(line_mult(Direction::Vertical, 10, 0, 5) == 2);
    assert(bonus_spec(5, 10) == BonusSquare::Normal);
    assert(line_mult(Direction::Vertical, 10, 0, 6) == 2);
    assert(bonus_spec(6, 10) == BonusSquare::Normal);
    assert(line_mult(Direction::Vertical, 10, 0, 7) == 2);
    assert(bonus_spec(7, 10) == BonusSquare::Normal);
    assert(line_mult(Direction::Vertical, 10, 0, 8) == 2);
    assert(bonus_spec(8, 10) == BonusSquare::Normal);
    assert(line_mult(Direction::Vertical, 10, 0, 9) == 2);
    assert(bonus_spec(9, 10) == BonusSquare::Normal);
    assert(line_mult(Direction::Vertical, 10, 0, 10) == 2);
    assert(bonus_spec(10, 10) == BonusSquare::DoubleWord);
    assert(line_mult(Direction::Vertical, 10, 0, 11) == 4);
    assert(bonus_spec(11, 10) == BonusSquare::Normal);
    assert(line_mult(Direction::Vertical, 10, 0, 12) == 4);
    assert(bonus_spec(12, 10) == BonusSquare::Normal);
    assert(line_mult(Direction::Vertical, 10, 0, 13) == 4);
    assert(bonus_spec(13, 10) == BonusSquare::Normal);
    assert(line_mult(Direction::Vertical, 10, 0, 14) == 4);
    assert(bonus_spec(14, 10) == BonusSquare::Normal);
    assert(line_mult(Direction::Vertical, 10, 0, 15) == 4);
}

#[verifier::spinoff_prover]
proof fn lemma_col_mult_11()
    ensures
        line_mult(Direction::Vertical, 11, 0, 15) <= 27,
{
    assert(line_mult(Direction::Vertical, 11, 0, 0) == 1);
    assert(bonus_spec(0, 11) == BonusSquare::DoubleLetter);
    assert(line_mult(Direction::Vertical, 11, 0, 1) == 1);
    assert(bonus_spec(1, 11) == BonusSquare::Normal);
    assert(line_mult(Direction::Vertical, 11, 0, 2) == 1);
    assert(bonus_spec(2, 11) == BonusSquare::Normal);
    assert(line_mult(Direction::Vertical, 11, 0, 3) == 1);
    assert(bonus_spec(3, 11) == BonusSquare::DoubleWord);
    assert(line_mult(Direction::Vertical, 11, 0, 4) == 2);
    assert(bonus_spec(4, 11) == BonusSquare::Normal);
    assert(line_mult(Direction::Vertical, 11, 0, 5) == 2);
    assert(bonus_spec(5, 11) == BonusSquare::Normal);
    assert(line_mult(Direction::Vertical, 11, 0, 6) == 2);
    assert(bonus_spec(6, 11) == BonusSquare::Normal);
    assert(line_mult(Direction::Vertical, 11, 0, 7) == 2);
    assert(bonus_spec(7, 11) == BonusSquare::DoubleLetter);
    assert(line_mult(Direction::Vertical, 11, 0, 8) == 2);
    assert(bonus_spec(8, 11) == BonusSquare::Normal);
    assert(line_mult(Direction::Vertical, 11, 0, 9) == 2);
    assert(bonus_spec(9, 11) == BonusSquare::Normal);
    assert(line_mult(Direction::Vertical, 11, 0, 10) == 2);
    assert(bonus_spec(10, 11) == BonusSquare::Normal);
    assert(line_mult(Direction::Vertical, 11, 0, 11) == 2);
    assert(bonus_spec(11, 11) == BonusSquare::DoubleWord);
    assert(line_mult(Direction::Vertical, 11, 0, 12) == 4);
    assert(bonus_spec(12, 11) == BonusSquare::Normal);
    assert(line_mult(Direction::Vertical, 11, 0, 13) == 4);
    assert(bonus_spec(13, 11) == BonusSquare::Normal);
    assert(line_mult(Direction::Vertical, 11, 0, 14) == 4);
    assert(bonus_spec(14, 11) == BonusSquare::DoubleLetter);
    assert(line_mult(Direction::Vertical, 11, 0, 15) == 4);
}

#[verifier::spinoff_prover]
proof fn lemma_col_mult_12()
    ensures
        line_mult(Direction::Vertical, 12, 0, 15) <= 27,
{
    assert(line_mult(Direction::Vertical, 12, 0, 0) == 1);
    assert(bonus_spec(0, 12) == BonusSquare::Normal);
    assert(line_mult(Direction::Vertical, 12, 0, 1) == 1);
    assert(bonus_spec(1, 12) == BonusSquare::Normal);
    assert(line_mult(Direction::Vertical, 12, 0, 2) == 1);
    assert(bonus_spec(2, 12) == BonusSquare::DoubleWord);
    assert(line_mult(Direction::Vertical, 12, 0, 3) == 2);
    assert(bonus_spec(3, 12) == BonusSquare::Normal);
    assert(line_mult(Direction::Vertical, 12, 0, 4) == 2);
    assert(bonus_spec(4, 12) == BonusSquare::Normal);
    assert(line_mult(Direction::Vertical, 12, 0, 5) == 2);
    assert(bonus_spec(5, 12) == BonusSquare::Normal);
    assert(line_mult(Direction::Vertical, 12, 0, 6) == 2);
    assert(bonus_spec(6, 12) == BonusSquare::DoubleLetter);
    assert(line_mult(Direction::Vertical, 12, 0, 7) == 2);
    assert(bonus_spec(7, 12) == BonusSquare::Normal);
    assert(line_mult(Direction::Vertical, 12, 0, 8) == 2);
    assert(bonus_spec(8, 12) == BonusSquare::DoubleLetter);
    assert(line_mult(Direction::Vertical, 12, 0, 9) == 2);
    assert(bonus_spec(9, 12) == BonusSquare::Normal);
    assert(line_mult(Direction::Vertical, 12, 0, 10) == 2);
    assert(bonus_spec(10, 12) == BonusSquare::Normal);
    assert(line_mult(Direction::Vertical, 12, 0, 11) == 2);
    assert(bonus_spec(11, 12) == BonusSquare::Normal);
    assert(line_mult(Direction::Vertical, 12, 0, 12) == 2);
    assert(bonus_spec(12, 12) == BonusSquare::DoubleWord);
    assert(line_mult(Direction::Vertical, 12, 0, 13) == 4);
    assert(bonus_spec(13, 12) == BonusSquare::Normal);
    assert(line_mult(Direction::Vertical, 12, 0, 14) == 4);
    assert(bonus_spec(14, 12) == BonusSquare::Normal);
    assert(line_mult(Direction::Vertical, 12, 0, 15) == 4);
}

#[verifier::spinoff_prover]
proof fn lemma_col_mult_13()
    ensures
        line_mult(Direction::Vertical, 13, 0, 15) <= 27,
{
    assert(line_mult(Direction::Vertical, 13, 0, 0) == 1);
    assert(bonus_spec(0, 13) == BonusSquare::Normal);
    assert(line_mult(Direction::Vertical, 13, 0, 1) == 1);
    assert(bonus_spec(1, 13) == BonusSquare::DoubleWord);
    assert(line_mult(Direction::Vertical, 13, 0, 2) == 2);
    assert(bonus_spec(2, 13) == BonusSquare::Normal);
    assert(line_mult(Direction::Vertical, 13, 0, 3) == 2);
    assert(bonus_spec(3, 13) == BonusSquare::Normal);
    assert(line_mult(Direction::Vertical, 13, 0, 4) == 2);
    assert(bonus_spec(4, 13) == BonusSquare::Normal);
    assert(line_mult(Direction::Vertical, 13, 0, 5) == 2);
    assert(bonus_spec(5, 13) == BonusSquare::TripleLetter);
    assert(line_mult(Direction::Vertical, 13, 0, 6) == 2);
    assert(bonus_spec(6, 13) == BonusSquare::Normal);
    assert(line_mult(Direction::Vertical, 13, 0, 7) == 2);
    assert(bonus_spec(7, 13) == BonusSquare::Normal);
    assert(line_mult(Direction::Vertical, 13, 0, 8) == 2);
    assert(bonus_spec(8, 13) == BonusSquare::Normal);
    assert(line_mult(Direction::Vertical, 13, 0, 9) == 2);
    assert(bonus_spec(9, 13) == BonusSquare::TripleLetter);
    assert(line_mult(Direction::Vertical, 13, 0, 10) == 2);
    assert(bonus_spec(10, 13) == BonusSquare::Normal);
    assert(line_mult(Direction::Vertical, 13, 0, 11) == 2);
    assert(bonus_spec(11, 13) == BonusSquare::Normal);
    assert(line_mult(Direction::Vertical, 13, 0, 12) == 2);
    assert(bonus_spec(12, 13) == BonusSquare::Normal);
    assert(line_mult(Direction::Vertical, 13, 0, 13) == 2);
    assert(bonus_spec(13, 13) == BonusSquare::DoubleWord);
    assert(line_mult(Direction::Vertical, 13, 0, 14) == 4);
    assert(bonus_spec(14, 13) == BonusSquare::Normal);
    assert(line_mult(Direction::Vertical, 13, 0, 15) == 4);
}

#[verifier::spinoff_prover]
proof fn lemma_col_mult_14()
    ensures
        line_mult(Direction::Vertical, 14, 0, 15) <= 27,
{
    assert(line_mult(Direction::Vertical, 14, 0, 0) == 1);
    assert(bonus_spec(0, 14) == BonusSquare::TripleWord);
    assert(line_mult(Direction::Vertical, 14, 0, 1) == 3);
    assert(bonus_spec(1, 14) == BonusSquare::Normal);
    assert(line_mult(Direction::Vertical, 14, 0, 2) == 3);
    assert(bonus_spec(2, 14) == BonusSquare::Normal);
    assert(line_mult(Direction::Vertical, 14, 0, 3) == 3);
    assert(bonus_spec(3, 14) == BonusSquare::DoubleLetter);
    assert(line_mult(Direction::Vertical, 14, 0, 4) == 3);
    assert(bonus_spec(4, 14) == BonusSquare::Normal);
    assert(line_mult(Direction::Vertical, 14, 0, 5) == 3);
    assert(bonus_spec(5, 14) == BonusSquare::Normal);
    assert(line_mult(Direction::Vertical, 14, 0, 6) == 3);
    assert(bonus_spec(6, 14) == BonusSquare::Normal);
    assert(line_mult(Direction::Vertical, 14, 0, 7) == 3);
    assert(bonus_spec(7, 14) == BonusSquare::TripleWord);
    assert(line_mult(Direction::Vertical, 14, 0, 8) == 9);
    assert(bonus_spec(8, 14) == BonusSquare::Normal);
    assert(line_mult(Direction::Vertical, 14, 0, 9) == 9);
    assert(bonus_spec(9, 14) == BonusSquare::Normal);
    assert(line_mult(Direction::Vertical, 14, 0, 10) == 9);
    assert(bonus_spec(10, 14) == BonusSquare::Normal);
    assert(line_mult(Direction::Vertical, 14, 0, 11) == 9);
    assert(bonus_spec(11, 14) == BonusSquare::DoubleLetter);
    assert(line_mult(Direction::Vertical, 14, 0, 12) == 9);
    assert(bonus_spec(12, 14) == BonusSquare::Normal);
    assert(line_mult(Direction::Vertical, 14, 0, 13) == 9);
    assert(bonus_spec(13, 14) == BonusSquare::Normal);
    assert(line_mult(Direction::Vertical, 14, 0, 14) == 9);
    assert(bonus_spec(14, 14) == BonusSquare::TripleWord);
    assert(line_mult(Direction::Vertical, 14, 0, 15) == line_mult(Direction::Vertical, 14, 0, 14) * word_mult(
        bonus_spec(14, 14),
    ));
    assert(word_mult(bonus_spec(14, 14)) == 3);
    assert(line_mult(Direction::Vertical, 14, 0, 15) == 27);
}

/// Along any column, the word multipliers multiply to at most 27.
proof fn lemma_col_mult(c: int)
    requires
        0 <= c < 15,
    ensures
        line_mult(Direction::Vertical, c, 0, 15) <= 27,
{
    if c == 0 {
        lemma_col_mult_0();
    }
    if c == 1 {
        lemma_col_mult_1();
    }
    if c == 2 {
        lemma_col_mult_2();
    }
    if c == 3 {
        lemma_col_mult_3();
    }
    if c == 4 {
        lemma_col_mult_4();
    }
    if c == 5 {
        lemma_col_mult_5();
    }
    if c == 6 {
        lemma_col_mult_6();
    }
    if c == 7 {
        lemma_col_mult_7();
    }
    if c == 8 {
        lemma_col_mult_8();
    }
    if c == 9 {
        lemma_col_mult_9();
    }
    if c == 10 {
        lemma_col_mult_10();
    }
    if c == 11 {
        lemma_col_mult_11();
    }
    if c == 12 {
        lemma_col_mult_12();
    }
    if c == 13 {
        lemma_col_mult_13();
    }
    if c == 14 {
        lemma_col_mult_14();
    }
}

/// On any stretch of a line, the word multipliers multiply to at most 27.
pub proof fn lemma_line_mult_bound(d: Direction, fixed: int, s: int, e: int)
    requires
        0 <= fixed < 15,
        0 <= s <= e <= 15,
    ensures
        1 <= line_mult(d, fixed, s, e) <= 27,
{
    lemma_line_mult_split(d, fixed, 0, s, 15);
    lemma_line_mult_split(d, fixed, s, e, 15);
    lemma_line_mult_pos(d, fixed, 0, s);
    lemma_line_mult_pos(d, fixed, s, e);
    lemma_line_mult_pos(d, fixed, e, 15);
    match d {
        Direction::Horizontal => lemma_row_mult(fixed),
        Direction::Vertical => lemma_col_mult(fixed),
    }
    let a = line_mult(d, fixed, 0, s);
    let m = line_mult(d, fixed, s, e);
    let z = line_mult(d, fixed, e, 15);
    assert(m <= a * (m * z)) by (nonlinear_arith)
        requires
            a >= 1,
            m >= 1,
            z >= 1,
    ;
}

/// Whether `ps` are the squares `s, s + 1, ...` of line `fixed` in direction `d`.
pub open spec fn is_line_run(ps: Seq<(usize, usize)>, d: Direction, fixed: int, s: int) -> bool {
    &&& 0 <= fixed < 15
    &&& 0 <= s
    &&& s + ps.len() <= 15
    &&& forall|k: int|
        0 <= k < ps.len() ==> (#[trigger] ps[k]).0 == cell(d, fixed, s + k).0 && ps[k].1 == cell(
            d,
            fixed,
            s + k,
        ).1
}

/// Scoring a run of squares along a line: the letter sum of the first `k` squares is
/// at most `765 * k`, and their word multiplier at most that of the line stretch.
proof fn lemma_run_sums(
    ps: Seq<(usize, usize)>,
    d: Direction,
    fixed: int,
    s: int,
    b: Board,
    nt: Seq<PlacedTile>,
    m: Seq<(usize, usize, Tile)>,
    k: int,
)
    requires
        is_line_run(ps, d, fixed, s),
        0 <= k <= ps.len(),
    ensures
        0 <= word_sums(ps.subrange(0, k), b, nt, m).0 <= 765 * k,
        1 <= word_sums(ps.subrange(0, k), b, nt, m).1 <= line_mult(d, fixed, s, s + k),
    decreases k,
{
    if k > 0 {
        lemma_run_sums(ps, d, fixed, s, b, nt, m, k - 1);
        let q = ps.subrange(0, k);
        assert(q.drop_last() =~= ps.subrange(0, k - 1));
        let (sum, mult) = word_sums(ps.subrange(0, k - 1), b, nt, m);
        let (r, c) = q.last();
        assert(q.last() == ps[k - 1]);
        assert(r == cell(d, fixed, s + k - 1).0 && c == cell(d, fixed, s + k - 1).1);
        let lm = line_mult(d, fixed, s, s + k - 1);
        let w = word_mult(bonus_spec(cell(d, fixed, s + k - 1).0, cell(d, fixed, s + k - 1).1));
        assert(line_mult(d, fixed, s, s + k) == lm * w);
        if let Some(t) = scored_tile(b, m, r as int, c as int) {
            let bonus = live_bonus(nt, r as int, c as int);
            let wb = word_mult(bonus);
            assert(wb <= w);
            assert(mult * wb <= lm * w) by (nonlinear_arith)
                requires
                    1 <= mult <= lm,
                    1 <= wb <= w,
            ;
            assert(mult * wb >= 1) by (nonlinear_arith)
                requires
                    1 <= mult,
                    1 <= wb,
            ;
            assert(t.spec_points() * letter_mult(bonus) <= 765) by (nonlinear_arith)
                requires
                    0 <= t.spec_points() <= 255,
                    1 <= letter_mult(bonus) <= 3,
            ;
            assert(t.spec_points() * letter_mult(bonus) >= 0) by (nonlinear_arith)
                requires
                    0 <= t.spec_points() <= 255,
                    1 <= letter_mult(bonus) <= 3,
            ;
        } else {
            assert(mult <= lm * w) by (nonlinear_arith)
                requires
                    1 <= mult <= lm,
                    1 <= w,
            ;
        }
    }
}

/// Largest score of one word on the board: 15 letters of at most 255 points, tripled,
/// times a word multiplier of at most 27.
pub open spec fn max_word_score() -> int {
    309825
}

/// Any run of squares along a line can be scored without leaving `i32`, and scores
/// between 0 and `max_word_score()`.
pub proof fn lemma_line_word_fits(
    ps: Seq<(usize, usize)>,
    d: Direction,
    fixed: int,
    s: int,
    b: Board,
    nt: Seq<PlacedTile>,
    m: Seq<(usize, usize, Tile)>,
)
    requires
        is_line_run(ps, d, fixed, s),
    ensures
        score_word_fits(ps, b, nt, m),
        0 <= word_score(ps, b, nt, m) <= max_word_score(),
{
    assert forall|k: int| 0 <= k <= ps.len() implies #[trigger] word_sums(ps.subrange(0, k), b, nt, m).0
        <= i32::MAX && word_sums(ps.subrange(0, k), b, nt, m).1 <= i32::MAX by {
        lemma_run_sums(ps, d, fixed, s, b, nt, m, k);
        lemma_line_mult_bound(d, fixed, s, s + k);
    }
    assert forall|k: int|
        0 <= k < ps.len() && scored_tile(b, m, (#[trigger] ps[k]).0 as int, ps[k].1 as int) is Some && has_new(
            nt,
            ps[k].0 as int,
            ps[k].1 as int,
        ) implies crate::board::in_bounds(ps[k].0 as int, ps[k].1 as int) by {
        assert(ps[k].0 == cell(d, fixed, s + k).0);
    }
    lemma_run_sums(ps, d, fixed, s, b, nt, m, ps.len() as int);
    lemma_line_mult_bound(d, fixed, s, s + ps.len());
    assert(ps.subrange(0, ps.len() as int) =~= ps);
    let (sum, mult) = word_sums(ps, b, nt, m);
    assert(sum * mult <= 309825) by (nonlinear_arith)
        requires
            0 <= sum <= 765 * 15,
            1 <= mult <= 27,
    ;
    assert(sum * mult >= 0) by (nonlinear_arith)
        requires
            0 <= sum,
            1 <= mult,
    ;
}
} // verus!
