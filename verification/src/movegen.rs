//! Move generation for the computer player: cross-checks, anchors, a GADDAG walk from each
//! anchor, and the score of each candidate move.
use vstd::prelude::*;
use crate::board::{bonus_spec, in_bounds, Board, BonusSquare, BOARD_SIZE};
use crate::placement::{
    coord, ext_back, ext_fwd, has_new, lemma_ext_back_range, lemma_ext_fwd_range, line_of,
    max_coord, min_coord, new_tile_at, at_pos, is_first_at, cell, Direction, PlacedTile,
};
use crate::rack::RACK_SIZE;
use crate::scoring::{letter_mult, word_mult, line_mult, lemma_line_mult_bound};
use crate::tile::Tile;
use crate::text::{is_ascii_alpha, string_from_chars, to_upper, upper};
use crate::dict::{normalized, FstDictionary};
use crate::gaddag::{
    entry_of, gaddag_entry, gaddag_keys, gaddag_word_ok, listed_entry, word_bytes, Gaddag, GaddagNode,
    SEPARATOR,
};
use crate::fst_set::{fst_decode, live};
use crate::tile::{letter_points, letter_value};
use vstd::utf8::{encode_scalar, encode_utf8, leading_byte_width_1};

verus! {

/// A candidate move: tiles to place and the score it would achieve.
#[derive(Debug, Clone)]
pub struct CandidateMove {
    pub tiles: Vec<PlacedTile>,
    pub score: i32,
    pub primary_word: String,
}

// ---------------------------------------------------------------------------
// The score of a candidate move.
// ---------------------------------------------------------------------------

/// The direction a flag names: `true` is across a row, `false` down a column.
pub open spec fn dir(horizontal: bool) -> Direction {
    if horizontal {
        Direction::Horizontal
    } else {
        Direction::Vertical
    }
}

/// Where the run of board tiles before position `pos` of a line begins.
pub open spec fn run_start(b: Board, h: bool, fixed: int, pos: int) -> int {
    ext_back(b, Seq::empty(), dir(h), fixed, pos)
}

/// Where the run of board tiles after position `pos` of a line ends.
pub open spec fn run_end(b: Board, h: bool, fixed: int, pos: int) -> int {
    ext_fwd(b, Seq::empty(), dir(h), fixed, pos)
}

/// The points of the board tile at `(r, c)`, or 0 where the square is empty.
pub open spec fn board_points(b: Board, r: int, c: int) -> int {
    match b.at(r, c) {
        Some(t) => t.spec_points() as int,
        None => 0,
    }
}

/// Letter sum and word multiplier over positions `s..e` of line `fixed`: a square with a
/// placed tile scores that tile with the square's bonus, any other square scores the
/// board tile on it, if any, without bonus.
pub open spec fn line_sums(b: Board, ps: Seq<PlacedTile>, h: bool, fixed: int, s: int, e: int) -> (
    int,
    int,
)
    decreases e - s,
{
    if e <= s {
        (0, 1)
    } else {
        let (sum, mult) = line_sums(b, ps, h, fixed, s, e - 1);
        let (r, c) = cell(dir(h), fixed, e - 1);
        if has_new(ps, r, c) {
            let t = new_tile_at(ps, r, c)->0;
            let bonus = bonus_spec(r, c);
            (sum + t.spec_points() * letter_mult(bonus), mult * word_mult(bonus))
        } else {
            (sum + board_points(b, r, c), mult)
        }
    }
}

/// The score of positions `s..=e` of line `fixed`.
pub open spec fn span_score(b: Board, ps: Seq<PlacedTile>, h: bool, fixed: int, s: int, e: int) -> int {
    line_sums(b, ps, h, fixed, s, e + 1).0 * line_sums(b, ps, h, fixed, s, e + 1).1
}

/// Whether a board tile stands next to `t` along the line.
pub open spec fn has_line_neighbor(b: Board, t: PlacedTile, h: bool) -> bool {
    if h {
        (t.col > 0 && b.occupied(t.row as int, t.col - 1)) || (t.col + 1 < 15 && b.occupied(
            t.row as int,
            t.col + 1,
        ))
    } else {
        (t.row > 0 && b.occupied(t.row - 1, t.col as int)) || (t.row + 1 < 15 && b.occupied(
            t.row + 1,
            t.col as int,
        ))
    }
}

/// The score of the main word: from the first placed position back over board tiles to the
/// last placed position forward over board tiles; a single tile with no neighbour scores 0.
pub open spec fn primary_score(b: Board, ps: Seq<PlacedTile>, h: bool) -> int {
    let d = dir(h);
    let fixed = line_of(ps[0], d);
    let s = run_start(b, h, fixed, min_coord(ps, d));
    let e = run_end(b, h, fixed, max_coord(ps, d));
    if s == e && ps.len() == 1 && !has_line_neighbor(b, ps[0], h) {
        0
    } else {
        span_score(b, ps, h, fixed, s, e)
    }
}

/// The score of the word across the line through placed tile `t`, or 0 where no board tile
/// touches it across the line.
pub open spec fn cross_score(b: Board, t: PlacedTile, h: bool) -> int {
    let d = dir(!h);
    let fixed = line_of(t, d);
    let s = run_start(b, !h, fixed, coord(t, d));
    let e = run_end(b, !h, fixed, coord(t, d));
    if s == e {
        0
    } else {
        span_score(b, seq![t], !h, fixed, s, e)
    }
}

/// The cross-word scores of the first `k` placed tiles.
pub open spec fn cross_total(b: Board, ps: Seq<PlacedTile>, h: bool, k: int) -> int
    decreases k,
{
    if k <= 0 {
        0
    } else {
        cross_total(b, ps, h, k - 1) + cross_score(b, ps[k - 1], h)
    }
}

/// The direction scoring reads from the placed tiles: across when the first two share a row.
pub open spec fn scoring_horizontal(ps: Seq<PlacedTile>) -> bool {
    ps.len() == 1 || ps[0].row == ps[1].row
}

/// The score of a candidate move: its main word, every cross word, and the bingo bonus
/// when a full rack is placed.
pub open spec fn candidate_score(b: Board, ps: Seq<PlacedTile>) -> int {
    let h = scoring_horizontal(ps);
    primary_score(b, ps, h) + cross_total(b, ps, h, ps.len() as int) + if ps.len() == RACK_SIZE {
        50int
    } else {
        0int
    }
}

/// Every placed tile stands on the board.
pub open spec fn all_in_bounds(ps: Seq<PlacedTile>) -> bool {
    forall|i: int| 0 <= i < ps.len() ==> in_bounds((#[trigger] ps[i]).row as int, ps[i].col as int)
}

proof fn lemma_board_points(b: Board, r: int, c: int)
    ensures
        0 <= board_points(b, r, c) <= 255,
{
}

proof fn lemma_letter_mult(bonus: BonusSquare)
    ensures
        1 <= letter_mult(bonus) <= 3,
        1 <= word_mult(bonus) <= 3,
{
}

/// Over a stretch of a line on the board, the letter sum is at most 765 per square and the
/// word multiplier lies between 1 and the product of the stretch's word bonuses.
proof fn lemma_line_sums_bounds(b: Board, ps: Seq<PlacedTile>, h: bool, fixed: int, s: int, e: int)
    requires
        s <= e,
    ensures
        0 <= line_sums(b, ps, h, fixed, s, e).0 <= 765 * (e - s),
        1 <= line_sums(b, ps, h, fixed, s, e).1 <= line_mult(dir(h), fixed, s, e),
    decreases e - s,
{
    if e > s {
        lemma_line_sums_bounds(b, ps, h, fixed, s, e - 1);
        let (sum, mult) = line_sums(b, ps, h, fixed, s, e - 1);
        let (r, c) = cell(dir(h), fixed, e - 1);
        let bonus = bonus_spec(r, c);
        lemma_letter_mult(bonus);
        lemma_board_points(b, r, c);
        let lm = line_mult(dir(h), fixed, s, e - 1);
        assert(line_mult(dir(h), fixed, s, e) == lm * word_mult(bonus));
        assert(mult * word_mult(bonus) <= lm * word_mult(bonus)) by (nonlinear_arith)
            requires
                1 <= mult <= lm,
                1 <= word_mult(bonus),
        ;
        assert(mult <= lm * word_mult(bonus)) by (nonlinear_arith)
            requires
                1 <= mult <= lm,
                1 <= word_mult(bonus),
        ;
        assert(1 <= mult * word_mult(bonus)) by (nonlinear_arith)
            requires
                1 <= mult,
                1 <= word_mult(bonus),
        ;
        if has_new(ps, r, c) {
            let t = new_tile_at(ps, r, c)->0;
            assert(t.spec_points() * letter_mult(bonus) <= 765) by (nonlinear_arith)
                requires
                    0 <= t.spec_points() <= 255,
                    1 <= letter_mult(bonus) <= 3,
            ;
            assert(0 <= t.spec_points() * letter_mult(bonus)) by (nonlinear_arith)
                requires
                    0 <= t.spec_points(),
                    1 <= letter_mult(bonus),
            ;
        }
    }
}

/// A stretch of at most fifteen squares scores at most 765 per square times 27.
proof fn lemma_span_bound(b: Board, ps: Seq<PlacedTile>, h: bool, fixed: int, s: int, e: int)
    requires
        0 <= fixed < 15,
        0 <= s <= e < 15,
    ensures
        0 <= span_score(b, ps, h, fixed, s, e) <= 765 * (e + 1 - s) * 27,
        0 <= line_sums(b, ps, h, fixed, s, e + 1).0 <= 765 * (e + 1 - s),
        1 <= line_sums(b, ps, h, fixed, s, e + 1).1 <= 27,
{
    lemma_line_sums_bounds(b, ps, h, fixed, s, e + 1);
    lemma_line_mult_bound(dir(h), fixed, s, e + 1);
    let (sum, mult) = line_sums(b, ps, h, fixed, s, e + 1);
    assert(sum * mult <= 765 * (e + 1 - s) * 27) by (nonlinear_arith)
        requires
            0 <= sum <= 765 * (e + 1 - s),
            1 <= mult <= 27,
    ;
    assert(0 <= sum * mult) by (nonlinear_arith)
        requires
            0 <= sum,
            1 <= mult,
    ;
}


/// The first placed tile at `(r, c)` and whether there is one.
fn find_new(ps: &[PlacedTile], r: usize, c: usize) -> (t: Option<Tile>)
    ensures
        t == new_tile_at(ps@, r as int, c as int),
        t is Some <==> has_new(ps@, r as int, c as int),
{
    let mut i: usize = 0;
    while i < ps.len()
        invariant
            i <= ps@.len(),
            forall|j: int| 0 <= j < i ==> !at_pos(#[trigger] ps@[j], r as int, c as int),
        decreases ps@.len() - i,
    {
        if ps[i].row == r && ps[i].col == c {
            proof {
                assert(is_first_at(ps@, r as int, c as int, i as int));
                let k = choose|k: int| is_first_at(ps@, r as int, c as int, k);
                if k < i {
                    assert(!at_pos(ps@[k], r as int, c as int));
                } else if k > i {
                    assert(!at_pos(ps@[i as int], r as int, c as int));
                }
                assert(has_new(ps@, r as int, c as int));
            }
            return Some(ps[i].tile);
        }
        i = i + 1;
    }
    proof {
        if exists|k: int| is_first_at(ps@, r as int, c as int, k) {
            let k = choose|k: int| is_first_at(ps@, r as int, c as int, k);
            assert(!at_pos(ps@[k], r as int, c as int));
        }
        if has_new(ps@, r as int, c as int) {
            let k = choose|k: int| 0 <= k < ps@.len() && at_pos(#[trigger] ps@[k], r as int, c as int);
            assert(!at_pos(ps@[k], r as int, c as int));
        }
    }
    None
}

/// The square at position `pos` of line `fixed`.
fn square(h: bool, fixed: usize, pos: usize) -> (rc: (usize, usize))
    ensures
        rc.0 == cell(dir(h), fixed as int, pos as int).0,
        rc.1 == cell(dir(h), fixed as int, pos as int).1,
{
    if h {
        (fixed, pos)
    } else {
        (pos, fixed)
    }
}

/// Whether a board tile stands at position `pos` of line `fixed`.
fn occupied_at(board: &Board, h: bool, fixed: usize, pos: usize) -> (r: bool)
    ensures
        r == crate::placement::filled(*board, Seq::empty(), dir(h), fixed as int, pos as int),
{
    let (r, c) = square(h, fixed, pos);
    board.is_occupied(r, c)
}

/// Where the run of board tiles before `pos` begins.
fn walk_back(board: &Board, h: bool, fixed: usize, pos: usize) -> (s: usize)
    ensures
        s == run_start(*board, h, fixed as int, pos as int),
{
    let mut s = pos;
    while s > 0 && occupied_at(board, h, fixed, s - 1)
        invariant
            s <= pos,
            run_start(*board, h, fixed as int, s as int) == run_start(*board, h, fixed as int, pos as int),
        decreases s,
    {
        s = s - 1;
    }
    s
}

/// Where the run of board tiles after `pos` ends.
fn walk_fwd(board: &Board, h: bool, fixed: usize, pos: usize) -> (e: usize)
    requires
        pos < 15,
    ensures
        e == run_end(*board, h, fixed as int, pos as int),
        pos <= e < 15,
{
    let mut e = pos;
    while e + 1 < BOARD_SIZE && occupied_at(board, h, fixed, e + 1)
        invariant
            pos <= e < 15,
            run_end(*board, h, fixed as int, e as int) == run_end(*board, h, fixed as int, pos as int),
        decreases 15 - e,
    {
        e = e + 1;
    }
    e
}

/// The score of positions `s..=e` of line `fixed`.
fn span_value(board: &Board, ps: &[PlacedTile], h: bool, fixed: usize, s: usize, e: usize) -> (v: i32)
    requires
        fixed < 15,
        s <= e < 15,
    ensures
        v == span_score(*board, ps@, h, fixed as int, s as int, e as int),
        0 <= v <= 309825,
{
    let mut sum: i32 = 0;
    let mut mult: i32 = 1;
    let mut pos: usize = s;
    while pos <= e
        invariant
            fixed < 15,
            s <= pos <= e + 1,
            e < 15,
            (sum as int, mult as int) == line_sums(*board, ps@, h, fixed as int, s as int, pos as int),
        decreases e + 1 - pos,
    {
        proof {
            lemma_line_sums_bounds(*board, ps@, h, fixed as int, s as int, pos + 1);
            lemma_line_mult_bound(dir(h), fixed as int, s as int, pos + 1);
            lemma_line_sums_bounds(*board, ps@, h, fixed as int, s as int, pos as int);
        }
        let (r, c) = square(h, fixed, pos);
        match find_new(ps, r, c) {
            Some(t) => {
                let bonus = Board::bonus_at(r, c);
                let lm: i32 = match bonus {
                    BonusSquare::DoubleLetter => 2,
                    BonusSquare::TripleLetter => 3,
                    _ => 1,
                };
                let wm: i32 = match bonus {
                    BonusSquare::DoubleWord | BonusSquare::Center => 2,
                    BonusSquare::TripleWord => 3,
                    _ => 1,
                };
                sum = sum + (t.points() as i32) * lm;
                mult = mult * wm;
            },
            None => {
                let p: i32 = match board.get(r, c) {
                    Some(t) => t.points() as i32,
                    None => 0,
                };
                sum = sum + p;
            },
        }
        pos = pos + 1;
    }
    proof {
        lemma_span_bound(*board, ps@, h, fixed as int, s as int, e as int);
    }
    sum * mult
}

/// Score the primary word along the placement direction.
fn score_primary_word(board: &Board, placed: &[PlacedTile], horizontal: bool) -> (v: i32)
    requires
        placed@.len() >= 1,
        all_in_bounds(placed@),
    ensures
        v == primary_score(*board, placed@, horizontal),
        0 <= v <= 309825,
{
    let ghost d = dir(horizontal);
    let fixed = if horizontal {
        placed[0].row
    } else {
        placed[0].col
    };
    let first = if horizontal {
        placed[0].col
    } else {
        placed[0].row
    };
    assert(in_bounds(placed@[0].row as int, placed@[0].col as int));
    let mut min_pos = first;
    let mut max_pos = first;
    assert(placed@.take(1).len() == 1);
    assert(placed@.take(1)[0] == placed@[0]);
    let mut i: usize = 1;
    while i < placed.len()
        invariant
            1 <= i <= placed@.len(),
            all_in_bounds(placed@),
            d == dir(horizontal),
            min_pos == min_coord(placed@.take(i as int), d),
            max_pos == max_coord(placed@.take(i as int), d),
            min_pos < 15,
            max_pos < 15,
        decreases placed@.len() - i,
    {
        let p = if horizontal {
            placed[i].col
        } else {
            placed[i].row
        };
        assert(in_bounds(placed@[i as int].row as int, placed@[i as int].col as int));
        assert(placed@.take(i + 1).drop_last() =~= placed@.take(i as int));
        assert(placed@.take(i + 1).last() == placed@[i as int]);
        if p < min_pos {
            min_pos = p;
        }
        if p > max_pos {
            max_pos = p;
        }
        i = i + 1;
    }
    assert(placed@.take(placed@.len() as int) =~= placed@);
    let start = walk_back(board, horizontal, fixed, min_pos);
    let end = walk_fwd(board, horizontal, fixed, max_pos);
    proof {
        lemma_ext_back_range(*board, Seq::empty(), d, fixed as int, min_pos as int);
        lemma_ext_fwd_range(*board, Seq::empty(), d, fixed as int, max_pos as int);
        lemma_coord_range(placed@, d);
    }
    if start == end && placed.len() == 1 {
        let r = placed[0].row;
        let c = placed[0].col;
        let has_neighbor = if horizontal {
            (c > 0 && board.is_occupied(r, c - 1)) || (c + 1 < BOARD_SIZE && board.is_occupied(r, c + 1))
        } else {
            (r > 0 && board.is_occupied(r - 1, c)) || (r + 1 < BOARD_SIZE && board.is_occupied(r + 1, c))
        };
        if !has_neighbor {
            return 0;
        }
    }
    span_value(board, placed, horizontal, fixed, start, end)
}

/// The smallest coordinate is at most the largest.
proof fn lemma_coord_range(ps: Seq<PlacedTile>, d: Direction)
    requires
        ps.len() >= 1,
    ensures
        min_coord(ps, d) <= max_coord(ps, d),
    decreases ps.len(),
{
    if ps.len() > 1 {
        lemma_coord_range(ps.drop_last(), d);
    }
}

/// Score a cross-word formed perpendicular to the placed tile.
fn score_cross_word(board: &Board, pt: &PlacedTile, horizontal: bool) -> (v: i32)
    requires
        in_bounds(pt.row as int, pt.col as int),
    ensures
        v == cross_score(*board, *pt, horizontal),
        0 <= v <= 309825,
{
    let (fixed, pos) = if horizontal {
        (pt.col, pt.row)
    } else {
        (pt.row, pt.col)
    };
    let start = walk_back(board, !horizontal, fixed, pos);
    let end = walk_fwd(board, !horizontal, fixed, pos);
    proof {
        lemma_ext_back_range(*board, Seq::empty(), dir(!horizontal), fixed as int, pos as int);
    }
    if start == end {
        return 0;
    }
    let single = vec![*pt];
    assert(single@ == seq![*pt]);
    span_value(board, single.as_slice(), !horizontal, fixed, start, end)
}

/// Score a candidate move (all words formed).
///
/// A word scores at most 309825 and a move forms at most one word per tile besides its
/// main word, so the total is computed in `i32` for every move whose worst case, with the
/// bonus, fits there.
pub fn score_candidate(board: &Board, placed: &[PlacedTile]) -> (v: i32)
    requires
        1 <= placed@.len(),
        309825 * (placed@.len() + 1) + 50 <= i32::MAX,
        all_in_bounds(placed@),
    ensures
        v == candidate_score(*board, placed@),
{
    let horizontal = if placed.len() == 1 {
        true
    } else {
        placed[0].row == placed[1].row
    };
    let mut total: i32 = 0;
    total = total + score_primary_word(board, placed, horizontal);
    let mut i: usize = 0;
    while i < placed.len()
        invariant
            i <= placed@.len(),
            309825 * (placed@.len() + 1) + 50 <= i32::MAX,
            all_in_bounds(placed@),
            horizontal == scoring_horizontal(placed@),
            total == primary_score(*board, placed@, horizontal) + cross_total(*board, placed@, horizontal, i as int),
            0 <= total <= 309825 * (i + 1),
        decreases placed@.len() - i,
    {
        assert(in_bounds(placed@[i as int].row as int, placed@[i as int].col as int));
        let cross = score_cross_word(board, &placed[i], horizontal);
        total = total + cross;
        i = i + 1;
    }
    if placed.len() == RACK_SIZE {
        total = total + 50;
    }
    total
}


// ---------------------------------------------------------------------------
// Letter sets and cross-checks.
// ---------------------------------------------------------------------------

/// The byte `ch.to_ascii_uppercase() as u8` gives: the low eight bits of the upper-cased code.
pub open spec fn upper_byte(ch: char) -> int {
    (upper(ch) as int) % 256
}

/// Bit set of valid letters (bits 0-25 for A-Z): the bit of an ASCII letter, either case,
/// or 0 for any other character.
pub open spec fn letter_bit_spec(ch: char) -> u32 {
    let b = upper_byte(ch);
    if is_ascii_alpha(ch) && 65 <= b <= 90 {
        1u32 << ((b - 65) as u32)
    } else {
        0u32
    }
}

/// All twenty-six letters.
pub open spec fn all_letters_spec() -> u32 {
    0x3ffffffu32
}

/// The set of the first `n` letters `A + j` for which `f(j)` holds.
pub open spec fn mask_of(f: spec_fn(int) -> bool, n: int) -> u32
    decreases n,
{
    if n <= 0 {
        0u32
    } else if f(n - 1) {
        mask_of(f, n - 1) | (1u32 << ((n - 1) as u32))
    } else {
        mask_of(f, n - 1)
    }
}

/// The character of the board tile at `(r, c)`, or `?` where there is none or it shows none.
pub open spec fn board_char(b: Board, r: int, c: int) -> char {
    match b.at(r, c) {
        Some(t) => match t.spec_letter() {
            Some(ch) => ch,
            None => '?',
        },
        None => '?',
    }
}

/// The characters at positions `s..e` of line `fixed`.
pub open spec fn line_chars(b: Board, h: bool, fixed: int, s: int, e: int) -> Seq<char> {
    Seq::new(
        (e - s) as nat,
        |k: int| board_char(b, cell(dir(h), fixed, s + k).0, cell(dir(h), fixed, s + k).1),
    )
}

/// The board letters just before `(row, col)` across the flag's line: above it when
/// `horizontal`, left of it otherwise.
pub open spec fn cross_before(b: Board, row: int, col: int, horizontal: bool) -> Seq<char> {
    let d = !horizontal;
    let (fixed, pos) = if horizontal { (col, row) } else { (row, col) };
    line_chars(b, d, fixed, run_start(b, d, fixed, pos), pos)
}

/// The board letters just after `(row, col)`, below it when `horizontal`, right of it
/// otherwise.
pub open spec fn cross_after(b: Board, row: int, col: int, horizontal: bool) -> Seq<char> {
    let d = !horizontal;
    let (fixed, pos) = if horizontal { (col, row) } else { (row, col) };
    line_chars(b, d, fixed, pos + 1, run_end(b, d, fixed, pos) + 1)
}

/// The word that letter `A + j` at `(row, col)` forms with the letters before and after it.
pub open spec fn cross_word(b: Board, row: int, col: int, horizontal: bool, j: int) -> Seq<char> {
    cross_before(b, row, col, horizontal) + seq![((65 + j) as char)] + cross_after(b, row, col, horizontal)
}

/// Whether the dictionary with keys `ks` holds the word that letter `A + j` forms there.
pub open spec fn cross_pred(ks: Seq<Seq<u8>>, b: Board, row: int, col: int, horizontal: bool) -> spec_fn(int) -> bool {
    |j: int| ks.contains(encode_utf8(normalized(cross_word(b, row, col, horizontal, j))))
}

/// The letters allowed at an empty `(row, col)` by the word across the flag's line: all of
/// them where no tile touches it there, else those whose word the dictionary holds.
pub open spec fn cross_mask(ks: Seq<Seq<u8>>, b: Board, row: int, col: int, horizontal: bool) -> u32 {
    if cross_before(b, row, col, horizontal).len() == 0 && cross_after(b, row, col, horizontal).len() == 0 {
        all_letters_spec()
    } else {
        mask_of(cross_pred(ks, b, row, col, horizontal), 26)
    }
}

/// Bit set of valid letters (bits 0-25 for A-Z).
fn letter_bit(ch: char) -> (r: u32)
    ensures
        r == letter_bit_spec(ch),
{
    if !crate::text::is_alpha(ch) {
        return 0;
    }
    let code = to_upper(ch) as u32;
    let upper = (code % 256) as u8;
    if !(65 <= upper && upper <= 90) {
        return 0;
    }
    1u32 << ((upper - 65) as u32)
}

fn all_letters() -> (r: u32)
    ensures
        r == all_letters_spec(),
{
    assert((1u32 << 26) == 0x4000000u32) by (bit_vector);
    (1u32 << 26) - 1
}

fn bit_has(set: u32, ch: char) -> (r: bool)
    ensures
        r == (set & letter_bit_spec(ch) != 0),
{
    set & letter_bit(ch) != 0
}

/// The letters of the board run at positions `s..e` of line `fixed`.
fn collect_line(board: &Board, h: bool, fixed: usize, s: usize, e: usize) -> (out: Vec<char>)
    requires
        s <= e <= 15,
    ensures
        out@ == line_chars(*board, h, fixed as int, s as int, e as int),
{
    let mut out: Vec<char> = Vec::new();
    let mut k: usize = s;
    while k < e
        invariant
            s <= k <= e <= 15,
            out@ == line_chars(*board, h, fixed as int, s as int, k as int),
        decreases e - k,
    {
        let (r, c) = square(h, fixed, k);
        let ch = match board.get(r, c) {
            Some(t) => match t.letter() {
                Some(x) => x,
                None => '?',
            },
            None => '?',
        };
        out.push(ch);
        k = k + 1;
        assert(out@ =~= line_chars(*board, h, fixed as int, s as int, k as int));
    }
    out
}

/// Check which letters are valid at (row, col) considering the perpendicular word
/// in the given direction. `horizontal` means we're checking what happens when
/// we extend vertically through this square (i.e., the cross-word is vertical).
fn cross_check_direction(board: &Board, dict: &FstDictionary, row: usize, col: usize, horizontal: bool) -> (m: u32)
    requires
        row < 15,
        col < 15,
    ensures
        dict.keys() is Some ==> m == cross_mask(dict.keys()->0, *board, row as int, col as int, horizontal),
{
    let d = !horizontal;
    let (fixed, pos) = if horizontal {
        (col, row)
    } else {
        (row, col)
    };
    let start = walk_back(board, d, fixed, pos);
    let end = walk_fwd(board, d, fixed, pos);
    proof {
        lemma_ext_back_range(*board, Seq::empty(), dir(d), fixed as int, pos as int);
    }
    let prefix = collect_line(board, d, fixed, start, pos);
    let suffix = collect_line(board, d, fixed, pos + 1, end + 1);
    if prefix.len() == 0 && suffix.len() == 0 {
        return all_letters();
    }
    let ghost f = cross_pred(dict.keys()->0, *board, row as int, col as int, horizontal);
    let mut valid: u32 = 0;
    let mut j: u8 = 0;
    while j < 26
        invariant
            j <= 26,
            prefix@ == cross_before(*board, row as int, col as int, horizontal),
            suffix@ == cross_after(*board, row as int, col as int, horizontal),
            f == cross_pred(dict.keys()->0, *board, row as int, col as int, horizontal),
            dict.keys() is Some ==> valid == mask_of(f, j as int),
        decreases 26 - j,
    {
        let letter = (65u8 + j) as char;
        let mut chars: Vec<char> = Vec::new();
        let mut k: usize = 0;
        while k < prefix.len()
            invariant
                k <= prefix@.len(),
                chars@ == prefix@.take(k as int),
            decreases prefix@.len() - k,
        {
            chars.push(prefix[k]);
            k = k + 1;
            assert(chars@ =~= prefix@.take(k as int));
        }
        chars.push(letter);
        let mut k: usize = 0;
        let ghost mid = chars@;
        while k < suffix.len()
            invariant
                k <= suffix@.len(),
                chars@ == mid + suffix@.take(k as int),
            decreases suffix@.len() - k,
        {
            chars.push(suffix[k]);
            k = k + 1;
            assert(chars@ =~= mid + suffix@.take(k as int));
        }
        proof {
            assert(prefix@.take(prefix@.len() as int) =~= prefix@);
            assert(suffix@.take(suffix@.len() as int) =~= suffix@);
            assert(chars@ =~= cross_word(*board, row as int, col as int, horizontal, j as int));
        }
        let word = string_from_chars(&chars);
        let wstr = word.as_str();
        let found = dict.contains(wstr);
        proof {
            assert(letter == (65 + j as int) as char);
            if dict.keys() is Some {
                assert(wstr@ == chars@);
                assert(found == f(j as int));
            }
            assert(mask_of(f, j + 1) == if f(j as int) {
                mask_of(f, j as int) | (1u32 << (j as u32))
            } else {
                mask_of(f, j as int)
            });
        }
        if found {
            valid = valid | letter_bit(letter);
            proof {
                lemma_letter_bit_of(j as int);
            }
        }
        j = j + 1;
    }
    valid
}

/// The bit of letter `A + j` is bit `j`.
proof fn lemma_letter_bit_of(j: int)
    requires
        0 <= j < 26,
    ensures
        letter_bit_spec((65 + j) as char) == 1u32 << (j as u32),
{
    assert(upper((65 + j) as char) == (65 + j) as char);
    assert(upper_byte((65 + j) as char) == 65 + j);
}

/// Compute cross-checks for all empty squares on the board.
/// For each empty square, determines which letters can legally be placed there
/// (considering perpendicular words formed).
pub fn compute_cross_checks(board: &Board, dict: &FstDictionary) -> (checks: [[Option<u32>; 15]; 15])
    ensures
        forall|r: int, c: int|
            0 <= r < 15 && 0 <= c < 15 ==> (#[trigger] checks@[r]@[c] is None <==> board.occupied(r, c)),
        dict.keys() is Some ==> forall|r: int, c: int|
            0 <= r < 15 && 0 <= c < 15 && !board.occupied(r, c) ==> #[trigger] checks@[r]@[c] == Some(
                cross_mask(dict.keys()->0, *board, r, c, true) & cross_mask(dict.keys()->0, *board, r, c, false),
            ),
{
    let mut checks: [[Option<u32>; 15]; 15] = [[None; 15]; 15];
    let mut row: usize = 0;
    while row < BOARD_SIZE
        invariant
            row <= 15,
            forall|r: int, c: int|
                0 <= r < row && 0 <= c < 15 ==> (#[trigger] checks@[r]@[c] is None <==> board.occupied(r, c)),
            dict.keys() is Some ==> forall|r: int, c: int|
                0 <= r < row && 0 <= c < 15 && !board.occupied(r, c) ==> #[trigger] checks@[r]@[c] == Some(
                    cross_mask(dict.keys()->0, *board, r, c, true) & cross_mask(dict.keys()->0, *board, r, c, false),
                ),
        decreases 15 - row,
    {
        let mut line: [Option<u32>; 15] = [None; 15];
        let mut col: usize = 0;
        while col < BOARD_SIZE
            invariant
                row < 15,
                col <= 15,
                forall|c: int| 0 <= c < col ==> (#[trigger] line@[c] is None <==> board.occupied(row as int, c)),
                dict.keys() is Some ==> forall|c: int|
                    0 <= c < col && !board.occupied(row as int, c) ==> #[trigger] line@[c] == Some(
                        cross_mask(dict.keys()->0, *board, row as int, c, true) & cross_mask(
                            dict.keys()->0,
                            *board,
                            row as int,
                            c,
                            false,
                        ),
                    ),
            decreases 15 - col,
        {
            if board.is_occupied(row, col) {
                line[col] = None;
            } else {
                let h_set = cross_check_direction(board, dict, row, col, true);
                let v_set = cross_check_direction(board, dict, row, col, false);
                line[col] = Some(h_set & v_set);
            }
            col = col + 1;
        }
        let ghost before = checks@;
        checks[row] = line;
        proof {
            assert forall|r: int, c: int| 0 <= r < row + 1 && 0 <= c < 15 implies (#[trigger] checks@[r]@[c] is None
                <==> board.occupied(r, c)) by {
                if r < row {
                    assert(checks@[r] == before[r]);
                }
            }
            if dict.keys() is Some {
                assert forall|r: int, c: int|
                    0 <= r < row + 1 && 0 <= c < 15 && !board.occupied(r, c) implies #[trigger] checks@[r]@[c] == Some(
                        cross_mask(dict.keys()->0, *board, r, c, true) & cross_mask(dict.keys()->0, *board, r, c, false),
                    ) by {
                    if r < row {
                        assert(checks@[r] == before[r]);
                    }
                }
            }
        }
        row = row + 1;
    }
    checks
}

/// The cross-checks for moves across (`horizontal`) or down: for each empty square, the
/// letters that form, with the board tiles perpendicular to the move, no word or a word of
/// the dictionary.
fn compute_direction_checks(board: &Board, dict: &FstDictionary, horizontal: bool) -> (checks: [[Option<u32>; 15]; 15])
    ensures
        forall|r: int, c: int|
            0 <= r < 15 && 0 <= c < 15 ==> (#[trigger] checks@[r]@[c] is None <==> board.occupied(r, c)),
        dict.keys() is Some ==> forall|r: int, c: int|
            0 <= r < 15 && 0 <= c < 15 && !board.occupied(r, c) ==> #[trigger] checks@[r]@[c] == Some(
                cross_mask(dict.keys()->0, *board, r, c, horizontal),
            ),
{
    let mut checks: [[Option<u32>; 15]; 15] = [[None; 15]; 15];
    let mut row: usize = 0;
    while row < BOARD_SIZE
        invariant
            row <= 15,
            forall|r: int, c: int|
                0 <= r < row && 0 <= c < 15 ==> (#[trigger] checks@[r]@[c] is None <==> board.occupied(r, c)),
            dict.keys() is Some ==> forall|r: int, c: int|
                0 <= r < row && 0 <= c < 15 && !board.occupied(r, c) ==> #[trigger] checks@[r]@[c] == Some(
                    cross_mask(dict.keys()->0, *board, r, c, horizontal),
                ),
        decreases 15 - row,
    {
        let mut line: [Option<u32>; 15] = [None; 15];
        let mut col: usize = 0;
        while col < BOARD_SIZE
            invariant
                row < 15,
                col <= 15,
                forall|c: int| 0 <= c < col ==> (#[trigger] line@[c] is None <==> board.occupied(row as int, c)),
                dict.keys() is Some ==> forall|c: int|
                    0 <= c < col && !board.occupied(row as int, c) ==> #[trigger] line@[c] == Some(
                        cross_mask(dict.keys()->0, *board, row as int, c, horizontal),
                    ),
            decreases 15 - col,
        {
            if board.is_occupied(row, col) {
                line[col] = None;
            } else {
                line[col] = Some(cross_check_direction(board, dict, row, col, horizontal));
            }
            col = col + 1;
        }
        let ghost before = checks@;
        checks[row] = line;
        proof {
            assert forall|r: int, c: int| 0 <= r < row + 1 && 0 <= c < 15 implies (#[trigger] checks@[r]@[c] is None
                <==> board.occupied(r, c)) by {
                if r < row {
                    assert(checks@[r] == before[r]);
                }
            }
            if dict.keys() is Some {
                assert forall|r: int, c: int|
                    0 <= r < row + 1 && 0 <= c < 15 && !board.occupied(r, c) implies #[trigger] checks@[r]@[c] == Some(
                        cross_mask(dict.keys()->0, *board, r, c, horizontal),
                    ) by {
                    if r < row {
                        assert(checks@[r] == before[r]);
                    }
                }
            }
        }
        row = row + 1;
    }
    checks
}

/// Bit `j` of the set of the first `n` letters with `f` is set exactly when `j < n` and `f(j)`.
pub proof fn lemma_mask_of_bit(f: spec_fn(int) -> bool, n: int, j: int)
    requires
        n <= 32,
        0 <= j < 32,
    ensures
        (mask_of(f, n) & (1u32 << (j as u32)) != 0) <==> (j < n && f(j)),
    decreases n,
{
    let jj = j as u32;
    if n <= 0 {
        assert(0u32 & (1u32 << jj) == 0) by (bit_vector);
    } else {
        lemma_mask_of_bit(f, n - 1, j);
        let m = mask_of(f, n - 1);
        let k = (n - 1) as u32;
        if f(n - 1) {
            assert(((m | (1u32 << k)) & (1u32 << jj) != 0) == ((m & (1u32 << jj) != 0) || k == jj))
                by (bit_vector)
                requires
                    k < 32,
                    jj < 32,
            ;
        }
    }
}

/// A letter is allowed at a square by the check across the flag's line exactly when no tile
/// touches the square across that line, or the dictionary holds the word the letter forms.
pub proof fn lemma_cross_mask_letter(ks: Seq<Seq<u8>>, b: Board, row: int, col: int, horizontal: bool, j: int)
    requires
        0 <= j < 26,
    ensures
        (cross_mask(ks, b, row, col, horizontal) & (1u32 << (j as u32)) != 0) <==> ((cross_before(
            b,
            row,
            col,
            horizontal,
        ).len() == 0 && cross_after(b, row, col, horizontal).len() == 0) || ks.contains(
            encode_utf8(normalized(cross_word(b, row, col, horizontal, j))),
        )),
{
    let jj = j as u32;
    if cross_before(b, row, col, horizontal).len() == 0 && cross_after(b, row, col, horizontal).len() == 0 {
        assert(0x3ffffffu32 & (1u32 << jj) != 0) by (bit_vector)
            requires
                jj < 26,
        ;
    } else {
        lemma_mask_of_bit(cross_pred(ks, b, row, col, horizontal), 26, j);
    }
}

/// A letter is allowed at an empty square by its cross-checks exactly when both the check
/// down its column and the check along its row allow it.
pub proof fn lemma_cross_checks_letter(ks: Seq<Seq<u8>>, b: Board, row: int, col: int, j: int)
    requires
        0 <= j < 26,
    ensures
        ((cross_mask(ks, b, row, col, true) & cross_mask(ks, b, row, col, false)) & (1u32 << (j as u32)) != 0)
            <==> ((cross_mask(ks, b, row, col, true) & (1u32 << (j as u32)) != 0) && (cross_mask(
            ks,
            b,
            row,
            col,
            false,
        ) & (1u32 << (j as u32)) != 0)),
{
    let x = cross_mask(ks, b, row, col, true);
    let y = cross_mask(ks, b, row, col, false);
    let jj = j as u32;
    assert(((x & y) & (1u32 << jj) != 0) == ((x & (1u32 << jj) != 0) && (y & (1u32 << jj) != 0)))
        by (bit_vector)
        requires
            jj < 32,
    ;
}

/// A tile that shows the letter `A + j` and passes the cross-checks of its square forms,
/// down its column and along its row, either no word with the board tiles or a word that
/// the dictionary holds.
pub proof fn lemma_passing_tile_forms_words(ks: Seq<Seq<u8>>, b: Board, t: PlacedTile, j: int)
    requires
        0 <= j < 26,
        shown_char(t.tile) == (65 + j) as char,
        square_mask(ks, b, t.row as int, t.col as int) & letter_bit_spec(shown_char(t.tile)) != 0,
    ensures
        (cross_before(b, t.row as int, t.col as int, true).len() == 0 && cross_after(b, t.row as int, t.col as int, true).len()
            == 0) || ks.contains(encode_utf8(normalized(cross_word(b, t.row as int, t.col as int, true, j)))),
        (cross_before(b, t.row as int, t.col as int, false).len() == 0 && cross_after(b, t.row as int, t.col as int, false).len()
            == 0) || ks.contains(encode_utf8(normalized(cross_word(b, t.row as int, t.col as int, false, j)))),
{
    lemma_letter_bit_of(j);
    lemma_cross_checks_letter(ks, b, t.row as int, t.col as int, j);
    lemma_cross_mask_letter(ks, b, t.row as int, t.col as int, true, j);
    lemma_cross_mask_letter(ks, b, t.row as int, t.col as int, false, j);
}

// ---------------------------------------------------------------------------
// Anchors.
// ---------------------------------------------------------------------------

/// An empty square of the board next to a square that holds a tile.
pub open spec fn is_anchor(b: Board, r: int, c: int) -> bool {
    &&& in_bounds(r, c)
    &&& !b.occupied(r, c)
    &&& (b.occupied(r - 1, c) || b.occupied(r + 1, c) || b.occupied(r, c - 1) || b.occupied(r, c + 1))
}

/// The index of a square in reading order.
pub open spec fn square_index(p: (usize, usize)) -> int {
    p.0 * 15 + p.1
}

/// Whether `(r, c)` is an empty square next to a tile.
fn anchor_at(board: &Board, r: usize, c: usize) -> (a: bool)
    requires
        r < 15,
        c < 15,
    ensures
        a == is_anchor(*board, r as int, c as int),
{
    proof {
        board.lemma_off_board(r - 1, c as int);
        board.lemma_off_board(r as int, c - 1);
    }
    !board.is_occupied(r, c) && ((r > 0 && board.is_occupied(r - 1, c)) || board.is_occupied(r + 1, c)
        || (c > 0 && board.is_occupied(r, c - 1)) || board.is_occupied(r, c + 1))
}

/// Find anchor squares. An anchor is an empty square adjacent to at least one
/// occupied square. On an empty board, only the center is an anchor.
fn find_anchors(board: &Board) -> (anchors: Vec<(usize, usize)>)
    ensures
        board.spec_is_empty() ==> anchors@ == seq![(7usize, 7usize)],
        !board.spec_is_empty() ==> {
            &&& forall|i: int| 0 <= i < anchors@.len() ==> is_anchor(*board, (#[trigger] anchors@[i]).0 as int, anchors@[i].1 as int)
            &&& forall|i: int, j: int| 0 <= i < j < anchors@.len() ==> square_index(#[trigger] anchors@[i]) < square_index(#[trigger] anchors@[j])
            &&& forall|r: int, c: int| is_anchor(*board, r, c) ==> anchors@.contains((r as usize, c as usize))
        },
        forall|i: int| 0 <= i < anchors@.len() ==> (#[trigger] anchors@[i]).0 < 15 && anchors@[i].1 < 15,
{
    if board.is_empty() {
        return vec![(7, 7)];
    }
    let mut anchors: Vec<(usize, usize)> = Vec::new();
    let mut row: usize = 0;
    while row < BOARD_SIZE
        invariant
            row <= 15,
            forall|i: int| 0 <= i < anchors@.len() ==> is_anchor(*board, (#[trigger] anchors@[i]).0 as int, anchors@[i].1 as int),
            forall|i: int| 0 <= i < anchors@.len() ==> (#[trigger] anchors@[i]).0 < row && anchors@[i].1 < 15,
            forall|i: int, j: int| 0 <= i < j < anchors@.len() ==> square_index(#[trigger] anchors@[i]) < square_index(#[trigger] anchors@[j]),
            forall|r: int, c: int| 0 <= r < row && is_anchor(*board, r, c) ==> anchors@.contains((r as usize, c as usize)),
        decreases 15 - row,
    {
        let mut col: usize = 0;
        while col < BOARD_SIZE
            invariant
                row < 15,
                col <= 15,
                forall|i: int| 0 <= i < anchors@.len() ==> is_anchor(*board, (#[trigger] anchors@[i]).0 as int, anchors@[i].1 as int),
                forall|i: int| 0 <= i < anchors@.len() ==> square_index(#[trigger] anchors@[i]) < row * 15 + col && anchors@[i].1 < 15 && anchors@[i].0 <= row,
                forall|i: int, j: int| 0 <= i < j < anchors@.len() ==> square_index(#[trigger] anchors@[i]) < square_index(#[trigger] anchors@[j]),
                forall|r: int, c: int| (0 <= r < row || (r == row && 0 <= c < col)) && is_anchor(*board, r, c) ==> anchors@.contains((r as usize, c as usize)),
            decreases 15 - col,
        {
            if anchor_at(board, row, col) {
                let ghost prev = anchors@;
                anchors.push((row, col));
                proof {
                    assert forall|r: int, c: int| (0 <= r < row || (r == row && 0 <= c < col + 1)) && is_anchor(*board, r, c)
                        implies anchors@.contains((r as usize, c as usize)) by {
                        if r == row && c == col {
                            assert(anchors@[prev.len() as int] == (r as usize, c as usize));
                        } else {
                            assert(prev.contains((r as usize, c as usize)));
                            let t = choose|t: int| 0 <= t < prev.len() && prev[t] == (r as usize, c as usize);
                            assert(anchors@[t] == (r as usize, c as usize));
                        }
                    }
                }
            }
            col = col + 1;
        }
        proof {
            assert forall|i: int| 0 <= i < anchors@.len() implies (#[trigger] anchors@[i]).0 < row + 1 && anchors@[i].1 < 15 by {
                assert(anchors@[i].0 <= row);
            }
        }
        row = row + 1;
    }
    proof {
        assert forall|r: int, c: int| is_anchor(*board, r, c) implies anchors@.contains((r as usize, c as usize)) by {
            assert(0 <= r < 15);
        }
    }
    anchors
}


// ---------------------------------------------------------------------------
// What every generated move satisfies.
// ---------------------------------------------------------------------------

/// Every tile stands on an empty square of the board.
pub open spec fn on_free_squares(b: Board, ps: Seq<PlacedTile>) -> bool {
    forall|i: int|
        0 <= i < ps.len() ==> in_bounds((#[trigger] ps[i]).row as int, ps[i].col as int) && !b.occupied(
            ps[i].row as int,
            ps[i].col as int,
        )
}

/// No two tiles share a square.
pub open spec fn distinct_squares(ps: Seq<PlacedTile>) -> bool {
    forall|i: int, j: int|
        0 <= i < j < ps.len() ==> !((#[trigger] ps[i]).row == (#[trigger] ps[j]).row && ps[i].col
            == ps[j].col)
}

/// All tiles lie in one row or in one column.
pub open spec fn collinear(ps: Seq<PlacedTile>) -> bool {
    (forall|i: int| 0 <= i < ps.len() ==> (#[trigger] ps[i]).row == ps[0].row) || (forall|i: int|
        0 <= i < ps.len() ==> (#[trigger] ps[i]).col == ps[0].col)
}

/// The tiles placed so far during a walk along line `fixed` in the flag's direction.
pub open spec fn placed_ok(b: Board, ps: Seq<PlacedTile>, h: bool, fixed: int) -> bool {
    &&& on_free_squares(b, ps)
    &&& distinct_squares(ps)
    &&& forall|i: int| 0 <= i < ps.len() ==> line_of(#[trigger] ps[i], dir(h)) == fixed
}

/// The rack as move generation reads it: a letter tile by its letter, a blank as `None`.
pub open spec fn rack_slots(rack: Seq<Tile>) -> Seq<Option<char>> {
    rack.map_values(
        |t: Tile|
            match t {
                Tile::Letter(ch, _) => Some(ch),
                Tile::Blank(_) => None,
            },
    )
}

/// Tile `t` can be played from rack slot `slot`: a blank as a blank showing a letter `A`-`Z`,
/// a letter as that letter upper-cased with its standard value.
pub open spec fn from_slot(t: Tile, slot: Option<char>) -> bool {
    match slot {
        None => t matches Tile::Blank(Some(l)) && 'A' <= l <= 'Z',
        Some(ch) => t == Tile::Letter(upper(ch), letter_value(ch)),
    }
}

/// Placed tile `k` comes from rack slot `src[k]`, and no slot gives two tiles.
pub open spec fn drawn_from(ps: Seq<PlacedTile>, slots: Seq<Option<char>>, src: Seq<int>) -> bool {
    &&& src.len() == ps.len()
    &&& forall|k: int| 0 <= k < src.len() ==> 0 <= #[trigger] src[k] < slots.len()
    &&& forall|k: int, l: int| 0 <= k < l < src.len() ==> #[trigger] src[k] != #[trigger] src[l]
    &&& forall|k: int| 0 <= k < src.len() ==> from_slot(#[trigger] ps[k].tile, slots[src[k]])
}

/// The rack during the walk: the slots that gave the placed tiles are marked used.
pub open spec fn marked(rack: Seq<Option<char>>, slots: Seq<Option<char>>, src: Seq<int>) -> bool {
    &&& rack.len() == slots.len()
    &&& forall|i: int|
        0 <= i < rack.len() ==> #[trigger] rack[i] == if src.contains(i) {
            Some('\0')
        } else {
            slots[i]
        }
}

/// The letters allowed at `(r, c)` by the checks down its column and along its row.
pub open spec fn square_mask(ks: Seq<Seq<u8>>, b: Board, r: int, c: int) -> u32 {
    cross_mask(ks, b, r, c, true) & cross_mask(ks, b, r, c, false)
}

/// The character a placed tile shows; a blank that shows none counts as `\0`.
pub open spec fn shown_char(t: Tile) -> char {
    match t {
        Tile::Letter(ch, _) => ch,
        Tile::Blank(Some(l)) => l,
        Tile::Blank(None) => '\0',
    }
}

/// Where the dictionary's bytes are well formed, each tile's letter passes the cross-check
/// of its square for a move across (`h`) or down: the word it forms perpendicular to the move.
pub open spec fn tiles_pass(ps: Seq<PlacedTile>, keys: Option<Seq<Seq<u8>>>, b: Board, h: bool) -> bool {
    keys matches Some(ks) ==> forall|k: int|
        0 <= k < ps.len() ==> cross_mask(ks, b, (#[trigger] ps[k]).row as int, ps[k].col as int, h)
            & letter_bit_spec(shown_char(ps[k].tile)) != 0
}

/// The cross-checks for moves across (`h`) or down hold, for every empty square, the
/// letters that the perpendicular word there allows.
pub open spec fn checks_hold(checks: [[Option<u32>; 15]; 15], keys: Option<Seq<Seq<u8>>>, b: Board, h: bool) -> bool {
    keys matches Some(ks) ==> forall|r: int, c: int|
        0 <= r < 15 && 0 <= c < 15 && !b.occupied(r, c) ==> #[trigger] checks@[r]@[c] == Some(
            cross_mask(ks, b, r, c, h),
        )
}

/// A generated move: one to fifteen tiles from the rack, each rack tile used at most once,
/// on distinct empty squares of one line, each passing its square's cross-checks, whose
/// main word is a key of the GADDAG with bytes `gb`, scored as `score_candidate` scores it.
pub open spec fn good_move(
    b: Board,
    slots: Seq<Option<char>>,
    keys: Option<Seq<Seq<u8>>>,
    gb: Seq<u8>,
    m: CandidateMove,
) -> bool {
    &&& 1 <= m.tiles@.len() <= 15
    &&& on_free_squares(b, m.tiles@)
    &&& distinct_squares(m.tiles@)
    &&& collinear(m.tiles@)
    &&& m.score == candidate_score(b, m.tiles@)
    &&& exists|src: Seq<int>| drawn_from(m.tiles@, slots, src)
    &&& exists|h: bool|
        #![trigger tiles_pass(m.tiles@, keys, b, h)]
        tiles_pass(m.tiles@, keys, b, h) && (fst_decode(gb) matches Some(gks) ==> word_found_in(b, m.tiles@, gks, h))
}

/// Every move of the list is a generated move.
pub open spec fn all_good(
    b: Board,
    slots: Seq<Option<char>>,
    keys: Option<Seq<Seq<u8>>>,
    gb: Seq<u8>,
    ms: Seq<CandidateMove>,
) -> bool {
    forall|i: int| 0 <= i < ms.len() ==> good_move(b, slots, keys, gb, #[trigger] ms[i])
}

/// The byte the walk reads at position `pos` of line `fixed`: that of the placed tile there,
/// else that of the board tile, each upper-cased.
pub open spec fn square_byte(b: Board, ps: Seq<PlacedTile>, h: bool, fixed: int, pos: int) -> u8 {
    let (r, c) = cell(dir(h), fixed, pos);
    match new_tile_at(ps, r, c) {
        Some(t) => upper_byte(shown_char(t)) as u8,
        None => upper_byte(board_char(b, r, c)) as u8,
    }
}

/// The bytes the walk reads at positions `s..e` of line `fixed`.
pub open spec fn line_bytes(b: Board, ps: Seq<PlacedTile>, h: bool, fixed: int, s: int, e: int) -> Seq<u8> {
    Seq::new((e - s) as nat, |k: int| square_byte(b, ps, h, fixed, s + k))
}

/// The GADDAG path that reads the word `u` from its `n`-th byte: the first `n` bytes
/// backwards, the separator, then the rest forwards.
pub open spec fn split_key(u: Seq<u8>, n: int) -> Seq<u8> {
    Seq::new(n as nat, |k: int| u[n - 1 - k]) + seq![SEPARATOR] + u.skip(n)
}

/// Positions `s..e` of line `fixed` hold tiles, old or placed, with none just before or
/// after them, and every placed tile lies among them.
pub open spec fn word_run(b: Board, ps: Seq<PlacedTile>, h: bool, fixed: int, s: int, e: int) -> bool {
    &&& 0 <= s < e <= 15
    &&& (s == 0 || !crate::placement::filled(b, ps, dir(h), fixed, s - 1))
    &&& (e == 15 || !crate::placement::filled(b, ps, dir(h), fixed, e))
    &&& forall|p: int| s <= p < e ==> #[trigger] crate::placement::filled(b, ps, dir(h), fixed, p)
    &&& forall|k: int|
        0 <= k < ps.len() ==> line_of(#[trigger] ps[k], dir(h)) == fixed && s <= coord(ps[k], dir(h)) < e
}

/// The main word of a move, read on the board with its tiles, is a key of the GADDAG when
/// read from one of its letters.
pub open spec fn word_found(b: Board, ps: Seq<PlacedTile>, gks: Seq<Seq<u8>>) -> bool {
    exists|h: bool| #[trigger] word_found_in(b, ps, gks, h)
}

/// The main word of a move across (`h`) or down is a key of the GADDAG when read from one
/// of its letters.
pub open spec fn word_found_in(b: Board, ps: Seq<PlacedTile>, gks: Seq<Seq<u8>>, h: bool) -> bool {
    exists|fixed: int, s: int, e: int, n: int|
        word_run(b, ps, h, fixed, s, e) && 0 <= n <= e - s && gks.contains(
            split_key(line_bytes(b, ps, h, fixed, s, e), n),
        )
}

/// UTF-8 writes each ASCII letter as one byte, and none of them is the separator.
proof fn lemma_letters_no_separator(cs: Seq<char>)
    requires
        forall|i: int| 0 <= i < cs.len() ==> is_ascii_alpha(#[trigger] cs[i]),
    ensures
        encode_utf8(cs).len() == cs.len(),
        forall|i: int| 0 <= i < cs.len() ==> #[trigger] encode_utf8(cs)[i] != SEPARATOR,
    decreases cs.len(),
{
    if cs.len() > 0 {
        let rest = cs.drop_first();
        assert forall|i: int| 0 <= i < rest.len() implies is_ascii_alpha(#[trigger] rest[i]) by {
            assert(rest[i] == cs[i + 1]);
        }
        lemma_letters_no_separator(rest);
        let c = cs[0] as u32;
        assert(is_ascii_alpha(cs[0]));
        assert(65 <= c <= 122 && c != 62);
        assert((c & 0x7F) as u8 != 62u8 && c <= 0x7F) by (bit_vector)
            requires
                65 <= c <= 122,
        ;
        assert(encode_scalar(c) =~= seq![leading_byte_width_1(c)]);
        assert forall|i: int| 0 <= i < cs.len() implies #[trigger] encode_utf8(cs)[i] != SEPARATOR by {
            if i > 0 {
                assert(encode_utf8(cs)[i] == encode_utf8(rest)[i - 1]);
            }
        }
    }
}

/// A path read from one of a word's letters equals an entry of a word without the
/// separator only when the two words are the same.
proof fn lemma_split_key_entry(u: Seq<u8>, n: int, v: Seq<u8>, j: int)
    requires
        0 <= n <= u.len(),
        0 <= j < v.len(),
        forall|i: int| 0 <= i < v.len() ==> #[trigger] v[i] != SEPARATOR,
        split_key(u, n) == gaddag_entry(v, j),
    ensures
        u == v,
{
    let k = split_key(u, n);
    let g = gaddag_entry(v, j);
    assert(k.len() == u.len() + 1);
    assert(g.len() == v.len() + 1);
    assert(k[n] == SEPARATOR);
    if n < j + 1 {
        assert(g[n] == v[j - n]);
    } else if n > j + 1 {
        let d = v.skip(j + 1);
        assert(g[n] == d[n - j - 2]);
        assert(d[n - j - 2] == v[n - 1]);
    }
    assert(n == j + 1);
    assert forall|i: int| 0 <= i < u.len() implies u[i] == v[i] by {
        if i < n {
            assert(k[n - 1 - i] == u[i]);
            assert(g[n - 1 - i] == v[i]);
        } else {
            assert(k[i + 1] == u[i]);
            assert(g[i + 1] == v[i]);
        }
    }
    assert(u =~= v);
}

/// On a GADDAG built from a word list, a move whose main word the walk found reads, as
/// that word, the bytes of a listed word: trimmed, upper-cased, letters only.
pub proof fn lemma_found_word_listed(words: Seq<&str>, gks: Seq<Seq<u8>>, b: Board, ps: Seq<PlacedTile>)
    requires
        gks.to_set() == gaddag_keys(words),
        word_found(b, ps, gks),
    ensures
        exists|h: bool, fixed: int, s: int, e: int, x: int|
            #![trigger word_run(b, ps, h, fixed, s, e), words[x]]
            word_run(b, ps, h, fixed, s, e) && 0 <= x < words.len() && gaddag_word_ok(words[x]@)
                && line_bytes(b, ps, h, fixed, s, e) == word_bytes(words[x]@),
{
    let (h, fixed, s, e, n) = choose|h: bool, fixed: int, s: int, e: int, n: int|
        word_run(b, ps, h, fixed, s, e) && 0 <= n <= e - s && gks.contains(
            split_key(line_bytes(b, ps, h, fixed, s, e), n),
        );
    let u = line_bytes(b, ps, h, fixed, s, e);
    let key = split_key(u, n);
    assert(gks.to_set().contains(key));
    assert(listed_entry(words, words.len() as int, key));
    let x = choose|x: int|
        0 <= x < words.len() && gaddag_word_ok(#[trigger] words[x]@) && entry_of(
            word_bytes(words[x]@),
            word_bytes(words[x]@).len() as int,
            key,
        );
    let v = word_bytes(words[x]@);
    let j = choose|j: int| 0 <= j < v.len() && key == #[trigger] gaddag_entry(v, j);
    lemma_letters_no_separator(normalized(words[x]@));
    lemma_split_key_entry(u, n, v, j);
}

/// Each move the generator returns for a GADDAG built from a word list places its tiles on
/// one line, where together with the board they read a listed word.
pub proof fn lemma_generated_move_listed(
    words: Seq<&str>,
    gb: Seq<u8>,
    b: Board,
    slots: Seq<Option<char>>,
    keys: Option<Seq<Seq<u8>>>,
    ms: Seq<CandidateMove>,
    i: int,
)
    requires
        fst_decode(gb) matches Some(gks) && gks.to_set() == gaddag_keys(words),
        all_good(b, slots, keys, gb, ms),
        0 <= i < ms.len(),
    ensures
        exists|h: bool, fixed: int, s: int, e: int, x: int|
            #![trigger word_run(b, ms[i].tiles@, h, fixed, s, e), words[x]]
            word_run(b, ms[i].tiles@, h, fixed, s, e) && 0 <= x < words.len() && gaddag_word_ok(words[x]@)
                && line_bytes(b, ms[i].tiles@, h, fixed, s, e) == word_bytes(words[x]@),
{
    assert(good_move(b, slots, keys, gb, ms[i]));
    let gks = fst_decode(gb)->0;
    lemma_found_word_listed(words, gks, b, ms[i].tiles@);
}

/// Each tile of a generated move, read as the letter `A + j` it shows, forms across the
/// move's line either no word with the board tiles or a word that the dictionary holds; the
/// move's main word, along its line, is a key of the GADDAG.
pub proof fn lemma_generated_move_words(
    b: Board,
    slots: Seq<Option<char>>,
    ks: Seq<Seq<u8>>,
    gb: Seq<u8>,
    m: CandidateMove,
)
    requires
        good_move(b, slots, Some(ks), gb, m),
    ensures
        exists|h: bool|
            #![trigger tiles_pass(m.tiles@, Some(ks), b, h)]
            {
                &&& tiles_pass(m.tiles@, Some(ks), b, h)
                &&& (fst_decode(gb) matches Some(gks) ==> word_found_in(b, m.tiles@, gks, h))
                &&& forall|k: int|
                    0 <= k < m.tiles@.len() ==> {
                        let t = #[trigger] m.tiles@[k];
                        let j = upper_byte(shown_char(t.tile)) - 65;
                        &&& 0 <= j < 26
                        &&& (cross_before(b, t.row as int, t.col as int, h).len() == 0 && cross_after(
                            b,
                            t.row as int,
                            t.col as int,
                            h,
                        ).len() == 0) || ks.contains(
                            encode_utf8(normalized(cross_word(b, t.row as int, t.col as int, h, j))),
                        )
                    }
            },
{
    let h = choose|h: bool|
        #![trigger tiles_pass(m.tiles@, Some(ks), b, h)]
        tiles_pass(m.tiles@, Some(ks), b, h) && (fst_decode(gb) matches Some(gks) ==> word_found_in(b, m.tiles@, gks, h));
    assert forall|k: int| 0 <= k < m.tiles@.len() implies {
        let t = #[trigger] m.tiles@[k];
        let j = upper_byte(shown_char(t.tile)) - 65;
        &&& 0 <= j < 26
        &&& (cross_before(b, t.row as int, t.col as int, h).len() == 0 && cross_after(
            b,
            t.row as int,
            t.col as int,
            h,
        ).len() == 0) || ks.contains(encode_utf8(normalized(cross_word(b, t.row as int, t.col as int, h, j))))
    } by {
        let t = m.tiles@[k];
        let ch = shown_char(t.tile);
        let j = upper_byte(ch) - 65;
        assert(cross_mask(ks, b, t.row as int, t.col as int, h) & letter_bit_spec(ch) != 0);
        if !(is_ascii_alpha(ch) && 65 <= upper_byte(ch) <= 90) {
            let x = cross_mask(ks, b, t.row as int, t.col as int, h);
            assert(x & 0u32 == 0u32) by (bit_vector);
            assert(false);
        }
        lemma_letter_bit_of(j);
        assert((65 + j) as char == upper(ch));
        lemma_cross_mask_letter(ks, b, t.row as int, t.col as int, h, j);
    }
}

/// Placing a tile changes what a square shows only at the tile's own square.
proof fn lemma_new_tile_push(ps: Seq<PlacedTile>, t: PlacedTile, r: int, c: int)
    ensures
        new_tile_at(ps.push(t), r, c) == if has_new(ps, r, c) {
            new_tile_at(ps, r, c)
        } else if at_pos(t, r, c) {
            Some(t.tile)
        } else {
            None::<Tile>
        },
{
    let qs = ps.push(t);
    if has_new(ps, r, c) {
        let w = choose|i: int| 0 <= i < ps.len() && at_pos(#[trigger] ps[i], r, c);
        let f = first_index_at(ps, r, c, w);
        assert(is_first_at(qs, r, c, f)) by {
            assert(qs[f] == ps[f]);
            assert forall|j: int| 0 <= j < f implies !at_pos(#[trigger] qs[j], r, c) by {
                assert(qs[j] == ps[j]);
            }
        }
        lemma_first_at_unique(qs, r, c, f);
        lemma_first_at_unique(ps, r, c, f);
        assert(qs[f] == ps[f]);
    } else if at_pos(t, r, c) {
        let f = ps.len() as int;
        assert forall|j: int| 0 <= j < f implies !at_pos(#[trigger] qs[j], r, c) by {
            assert(qs[j] == ps[j]);
        }
        assert(is_first_at(qs, r, c, f));
        lemma_first_at_unique(qs, r, c, f);
    } else {
        if exists|i: int| is_first_at(qs, r, c, i) {
            let i = choose|i: int| is_first_at(qs, r, c, i);
            if i < ps.len() {
                assert(qs[i] == ps[i]);
                assert(has_new(ps, r, c));
            }
        }
    }
}

/// Some first tile at `(r, c)` exists at or before any tile there.
proof fn first_index_at(ps: Seq<PlacedTile>, r: int, c: int, w: int) -> (f: int)
    requires
        0 <= w < ps.len(),
        at_pos(ps[w], r, c),
    ensures
        is_first_at(ps, r, c, f),
        f <= w,
    decreases w,
{
    if exists|j: int| 0 <= j < w && at_pos(#[trigger] ps[j], r, c) {
        let j = choose|j: int| 0 <= j < w && at_pos(#[trigger] ps[j], r, c);
        first_index_at(ps, r, c, j)
    } else {
        w
    }
}

/// The first tile at a square is the one `new_tile_at` reads.
proof fn lemma_first_at_unique(ps: Seq<PlacedTile>, r: int, c: int, f: int)
    requires
        is_first_at(ps, r, c, f),
    ensures
        new_tile_at(ps, r, c) == Some(ps[f].tile),
{
    let k = choose|k: int| is_first_at(ps, r, c, k);
    assert(is_first_at(ps, r, c, k));
    if k < f {
        assert(!at_pos(ps[k], r, c));
    } else if k > f {
        assert(!at_pos(ps[f], r, c));
    }
}

/// A tile placed on line `fixed` away from position `p` leaves the byte read there alone.
proof fn lemma_square_byte_push(b: Board, ps: Seq<PlacedTile>, h: bool, fixed: int, t: PlacedTile, p: int)
    requires
        line_of(t, dir(h)) == fixed,
        coord(t, dir(h)) != p,
    ensures
        square_byte(b, ps.push(t), h, fixed, p) == square_byte(b, ps, h, fixed, p),
        crate::placement::filled(b, ps.push(t), dir(h), fixed, p) == crate::placement::filled(b, ps, dir(h), fixed, p),
{
    let (r, c) = cell(dir(h), fixed, p);
    lemma_new_tile_push(ps, t, r, c);
    assert(!at_pos(t, r, c));
}

/// Where the new tile stands, the walk reads its byte.
proof fn lemma_square_byte_new(b: Board, ps: Seq<PlacedTile>, h: bool, fixed: int, t: PlacedTile)
    requires
        line_of(t, dir(h)) == fixed,
        !has_new(ps, cell(dir(h), fixed, coord(t, dir(h))).0, cell(dir(h), fixed, coord(t, dir(h))).1),
    ensures
        square_byte(b, ps.push(t), h, fixed, coord(t, dir(h))) == upper_byte(shown_char(t.tile)) as u8,
        crate::placement::filled(b, ps.push(t), dir(h), fixed, coord(t, dir(h))),
{
    let p = coord(t, dir(h));
    let (r, c) = cell(dir(h), fixed, p);
    lemma_new_tile_push(ps, t, r, c);
    assert(at_pos(t, r, c));
}

/// A tile placed beyond positions `s..e` leaves the bytes read there alone.
proof fn lemma_line_bytes_push(b: Board, ps: Seq<PlacedTile>, h: bool, fixed: int, t: PlacedTile, s: int, e: int)
    requires
        line_of(t, dir(h)) == fixed,
        !(s <= coord(t, dir(h)) < e),
        s <= e,
    ensures
        line_bytes(b, ps.push(t), h, fixed, s, e) == line_bytes(b, ps, h, fixed, s, e),
{
    assert forall|k: int| 0 <= k < e - s implies #[trigger] line_bytes(b, ps.push(t), h, fixed, s, e)[k]
        == line_bytes(b, ps, h, fixed, s, e)[k] by {
        lemma_square_byte_push(b, ps, h, fixed, t, s + k);
    }
    assert(line_bytes(b, ps.push(t), h, fixed, s, e) =~= line_bytes(b, ps, h, fixed, s, e));
}

/// Reading one more position adds its byte to the end of the path.
proof fn lemma_split_key_push(b: Board, ps: Seq<PlacedTile>, h: bool, fixed: int, s: int, e: int, n: int)
    requires
        0 <= n <= e - s,
    ensures
        split_key(line_bytes(b, ps, h, fixed, s, e + 1), n) == split_key(line_bytes(b, ps, h, fixed, s, e), n).push(
            square_byte(b, ps, h, fixed, e),
        ),
{
    let u = line_bytes(b, ps, h, fixed, s, e);
    let v = line_bytes(b, ps, h, fixed, s, e + 1);
    assert(Seq::new(n as nat, |k: int| v[n - 1 - k]) =~= Seq::new(n as nat, |k: int| u[n - 1 - k]));
    assert(v.skip(n) =~= u.skip(n).push(square_byte(b, ps, h, fixed, e)));
    assert(split_key(v, n) =~= split_key(u, n).push(square_byte(b, ps, h, fixed, e)));
}

/// The walk along line `fixed` has read positions `s..cp`, the GADDAG path it followed
/// turning at `sr`: the squares there hold tiles, the one before `s` none, and every placed
/// tile lies from `s` on.
pub open spec fn walk_state(b: Board, ps: Seq<PlacedTile>, h: bool, fixed: int, s: int, sr: int, cp: int, path: Seq<u8>) -> bool {
    &&& 0 <= s <= sr <= cp <= 15
    &&& (s == 0 || !crate::placement::filled(b, ps, dir(h), fixed, s - 1))
    &&& forall|p: int| s <= p < cp ==> #[trigger] crate::placement::filled(b, ps, dir(h), fixed, p)
    &&& forall|k: int| 0 <= k < ps.len() ==> s <= coord(#[trigger] ps[k], dir(h))
    &&& path == split_key(line_bytes(b, ps, h, fixed, s, cp), sr - s)
}

/// No placed tile stands at position `cp` when all lie before it.
proof fn lemma_none_at(ps: Seq<PlacedTile>, h: bool, fixed: int, cp: int)
    requires
        forall|k: int| 0 <= k < ps.len() ==> line_of(#[trigger] ps[k], dir(h)) == fixed,
        forall|k: int| 0 <= k < ps.len() ==> coord(#[trigger] ps[k], dir(h)) < cp,
    ensures
        !has_new(ps, cell(dir(h), fixed, cp).0, cell(dir(h), fixed, cp).1),
        new_tile_at(ps, cell(dir(h), fixed, cp).0, cell(dir(h), fixed, cp).1) is None,
{
    let (r, c) = cell(dir(h), fixed, cp);
    if has_new(ps, r, c) {
        let k = choose|k: int| 0 <= k < ps.len() && at_pos(#[trigger] ps[k], r, c);
        assert(line_of(ps[k], dir(h)) == fixed);
        assert(coord(ps[k], dir(h)) < cp);
    }
    if exists|i: int| is_first_at(ps, r, c, i) {
        let i = choose|i: int| is_first_at(ps, r, c, i);
        assert(has_new(ps, r, c));
    }
}

/// Stepping over a board tile reads its byte.
proof fn lemma_walk_board_step(b: Board, ps: Seq<PlacedTile>, h: bool, fixed: int, s: int, sr: int, cp: int, path: Seq<u8>)
    requires
        walk_state(b, ps, h, fixed, s, sr, cp, path),
        cp < 15,
        b.occupied(cell(dir(h), fixed, cp).0, cell(dir(h), fixed, cp).1),
        forall|k: int| 0 <= k < ps.len() ==> line_of(#[trigger] ps[k], dir(h)) == fixed,
        forall|k: int| 0 <= k < ps.len() ==> coord(#[trigger] ps[k], dir(h)) < cp,
    ensures
        walk_state(b, ps, h, fixed, s, sr, cp + 1, path.push(
            upper_byte(board_char(b, cell(dir(h), fixed, cp).0, cell(dir(h), fixed, cp).1)) as u8,
        )),
{
    lemma_none_at(ps, h, fixed, cp);
    lemma_split_key_push(b, ps, h, fixed, s, cp, sr - s);
}

/// Placing a tile at position `cp` reads the byte of its letter.
proof fn lemma_walk_place_step(b: Board, ps: Seq<PlacedTile>, h: bool, fixed: int, s: int, sr: int, cp: int, path: Seq<u8>, t: PlacedTile)
    requires
        walk_state(b, ps, h, fixed, s, sr, cp, path),
        cp < 15,
        line_of(t, dir(h)) == fixed,
        coord(t, dir(h)) == cp,
        forall|k: int| 0 <= k < ps.len() ==> line_of(#[trigger] ps[k], dir(h)) == fixed,
        forall|k: int| 0 <= k < ps.len() ==> coord(#[trigger] ps[k], dir(h)) < cp,
    ensures
        walk_state(b, ps.push(t), h, fixed, s, sr, cp + 1, path.push(upper_byte(shown_char(t.tile)) as u8)),
{
    let qs = ps.push(t);
    lemma_none_at(ps, h, fixed, cp);
    assert(cell(dir(h), fixed, coord(t, dir(h))) == cell(dir(h), fixed, cp));
    lemma_square_byte_new(b, ps, h, fixed, t);
    lemma_line_bytes_push(b, ps, h, fixed, t, s, cp);
    lemma_split_key_push(b, qs, h, fixed, s, cp, sr - s);
    assert forall|p: int| s <= p < cp + 1 implies #[trigger] crate::placement::filled(b, qs, dir(h), fixed, p) by {
        if p < cp {
            lemma_square_byte_push(b, ps, h, fixed, t, p);
        }
    }
    if s > 0 {
        lemma_square_byte_push(b, ps, h, fixed, t, s - 1);
    }
    assert forall|k: int| 0 <= k < qs.len() implies s <= coord(#[trigger] qs[k], dir(h)) by {
        if k < ps.len() {
            assert(qs[k] == ps[k]);
        }
    }
}

/// A walk that ends where no tile follows, on a key of the GADDAG, has found the main word.
proof fn lemma_walk_found(b: Board, ps: Seq<PlacedTile>, h: bool, fixed: int, s: int, sr: int, cp: int, path: Seq<u8>, gks: Seq<Seq<u8>>)
    requires
        walk_state(b, ps, h, fixed, s, sr, cp, path),
        gks.contains(path),
        ps.len() >= 1,
        cp == 15 || !b.occupied(cell(dir(h), fixed, cp).0, cell(dir(h), fixed, cp).1),
        forall|k: int| 0 <= k < ps.len() ==> line_of(#[trigger] ps[k], dir(h)) == fixed,
        forall|k: int| 0 <= k < ps.len() ==> coord(#[trigger] ps[k], dir(h)) < cp,
    ensures
        word_found_in(b, ps, gks, h),
{
    assert(line_of(ps[0], dir(h)) == fixed);
    assert(s <= coord(ps[0], dir(h)) < cp);
    if cp < 15 {
        lemma_none_at(ps, h, fixed, cp);
        let (r, c) = cell(dir(h), fixed, cp);
        assert(!crate::placement::filled(b, ps, dir(h), fixed, cp));
    }
    assert(word_run(b, ps, h, fixed, s, cp));
}

/// After placing tiles leftwards from the anchor, one per position, crossing the separator
/// starts a walk that has read exactly those tiles.
proof fn lemma_left_walk(
    b: Board,
    ps: Seq<PlacedTile>,
    h: bool,
    fixed: int,
    anchor_pos: int,
    max_left: int,
    path: Seq<u8>,
)
    requires
        0 <= anchor_pos < 15,
        ps.len() <= max_left <= anchor_pos + 1,
        forall|k: int| 0 <= k < ps.len() ==> line_of(#[trigger] ps[k], dir(h)) == fixed && coord(ps[k], dir(h)) == anchor_pos - k,
        forall|p: int| anchor_pos - max_left < p <= anchor_pos ==> #[trigger] free_at(b, h, fixed, p),
        anchor_pos + 1 == max_left || free_at(b, h, fixed, anchor_pos - max_left),
        path == Seq::new(ps.len() as nat, |k: int| upper_byte(shown_char(ps[k].tile)) as u8),
    ensures
        walk_state(b, ps, h, fixed, anchor_pos + 1 - ps.len(), anchor_pos + 1, anchor_pos + 1, path.push(SEPARATOR)),
{
    let n = ps.len() as int;
    let s = anchor_pos + 1 - n;
    // Each placed tile is the first, and only, tile at its square.
    assert forall|k: int| 0 <= k < n implies #[trigger] new_tile_at(
        ps,
        cell(dir(h), fixed, anchor_pos - k).0,
        cell(dir(h), fixed, anchor_pos - k).1,
    ) == Some(ps[k].tile) by {
        let (r, c) = cell(dir(h), fixed, anchor_pos - k);
        assert(at_pos(ps[k], r, c));
        assert forall|j: int| 0 <= j < k implies !at_pos(#[trigger] ps[j], r, c) by {
            assert(coord(ps[j], dir(h)) == anchor_pos - j);
        }
        assert(is_first_at(ps, r, c, k));
        lemma_first_at_unique(ps, r, c, k);
    }
    assert forall|p: int| s <= p < anchor_pos + 1 implies #[trigger] crate::placement::filled(b, ps, dir(h), fixed, p) by {
        let k = anchor_pos - p;
        assert(new_tile_at(ps, cell(dir(h), fixed, anchor_pos - k).0, cell(dir(h), fixed, anchor_pos - k).1) == Some(ps[k].tile));
    }
    if s > 0 {
        let q = s - 1;
        assert(free_at(b, h, fixed, q)) by {
            if n < max_left {
                assert(anchor_pos - max_left < q <= anchor_pos);
            }
        }
        assert forall|k: int| 0 <= k < n implies coord(#[trigger] ps[k], dir(h)) > q by {
        }
        lemma_none_at_before(ps, h, fixed, q);
    }
    let u = line_bytes(b, ps, h, fixed, s, anchor_pos + 1);
    assert forall|k: int| 0 <= k < n implies u[n - 1 - k] == #[trigger] path[k] by {
        assert(u[n - 1 - k] == square_byte(b, ps, h, fixed, anchor_pos - k));
        assert(new_tile_at(ps, cell(dir(h), fixed, anchor_pos - k).0, cell(dir(h), fixed, anchor_pos - k).1) == Some(ps[k].tile));
    }
    assert(Seq::new(n as nat, |i: int| u[n - 1 - i]) =~= path);
    assert(u.skip(n) =~= Seq::<u8>::empty());
    assert(split_key(u, n) =~= path.push(SEPARATOR));
}

/// No placed tile stands at position `q` when all lie after it.
proof fn lemma_none_at_before(ps: Seq<PlacedTile>, h: bool, fixed: int, q: int)
    requires
        forall|k: int| 0 <= k < ps.len() ==> line_of(#[trigger] ps[k], dir(h)) == fixed,
        forall|k: int| 0 <= k < ps.len() ==> coord(#[trigger] ps[k], dir(h)) > q,
    ensures
        new_tile_at(ps, cell(dir(h), fixed, q).0, cell(dir(h), fixed, q).1) is None,
{
    let (r, c) = cell(dir(h), fixed, q);
    if exists|i: int| is_first_at(ps, r, c, i) {
        let i = choose|i: int| is_first_at(ps, r, c, i);
        assert(line_of(ps[i], dir(h)) == fixed);
        assert(coord(ps[i], dir(h)) > q);
    }
}

/// Following the board tiles before the anchor, nearest first, then the separator, starts
/// a walk that has read exactly those tiles.
proof fn lemma_prefix_walk(b: Board, h: bool, fixed: int, anchor_pos: int, before: Seq<char>, path: Seq<u8>)
    requires
        0 <= anchor_pos < 15,
        before.len() <= anchor_pos,
        forall|k: int|
            0 <= k < before.len() ==> #[trigger] before[k] == board_char(
                b,
                cell(dir(h), fixed, anchor_pos - 1 - k).0,
                cell(dir(h), fixed, anchor_pos - 1 - k).1,
            ),
        forall|k: int| 0 <= k < before.len() ==> !#[trigger] free_at(b, h, fixed, anchor_pos - 1 - k),
        anchor_pos - before.len() == 0 || free_at(b, h, fixed, anchor_pos - before.len() - 1),
        path == Seq::new(before.len(), |k: int| upper_byte(before[k]) as u8).push(SEPARATOR),
    ensures
        walk_state(b, Seq::empty(), h, fixed, anchor_pos - before.len(), anchor_pos, anchor_pos, path),
{
    let n = before.len() as int;
    let s = anchor_pos - n;
    let ps = Seq::<PlacedTile>::empty();
    assert forall|p: int| s <= p < anchor_pos implies #[trigger] crate::placement::filled(b, ps, dir(h), fixed, p) by {
        let k = anchor_pos - 1 - p;
        let x = before[k];
        assert(!free_at(b, h, fixed, anchor_pos - 1 - k));
    }
    let u = line_bytes(b, ps, h, fixed, s, anchor_pos);
    assert forall|k: int| 0 <= k < n implies u[n - 1 - k] == #[trigger] path[k] by {
        assert(u[n - 1 - k] == square_byte(b, ps, h, fixed, anchor_pos - 1 - k));
        let (r, c) = cell(dir(h), fixed, anchor_pos - 1 - k);
        assert(!(exists|i: int| is_first_at(ps, r, c, i)));
        assert(before[k] == board_char(b, r, c));
    }
    assert(Seq::new(n as nat, |i: int| u[n - 1 - i]) =~= Seq::new(before.len(), |k: int| upper_byte(before[k]) as u8));
    assert(u.skip(n) =~= Seq::<u8>::empty());
    assert(split_key(u, n) =~= path);
}

/// Upper-casing a character twice upper-cases it once.
proof fn lemma_upper_twice(t: Tile)
    ensures
        forall|ch: char| #[trigger] upper(upper(ch)) == upper(ch),
{
}

/// A tile whose letter passes the mask of its square keeps the tiles passing.
proof fn lemma_tiles_pass_push(ps: Seq<PlacedTile>, keys: Option<Seq<Seq<u8>>>, b: Board, t: PlacedTile, h: bool)
    requires
        tiles_pass(ps, keys, b, h),
        keys matches Some(ks) ==> cross_mask(ks, b, t.row as int, t.col as int, h) & letter_bit_spec(
            shown_char(t.tile),
        ) != 0,
    ensures
        tiles_pass(ps.push(t), keys, b, h),
{
    if let Some(ks) = keys {
        let qs = ps.push(t);
        assert forall|k: int| 0 <= k < qs.len() implies cross_mask(ks, b, (#[trigger] qs[k]).row as int, qs[k].col as int, h)
            & letter_bit_spec(shown_char(qs[k].tile)) != 0 by {
            if k < ps.len() {
                assert(qs[k] == ps[k]);
            }
        }
    }
}

/// Taking a free slot for a tile keeps the rack marked and the tiles drawn from it.
proof fn lemma_take_slot(
    rack: Seq<Option<char>>,
    slots: Seq<Option<char>>,
    src: Seq<int>,
    ps: Seq<PlacedTile>,
    i: int,
    t: PlacedTile,
)
    requires
        marked(rack, slots, src),
        drawn_from(ps, slots, src),
        0 <= i < rack.len(),
        rack[i] != Some('\0'),
        from_slot(t.tile, rack[i]),
    ensures
        marked(rack.update(i, Some('\0')), slots, src.push(i)),
        drawn_from(ps.push(t), slots, src.push(i)),
{
    if src.contains(i) {
        assert(rack[i] == Some('\0'));
    }
    assert(rack[i] == slots[i]);
    let nsrc = src.push(i);
    assert forall|j: int| 0 <= j < rack.len() implies #[trigger] rack.update(i, Some('\0'))[j] == if nsrc.contains(j) {
        Some('\0')
    } else {
        slots[j]
    } by {
        if j != i {
            if nsrc.contains(j) {
                let x = choose|x: int| 0 <= x < nsrc.len() && nsrc[x] == j;
                assert(x < src.len());
                assert(src[x] == j);
                assert(src.contains(j));
            }
            if src.contains(j) {
                let x = choose|x: int| 0 <= x < src.len() && src[x] == j;
                assert(nsrc[x] == j);
            }
        } else {
            assert(nsrc[src.len() as int] == i);
        }
    }
    assert forall|k: int, l: int| 0 <= k < l < nsrc.len() implies #[trigger] nsrc[k] != #[trigger] nsrc[l] by {
        if l == src.len() {
            assert(nsrc[k] == src[k]);
            if src[k] == i {
                assert(src.contains(i));
            }
        } else {
            assert(nsrc[k] == src[k] && nsrc[l] == src[l]);
        }
    }
    let qs = ps.push(t);
    assert forall|k: int| 0 <= k < nsrc.len() implies from_slot(#[trigger] qs[k].tile, slots[nsrc[k]]) by {
        if k < src.len() {
            assert(qs[k] == ps[k]);
            assert(nsrc[k] == src[k]);
        }
    }
    assert forall|k: int| 0 <= k < nsrc.len() implies 0 <= #[trigger] nsrc[k] < slots.len() by {
        if k < src.len() {
            assert(nsrc[k] == src[k]);
        }
    }
}

/// No letter set holds the null character.
proof fn lemma_nul_letter(set: u32)
    ensures
        set & letter_bit_spec('\0') == 0,
{
    assert(upper('\0') == '\0');
    assert(set & 0u32 == 0u32) by (bit_vector);
}

proof fn lemma_placed_push(b: Board, ps: Seq<PlacedTile>, h: bool, fixed: int, t: PlacedTile)
    requires
        placed_ok(b, ps, h, fixed),
        in_bounds(t.row as int, t.col as int),
        !b.occupied(t.row as int, t.col as int),
        line_of(t, dir(h)) == fixed,
        forall|i: int| 0 <= i < ps.len() ==> coord(#[trigger] ps[i], dir(h)) != coord(t, dir(h)),
    ensures
        placed_ok(b, ps.push(t), h, fixed),
{
    let qs = ps.push(t);
    assert forall|i: int, j: int| 0 <= i < j < qs.len() implies !((#[trigger] qs[i]).row == (#[trigger] qs[j]).row
        && qs[i].col == qs[j].col) by {
        if j == ps.len() {
            assert(coord(ps[i], dir(h)) != coord(t, dir(h)));
            assert(line_of(ps[i], dir(h)) == line_of(t, dir(h)));
        } else {
            assert(qs[i] == ps[i] && qs[j] == ps[j]);
        }
    }
    assert forall|i: int| 0 <= i < qs.len() implies in_bounds((#[trigger] qs[i]).row as int, qs[i].col as int)
        && !b.occupied(qs[i].row as int, qs[i].col as int) by {
        if i < ps.len() {
            assert(qs[i] == ps[i]);
        }
    }
    assert forall|i: int| 0 <= i < qs.len() implies line_of(#[trigger] qs[i], dir(h)) == fixed by {
        if i < ps.len() {
            assert(qs[i] == ps[i]);
        }
    }
}

proof fn lemma_placed_collinear(b: Board, ps: Seq<PlacedTile>, h: bool, fixed: int)
    requires
        placed_ok(b, ps, h, fixed),
        ps.len() >= 1,
    ensures
        collinear(ps),
{
    if h {
        assert(line_of(ps[0], dir(h)) == fixed);
        assert forall|i: int| 0 <= i < ps.len() implies (#[trigger] ps[i]).row == ps[0].row by {
            assert(line_of(ps[i], dir(h)) == fixed);
        }
    } else {
        assert(line_of(ps[0], dir(h)) == fixed);
        assert forall|i: int| 0 <= i < ps.len() implies (#[trigger] ps[i]).col == ps[0].col by {
            assert(line_of(ps[i], dir(h)) == fixed);
        }
    }
}

/// The moves of `a` stay, in front and in order, in `b`.
pub open spec fn grows(a: Seq<CandidateMove>, b: Seq<CandidateMove>) -> bool {
    a.len() <= b.len() && forall|k: int| 0 <= k < a.len() ==> #[trigger] b[k] == a[k]
}

/// Some move of `ms` places exactly the tiles `ts`, in this order.
pub open spec fn has_tiles(ms: Seq<CandidateMove>, ts: Seq<PlacedTile>) -> bool {
    exists|k: int| 0 <= k < ms.len() && (#[trigger] ms[k]).tiles@ == ts
}

/// Some move of `ms` places exactly the tiles `ts`, in this order, with main word text `w`.
pub open spec fn has_move(ms: Seq<CandidateMove>, ts: Seq<PlacedTile>, w: Seq<char>) -> bool {
    exists|k: int| 0 <= k < ms.len() && (#[trigger] ms[k]).tiles@ == ts && ms[k].primary_word@ == w
}

/// A move recorded before the list grew is still in it.
proof fn lemma_has_move_grows(a: Seq<CandidateMove>, b: Seq<CandidateMove>, ts: Seq<PlacedTile>, w: Seq<char>)
    requires
        grows(a, b),
        has_move(a, ts, w),
    ensures
        has_move(b, ts, w),
        has_tiles(b, ts),
{
    let k = choose|k: int| 0 <= k < a.len() && (#[trigger] a[k]).tiles@ == ts && a[k].primary_word@ == w;
    assert(b[k] == a[k]);
}

/// The tiles `ts` begin with `placed`, and every further tile lies on line `fixed` at
/// position `pos` or after.
pub open spec fn extends(ts: Seq<PlacedTile>, placed: Seq<PlacedTile>, h: bool, fixed: int, pos: int) -> bool {
    &&& placed.len() <= ts.len()
    &&& ts.subrange(0, placed.len() as int) == placed
    &&& forall|t: int|
        placed.len() <= t < ts.len() ==> line_of(#[trigger] ts[t], dir(h)) == fixed && coord(ts[t], dir(h)) >= pos
}

/// Every move of `ms` from index `from` on extends `placed` along line `fixed` from `pos`.
pub open spec fn extends_from(
    ms: Seq<CandidateMove>,
    from: int,
    placed: Seq<PlacedTile>,
    h: bool,
    fixed: int,
    pos: int,
) -> bool {
    forall|k: int| from <= k < ms.len() ==> #[trigger] extends(ms[k].tiles@, placed, h, fixed, pos)
}

/// Moves that extend `placed` followed by a tile `t` at `pos` extend `placed` from `pos`.
proof fn lemma_extends_push(ts: Seq<PlacedTile>, placed: Seq<PlacedTile>, t: PlacedTile, h: bool, fixed: int, pos: int)
    requires
        extends(ts, placed.push(t), h, fixed, pos + 1),
        line_of(t, dir(h)) == fixed,
        coord(t, dir(h)) == pos,
    ensures
        extends(ts, placed, h, fixed, pos),
{
    let n = placed.len() as int;
    let sub = ts.subrange(0, n + 1);
    assert(sub == placed.push(t));
    assert(ts[n] == sub[n]);
    assert(sub[n] == t);
    assert(ts.subrange(0, n) =~= placed) by {
        assert forall|i: int| 0 <= i < n implies ts.subrange(0, n)[i] == placed[i] by {
            assert(ts.subrange(0, n)[i] == sub[i]);
        }
    }
    assert forall|k: int| n <= k < ts.len() implies line_of(#[trigger] ts[k], dir(h)) == fixed && coord(ts[k], dir(h)) >= pos by {
        if k > n {
            assert(line_of(ts[k], dir(h)) == fixed && coord(ts[k], dir(h)) >= pos + 1);
        }
    }
}

/// Two stretches of moves that extend `placed`, the second from a later position, together
/// extend it from the earlier one.
proof fn lemma_extends_join(
    ms1: Seq<CandidateMove>,
    ms2: Seq<CandidateMove>,
    from: int,
    placed: Seq<PlacedTile>,
    h: bool,
    fixed: int,
    pos: int,
    pos2: int,
)
    requires
        0 <= from,
        extends_from(ms1, from, placed, h, fixed, pos),
        grows(ms1, ms2),
        extends_from(ms2, ms1.len() as int, placed, h, fixed, pos2),
        pos <= pos2,
    ensures
        extends_from(ms2, from, placed, h, fixed, pos),
{
    assert forall|k: int| from <= k < ms2.len() implies #[trigger] extends(ms2[k].tiles@, placed, h, fixed, pos) by {
        if k < ms1.len() {
            assert(ms2[k] == ms1[k]);
            assert(extends(ms1[k].tiles@, placed, h, fixed, pos));
        } else {
            assert(extends(ms2[k].tiles@, placed, h, fixed, pos2));
        }
    }
}

/// A stretch of moves that extend `placed` and a tile `t` at `pos`, after moves that extend
/// `placed` from `pos`, together extend `placed` from `pos`.
proof fn lemma_extends_step(
    ms1: Seq<CandidateMove>,
    ms2: Seq<CandidateMove>,
    from: int,
    placed: Seq<PlacedTile>,
    t: PlacedTile,
    h: bool,
    fixed: int,
    pos: int,
)
    requires
        0 <= from,
        extends_from(ms1, from, placed, h, fixed, pos),
        grows(ms1, ms2),
        extends_from(ms2, ms1.len() as int, placed.push(t), h, fixed, pos + 1),
        line_of(t, dir(h)) == fixed,
        coord(t, dir(h)) == pos,
    ensures
        extends_from(ms2, from, placed, h, fixed, pos),
{
    assert forall|k: int| ms1.len() <= k < ms2.len() implies #[trigger] extends(ms2[k].tiles@, placed, h, fixed, pos) by {
        assert(extends(ms2[k].tiles@, placed.push(t), h, fixed, pos + 1));
        lemma_extends_push(ms2[k].tiles@, placed, t, h, fixed, pos);
    }
    lemma_extends_join(ms1, ms2, from, placed, h, fixed, pos, pos);
}

/// `p` is a key of the GADDAG whose bytes are `gb`.
pub open spec fn is_key(gb: Seq<u8>, p: Seq<u8>) -> bool {
    fst_decode(gb) matches Some(ks) && ks.contains(p)
}

/// A word read along line `fixed` may stop before position `pos`: it is off the board or
/// holds no board tile.
pub open spec fn ends_at(b: Board, h: bool, fixed: int, pos: int) -> bool {
    pos >= 15 || free_at(b, h, fixed, pos)
}

/// The square at position `pos` of the line through the anchor.
pub open spec fn square_of(h: bool, ar: usize, ac: usize, pos: usize) -> (usize, usize) {
    if h {
        (ar, pos)
    } else {
        (pos, ac)
    }
}

/// The letters allowed at `(r, c)`: its cross-check, or every letter where it has none.
pub open spec fn mask_at(checks: [[Option<u32>; 15]; 15], r: usize, c: usize) -> u32 {
    match checks@[r as int]@[c as int] {
        Some(x) => x,
        None => all_letters_spec(),
    }
}

/// Every move made by putting the tile of rack slot `i` on the empty square at `pos` after
/// the tiles `placed`, and stopping there, is among `ms`: where the letters `cc` allow the
/// tile's letter, the path `path` followed by it is a key, and the word may end after `pos`.
/// A blank is tried as each letter.
pub open spec fn slot_recorded(
    rack: Seq<Option<char>>,
    i: int,
    b: Board,
    h: bool,
    ar: usize,
    ac: usize,
    pos: usize,
    cc: u32,
    gb: Seq<u8>,
    path: Seq<u8>,
    word: Seq<char>,
    placed: Seq<PlacedTile>,
    ms: Seq<CandidateMove>) -> bool {
    let fixed = anchor_line(h, ar, ac);
    let rc = square_of(h, ar, ac, pos);
    match rack[i] {
        Some(l) => (cc & letter_bit_spec(l)) != 0 && is_key(gb, path.push(upper_byte(l) as u8)) && ends_at(
            b,
            h,
            fixed,
            pos + 1,
        ) ==> has_move(
            ms,
            placed.push(PlacedTile { row: rc.0, col: rc.1, tile: Tile::Letter(upper(l), letter_value(l)) }),
            word.push(upper(l)),
        ),
        None => forall|j: u8|
            j < 26 && (cc & letter_bit_spec((65 + j) as char)) != 0 && is_key(gb, path.push((65 + j) as u8))
                && ends_at(b, h, fixed, pos + 1) ==> #[trigger] has_move(
                ms,
                placed.push(PlacedTile { row: rc.0, col: rc.1, tile: Tile::Blank(Some((65 + j) as char)) }),
                word.push((65 + j) as char),
            ),
    }
}

/// Every rack slot's one-tile extension at `pos` is among `ms`.
pub open spec fn slots_recorded(
    rack: Seq<Option<char>>,
    b: Board,
    h: bool,
    ar: usize,
    ac: usize,
    pos: usize,
    cc: u32,
    gb: Seq<u8>,
    path: Seq<u8>,
    word: Seq<char>,
    placed: Seq<PlacedTile>,
    ms: Seq<CandidateMove>) -> bool {
    forall|i: int| 0 <= i < rack.len() ==> #[trigger] slot_recorded(rack, i, b, h, ar, ac, pos, cc, gb, path, word, placed, ms)
}

/// What was recorded for a slot stays recorded as the list grows.
proof fn lemma_slot_recorded_grows(
    rack: Seq<Option<char>>,
    i: int,
    b: Board,
    h: bool,
    ar: usize,
    ac: usize,
    pos: usize,
    cc: u32,
    gb: Seq<u8>,
    path: Seq<u8>,
    word: Seq<char>,
    placed: Seq<PlacedTile>,
    ms: Seq<CandidateMove>,
    ms2: Seq<CandidateMove>)
    requires
        slot_recorded(rack, i, b, h, ar, ac, pos, cc, gb, path, word, placed, ms),
        grows(ms, ms2),
    ensures
        slot_recorded(rack, i, b, h, ar, ac, pos, cc, gb, path, word, placed, ms2),
{
    let rc = square_of(h, ar, ac, pos);
    let fixed = anchor_line(h, ar, ac);
    match rack[i] {
        Some(l) => {
            let ts = placed.push(PlacedTile { row: rc.0, col: rc.1, tile: Tile::Letter(upper(l), letter_value(l)) });
            if has_move(ms, ts, word.push(upper(l))) {
                lemma_has_move_grows(ms, ms2, ts, word.push(upper(l)));
            }
        },
        None => {
            assert forall|j: u8|
                j < 26 && (cc & letter_bit_spec((65 + j) as char)) != 0 && is_key(gb, path.push((65 + j) as u8))
                    && ends_at(b, h, fixed, pos + 1) implies #[trigger] has_move(
                    ms2,
                    placed.push(PlacedTile { row: rc.0, col: rc.1, tile: Tile::Blank(Some((65 + j) as char)) }),
                    word.push((65 + j) as char),
                ) by {
                lemma_has_move_grows(
                    ms,
                    ms2,
                    placed.push(PlacedTile { row: rc.0, col: rc.1, tile: Tile::Blank(Some((65 + j) as char)) }),
                    word.push((65 + j) as char),
                );
            }
        },
    }
}

/// All slots' extensions stay recorded as the list grows.
proof fn lemma_slots_recorded_grows(
    rack: Seq<Option<char>>,
    b: Board,
    h: bool,
    ar: usize,
    ac: usize,
    pos: usize,
    cc: u32,
    gb: Seq<u8>,
    path: Seq<u8>,
    word: Seq<char>,
    placed: Seq<PlacedTile>,
    ms: Seq<CandidateMove>,
    ms2: Seq<CandidateMove>)
    requires
        slots_recorded(rack, b, h, ar, ac, pos, cc, gb, path, word, placed, ms),
        grows(ms, ms2),
    ensures
        slots_recorded(rack, b, h, ar, ac, pos, cc, gb, path, word, placed, ms2),
{
    assert forall|i: int| 0 <= i < rack.len() implies #[trigger] slot_recorded(rack, i, b, h, ar, ac, pos, cc, gb, path, word, placed, ms2) by {
        lemma_slot_recorded_grows(rack, i, b, h, ar, ac, pos, cc, gb, path, word, placed, ms, ms2);
    }
}


/// Where no key begins with `path`, no slot's extension by one tile after it is a key, so
/// every slot's extension counts as recorded.
proof fn lemma_slots_dead(
    rack: Seq<Option<char>>,
    b: Board,
    h: bool,
    ar: usize,
    ac: usize,
    pos: usize,
    cc: u32,
    gb: Seq<u8>,
    path: Seq<u8>,
    word: Seq<char>,
    placed: Seq<PlacedTile>,
    ms: Seq<CandidateMove>)
    requires
        fst_decode(gb) matches Some(ks) ==> !crate::fst_set::live(ks, path),
    ensures
        slots_recorded(rack, b, h, ar, ac, pos, cc, gb, path, word, placed, ms),
{
    assert forall|u: u8| !#[trigger] is_key(gb, path.push(u)) by {
        if let Some(ks) = fst_decode(gb) {
            if ks.contains(path.push(u)) {
                crate::gaddag::lemma_key_live(ks, path.push(u));
                assert(path.is_prefix_of(path.push(u)));
                crate::gaddag::lemma_live_prefix(ks, path, path.push(u));
            }
        }
    }
    assert forall|i: int| 0 <= i < rack.len() implies #[trigger] slot_recorded(rack, i, b, h, ar, ac, pos, cc, gb, path, word, placed, ms) by {
        match rack[i] {
            Some(l) => {
                assert(!is_key(gb, path.push(upper_byte(l) as u8)));
            },
            None => {
                assert forall|j: u8| !is_key(gb, #[trigger] path.push((65 + j) as u8)) by {
                    assert(!is_key(gb, path.push((65 + j) as u8)));
                }
            },
        }
    }
}

/// The blank of rack slot `i`, shown as letter `A + j` on the square at `left_pos`, followed
/// by a filling of the line after the anchor: every such move that forms a key is among
/// `ms`, where the cross-checks allow the letter (one more tile, where the word may go on
/// after the anchor; or any filling, see `exts_recorded`).
pub open spec fn blank_pair_recorded(
    rack: Seq<Option<char>>,
    i: int,
    b: Board,
    h: bool,
    ar: usize,
    ac: usize,
    left_pos: usize,
    anchor_pos: usize,
    checks: [[Option<u32>; 15]; 15],
    gb: Seq<u8>,
    path: Seq<u8>,
    word: Seq<char>,
    placed: Seq<PlacedTile>,
    j: u8,
    ms: Seq<CandidateMove>,
) -> bool {
    let fixed = anchor_line(h, ar, ac);
    let rc = square_of(h, ar, ac, left_pos);
    let nx = square_of(h, ar, ac, (anchor_pos + 1) as usize);
    let ch = (65 + j) as char;
    ((mask_at(checks, rc.0, rc.1) & letter_bit_spec(ch)) != 0 && anchor_pos + 1 < 15 && free_at(b, h, fixed, anchor_pos + 1)
        ==> slots_recorded(
        rack.update(i, Some('\0')),
        b,
        h,
        ar,
        ac,
        (anchor_pos + 1) as usize,
        mask_at(checks, nx.0, nx.1),
        gb,
        path.push((65 + j) as u8).push(SEPARATOR),
        word.push(ch),
        placed.push(PlacedTile { row: rc.0, col: rc.1, tile: Tile::Blank(Some(ch)) }),
        ms,
    )) && ((mask_at(checks, rc.0, rc.1) & letter_bit_spec(ch)) != 0 ==> exts_recorded(
        b,
        checks,
        gb,
        h,
        ar,
        ac,
        anchor_pos + 1,
        rack.update(i, Some('\0')),
        placed.push(PlacedTile { row: rc.0, col: rc.1, tile: Tile::Blank(Some(ch)) }),
        word.push(ch),
        path.push((65 + j) as u8).push(SEPARATOR),
        ms,
    ))
}

/// What was recorded for a blank pair stays recorded as the list grows.
proof fn lemma_blank_pair_grows(
    rack: Seq<Option<char>>,
    i: int,
    b: Board,
    h: bool,
    ar: usize,
    ac: usize,
    left_pos: usize,
    anchor_pos: usize,
    checks: [[Option<u32>; 15]; 15],
    gb: Seq<u8>,
    path: Seq<u8>,
    word: Seq<char>,
    placed: Seq<PlacedTile>,
    j: u8,
    ms: Seq<CandidateMove>,
    ms2: Seq<CandidateMove>,
)
    requires
        blank_pair_recorded(rack, i, b, h, ar, ac, left_pos, anchor_pos, checks, gb, path, word, placed, j, ms),
        grows(ms, ms2),
    ensures
        blank_pair_recorded(rack, i, b, h, ar, ac, left_pos, anchor_pos, checks, gb, path, word, placed, j, ms2),
{
    let fixed = anchor_line(h, ar, ac);
    let rc = square_of(h, ar, ac, left_pos);
    let nx = square_of(h, ar, ac, (anchor_pos + 1) as usize);
    let ch = (65 + j) as char;
    if (mask_at(checks, rc.0, rc.1) & letter_bit_spec(ch)) != 0 && anchor_pos + 1 < 15 && free_at(b, h, fixed, anchor_pos + 1) {
        lemma_slots_recorded_grows(
            rack.update(i, Some('\0')),
            b,
            h,
            ar,
            ac,
            (anchor_pos + 1) as usize,
            mask_at(checks, nx.0, nx.1),
            gb,
            path.push((65 + j) as u8).push(SEPARATOR),
            word.push(ch),
            placed.push(PlacedTile { row: rc.0, col: rc.1, tile: Tile::Blank(Some(ch)) }),
            ms,
            ms2,
        );
    }
    if (mask_at(checks, rc.0, rc.1) & letter_bit_spec(ch)) != 0 {
        lemma_exts_grows(
            b,
            checks,
            gb,
            h,
            ar,
            ac,
            anchor_pos + 1,
            rack.update(i, Some('\0')),
            placed.push(PlacedTile { row: rc.0, col: rc.1, tile: Tile::Blank(Some(ch)) }),
            word.push(ch),
            path.push((65 + j) as u8).push(SEPARATOR),
            ms,
            ms2,
        );
    }
}

/// Every move made by putting the letter of rack slot `i` on the square at `left_pos`, the
/// end of the part before the anchor, and then filling the line after the anchor is among
/// `ms`, where the cross-checks allow the first letter: with one more rack tile just after
/// the anchor (see `slots_recorded`), and with any filling whose word is an entry (see
/// `exts_recorded`).
pub open spec fn pair_recorded(
    rack: Seq<Option<char>>,
    i: int,
    b: Board,
    h: bool,
    ar: usize,
    ac: usize,
    left_pos: usize,
    anchor_pos: usize,
    checks: [[Option<u32>; 15]; 15],
    gb: Seq<u8>,
    path: Seq<u8>,
    word: Seq<char>,
    placed: Seq<PlacedTile>,
    ms: Seq<CandidateMove>) -> bool {
    let fixed = anchor_line(h, ar, ac);
    let rc = square_of(h, ar, ac, left_pos);
    let nx = square_of(h, ar, ac, (anchor_pos + 1) as usize);
    match rack[i] {
        None => forall|j: u8|
            j < 26 ==> #[trigger] blank_pair_recorded(rack, i, b, h, ar, ac, left_pos, anchor_pos, checks, gb, path, word, placed, j, ms),
        Some(l) => ((mask_at(checks, rc.0, rc.1) & letter_bit_spec(l)) != 0 && anchor_pos + 1 < 15
        && free_at(b, h, fixed, anchor_pos + 1) ==> slots_recorded(
        rack.update(i, Some('\0')),
        b,
        h,
        ar,
        ac,
        (anchor_pos + 1) as usize,
        mask_at(checks, nx.0, nx.1),
        gb,
        path.push(upper_byte(l) as u8).push(SEPARATOR),
        word.push(upper(l)),
        placed.push(PlacedTile { row: rc.0, col: rc.1, tile: Tile::Letter(upper(l), letter_value(l)) }),
        ms)) && ((mask_at(checks, rc.0, rc.1) & letter_bit_spec(l)) != 0 ==> exts_recorded(
            b,
            checks,
            gb,
            h,
            ar,
            ac,
            anchor_pos + 1,
            rack.update(i, Some('\0')),
            placed.push(PlacedTile { row: rc.0, col: rc.1, tile: Tile::Letter(upper(l), letter_value(l)) }),
            word.push(upper(l)),
            path.push(upper_byte(l) as u8).push(SEPARATOR),
            ms,
        )),
    }
}

/// What was recorded for a pair stays recorded as the list grows.
proof fn lemma_pair_recorded_grows(
    rack: Seq<Option<char>>,
    i: int,
    b: Board,
    h: bool,
    ar: usize,
    ac: usize,
    left_pos: usize,
    anchor_pos: usize,
    checks: [[Option<u32>; 15]; 15],
    gb: Seq<u8>,
    path: Seq<u8>,
    word: Seq<char>,
    placed: Seq<PlacedTile>,
    ms: Seq<CandidateMove>,
    ms2: Seq<CandidateMove>)
    requires
        pair_recorded(rack, i, b, h, ar, ac, left_pos, anchor_pos, checks, gb, path, word, placed, ms),
        grows(ms, ms2),
    ensures
        pair_recorded(rack, i, b, h, ar, ac, left_pos, anchor_pos, checks, gb, path, word, placed, ms2),
{
    let fixed = anchor_line(h, ar, ac);
    let rc = square_of(h, ar, ac, left_pos);
    let nx = square_of(h, ar, ac, (anchor_pos + 1) as usize);
    if let Some(l) = rack[i] {
        if (mask_at(checks, rc.0, rc.1) & letter_bit_spec(l)) != 0 && anchor_pos + 1 < 15 && free_at(b, h, fixed, anchor_pos + 1) {
            lemma_slots_recorded_grows(
                rack.update(i, Some('\0')),
                b,
                h,
                ar,
                ac,
                (anchor_pos + 1) as usize,
                mask_at(checks, nx.0, nx.1),
                gb,
                path.push(upper_byte(l) as u8).push(SEPARATOR),
                word.push(upper(l)),
                placed.push(PlacedTile { row: rc.0, col: rc.1, tile: Tile::Letter(upper(l), letter_value(l)) }),
                ms,
                ms2);
        }
        if (mask_at(checks, rc.0, rc.1) & letter_bit_spec(l)) != 0 {
            lemma_exts_grows(
                b,
                checks,
                gb,
                h,
                ar,
                ac,
                anchor_pos + 1,
                rack.update(i, Some('\0')),
                placed.push(PlacedTile { row: rc.0, col: rc.1, tile: Tile::Letter(upper(l), letter_value(l)) }),
                word.push(upper(l)),
                path.push(upper_byte(l) as u8).push(SEPARATOR),
                ms,
                ms2,
            );
        }
    } else {
        assert forall|j: u8| j < 26 implies #[trigger] blank_pair_recorded(rack, i, b, h, ar, ac, left_pos, anchor_pos, checks, gb, path, word, placed, j, ms2) by {
            lemma_blank_pair_grows(rack, i, b, h, ar, ac, left_pos, anchor_pos, checks, gb, path, word, placed, j, ms, ms2);
        }
    }
}


/// A recorded move as the list shows it: its tiles, its score and its main word.
pub open spec fn move_view(m: CandidateMove) -> (Seq<PlacedTile>, int, Seq<char>) {
    (m.tiles@, m.score as int, m.primary_word@)
}

/// The moves of `ms` as the list shows them.
pub open spec fn move_views(ms: Seq<CandidateMove>) -> Seq<(Seq<PlacedTile>, int, Seq<char>)> {
    ms.map_values(|m: CandidateMove| move_view(m))
}

/// The path `p` can be followed in the GADDAG with bytes `gb`.
pub open spec fn can_follow(gb: Seq<u8>, p: Seq<u8>) -> bool {
    fst_decode(gb) matches Some(ks) && live(ks, p)
}

/// What is recorded where the walk may stop: the tiles placed so far with their score and
/// the word read, when the path is a complete entry and at least one tile was placed.
pub open spec fn stop_walk(b: Board, gb: Seq<u8>, path: Seq<u8>, placed: Seq<PlacedTile>, word: Seq<char>) -> Seq<
    (Seq<PlacedTile>, int, Seq<char>),
> {
    if is_key(gb, path) && placed.len() > 0 {
        seq![(placed, candidate_score(b, placed), word)]
    } else {
        Seq::empty()
    }
}

/// The moves found going right (down) from position `pos` of the anchor's line, in the
/// order they are recorded. `placed` and `word` are the tiles and letters so far, `path`
/// the GADDAG path followed, `rack` the rack (a used slot holds `'\0'`), and `checks` the
/// letters allowed on each empty square (none: any letter). A board tile is read and
/// followed; on an empty square the walk may stop, then tries each rack slot in turn.
#[verifier::opaque]
pub open spec fn right_walk(
    b: Board,
    checks: [[Option<u32>; 15]; 15],
    gb: Seq<u8>,
    h: bool,
    ar: usize,
    ac: usize,
    pos: int,
    rack: Seq<Option<char>>,
    placed: Seq<PlacedTile>,
    word: Seq<char>,
    path: Seq<u8>,
) -> Seq<(Seq<PlacedTile>, int, Seq<char>)>
    decreases 15 - pos, 2int, 0int,
{
    if pos < 0 || pos >= 15 {
        stop_walk(b, gb, path, placed, word)
    } else {
        let rc = square_of(h, ar, ac, pos as usize);
        if b.occupied(rc.0 as int, rc.1 as int) {
            let l = board_char(b, rc.0 as int, rc.1 as int);
            let u = upper_byte(l) as u8;
            if can_follow(gb, path.push(u)) {
                right_walk(b, checks, gb, h, ar, ac, pos + 1, rack, placed, word.push(l), path.push(u))
            } else {
                Seq::empty()
            }
        } else {
            stop_walk(b, gb, path, placed, word) + rack_walk(b, checks, gb, h, ar, ac, pos, rack, placed, word, path, 0)
        }
    }
}

/// The moves found by putting the tile of rack slot `i`, then of each later slot, on the
/// empty square at `pos` and going on right (down) from there, in the order recorded.
#[verifier::opaque]
pub open spec fn rack_walk(
    b: Board,
    checks: [[Option<u32>; 15]; 15],
    gb: Seq<u8>,
    h: bool,
    ar: usize,
    ac: usize,
    pos: int,
    rack: Seq<Option<char>>,
    placed: Seq<PlacedTile>,
    word: Seq<char>,
    path: Seq<u8>,
    i: int,
) -> Seq<(Seq<PlacedTile>, int, Seq<char>)>
    decreases 15 - pos, 1int, rack.len() - i,
{
    if i < 0 || i >= rack.len() || pos < 0 || pos >= 15 {
        Seq::empty()
    } else {
        let rc = square_of(h, ar, ac, pos as usize);
        let cc = mask_at(checks, rc.0, rc.1);
        let here = match rack[i] {
            None => blank_walk(b, checks, gb, h, ar, ac, pos, rack, placed, word, path, i, 0),
            Some(l) => if l != '\0' && (cc & letter_bit_spec(l)) != 0 && can_follow(gb, path.push(upper_byte(l) as u8)) {
                right_walk(
                    b,
                    checks,
                    gb,
                    h,
                    ar,
                    ac,
                    pos + 1,
                    rack.update(i, Some('\0')),
                    placed.push(PlacedTile { row: rc.0, col: rc.1, tile: Tile::Letter(upper(l), letter_value(l)) }),
                    word.push(upper(l)),
                    path.push(upper_byte(l) as u8),
                )
            } else {
                Seq::empty()
            },
        };
        here + rack_walk(b, checks, gb, h, ar, ac, pos, rack, placed, word, path, i + 1)
    }
}

/// The moves found by playing the blank of rack slot `i` as the `j`-th letter, then as each
/// later letter up to Z, on the empty square at `pos`, in the order recorded.
#[verifier::opaque]
pub open spec fn blank_walk(
    b: Board,
    checks: [[Option<u32>; 15]; 15],
    gb: Seq<u8>,
    h: bool,
    ar: usize,
    ac: usize,
    pos: int,
    rack: Seq<Option<char>>,
    placed: Seq<PlacedTile>,
    word: Seq<char>,
    path: Seq<u8>,
    i: int,
    j: int,
) -> Seq<(Seq<PlacedTile>, int, Seq<char>)>
    decreases 15 - pos, 0int, 26 - j,
{
    if j < 0 || j >= 26 || pos < 0 || pos >= 15 {
        Seq::empty()
    } else {
        let rc = square_of(h, ar, ac, pos as usize);
        let cc = mask_at(checks, rc.0, rc.1);
        let ch = (65 + j) as char;
        let u = (65 + j) as u8;
        let here = if (cc & letter_bit_spec(ch)) != 0 && can_follow(gb, path.push(u)) {
            right_walk(
                b,
                checks,
                gb,
                h,
                ar,
                ac,
                pos + 1,
                rack.update(i, Some('\0')),
                placed.push(PlacedTile { row: rc.0, col: rc.1, tile: Tile::Blank(Some(ch)) }),
                word.push(ch),
                path.push(u),
            )
        } else {
            Seq::empty()
        };
        here + blank_walk(b, checks, gb, h, ar, ac, pos, rack, placed, word, path, i, j + 1)
    }
}

/// Off the board the walk only stops.
proof fn lemma_walk_off(
    b: Board,
    checks: [[Option<u32>; 15]; 15],
    gb: Seq<u8>,
    h: bool,
    ar: usize,
    ac: usize,
    pos: int,
    rack: Seq<Option<char>>,
    placed: Seq<PlacedTile>,
    word: Seq<char>,
    path: Seq<u8>,
)
    requires
        pos >= 15,
    ensures
        right_walk(b, checks, gb, h, ar, ac, pos, rack, placed, word, path) == stop_walk(b, gb, path, placed, word),
{
    reveal_with_fuel(right_walk, 1);
}

/// On a board tile the walk reads its letter and goes on when the path can follow it.
proof fn lemma_walk_board(
    b: Board,
    checks: [[Option<u32>; 15]; 15],
    gb: Seq<u8>,
    h: bool,
    ar: usize,
    ac: usize,
    pos: int,
    rack: Seq<Option<char>>,
    placed: Seq<PlacedTile>,
    word: Seq<char>,
    path: Seq<u8>,
)
    requires
        0 <= pos < 15,
        b.occupied(square_of(h, ar, ac, pos as usize).0 as int, square_of(h, ar, ac, pos as usize).1 as int),
    ensures
        ({
            let rc = square_of(h, ar, ac, pos as usize);
            let l = board_char(b, rc.0 as int, rc.1 as int);
            let u = upper_byte(l) as u8;
            right_walk(b, checks, gb, h, ar, ac, pos, rack, placed, word, path) == if can_follow(gb, path.push(u)) {
                right_walk(b, checks, gb, h, ar, ac, pos + 1, rack, placed, word.push(l), path.push(u))
            } else {
                Seq::empty()
            }
        }),
{
    reveal_with_fuel(right_walk, 1);
}

/// On an empty square the walk may stop, then tries the rack.
proof fn lemma_walk_free(
    b: Board,
    checks: [[Option<u32>; 15]; 15],
    gb: Seq<u8>,
    h: bool,
    ar: usize,
    ac: usize,
    pos: int,
    rack: Seq<Option<char>>,
    placed: Seq<PlacedTile>,
    word: Seq<char>,
    path: Seq<u8>,
)
    requires
        0 <= pos < 15,
        !b.occupied(square_of(h, ar, ac, pos as usize).0 as int, square_of(h, ar, ac, pos as usize).1 as int),
    ensures
        right_walk(b, checks, gb, h, ar, ac, pos, rack, placed, word, path) == stop_walk(b, gb, path, placed, word)
            + rack_walk(b, checks, gb, h, ar, ac, pos, rack, placed, word, path, 0),
{
    reveal_with_fuel(rack_walk, 1);
    reveal_with_fuel(right_walk, 1);
    let rc = square_of(h, ar, ac, pos as usize);
    assert(!b.occupied(rc.0 as int, rc.1 as int));
    assert(!(pos < 0 || pos >= 15));
}

/// The walk starts sound: the cross-check table `checks` holds, for each empty square, the
/// letters the dictionary allows there, the tiles placed so far pass it, and every move
/// listed so far is good.
pub open spec fn sound_walk(
    checks: [[Option<u32>; 15]; 15],
    keys: Option<Seq<Seq<u8>>>,
    b: Board,
    h: bool,
    slots: Seq<Option<char>>,
    gb: Seq<u8>,
    placed: Seq<PlacedTile>,
    ms: Seq<CandidateMove>,
) -> bool {
    &&& checks_hold(checks, keys, b, h)
    &&& tiles_pass(placed, keys, b, h)
    &&& all_good(b, slots, keys, gb, ms)
}

/// Rack slot `i` can put tile `t` on square `rc`, whose letters allowed are `cc`: a letter
/// tile of an unused slot whose letter `cc` allows, or the slot's blank shown as a letter
/// `cc` allows. `l` is the letter the word reads there and `u` the byte the GADDAG follows.
pub open spec fn slot_play(
    rack: Seq<Option<char>>,
    i: int,
    cc: u32,
    rc: (usize, usize),
    t: PlacedTile,
    l: char,
    u: u8,
) -> bool {
    match rack[i] {
        Some(x) => {
            &&& x != '\0'
            &&& (cc & letter_bit_spec(x)) != 0
            &&& t == PlacedTile { row: rc.0, col: rc.1, tile: Tile::Letter(upper(x), letter_value(x)) }
            &&& l == upper(x)
            &&& u == upper_byte(x) as u8
        },
        None => exists|j: int|
            {
                &&& 0 <= j < 26
                &&& (cc & letter_bit_spec((65 + j) as char)) != 0
                &&& t == PlacedTile { row: rc.0, col: rc.1, tile: Tile::Blank(Some(#[trigger] ((65 + j) as char))) }
                &&& l == (65 + j) as char
                &&& u == (65 + j) as u8
            },
    }
}

/// The tiles `ext` fill the line of the anchor from position `pos` on, in order and with no
/// gap, and the word then ends: each empty square from `pos` takes the next tile, played
/// from its own unused slot of `rack` and allowed there by `checks`; each board tile is read;
/// and the word ends off the board or before an empty square. `letters` are the letters the
/// word reads from `pos` on, and `bytes` the GADDAG bytes they follow.
pub open spec fn fills(
    b: Board,
    checks: [[Option<u32>; 15]; 15],
    h: bool,
    ar: usize,
    ac: usize,
    pos: int,
    rack: Seq<Option<char>>,
    ext: Seq<PlacedTile>,
    letters: Seq<char>,
    bytes: Seq<u8>,
) -> bool
    decreases 15 - pos,
{
    if pos < 0 || pos >= 15 {
        ext.len() == 0 && letters.len() == 0 && bytes.len() == 0
    } else {
        let rc = square_of(h, ar, ac, pos as usize);
        if b.occupied(rc.0 as int, rc.1 as int) {
            let l = board_char(b, rc.0 as int, rc.1 as int);
            &&& letters.len() > 0
            &&& bytes.len() > 0
            &&& letters[0] == l
            &&& bytes[0] == upper_byte(l) as u8
            &&& fills(b, checks, h, ar, ac, pos + 1, rack, ext, letters.drop_first(), bytes.drop_first())
        } else if ext.len() == 0 {
            letters.len() == 0 && bytes.len() == 0
        } else {
            &&& letters.len() > 0
            &&& bytes.len() > 0
            &&& exists|i: int|
                0 <= i < rack.len() && #[trigger] slot_play(rack, i, mask_at(checks, rc.0, rc.1), rc, ext[0], letters[0], bytes[0])
                    && fills(
                    b,
                    checks,
                    h,
                    ar,
                    ac,
                    pos + 1,
                    rack.update(i, Some('\0')),
                    ext.drop_first(),
                    letters.drop_first(),
                    bytes.drop_first(),
                )
        }
    }
}

/// What one part of a concatenation holds, the concatenation holds.
proof fn lemma_contains_add<A>(a: Seq<A>, b: Seq<A>, x: A)
    requires
        a.contains(x) || b.contains(x),
    ensures
        (a + b).contains(x),
{
    if a.contains(x) {
        let k = choose|k: int| 0 <= k < a.len() && a[k] == x;
        assert((a + b)[k] == x);
    } else {
        let k = choose|k: int| 0 <= k < b.len() && b[k] == x;
        assert((a + b)[a.len() + k] == x);
    }
}

/// A move found by playing the blank of slot `i` as the `j`-th letter is among those found
/// by playing it as the `j0`-th letter or a later one.
proof fn lemma_blank_walk_has(
    b: Board,
    checks: [[Option<u32>; 15]; 15],
    gb: Seq<u8>,
    h: bool,
    ar: usize,
    ac: usize,
    pos: int,
    rack: Seq<Option<char>>,
    placed: Seq<PlacedTile>,
    word: Seq<char>,
    path: Seq<u8>,
    i: int,
    j0: int,
    j: int,
    x: (Seq<PlacedTile>, int, Seq<char>),
)
    requires
        0 <= pos < 15,
        0 <= j0 <= j < 26,
        ({
            let rc = square_of(h, ar, ac, pos as usize);
            let ch = (65 + j) as char;
            let u = (65 + j) as u8;
            &&& (mask_at(checks, rc.0, rc.1) & letter_bit_spec(ch)) != 0
            &&& can_follow(gb, path.push(u))
            &&& right_walk(
                b,
                checks,
                gb,
                h,
                ar,
                ac,
                pos + 1,
                rack.update(i, Some('\0')),
                placed.push(PlacedTile { row: rc.0, col: rc.1, tile: Tile::Blank(Some(ch)) }),
                word.push(ch),
                path.push(u),
            ).contains(x)
        }),
    ensures
        blank_walk(b, checks, gb, h, ar, ac, pos, rack, placed, word, path, i, j0).contains(x),
    decreases j - j0,
{
    reveal_with_fuel(right_walk, 1);
    reveal_with_fuel(rack_walk, 1);
    reveal_with_fuel(blank_walk, 1);
    let rc = square_of(h, ar, ac, pos as usize);
    let cc = mask_at(checks, rc.0, rc.1);
    let ch0 = (65 + j0) as char;
    let u0 = (65 + j0) as u8;
    let here = if (cc & letter_bit_spec(ch0)) != 0 && can_follow(gb, path.push(u0)) {
        right_walk(
            b,
            checks,
            gb,
            h,
            ar,
            ac,
            pos + 1,
            rack.update(i, Some('\0')),
            placed.push(PlacedTile { row: rc.0, col: rc.1, tile: Tile::Blank(Some(ch0)) }),
            word.push(ch0),
            path.push(u0),
        )
    } else {
        Seq::empty()
    };
    let rest = blank_walk(b, checks, gb, h, ar, ac, pos, rack, placed, word, path, i, j0 + 1);
    assert(blank_walk(b, checks, gb, h, ar, ac, pos, rack, placed, word, path, i, j0) == here + rest);
    if j0 < j {
        lemma_blank_walk_has(b, checks, gb, h, ar, ac, pos, rack, placed, word, path, i, j0 + 1, j, x);
    }
    lemma_contains_add(here, rest, x);
}

/// A move found through rack slot `i` is among those found trying the slots from `k` on.
proof fn lemma_rack_walk_has(
    b: Board,
    checks: [[Option<u32>; 15]; 15],
    gb: Seq<u8>,
    h: bool,
    ar: usize,
    ac: usize,
    pos: int,
    rack: Seq<Option<char>>,
    placed: Seq<PlacedTile>,
    word: Seq<char>,
    path: Seq<u8>,
    k: int,
    i: int,
    x: (Seq<PlacedTile>, int, Seq<char>),
)
    requires
        0 <= pos < 15,
        0 <= k <= i < rack.len(),
        ({
            let rc = square_of(h, ar, ac, pos as usize);
            let cc = mask_at(checks, rc.0, rc.1);
            match rack[i] {
                None => blank_walk(b, checks, gb, h, ar, ac, pos, rack, placed, word, path, i, 0).contains(x),
                Some(l) => l != '\0' && (cc & letter_bit_spec(l)) != 0 && can_follow(gb, path.push(upper_byte(l) as u8))
                    && right_walk(
                    b,
                    checks,
                    gb,
                    h,
                    ar,
                    ac,
                    pos + 1,
                    rack.update(i, Some('\0')),
                    placed.push(PlacedTile { row: rc.0, col: rc.1, tile: Tile::Letter(upper(l), letter_value(l)) }),
                    word.push(upper(l)),
                    path.push(upper_byte(l) as u8),
                ).contains(x),
            }
        }),
    ensures
        rack_walk(b, checks, gb, h, ar, ac, pos, rack, placed, word, path, k).contains(x),
    decreases i - k,
{
    reveal_with_fuel(right_walk, 1);
    reveal_with_fuel(rack_walk, 1);
    reveal_with_fuel(blank_walk, 1);
    let rest = rack_walk(b, checks, gb, h, ar, ac, pos, rack, placed, word, path, k + 1);
    let whole = rack_walk(b, checks, gb, h, ar, ac, pos, rack, placed, word, path, k);
    if k < i {
        lemma_rack_walk_has(b, checks, gb, h, ar, ac, pos, rack, placed, word, path, k + 1, i, x);
        let here = whole.subrange(0, whole.len() - rest.len());
        assert(whole == here + rest);
        lemma_contains_add(here, rest, x);
    } else {
        let rc = square_of(h, ar, ac, pos as usize);
        let cc = mask_at(checks, rc.0, rc.1);
        let here = match rack[k] {
            None => blank_walk(b, checks, gb, h, ar, ac, pos, rack, placed, word, path, k, 0),
            Some(l) => if l != '\0' && (cc & letter_bit_spec(l)) != 0 && can_follow(gb, path.push(upper_byte(l) as u8)) {
                right_walk(
                    b,
                    checks,
                    gb,
                    h,
                    ar,
                    ac,
                    pos + 1,
                    rack.update(k, Some('\0')),
                    placed.push(PlacedTile { row: rc.0, col: rc.1, tile: Tile::Letter(upper(l), letter_value(l)) }),
                    word.push(upper(l)),
                    path.push(upper_byte(l) as u8),
                )
            } else {
                Seq::empty()
            },
        };
        assert(whole == here + rest);
        lemma_contains_add(here, rest, x);
    }
}

/// Every way of filling the line from `pos` that the rack and the table allow, and whose word
/// is an entry of the GADDAG, is found by the walk, once at least one tile is placed: the
/// walk records those tiles after `placed`, with their score and the word read.
pub proof fn lemma_walk_finds(
    b: Board,
    checks: [[Option<u32>; 15]; 15],
    gb: Seq<u8>,
    h: bool,
    ar: usize,
    ac: usize,
    pos: int,
    rack: Seq<Option<char>>,
    placed: Seq<PlacedTile>,
    word: Seq<char>,
    path: Seq<u8>,
    ext: Seq<PlacedTile>,
    letters: Seq<char>,
    bytes: Seq<u8>,
)
    requires
        pos >= 0,
        fills(b, checks, h, ar, ac, pos, rack, ext, letters, bytes),
        is_key(gb, path + bytes),
        placed.len() + ext.len() > 0,
    ensures
        right_walk(b, checks, gb, h, ar, ac, pos, rack, placed, word, path).contains(
            (placed + ext, candidate_score(b, placed + ext), word + letters),
        ),
    decreases 15 - pos,
{
    reveal_with_fuel(right_walk, 1);
    reveal_with_fuel(rack_walk, 1);
    reveal_with_fuel(blank_walk, 1);
    let x = (placed + ext, candidate_score(b, placed + ext), word + letters);
    let ks = fst_decode(gb)->0;
    if pos >= 15 {
        assert(placed + ext =~= placed);
        assert(word + letters =~= word);
        assert(path + bytes =~= path);
        assert(stop_walk(b, gb, path, placed, word)[0] == x);
    } else {
        let rc = square_of(h, ar, ac, pos as usize);
        let cc = mask_at(checks, rc.0, rc.1);
        if b.occupied(rc.0 as int, rc.1 as int) {
            let l = board_char(b, rc.0 as int, rc.1 as int);
            let u = upper_byte(l) as u8;
            assert(path.push(u) + bytes.drop_first() =~= path + bytes);
            assert(word.push(l) + letters.drop_first() =~= word + letters);
            crate::gaddag::lemma_key_live(ks, path + bytes);
            assert(path.push(u).is_prefix_of(path + bytes));
            crate::gaddag::lemma_live_prefix(ks, path.push(u), path + bytes);
            lemma_walk_finds(b, checks, gb, h, ar, ac, pos + 1, rack, placed, word.push(l), path.push(u), ext, letters.drop_first(), bytes.drop_first());
        } else if ext.len() == 0 {
            assert(placed + ext =~= placed);
            assert(word + letters =~= word);
            assert(path + bytes =~= path);
            let st = stop_walk(b, gb, path, placed, word);
            assert(st[0] == x);
            lemma_contains_add(st, rack_walk(b, checks, gb, h, ar, ac, pos, rack, placed, word, path, 0), x);
        } else {
            let i = choose|i: int|
                0 <= i < rack.len() && #[trigger] slot_play(rack, i, cc, rc, ext[0], letters[0], bytes[0])
                    && fills(
                    b,
                    checks,
                    h,
                    ar,
                    ac,
                    pos + 1,
                    rack.update(i, Some('\0')),
                    ext.drop_first(),
                    letters.drop_first(),
                    bytes.drop_first(),
                );
            let t = ext[0];
            let l = letters[0];
            let u = bytes[0];
            assert(placed.push(t) + ext.drop_first() =~= placed + ext);
            assert(word.push(l) + letters.drop_first() =~= word + letters);
            assert(path.push(u) + bytes.drop_first() =~= path + bytes);
            crate::gaddag::lemma_key_live(ks, path + bytes);
            assert(path.push(u).is_prefix_of(path + bytes));
            crate::gaddag::lemma_live_prefix(ks, path.push(u), path + bytes);
            lemma_walk_finds(
                b,
                checks,
                gb,
                h,
                ar,
                ac,
                pos + 1,
                rack.update(i, Some('\0')),
                placed.push(t),
                word.push(l),
                path.push(u),
                ext.drop_first(),
                letters.drop_first(),
                bytes.drop_first(),
            );
            match rack[i] {
                None => {
                    let j = choose|j: int|
                        {
                            &&& 0 <= j < 26
                            &&& (cc & letter_bit_spec((65 + j) as char)) != 0
                            &&& t == PlacedTile { row: rc.0, col: rc.1, tile: Tile::Blank(Some(#[trigger] ((65 + j) as char))) }
                            &&& l == (65 + j) as char
                            &&& u == (65 + j) as u8
                        };
                    lemma_blank_walk_has(b, checks, gb, h, ar, ac, pos, rack, placed, word, path, i, 0, j, x);
                },
                Some(_) => {},
            }
            lemma_rack_walk_has(b, checks, gb, h, ar, ac, pos, rack, placed, word, path, 0, i, x);
            lemma_contains_add(
                stop_walk(b, gb, path, placed, word),
                rack_walk(b, checks, gb, h, ar, ac, pos, rack, placed, word, path, 0),
                x,
            );
        }
    }
}

/// Every way of filling the line from `pos` that the rack `rack` allows and `checks` lets
/// pass, whose bytes after the GADDAG path `path` make an entry, is among the moves `ms`,
/// after the tiles `placed` and the letters `word`, once some tile is placed.
pub open spec fn exts_recorded(
    b: Board,
    checks: [[Option<u32>; 15]; 15],
    gb: Seq<u8>,
    h: bool,
    ar: usize,
    ac: usize,
    pos: int,
    rack: Seq<Option<char>>,
    placed: Seq<PlacedTile>,
    word: Seq<char>,
    path: Seq<u8>,
    ms: Seq<CandidateMove>,
) -> bool {
    forall|ext: Seq<PlacedTile>, letters: Seq<char>, bytes: Seq<u8>|
        #![trigger fills(b, checks, h, ar, ac, pos, rack, ext, letters, bytes)]
        fills(b, checks, h, ar, ac, pos, rack, ext, letters, bytes) && is_key(gb, path + bytes) && placed.len()
            + ext.len() > 0 ==> move_views(ms).contains((placed + ext, candidate_score(b, placed + ext), word + letters))
}

/// What the moves show stays shown as the list grows.
proof fn lemma_views_grow(ms: Seq<CandidateMove>, ms2: Seq<CandidateMove>, x: (Seq<PlacedTile>, int, Seq<char>))
    requires
        grows(ms, ms2),
        move_views(ms).contains(x),
    ensures
        move_views(ms2).contains(x),
{
    let k = choose|k: int| 0 <= k < move_views(ms).len() && move_views(ms)[k] == x;
    assert(ms2[k] == ms[k]);
    assert(move_views(ms2)[k] == x);
}

/// The extensions recorded stay recorded as the list grows.
proof fn lemma_exts_grows(
    b: Board,
    checks: [[Option<u32>; 15]; 15],
    gb: Seq<u8>,
    h: bool,
    ar: usize,
    ac: usize,
    pos: int,
    rack: Seq<Option<char>>,
    placed: Seq<PlacedTile>,
    word: Seq<char>,
    path: Seq<u8>,
    ms: Seq<CandidateMove>,
    ms2: Seq<CandidateMove>,
)
    requires
        exts_recorded(b, checks, gb, h, ar, ac, pos, rack, placed, word, path, ms),
        grows(ms, ms2),
    ensures
        exts_recorded(b, checks, gb, h, ar, ac, pos, rack, placed, word, path, ms2),
{
    assert forall|ext: Seq<PlacedTile>, letters: Seq<char>, bytes: Seq<u8>|
        #[trigger] fills(b, checks, h, ar, ac, pos, rack, ext, letters, bytes) && is_key(gb, path + bytes) && placed.len()
            + ext.len() > 0 implies move_views(ms2).contains((placed + ext, candidate_score(b, placed + ext), word + letters)) by {
        lemma_views_grow(ms, ms2, (placed + ext, candidate_score(b, placed + ext), word + letters));
    }
}

/// A list that holds, after `ms0`, what the walk from `pos` finds records every extension.
proof fn lemma_walk_recorded(
    b: Board,
    checks: [[Option<u32>; 15]; 15],
    gb: Seq<u8>,
    h: bool,
    ar: usize,
    ac: usize,
    pos: int,
    rack: Seq<Option<char>>,
    placed: Seq<PlacedTile>,
    word: Seq<char>,
    path: Seq<u8>,
    ms0: Seq<CandidateMove>,
    ms: Seq<CandidateMove>,
)
    requires
        pos >= 0,
        move_views(ms) == move_views(ms0) + right_walk(b, checks, gb, h, ar, ac, pos, rack, placed, word, path),
    ensures
        exts_recorded(b, checks, gb, h, ar, ac, pos, rack, placed, word, path, ms),
{
    assert forall|ext: Seq<PlacedTile>, letters: Seq<char>, bytes: Seq<u8>|
        #[trigger] fills(b, checks, h, ar, ac, pos, rack, ext, letters, bytes) && is_key(gb, path + bytes) && placed.len()
            + ext.len() > 0 implies move_views(ms).contains((placed + ext, candidate_score(b, placed + ext), word + letters)) by {
        lemma_walk_finds(b, checks, gb, h, ar, ac, pos, rack, placed, word, path, ext, letters, bytes);
        lemma_contains_add(
            move_views(ms0),
            right_walk(b, checks, gb, h, ar, ac, pos, rack, placed, word, path),
            (placed + ext, candidate_score(b, placed + ext), word + letters),
        );
    }
}

/// From a path no entry begins with, no extension is an entry: all are vacuously recorded.
proof fn lemma_exts_dead(
    b: Board,
    checks: [[Option<u32>; 15]; 15],
    gb: Seq<u8>,
    h: bool,
    ar: usize,
    ac: usize,
    pos: int,
    rack: Seq<Option<char>>,
    placed: Seq<PlacedTile>,
    word: Seq<char>,
    path: Seq<u8>,
    ms: Seq<CandidateMove>,
)
    requires
        fst_decode(gb) matches Some(ks) ==> !live(ks, path),
    ensures
        exts_recorded(b, checks, gb, h, ar, ac, pos, rack, placed, word, path, ms),
{
    assert forall|bytes: Seq<u8>| !#[trigger] is_key(gb, path + bytes) by {
        if let Some(ks) = fst_decode(gb) {
            if ks.contains(path + bytes) {
                crate::gaddag::lemma_key_live(ks, path + bytes);
                assert(path.is_prefix_of(path + bytes));
                crate::gaddag::lemma_live_prefix(ks, path, path + bytes);
            }
        }
    }
}

/// Appending one move to a list appends its view to the list's views.
proof fn lemma_views_push(a: Seq<CandidateMove>, b: Seq<CandidateMove>)
    requires
        grows(a, b),
        b.len() == a.len() + 1,
    ensures
        move_views(b) == move_views(a).push(move_view(b.last())),
{
    assert(move_views(b) =~= move_views(a).push(move_view(b.last())));
}

/// Record a valid move, computing its score.
fn record_move(
    board: &Board,
    placed: &[PlacedTile],
    prefix_letters: &[char],
    suffix_letters: &[char],
    moves: &mut Vec<CandidateMove>,
    Ghost(slots): Ghost<Seq<Option<char>>>,
    Ghost(src): Ghost<Seq<int>>,
    Ghost(keys): Ghost<Option<Seq<Seq<u8>>>>,
    Ghost(gb): Ghost<Seq<u8>>,
    Ghost(h): Ghost<bool>,
)
    requires
        placed@.len() <= 15,
        on_free_squares(*board, placed@),
        distinct_squares(placed@),
        placed@.len() >= 1 ==> collinear(placed@),
        drawn_from(placed@, slots, src),
        fst_decode(gb) matches Some(gks) ==> word_found_in(*board, placed@, gks, h),
    ensures
        tiles_pass(placed@, keys, *board, h) && all_good(*board, slots, keys, gb, old(moves)@) ==> all_good(
            *board,
            slots,
            keys,
            gb,
            final(moves)@,
        ),
        placed@.len() == 0 ==> final(moves)@ == old(moves)@,
        placed@.len() > 0 ==> {
            &&& final(moves)@.len() == old(moves)@.len() + 1
            &&& grows(old(moves)@, final(moves)@)
            &&& final(moves)@.last().tiles@ == placed@
            &&& final(moves)@.last().score == candidate_score(*board, placed@)
            &&& final(moves)@.last().primary_word@ == prefix_letters@ + suffix_letters@
            &&& move_views(final(moves)@) == move_views(old(moves)@).push(
                (placed@, candidate_score(*board, placed@), prefix_letters@ + suffix_letters@),
            )
        },
{
    if placed.len() == 0 {
        return;
    }
    let score = score_candidate(board, placed);
    let mut chars: Vec<char> = Vec::new();
    let mut k: usize = 0;
    while k < prefix_letters.len()
        invariant
            k <= prefix_letters@.len(),
            chars@ == prefix_letters@.take(k as int),
        decreases prefix_letters@.len() - k,
    {
        chars.push(prefix_letters[k]);
        k = k + 1;
        assert(chars@ =~= prefix_letters@.take(k as int));
    }
    assert(prefix_letters@.take(k as int) =~= prefix_letters@);
    let mut k: usize = 0;
    while k < suffix_letters.len()
        invariant
            k <= suffix_letters@.len(),
            chars@ == prefix_letters@ + suffix_letters@.take(k as int),
        decreases suffix_letters@.len() - k,
    {
        chars.push(suffix_letters[k]);
        k = k + 1;
        assert(chars@ =~= prefix_letters@ + suffix_letters@.take(k as int));
    }
    assert(suffix_letters@.take(k as int) =~= suffix_letters@);
    let word = string_from_chars(&chars);
    let tiles = vstd::slice::slice_to_vec(placed);
    let ghost prev = moves@;
    moves.push(CandidateMove { tiles, score, primary_word: word });
    proof {
        assert(drawn_from(moves@.last().tiles@, slots, src));
        if tiles_pass(placed@, keys, *board, h) && all_good(*board, slots, keys, gb, prev) {
            assert(tiles_pass(moves@.last().tiles@, keys, *board, h));
            assert forall|i: int| 0 <= i < moves@.len() implies good_move(*board, slots, keys, gb, #[trigger] moves@[i]) by {
                if i < prev.len() {
                    assert(moves@[i] == prev[i]);
                }
            }
        }
        lemma_views_push(prev, moves@);
    }
}

/// The letter set allowed at `(r, c)`: its cross-check, or every letter where it has none.
fn allowed_at(cross_checks: &[[Option<u32>; 15]; 15], r: usize, c: usize) -> (m: u32)
    requires
        r < 15,
        c < 15,
    ensures
        m == mask_at(*cross_checks, r, c),
{
    match cross_checks[r][c] {
        Some(x) => x,
        None => all_letters(),
    }
}

/// Extend rightward/downward from the current position, placing tiles.
#[verifier::rlimit(60)]
fn extend_right(
    board: &Board,
    cross_checks: &[[Option<u32>; 15]; 15],
    dict: &FstDictionary,
    rack: &mut Vec<Option<char>>,
    node: GaddagNode<'_>,
    anchor_row: usize,
    anchor_col: usize,
    horizontal: bool,
    current_pos: usize,
    placed: &mut Vec<PlacedTile>,
    prefix_letters: &[char],
    moves: &mut Vec<CandidateMove>,
    Ghost(slots): Ghost<Seq<Option<char>>>,
    Ghost(src): Ghost<Seq<int>>,
    Ghost(gb): Ghost<Seq<u8>>,
    Ghost(s0): Ghost<int>,
    Ghost(sr): Ghost<int>,
)
    requires
        node.bytes() == gb,
        walk_state(
            *board,
            old(placed)@,
            horizontal,
            anchor_line(horizontal, anchor_row, anchor_col),
            s0,
            sr,
            current_pos as int,
            node.path(),
        ),
        marked(old(rack)@, slots, src),
        drawn_from(old(placed)@, slots, src),
        anchor_row < 15,
        anchor_col < 15,
        current_pos <= 15,
        old(placed)@.len() <= current_pos,
        placed_ok(*board, old(placed)@, horizontal, if horizontal { anchor_row as int } else { anchor_col as int }),
        forall|i: int| 0 <= i < old(placed)@.len() ==> coord(#[trigger] old(placed)@[i], dir(horizontal)) < current_pos,
    ensures
        final(rack)@ == old(rack)@,
        final(placed)@ == old(placed)@,
        move_views(final(moves)@) == move_views(old(moves)@) + right_walk(*board, *cross_checks, gb, horizontal, anchor_row, anchor_col, current_pos as int, old(rack)@, old(placed)@, prefix_letters@, node.path()),
        sound_walk(*cross_checks, dict.keys(), *board, horizontal, slots, gb, old(placed)@, old(moves)@) ==> all_good(*board, slots, dict.keys(), gb, final(moves)@),
        grows(old(moves)@, final(moves)@),
        extends_from(final(moves)@, old(moves)@.len() as int, old(placed)@, horizontal, anchor_line(horizontal, anchor_row, anchor_col), current_pos as int),
        old(placed)@.len() > 0 && ends_at(*board, horizontal, anchor_line(horizontal, anchor_row, anchor_col), current_pos as int)
            && is_key(gb, node.path()) ==> has_move(final(moves)@, old(placed)@, prefix_letters@),
        current_pos < 15 && free_at(*board, horizontal, anchor_line(horizontal, anchor_row, anchor_col), current_pos as int)
            ==> slots_recorded(
            old(rack)@,
            *board,
            horizontal,
            anchor_row,
            anchor_col,
            current_pos,
            mask_at(
                *cross_checks,
                square_of(horizontal, anchor_row, anchor_col, current_pos).0,
                square_of(horizontal, anchor_row, anchor_col, current_pos).1,
            ),
            gb,
            node.path(),
            prefix_letters@,
            old(placed)@,
            final(moves)@),
    decreases 15 - current_pos, 1nat,
{
    let ghost fixed: int = if horizontal { anchor_row as int } else { anchor_col as int };
    let (r, c) = if horizontal {
        (anchor_row, current_pos)
    } else {
        (current_pos, anchor_col)
    };
    if r >= BOARD_SIZE || c >= BOARD_SIZE {
        if node.is_terminal() && placed.len() != 0 {
            proof {
                lemma_placed_collinear(*board, placed@, horizontal, fixed);
                if let Some(gks) = fst_decode(gb) {
                    lemma_walk_found(*board, placed@, horizontal, fixed, s0, sr, current_pos as int, node.path(), gks);
                }
            }
            record_move(board, placed.as_slice(), prefix_letters, &[], moves, Ghost(slots), Ghost(src), Ghost(dict.keys()), Ghost(gb), Ghost(horizontal));
            proof {
                assert(moves@[moves@.len() - 1].tiles@ == placed@);
                assert(placed@.subrange(0, placed@.len() as int) =~= placed@);
                assert(extends(moves@[moves@.len() - 1].tiles@, placed@, horizontal, fixed, current_pos as int));
            }
        }
        proof {
            lemma_walk_off(*board, *cross_checks, gb, horizontal, anchor_row, anchor_col, current_pos as int, old(rack)@, old(placed)@, prefix_letters@, node.path());
            assert(move_views(moves@) =~= move_views(old(moves)@) + right_walk(*board, *cross_checks, gb, horizontal, anchor_row, anchor_col, current_pos as int, old(rack)@, old(placed)@, prefix_letters@, node.path()));
        }
        return;
    }
    if board.is_occupied(r, c) {
        let letter = match board.get(r, c) {
            Some(t) => match t.letter() {
                Some(x) => x,
                None => '?',
            },
            None => '?',
        };
        let upper = ((to_upper(letter) as u32) % 256) as u8;
        proof {
            assert(upper == upper_byte(letter) as u8);
            assert(letter == board_char(*board, r as int, c as int));
            lemma_walk_board_step(*board, placed@, horizontal, fixed, s0, sr, current_pos as int, node.path());
        }
        match node.follow(upper) {
            Some(next) => {
                let extended_suffix = vec![letter];
                assert(prefix_letters@ + extended_suffix@ =~= prefix_letters@.push(letter));
                extend_right_with_existing(
                    board,
                    cross_checks,
                    dict,
                    rack,
                    next,
                    anchor_row,
                    anchor_col,
                    horizontal,
                    current_pos + 1,
                    placed,
                    prefix_letters,
                    extended_suffix.as_slice(),
                    moves,
                    Ghost(slots),
                    Ghost(src),
                    Ghost(gb),
                    Ghost(s0),
                    Ghost(sr),
                );
                proof {
                    lemma_extends_join(old(moves)@, moves@, old(moves)@.len() as int, placed@, horizontal, fixed, current_pos as int, current_pos + 1);
                }
            },
            None => {},
        }
        proof {
            lemma_walk_board(*board, *cross_checks, gb, horizontal, anchor_row, anchor_col, current_pos as int, old(rack)@, old(placed)@, prefix_letters@, node.path());
            assert(move_views(moves@) =~= move_views(old(moves)@) + right_walk(*board, *cross_checks, gb, horizontal, anchor_row, anchor_col, current_pos as int, old(rack)@, old(placed)@, prefix_letters@, node.path()));
        }
    } else {
        if node.is_terminal() && placed.len() != 0 {
            proof {
                lemma_placed_collinear(*board, placed@, horizontal, fixed);
                if let Some(gks) = fst_decode(gb) {
                    lemma_walk_found(*board, placed@, horizontal, fixed, s0, sr, current_pos as int, node.path(), gks);
                }
            }
            record_move(board, placed.as_slice(), prefix_letters, &[], moves, Ghost(slots), Ghost(src), Ghost(dict.keys()), Ghost(gb), Ghost(horizontal));
            proof {
                assert(moves@[moves@.len() - 1].tiles@ == placed@);
                assert(placed@.subrange(0, placed@.len() as int) =~= placed@);
                assert(extends(moves@[moves@.len() - 1].tiles@, placed@, horizontal, fixed, current_pos as int));
            }
        }
        let ghost mid = moves@;
        proof {
            assert(move_views(mid) =~= move_views(old(moves)@) + stop_walk(*board, gb, node.path(), placed@, prefix_letters@));
        }
        let cc = allowed_at(cross_checks, r, c);
        place_from_rack(
            board,
            cross_checks,
            dict,
            rack,
            &node,
            anchor_row,
            anchor_col,
            horizontal,
            current_pos,
            placed,
            prefix_letters,
            &[],
            cc,
            moves,
            Ghost(slots),
            Ghost(src),
            Ghost(gb),
            Ghost(s0),
            Ghost(sr),
        );
        proof {
            if old(placed)@.len() > 0 && is_key(gb, node.path()) {
                lemma_has_move_grows(mid, moves@, placed@, prefix_letters@);
            }
            lemma_extends_join(mid, moves@, old(moves)@.len() as int, placed@, horizontal, fixed, current_pos as int, current_pos as int);
            lemma_walk_free(*board, *cross_checks, gb, horizontal, anchor_row, anchor_col, current_pos as int, old(rack)@, old(placed)@, prefix_letters@, node.path());
            assert(move_views(moves@) =~= move_views(old(moves)@) + right_walk(*board, *cross_checks, gb, horizontal, anchor_row, anchor_col, current_pos as int, old(rack)@, old(placed)@, prefix_letters@, node.path()));
        }
    }
}

/// Try each unused rack tile on the empty square at `current_pos`, then extend beyond it.
fn place_from_rack(
    board: &Board,
    cross_checks: &[[Option<u32>; 15]; 15],
    dict: &FstDictionary,
    rack: &mut Vec<Option<char>>,
    node: &GaddagNode<'_>,
    anchor_row: usize,
    anchor_col: usize,
    horizontal: bool,
    current_pos: usize,
    placed: &mut Vec<PlacedTile>,
    prefix_letters: &[char],
    existing_suffix: &[char],
    cc: u32,
    moves: &mut Vec<CandidateMove>,
    Ghost(slots): Ghost<Seq<Option<char>>>,
    Ghost(src): Ghost<Seq<int>>,
    Ghost(gb): Ghost<Seq<u8>>,
    Ghost(s0): Ghost<int>,
    Ghost(sr): Ghost<int>,
)
    requires
        node.bytes() == gb,
        walk_state(
            *board,
            old(placed)@,
            horizontal,
            anchor_line(horizontal, anchor_row, anchor_col),
            s0,
            sr,
            current_pos as int,
            node.path(),
        ),
        marked(old(rack)@, slots, src),
        drawn_from(old(placed)@, slots, src),
        cc == mask_at(
            *cross_checks,
            if horizontal { anchor_row } else { current_pos },
            if horizontal { current_pos } else { anchor_col },
        ),
        anchor_row < 15,
        anchor_col < 15,
        current_pos < 15,
        !board.occupied(
            if horizontal { anchor_row as int } else { current_pos as int },
            if horizontal { current_pos as int } else { anchor_col as int },
        ),
        old(placed)@.len() <= current_pos,
        placed_ok(*board, old(placed)@, horizontal, if horizontal { anchor_row as int } else { anchor_col as int }),
        forall|i: int| 0 <= i < old(placed)@.len() ==> coord(#[trigger] old(placed)@[i], dir(horizontal)) < current_pos,
    ensures
        final(rack)@ == old(rack)@,
        final(placed)@ == old(placed)@,
        move_views(final(moves)@) == move_views(old(moves)@) + rack_walk(*board, *cross_checks, gb, horizontal, anchor_row, anchor_col, current_pos as int, old(rack)@, old(placed)@, prefix_letters@ + existing_suffix@, node.path(), 0),
        sound_walk(*cross_checks, dict.keys(), *board, horizontal, slots, gb, old(placed)@, old(moves)@) ==> all_good(*board, slots, dict.keys(), gb, final(moves)@),
        grows(old(moves)@, final(moves)@),
        extends_from(final(moves)@, old(moves)@.len() as int, old(placed)@, horizontal, anchor_line(horizontal, anchor_row, anchor_col), current_pos as int),
        slots_recorded(old(rack)@, *board, horizontal, anchor_row, anchor_col, current_pos, cc, gb, node.path(), prefix_letters@ + existing_suffix@, old(placed)@, final(moves)@),
    decreases 15 - current_pos, 0nat,
{
    let ghost fixed: int = if horizontal { anchor_row as int } else { anchor_col as int };
    let (r, c) = if horizontal {
        (anchor_row, current_pos)
    } else {
        (current_pos, anchor_col)
    };
    let rack_len = rack.len();
    let mut i: usize = 0;
    while i < rack_len
        invariant
            rack_len == rack@.len() == old(rack)@.len(),
            rack@ == old(rack)@,
            placed@ == old(placed)@,
            i <= rack_len,
            anchor_row < 15,
            anchor_col < 15,
            current_pos < 15,
            r == if horizontal { anchor_row } else { current_pos },
            c == if horizontal { current_pos } else { anchor_col },
            fixed == if horizontal { anchor_row as int } else { anchor_col as int },
            !board.occupied(r as int, c as int),
            placed@.len() <= current_pos,
            placed_ok(*board, placed@, horizontal, fixed),
            forall|k: int| 0 <= k < placed@.len() ==> coord(#[trigger] placed@[k], dir(horizontal)) < current_pos,
            sound_walk(*cross_checks, dict.keys(), *board, horizontal, slots, gb, old(placed)@, old(moves)@) ==> all_good(*board, slots, dict.keys(), gb, moves@),
            marked(old(rack)@, slots, src),
            drawn_from(old(placed)@, slots, src),
                                                node.bytes() == gb,
            walk_state(*board, old(placed)@, horizontal, fixed, s0, sr, current_pos as int, node.path()),
            grows(old(moves)@, moves@),
            extends_from(moves@, old(moves)@.len() as int, old(placed)@, horizontal, fixed, current_pos as int),
            forall|i2: int| 0 <= i2 < i ==> #[trigger] slot_recorded(old(rack)@, i2, *board, horizontal, anchor_row, anchor_col, current_pos, cc, gb, node.path(), prefix_letters@ + existing_suffix@, old(placed)@, moves@),
            cc == mask_at(*cross_checks, r, c),
            move_views(moves@) + rack_walk(*board, *cross_checks, gb, horizontal, anchor_row, anchor_col, current_pos as int, old(rack)@, old(placed)@, prefix_letters@ + existing_suffix@, node.path(), i as int) == move_views(old(moves)@) + rack_walk(*board, *cross_checks, gb, horizontal, anchor_row, anchor_col, current_pos as int, old(rack)@, old(placed)@, prefix_letters@ + existing_suffix@, node.path(), 0),
        decreases rack_len - i,
    {
        let ghost m_i = moves@;
        let tile = rack[i];
        if tile != Some('\0') {
            match tile {
                None => {
                    let mut j: u8 = 0;
                    while j < 26
                        invariant
                            j <= 26,
                            i < rack_len == rack@.len(),
                            rack@ == old(rack)@,
                            rack@[i as int] is None,
                            placed@ == old(placed)@,
                            anchor_row < 15,
                            anchor_col < 15,
                            current_pos < 15,
                            r == if horizontal { anchor_row } else { current_pos },
                            c == if horizontal { current_pos } else { anchor_col },
                            fixed == if horizontal { anchor_row as int } else { anchor_col as int },
                            !board.occupied(r as int, c as int),
                            placed@.len() <= current_pos,
                            placed_ok(*board, placed@, horizontal, fixed),
                            forall|k: int| 0 <= k < placed@.len() ==> coord(#[trigger] placed@[k], dir(horizontal)) < current_pos,
                            sound_walk(*cross_checks, dict.keys(), *board, horizontal, slots, gb, old(placed)@, old(moves)@) ==> all_good(*board, slots, dict.keys(), gb, moves@),
                            marked(old(rack)@, slots, src),
                            drawn_from(old(placed)@, slots, src),
                                                                                                                node.bytes() == gb,
                            walk_state(*board, old(placed)@, horizontal, fixed, s0, sr, current_pos as int, node.path()),
                            grows(old(moves)@, m_i),
                            grows(m_i, moves@),
                            extends_from(moves@, old(moves)@.len() as int, old(placed)@, horizontal, fixed, current_pos as int),
                            forall|i2: int| 0 <= i2 < i ==> #[trigger] slot_recorded(old(rack)@, i2, *board, horizontal, anchor_row, anchor_col, current_pos, cc, gb, node.path(), prefix_letters@ + existing_suffix@, old(placed)@, m_i),
                            forall|j2: u8|
                                j2 < j && (cc & letter_bit_spec((65 + j2) as char)) != 0 && is_key(gb, node.path().push((65 + j2) as u8))
                                    && ends_at(*board, horizontal, fixed, current_pos + 1) ==> #[trigger] has_move(
                                    moves@,
                                    old(placed)@.push(PlacedTile { row: r, col: c, tile: Tile::Blank(Some((65 + j2) as char)) }),
                                    (prefix_letters@ + existing_suffix@).push((65 + j2) as char),
                                ),
                            cc == mask_at(*cross_checks, r, c),
                            move_views(moves@) + blank_walk(*board, *cross_checks, gb, horizontal, anchor_row, anchor_col, current_pos as int, old(rack)@, old(placed)@, prefix_letters@ + existing_suffix@, node.path(), i as int, j as int) == move_views(m_i) + blank_walk(*board, *cross_checks, gb, horizontal, anchor_row, anchor_col, current_pos as int, old(rack)@, old(placed)@, prefix_letters@ + existing_suffix@, node.path(), i as int, 0),
                        decreases 26 - j,
                    {
                        let ghost m_j = moves@;
                        let ch = 65u8 + j;
                        let letter = ch as char;
                        if bit_has(cc, letter) {
                            match node.follow(ch) {
                                Some(next) => {
                                    let t = PlacedTile { row: r, col: c, tile: Tile::Blank(Some(letter)) };
                                    proof {
                                        lemma_placed_push(*board, placed@, horizontal, fixed, t);
                                        lemma_take_slot(rack@, slots, src, placed@, i as int, t);
                                    lemma_upper_twice(t.tile);
                                    if sound_walk(*cross_checks, dict.keys(), *board, horizontal, slots, gb, old(placed)@, old(moves)@) {
                                            assert(dict.keys() matches Some(ks) ==> cc == cross_mask(ks, *board, r as int, c as int, horizontal));
                                            lemma_tiles_pass_push(placed@, dict.keys(), *board, t, horizontal);
                                        }
                                    lemma_walk_place_step(*board, placed@, horizontal, fixed, s0, sr, current_pos as int, node.path(), t);
                                    }
                                    rack[i] = Some('\0');
                                    placed.push(t);
                                    let mut new_prefix = vstd::slice::slice_to_vec(prefix_letters);
                                    append_chars(&mut new_prefix, existing_suffix);
                                    new_prefix.push(letter);
                                    assert(new_prefix@ =~= (prefix_letters@ + existing_suffix@).push(letter));
                                    let ghost m_c = moves@;
                                    extend_right(
                                        board,
                                        cross_checks,
                                        dict,
                                        rack,
                                        next,
                                        anchor_row,
                                        anchor_col,
                                        horizontal,
                                        current_pos + 1,
                                        placed,
                                        new_prefix.as_slice(),
                                        moves,
                                        Ghost(slots),
                                        Ghost(src.push(i as int)),
                                        Ghost(gb),
                                        Ghost(s0),
                                        Ghost(sr),
                                    );
                                    proof {
                                        lemma_extends_step(m_c, moves@, old(moves)@.len() as int, old(placed)@, t, horizontal, fixed, current_pos as int);
                                    }
                                    placed.pop();
                                    rack[i] = None;
                                    assert(placed@ =~= old(placed)@);
                                    assert(rack@ =~= old(rack)@);
                                },
                                None => {
                                    proof {
                                        if let Some(ks) = fst_decode(gb) {
                                            if ks.contains(node.path().push(ch)) {
                                                crate::gaddag::lemma_key_live(ks, node.path().push(ch));
                                            }
                                        }
                                    }
                                },
                            }
                        }
                        proof {
                            assert forall|j2: u8|
                                j2 < j + 1 && (cc & letter_bit_spec((65 + j2) as char)) != 0 && is_key(gb, node.path().push((65 + j2) as u8))
                                    && ends_at(*board, horizontal, fixed, current_pos + 1) implies #[trigger] has_move(
                                    moves@,
                                    old(placed)@.push(PlacedTile { row: r, col: c, tile: Tile::Blank(Some((65 + j2) as char)) }),
                                    (prefix_letters@ + existing_suffix@).push((65 + j2) as char),
                                ) by {
                                if j2 < j {
                                    lemma_has_move_grows(
                                        m_j,
                                        moves@,
                                        old(placed)@.push(PlacedTile { row: r, col: c, tile: Tile::Blank(Some((65 + j2) as char)) }),
                                        (prefix_letters@ + existing_suffix@).push((65 + j2) as char),
                                    );
                                }
                            }
                        }
                        proof {
                            assert(letter == (65 + j as int) as char);
                            assert(move_views(moves@) + blank_walk(*board, *cross_checks, gb, horizontal, anchor_row, anchor_col, current_pos as int, old(rack)@, old(placed)@, prefix_letters@ + existing_suffix@, node.path(), i as int, j + 1) =~= move_views(m_i) + blank_walk(*board, *cross_checks, gb, horizontal, anchor_row, anchor_col, current_pos as int, old(rack)@, old(placed)@, prefix_letters@ + existing_suffix@, node.path(), i as int, 0)) by {
                                reveal_with_fuel(right_walk, 1);
                reveal_with_fuel(right_walk, 1);
                reveal_with_fuel(rack_walk, 1);
                reveal_with_fuel(blank_walk, 1);
                reveal_with_fuel(blank_walk, 1);
                                assert(move_views(moves@) + blank_walk(*board, *cross_checks, gb, horizontal, anchor_row, anchor_col, current_pos as int, old(rack)@, old(placed)@, prefix_letters@ + existing_suffix@, node.path(), i as int, j + 1) =~= move_views(m_j) + blank_walk(*board, *cross_checks, gb, horizontal, anchor_row, anchor_col, current_pos as int, old(rack)@, old(placed)@, prefix_letters@ + existing_suffix@, node.path(), i as int, j as int));
                            }
                        }
                        j = j + 1;
                    }
                    proof {
                        assert(move_views(moves@) =~= move_views(m_i) + blank_walk(*board, *cross_checks, gb, horizontal, anchor_row, anchor_col, current_pos as int, old(rack)@, old(placed)@, prefix_letters@ + existing_suffix@, node.path(), i as int, 0)) by {
                            reveal_with_fuel(right_walk, 1);
                reveal_with_fuel(right_walk, 1);
                reveal_with_fuel(rack_walk, 1);
                reveal_with_fuel(blank_walk, 1);
                reveal_with_fuel(blank_walk, 1);
                        }
                    }
                },
                Some(letter) => {
                    if bit_has(cc, letter) {
                        let upper_ch = to_upper(letter);
                        let upper = ((upper_ch as u32) % 256) as u8;
                        assert(upper == upper_byte(letter) as u8);
                        match node.follow(upper) {
                            Some(next) => {
                                let saved = rack[i];
                                let t = PlacedTile {
                                    row: r,
                                    col: c,
                                    tile: Tile::Letter(upper_ch, letter_points(letter)),
                                };
                                proof {
                                    lemma_placed_push(*board, placed@, horizontal, fixed, t);
                                    lemma_take_slot(rack@, slots, src, placed@, i as int, t);
                                    lemma_upper_twice(t.tile);
                                    if sound_walk(*cross_checks, dict.keys(), *board, horizontal, slots, gb, old(placed)@, old(moves)@) {
                                            assert(dict.keys() matches Some(ks) ==> cc == cross_mask(ks, *board, r as int, c as int, horizontal));
                                            lemma_tiles_pass_push(placed@, dict.keys(), *board, t, horizontal);
                                        }
                                    lemma_walk_place_step(*board, placed@, horizontal, fixed, s0, sr, current_pos as int, node.path(), t);
                                }
                                rack[i] = Some('\0');
                                placed.push(t);
                                let mut new_prefix = vstd::slice::slice_to_vec(prefix_letters);
                                append_chars(&mut new_prefix, existing_suffix);
                                new_prefix.push(upper_ch);
                                assert(new_prefix@ =~= (prefix_letters@ + existing_suffix@).push(upper_ch));
                                let ghost m_c = moves@;
                                extend_right(
                                    board,
                                    cross_checks,
                                    dict,
                                    rack,
                                    next,
                                    anchor_row,
                                    anchor_col,
                                    horizontal,
                                    current_pos + 1,
                                    placed,
                                    new_prefix.as_slice(),
                                    moves,
                                    Ghost(slots),
                                    Ghost(src.push(i as int)),
                                    Ghost(gb),
                                    Ghost(s0),
                                    Ghost(sr),
                                );
                                proof {
                                    lemma_extends_step(m_c, moves@, old(moves)@.len() as int, old(placed)@, t, horizontal, fixed, current_pos as int);
                                }
                                placed.pop();
                                rack[i] = saved;
                                assert(placed@ =~= old(placed)@);
                                assert(rack@ =~= old(rack)@);
                            },
                            None => {
                                proof {
                                    if let Some(ks) = fst_decode(gb) {
                                        if ks.contains(node.path().push(upper)) {
                                            crate::gaddag::lemma_key_live(ks, node.path().push(upper));
                                        }
                                    }
                                }
                            },
                        }
                    }
                },
            }
        } else {
            proof {
                lemma_nul_letter(cc);
            }
        }
        proof {
            assert(move_views(moves@) + rack_walk(*board, *cross_checks, gb, horizontal, anchor_row, anchor_col, current_pos as int, old(rack)@, old(placed)@, prefix_letters@ + existing_suffix@, node.path(), i + 1) =~= move_views(old(moves)@) + rack_walk(*board, *cross_checks, gb, horizontal, anchor_row, anchor_col, current_pos as int, old(rack)@, old(placed)@, prefix_letters@ + existing_suffix@, node.path(), 0)) by {
                reveal_with_fuel(right_walk, 1);
                reveal_with_fuel(rack_walk, 1);
                reveal_with_fuel(blank_walk, 1);
                assert(move_views(moves@) + rack_walk(*board, *cross_checks, gb, horizontal, anchor_row, anchor_col, current_pos as int, old(rack)@, old(placed)@, prefix_letters@ + existing_suffix@, node.path(), i + 1) =~= move_views(m_i) + rack_walk(*board, *cross_checks, gb, horizontal, anchor_row, anchor_col, current_pos as int, old(rack)@, old(placed)@, prefix_letters@ + existing_suffix@, node.path(), i as int));
            }
            assert(grows(old(moves)@, moves@));
            assert forall|i2: int| 0 <= i2 < i + 1 implies #[trigger] slot_recorded(old(rack)@, i2, *board, horizontal, anchor_row, anchor_col, current_pos, cc, gb, node.path(), prefix_letters@ + existing_suffix@, old(placed)@, moves@) by {
                if i2 < i {
                    lemma_slot_recorded_grows(old(rack)@, i2, *board, horizontal, anchor_row, anchor_col, current_pos, cc, gb, node.path(), prefix_letters@ + existing_suffix@, old(placed)@, m_i, moves@);
                }
            }
        }
        i = i + 1;
    }
    proof {
        assert(move_views(moves@) =~= move_views(old(moves)@) + rack_walk(*board, *cross_checks, gb, horizontal, anchor_row, anchor_col, current_pos as int, old(rack)@, old(placed)@, prefix_letters@ + existing_suffix@, node.path(), 0)) by {
            reveal_with_fuel(right_walk, 1);
                reveal_with_fuel(rack_walk, 1);
                reveal_with_fuel(blank_walk, 1);
        }
    }
}

/// Appends the characters of `more` to `out`.
fn append_chars(out: &mut Vec<char>, more: &[char])
    ensures
        final(out)@ == old(out)@ + more@,
{
    let mut k: usize = 0;
    while k < more.len()
        invariant
            k <= more@.len(),
            out@ == old(out)@ + more@.take(k as int),
        decreases more@.len() - k,
    {
        out.push(more[k]);
        k = k + 1;
        assert(out@ =~= old(out)@ + more@.take(k as int));
    }
    assert(more@.take(more@.len() as int) =~= more@);
}

/// Continue extending right when we've hit an existing board tile.
#[verifier::rlimit(60)]
fn extend_right_with_existing(
    board: &Board,
    cross_checks: &[[Option<u32>; 15]; 15],
    dict: &FstDictionary,
    rack: &mut Vec<Option<char>>,
    node: GaddagNode<'_>,
    anchor_row: usize,
    anchor_col: usize,
    horizontal: bool,
    current_pos: usize,
    placed: &mut Vec<PlacedTile>,
    prefix_letters: &[char],
    existing_suffix: &[char],
    moves: &mut Vec<CandidateMove>,
    Ghost(slots): Ghost<Seq<Option<char>>>,
    Ghost(src): Ghost<Seq<int>>,
    Ghost(gb): Ghost<Seq<u8>>,
    Ghost(s0): Ghost<int>,
    Ghost(sr): Ghost<int>,
)
    requires
        node.bytes() == gb,
        walk_state(
            *board,
            old(placed)@,
            horizontal,
            anchor_line(horizontal, anchor_row, anchor_col),
            s0,
            sr,
            current_pos as int,
            node.path(),
        ),
        marked(old(rack)@, slots, src),
        drawn_from(old(placed)@, slots, src),
        anchor_row < 15,
        anchor_col < 15,
        current_pos <= 15,
        old(placed)@.len() <= current_pos,
        placed_ok(*board, old(placed)@, horizontal, if horizontal { anchor_row as int } else { anchor_col as int }),
        forall|i: int| 0 <= i < old(placed)@.len() ==> coord(#[trigger] old(placed)@[i], dir(horizontal)) < current_pos,
    ensures
        final(rack)@ == old(rack)@,
        final(placed)@ == old(placed)@,
        move_views(final(moves)@) == move_views(old(moves)@) + right_walk(*board, *cross_checks, gb, horizontal, anchor_row, anchor_col, current_pos as int, old(rack)@, old(placed)@, prefix_letters@ + existing_suffix@, node.path()),
        sound_walk(*cross_checks, dict.keys(), *board, horizontal, slots, gb, old(placed)@, old(moves)@) ==> all_good(*board, slots, dict.keys(), gb, final(moves)@),
        grows(old(moves)@, final(moves)@),
        extends_from(final(moves)@, old(moves)@.len() as int, old(placed)@, horizontal, anchor_line(horizontal, anchor_row, anchor_col), current_pos as int),
        old(placed)@.len() > 0 && ends_at(*board, horizontal, anchor_line(horizontal, anchor_row, anchor_col), current_pos as int)
            && is_key(gb, node.path()) ==> has_move(final(moves)@, old(placed)@, prefix_letters@ + existing_suffix@),
        current_pos < 15 && free_at(*board, horizontal, anchor_line(horizontal, anchor_row, anchor_col), current_pos as int)
            ==> slots_recorded(
            old(rack)@,
            *board,
            horizontal,
            anchor_row,
            anchor_col,
            current_pos,
            mask_at(
                *cross_checks,
                square_of(horizontal, anchor_row, anchor_col, current_pos).0,
                square_of(horizontal, anchor_row, anchor_col, current_pos).1,
            ),
            gb,
            node.path(),
            prefix_letters@ + existing_suffix@,
            old(placed)@,
            final(moves)@),
    decreases 15 - current_pos, 1nat,
{
    let ghost fixed: int = if horizontal { anchor_row as int } else { anchor_col as int };
    let (r, c) = if horizontal {
        (anchor_row, current_pos)
    } else {
        (current_pos, anchor_col)
    };
    if r >= BOARD_SIZE || c >= BOARD_SIZE {
        if node.is_terminal() && placed.len() != 0 {
            proof {
                lemma_placed_collinear(*board, placed@, horizontal, fixed);
                if let Some(gks) = fst_decode(gb) {
                    lemma_walk_found(*board, placed@, horizontal, fixed, s0, sr, current_pos as int, node.path(), gks);
                }
            }
            record_move(board, placed.as_slice(), prefix_letters, existing_suffix, moves, Ghost(slots), Ghost(src), Ghost(dict.keys()), Ghost(gb), Ghost(horizontal));
            proof {
                assert(moves@[moves@.len() - 1].tiles@ == placed@);
                assert(placed@.subrange(0, placed@.len() as int) =~= placed@);
                assert(extends(moves@[moves@.len() - 1].tiles@, placed@, horizontal, fixed, current_pos as int));
            }
        }
        proof {
            lemma_walk_off(*board, *cross_checks, gb, horizontal, anchor_row, anchor_col, current_pos as int, old(rack)@, old(placed)@, prefix_letters@ + existing_suffix@, node.path());
            assert(move_views(moves@) =~= move_views(old(moves)@) + right_walk(*board, *cross_checks, gb, horizontal, anchor_row, anchor_col, current_pos as int, old(rack)@, old(placed)@, prefix_letters@ + existing_suffix@, node.path()));
        }
        return;
    }
    if board.is_occupied(r, c) {
        let letter = match board.get(r, c) {
            Some(t) => match t.letter() {
                Some(x) => x,
                None => '?',
            },
            None => '?',
        };
        let upper = ((to_upper(letter) as u32) % 256) as u8;
        proof {
            assert(upper == upper_byte(letter) as u8);
            assert(letter == board_char(*board, r as int, c as int));
            lemma_walk_board_step(*board, placed@, horizontal, fixed, s0, sr, current_pos as int, node.path());
        }
        match node.follow(upper) {
            Some(next) => {
                let mut new_suffix = vstd::slice::slice_to_vec(existing_suffix);
                new_suffix.push(letter);
                assert(prefix_letters@ + new_suffix@ =~= (prefix_letters@ + existing_suffix@).push(letter));
                extend_right_with_existing(
                    board,
                    cross_checks,
                    dict,
                    rack,
                    next,
                    anchor_row,
                    anchor_col,
                    horizontal,
                    current_pos + 1,
                    placed,
                    prefix_letters,
                    new_suffix.as_slice(),
                    moves,
                    Ghost(slots),
                    Ghost(src),
                    Ghost(gb),
                    Ghost(s0),
                    Ghost(sr),
                );
                proof {
                    lemma_extends_join(old(moves)@, moves@, old(moves)@.len() as int, placed@, horizontal, fixed, current_pos as int, current_pos + 1);
                }
            },
            None => {},
        }
        proof {
            lemma_walk_board(*board, *cross_checks, gb, horizontal, anchor_row, anchor_col, current_pos as int, old(rack)@, old(placed)@, prefix_letters@ + existing_suffix@, node.path());
            assert(move_views(moves@) =~= move_views(old(moves)@) + right_walk(*board, *cross_checks, gb, horizontal, anchor_row, anchor_col, current_pos as int, old(rack)@, old(placed)@, prefix_letters@ + existing_suffix@, node.path()));
        }
    } else {
        if node.is_terminal() && placed.len() != 0 {
            proof {
                lemma_placed_collinear(*board, placed@, horizontal, fixed);
                if let Some(gks) = fst_decode(gb) {
                    lemma_walk_found(*board, placed@, horizontal, fixed, s0, sr, current_pos as int, node.path(), gks);
                }
            }
            record_move(board, placed.as_slice(), prefix_letters, existing_suffix, moves, Ghost(slots), Ghost(src), Ghost(dict.keys()), Ghost(gb), Ghost(horizontal));
            proof {
                assert(moves@[moves@.len() - 1].tiles@ == placed@);
                assert(placed@.subrange(0, placed@.len() as int) =~= placed@);
                assert(extends(moves@[moves@.len() - 1].tiles@, placed@, horizontal, fixed, current_pos as int));
            }
        }
        let ghost mid = moves@;
        proof {
            assert(move_views(mid) =~= move_views(old(moves)@) + stop_walk(*board, gb, node.path(), placed@, prefix_letters@ + existing_suffix@));
        }
        let cc = allowed_at(cross_checks, r, c);
        place_from_rack(
            board,
            cross_checks,
            dict,
            rack,
            &node,
            anchor_row,
            anchor_col,
            horizontal,
            current_pos,
            placed,
            prefix_letters,
            existing_suffix,
            cc,
            moves,
            Ghost(slots),
            Ghost(src),
            Ghost(gb),
            Ghost(s0),
            Ghost(sr),
        );
        proof {
            if old(placed)@.len() > 0 && is_key(gb, node.path()) {
                lemma_has_move_grows(mid, moves@, placed@, prefix_letters@ + existing_suffix@);
            }
            lemma_extends_join(mid, moves@, old(moves)@.len() as int, placed@, horizontal, fixed, current_pos as int, current_pos as int);
            lemma_walk_free(*board, *cross_checks, gb, horizontal, anchor_row, anchor_col, current_pos as int, old(rack)@, old(placed)@, prefix_letters@ + existing_suffix@, node.path());
            assert(move_views(moves@) =~= move_views(old(moves)@) + right_walk(*board, *cross_checks, gb, horizontal, anchor_row, anchor_col, current_pos as int, old(rack)@, old(placed)@, prefix_letters@ + existing_suffix@, node.path()));
        }
    }
}


/// The line of an anchor in the flag's direction: its row across, its column down.
pub open spec fn anchor_line(h: bool, anchor_row: usize, anchor_col: usize) -> int {
    if h {
        anchor_row as int
    } else {
        anchor_col as int
    }
}

/// The position of the anchor along its line: its column across, its row down.
pub open spec fn anchor_position(h: bool, anchor_row: usize, anchor_col: usize) -> usize {
    if h {
        anchor_col
    } else {
        anchor_row
    }
}

/// No board tile stands at position `pos` of line `fixed`.
pub open spec fn free_at(b: Board, h: bool, fixed: int, pos: int) -> bool {
    !b.occupied(cell(dir(h), fixed, pos).0, cell(dir(h), fixed, pos).1)
}

/// Every move made from the GADDAG path `path` by putting further rack tiles on the squares
/// before the anchor, from the `lc`-th on and within `max_left` squares, then crossing to
/// the other side of the anchor and filling the line there, is among `ms`, after the tiles
/// `placed` and the letters `word`. A blank is tried as each letter.
/// The `j`-th capital letter.
pub open spec fn alpha(j: int) -> char {
    (65 + j) as char
}

pub open spec fn left_recorded(
    b: Board,
    checks: [[Option<u32>; 15]; 15],
    gb: Seq<u8>,
    h: bool,
    ar: usize,
    ac: usize,
    anchor_pos: int,
    lc: int,
    max_left: int,
    rack: Seq<Option<char>>,
    placed: Seq<PlacedTile>,
    word: Seq<char>,
    path: Seq<u8>,
    ms: Seq<CandidateMove>,
) -> bool
    decreases max_left - lc,
{
    &&& exts_recorded(b, checks, gb, h, ar, ac, anchor_pos + 1, rack, placed, word, path.push(SEPARATOR), ms)
    &&& if 0 <= lc < max_left {
        let rc = square_of(h, ar, ac, (anchor_pos - lc) as usize);
        let cc = mask_at(checks, rc.0, rc.1);
        &&& forall|i: int|
            #![trigger rack.update(i, Some('\0'))]
            0 <= i < rack.len() && rack[i] is Some && (cc & letter_bit_spec(rack[i]->0)) != 0 ==> left_recorded(
                b,
                checks,
                gb,
                h,
                ar,
                ac,
                anchor_pos,
                lc + 1,
                max_left,
                rack.update(i, Some('\0')),
                placed.push(
                    PlacedTile { row: rc.0, col: rc.1, tile: Tile::Letter(upper(rack[i]->0), letter_value(rack[i]->0)) },
                ),
                word.push(upper(rack[i]->0)),
                path.push(upper_byte(rack[i]->0) as u8),
                ms,
            )
        &&& forall|i: int, j: int|
            #![trigger rack.update(i, Some('\0')), alpha(j)]
            0 <= i < rack.len() && rack[i] is None && 0 <= j < 26 && (cc & letter_bit_spec(alpha(j))) != 0
                ==> left_recorded(
                b,
                checks,
                gb,
                h,
                ar,
                ac,
                anchor_pos,
                lc + 1,
                max_left,
                rack.update(i, Some('\0')),
                placed.push(PlacedTile { row: rc.0, col: rc.1, tile: Tile::Blank(Some(alpha(j))) }),
                word.push(alpha(j)),
                path.push((65 + j) as u8),
                ms,
            )
    } else {
        true
    }
}

/// The moves recorded through the part before the anchor stay recorded as the list grows.
proof fn lemma_left_grows(
    b: Board,
    checks: [[Option<u32>; 15]; 15],
    gb: Seq<u8>,
    h: bool,
    ar: usize,
    ac: usize,
    anchor_pos: int,
    lc: int,
    max_left: int,
    rack: Seq<Option<char>>,
    placed: Seq<PlacedTile>,
    word: Seq<char>,
    path: Seq<u8>,
    ms: Seq<CandidateMove>,
    ms2: Seq<CandidateMove>,
)
    requires
        left_recorded(b, checks, gb, h, ar, ac, anchor_pos, lc, max_left, rack, placed, word, path, ms),
        grows(ms, ms2),
    ensures
        left_recorded(b, checks, gb, h, ar, ac, anchor_pos, lc, max_left, rack, placed, word, path, ms2),
    decreases max_left - lc,
{
    lemma_exts_grows(b, checks, gb, h, ar, ac, anchor_pos + 1, rack, placed, word, path.push(SEPARATOR), ms, ms2);
    if 0 <= lc < max_left {
        let rc = square_of(h, ar, ac, (anchor_pos - lc) as usize);
        let cc = mask_at(checks, rc.0, rc.1);
        assert forall|i: int|
            #![trigger rack.update(i, Some('\0'))]
            0 <= i < rack.len() && rack[i] is Some && (cc & letter_bit_spec(rack[i]->0)) != 0 implies left_recorded(
                b,
                checks,
                gb,
                h,
                ar,
                ac,
                anchor_pos,
                lc + 1,
                max_left,
                rack.update(i, Some('\0')),
                placed.push(
                    PlacedTile { row: rc.0, col: rc.1, tile: Tile::Letter(upper(rack[i]->0), letter_value(rack[i]->0)) },
                ),
                word.push(upper(rack[i]->0)),
                path.push(upper_byte(rack[i]->0) as u8),
                ms2,
            ) by {
            lemma_left_grows(
                b,
                checks,
                gb,
                h,
                ar,
                ac,
                anchor_pos,
                lc + 1,
                max_left,
                rack.update(i, Some('\0')),
                placed.push(
                    PlacedTile { row: rc.0, col: rc.1, tile: Tile::Letter(upper(rack[i]->0), letter_value(rack[i]->0)) },
                ),
                word.push(upper(rack[i]->0)),
                path.push(upper_byte(rack[i]->0) as u8),
                ms,
                ms2,
            );
        }
        assert forall|i: int, j: int|
            #![trigger rack.update(i, Some('\0')), alpha(j)]
            0 <= i < rack.len() && rack[i] is None && 0 <= j < 26 && (cc & letter_bit_spec(alpha(j))) != 0
                implies left_recorded(
                b,
                checks,
                gb,
                h,
                ar,
                ac,
                anchor_pos,
                lc + 1,
                max_left,
                rack.update(i, Some('\0')),
                placed.push(PlacedTile { row: rc.0, col: rc.1, tile: Tile::Blank(Some(alpha(j))) }),
                word.push(alpha(j)),
                path.push((65 + j) as u8),
                ms2,
            ) by {
            lemma_left_grows(
                b,
                checks,
                gb,
                h,
                ar,
                ac,
                anchor_pos,
                lc + 1,
                max_left,
                rack.update(i, Some('\0')),
                placed.push(PlacedTile { row: rc.0, col: rc.1, tile: Tile::Blank(Some(alpha(j))) }),
                word.push(alpha(j)),
                path.push((65 + j) as u8),
                ms,
                ms2,
            );
        }
    }
}

/// From a path no entry begins with, nothing further is an entry: every move through the
/// part before the anchor is vacuously recorded.
proof fn lemma_left_dead(
    b: Board,
    checks: [[Option<u32>; 15]; 15],
    gb: Seq<u8>,
    h: bool,
    ar: usize,
    ac: usize,
    anchor_pos: int,
    lc: int,
    max_left: int,
    rack: Seq<Option<char>>,
    placed: Seq<PlacedTile>,
    word: Seq<char>,
    path: Seq<u8>,
    ms: Seq<CandidateMove>,
)
    requires
        fst_decode(gb) matches Some(ks) ==> !live(ks, path),
    ensures
        left_recorded(b, checks, gb, h, ar, ac, anchor_pos, lc, max_left, rack, placed, word, path, ms),
    decreases max_left - lc,
{
    assert forall|u: u8| fst_decode(gb) matches Some(ks) ==> !live(ks, #[trigger] path.push(u)) by {
        if let Some(ks) = fst_decode(gb) {
            if live(ks, path.push(u)) {
                assert(path.is_prefix_of(path.push(u)));
                crate::gaddag::lemma_live_prefix(ks, path, path.push(u));
            }
        }
    }
    lemma_exts_dead(b, checks, gb, h, ar, ac, anchor_pos + 1, rack, placed, word, path.push(SEPARATOR), ms);
    if 0 <= lc < max_left {
        let rc = square_of(h, ar, ac, (anchor_pos - lc) as usize);
        let cc = mask_at(checks, rc.0, rc.1);
        assert forall|i: int|
            #![trigger rack.update(i, Some('\0'))]
            0 <= i < rack.len() && rack[i] is Some && (cc & letter_bit_spec(rack[i]->0)) != 0 implies left_recorded(
                b,
                checks,
                gb,
                h,
                ar,
                ac,
                anchor_pos,
                lc + 1,
                max_left,
                rack.update(i, Some('\0')),
                placed.push(
                    PlacedTile { row: rc.0, col: rc.1, tile: Tile::Letter(upper(rack[i]->0), letter_value(rack[i]->0)) },
                ),
                word.push(upper(rack[i]->0)),
                path.push(upper_byte(rack[i]->0) as u8),
                ms,
            ) by {
            lemma_left_dead(
                b,
                checks,
                gb,
                h,
                ar,
                ac,
                anchor_pos,
                lc + 1,
                max_left,
                rack.update(i, Some('\0')),
                placed.push(
                    PlacedTile { row: rc.0, col: rc.1, tile: Tile::Letter(upper(rack[i]->0), letter_value(rack[i]->0)) },
                ),
                word.push(upper(rack[i]->0)),
                path.push(upper_byte(rack[i]->0) as u8),
                ms,
            );
        }
        assert forall|i: int, j: int|
            #![trigger rack.update(i, Some('\0')), alpha(j)]
            0 <= i < rack.len() && rack[i] is None && 0 <= j < 26 && (cc & letter_bit_spec(alpha(j))) != 0
                implies left_recorded(
                b,
                checks,
                gb,
                h,
                ar,
                ac,
                anchor_pos,
                lc + 1,
                max_left,
                rack.update(i, Some('\0')),
                placed.push(PlacedTile { row: rc.0, col: rc.1, tile: Tile::Blank(Some(alpha(j))) }),
                word.push(alpha(j)),
                path.push((65 + j) as u8),
                ms,
            ) by {
            lemma_left_dead(
                b,
                checks,
                gb,
                h,
                ar,
                ac,
                anchor_pos,
                lc + 1,
                max_left,
                rack.update(i, Some('\0')),
                placed.push(PlacedTile { row: rc.0, col: rc.1, tile: Tile::Blank(Some(alpha(j))) }),
                word.push(alpha(j)),
                path.push((65 + j) as u8),
                ms,
            );
        }
    }
}

/// Recursively extend leftward/upward from the anchor, building the GADDAG prefix.
fn gen_left(
    board: &Board,
    cross_checks: &[[Option<u32>; 15]; 15],
    gaddag: &Gaddag,
    dict: &FstDictionary,
    rack: &mut Vec<Option<char>>,
    node: GaddagNode<'_>,
    anchor_row: usize,
    anchor_col: usize,
    horizontal: bool,
    anchor_pos: usize,
    left_count: usize,
    max_left: usize,
    placed: &mut Vec<PlacedTile>,
    prefix_letters: &mut Vec<char>,
    moves: &mut Vec<CandidateMove>,
    Ghost(slots): Ghost<Seq<Option<char>>>,
    Ghost(src): Ghost<Seq<int>>,
    Ghost(gb): Ghost<Seq<u8>>,
)
    requires
        node.bytes() == gb,
        node.path() == Seq::new(left_count as nat, |k: int| upper_byte(shown_char(old(placed)@[k].tile)) as u8),
        forall|k: int|
            0 <= k < old(placed)@.len() ==> coord(#[trigger] old(placed)@[k], dir(horizontal)) == anchor_pos - k,
        anchor_pos + 1 == max_left || free_at(*board, horizontal, anchor_line(horizontal, anchor_row, anchor_col), anchor_pos - max_left),
        marked(old(rack)@, slots, src),
        drawn_from(old(placed)@, slots, src),
        checks_hold(*cross_checks, dict.keys(), *board, horizontal),
        tiles_pass(old(placed)@, dict.keys(), *board, horizontal),
        anchor_row < 15,
        anchor_col < 15,
        anchor_pos == if horizontal { anchor_col } else { anchor_row },
        left_count <= max_left <= anchor_pos + 1,
        forall|p: int|
            anchor_pos - max_left < p <= anchor_pos ==> #[trigger] free_at(
                *board,
                horizontal,
                anchor_line(horizontal, anchor_row, anchor_col),
                p,
            ),
        old(placed)@.len() == left_count,
        placed_ok(*board, old(placed)@, horizontal, if horizontal { anchor_row as int } else { anchor_col as int }),
        forall|i: int|
            0 <= i < old(placed)@.len() ==> anchor_pos - left_count < coord(#[trigger] old(placed)@[i], dir(horizontal))
                <= anchor_pos,
        all_good(*board, slots, dict.keys(), gb, old(moves)@),
    ensures
        final(rack)@ == old(rack)@,
        final(placed)@ == old(placed)@,
        final(prefix_letters)@ == old(prefix_letters)@,
        all_good(*board, slots, dict.keys(), gb, final(moves)@),
        grows(old(moves)@, final(moves)@),
        old(placed)@.len() > 0 && is_key(gb, node.path().push(SEPARATOR)) && ends_at(
            *board,
            horizontal,
            anchor_line(horizontal, anchor_row, anchor_col),
            anchor_pos + 1,
        ) ==> has_move(final(moves)@, old(placed)@, old(prefix_letters)@),
        anchor_pos + 1 < 15 && free_at(*board, horizontal, anchor_line(horizontal, anchor_row, anchor_col), anchor_pos + 1)
            ==> slots_recorded(
            old(rack)@,
            *board,
            horizontal,
            anchor_row,
            anchor_col,
            (anchor_pos + 1) as usize,
            mask_at(
                *cross_checks,
                square_of(horizontal, anchor_row, anchor_col, (anchor_pos + 1) as usize).0,
                square_of(horizontal, anchor_row, anchor_col, (anchor_pos + 1) as usize).1,
            ),
            gb,
            node.path().push(SEPARATOR),
            old(prefix_letters)@,
            old(placed)@,
            final(moves)@),
        exts_recorded(*board, *cross_checks, gb, horizontal, anchor_row, anchor_col, anchor_pos + 1, old(rack)@, old(placed)@, old(prefix_letters)@, node.path().push(SEPARATOR), final(moves)@),
        left_recorded(*board, *cross_checks, gb, horizontal, anchor_row, anchor_col, anchor_pos as int, left_count as int, max_left as int, old(rack)@, old(placed)@, old(prefix_letters)@, node.path(), final(moves)@),
        left_count < max_left ==> forall|i: int|
            0 <= i < old(rack)@.len() ==> #[trigger] pair_recorded(
                old(rack)@,
                i,
                *board,
                horizontal,
                anchor_row,
                anchor_col,
                (anchor_pos - left_count) as usize,
                anchor_pos,
                *cross_checks,
                gb,
                node.path(),
                old(prefix_letters)@,
                old(placed)@,
                final(moves)@),
    decreases max_left - left_count,
{
    let ghost fixed: int = anchor_line(horizontal, anchor_row, anchor_col);
    match node.follow(SEPARATOR) {
        Some(sep_node) => {
            let right_start = anchor_pos + 1;
            proof {
                lemma_left_walk(
                    *board,
                    placed@,
                    horizontal,
                    fixed,
                    anchor_pos as int,
                    max_left as int,
                    node.path(),
                );
            }
            extend_right(
                board,
                cross_checks,
                dict,
                rack,
                sep_node,
                anchor_row,
                anchor_col,
                horizontal,
                right_start,
                placed,
                prefix_letters.as_slice(),
                moves,
                Ghost(slots),
                Ghost(src),
                Ghost(gb),
                Ghost(anchor_pos + 1 - left_count),
                Ghost(anchor_pos + 1),
            );
            proof {
                lemma_walk_recorded(*board, *cross_checks, gb, horizontal, anchor_row, anchor_col, anchor_pos + 1, old(rack)@, old(placed)@, old(prefix_letters)@, node.path().push(SEPARATOR), old(moves)@, moves@);
            }
        },
        None => {
            proof {
                let nx = square_of(horizontal, anchor_row, anchor_col, (anchor_pos + 1) as usize);
                lemma_exts_dead(*board, *cross_checks, gb, horizontal, anchor_row, anchor_col, anchor_pos + 1, old(rack)@, old(placed)@, old(prefix_letters)@, node.path().push(SEPARATOR), moves@);
                lemma_slots_dead(
                    rack@,
                    *board,
                    horizontal,
                    anchor_row,
                    anchor_col,
                    (anchor_pos + 1) as usize,
                    mask_at(*cross_checks, nx.0, nx.1),
                    gb,
                    node.path().push(SEPARATOR),
                    old(prefix_letters)@,
                    placed@,
                    moves@);
                if let Some(ks) = fst_decode(gb) {
                    if ks.contains(node.path().push(SEPARATOR)) {
                        crate::gaddag::lemma_key_live(ks, node.path().push(SEPARATOR));
                    }
                }
            }
        },
    }
    let ghost m_sep = moves@;
    if left_count >= max_left {
        proof {
            assert(left_recorded(*board, *cross_checks, gb, horizontal, anchor_row, anchor_col, anchor_pos as int, left_count as int, max_left as int, old(rack)@, old(placed)@, old(prefix_letters)@, node.path(), moves@));
        }
        return;
    }
    let left_pos = anchor_pos - left_count;
    let (r, c) = if horizontal {
        (anchor_row, left_pos)
    } else {
        (left_pos, anchor_col)
    };
    proof {
        assert(free_at(*board, horizontal, fixed, anchor_pos - left_count));
    }
    let cc = allowed_at(cross_checks, r, c);
    let rack_len = rack.len();
    let mut i: usize = 0;
    while i < rack_len
        invariant
            rack_len == rack@.len() == old(rack)@.len(),
            rack@ == old(rack)@,
            placed@ == old(placed)@,
            prefix_letters@ == old(prefix_letters)@,
            i <= rack_len,
            anchor_row < 15,
            anchor_col < 15,
            anchor_pos == if horizontal { anchor_col } else { anchor_row },
            left_count < max_left <= anchor_pos + 1,
            left_pos == anchor_pos - left_count,
            r == if horizontal { anchor_row } else { left_pos },
            c == if horizontal { left_pos } else { anchor_col },
            fixed == if horizontal { anchor_row as int } else { anchor_col as int },
            forall|p: int| anchor_pos - max_left < p <= anchor_pos ==> #[trigger] free_at(*board, horizontal, fixed, p),
            !board.occupied(r as int, c as int),
            placed@.len() == left_count,
            placed_ok(*board, placed@, horizontal, fixed),
            forall|k: int|
                0 <= k < placed@.len() ==> anchor_pos - left_count < coord(#[trigger] placed@[k], dir(horizontal))
                    <= anchor_pos,
            all_good(*board, slots, dict.keys(), gb, moves@),
            marked(old(rack)@, slots, src),
            drawn_from(old(placed)@, slots, src),
            checks_hold(*cross_checks, dict.keys(), *board, horizontal),
            tiles_pass(old(placed)@, dict.keys(), *board, horizontal),
            node.bytes() == gb,
            node.path() == Seq::new(left_count as nat, |k: int| upper_byte(shown_char(placed@[k].tile)) as u8),
            forall|k: int| 0 <= k < placed@.len() ==> coord(#[trigger] placed@[k], dir(horizontal)) == anchor_pos - k,
            anchor_pos + 1 == max_left || free_at(*board, horizontal, fixed, anchor_pos - max_left),
            dict.keys() matches Some(ks) ==> cc == cross_mask(ks, *board, r as int, c as int, horizontal),
            cc == mask_at(*cross_checks, r, c),
            grows(old(moves)@, m_sep),
            grows(m_sep, moves@),
            forall|i2: int| 0 <= i2 < i ==> #[trigger] pair_recorded(
                old(rack)@,
                i2,
                *board,
                horizontal,
                anchor_row,
                anchor_col,
                left_pos,
                anchor_pos,
                *cross_checks,
                gb,
                node.path(),
                old(prefix_letters)@,
                old(placed)@,
                moves@),
            square_of(horizontal, anchor_row, anchor_col, (anchor_pos as int - left_count as int) as usize) == (r, c),
            forall|i2: int| #![trigger old(rack)@.update(i2, Some('\0'))] 0 <= i2 < i && old(rack)@[i2] is Some && (cc & letter_bit_spec(old(rack)@[i2]->0)) != 0 ==> left_recorded(*board, *cross_checks, gb, horizontal, anchor_row, anchor_col, anchor_pos as int, left_count + 1, max_left as int, old(rack)@.update(i2, Some('\0')), old(placed)@.push(PlacedTile { row: r, col: c, tile: Tile::Letter(upper(old(rack)@[i2]->0), letter_value(old(rack)@[i2]->0)) }), old(prefix_letters)@.push(upper(old(rack)@[i2]->0)), node.path().push(upper_byte(old(rack)@[i2]->0) as u8), moves@),
            forall|i2: int, j2: int| #![trigger old(rack)@.update(i2, Some('\0')), alpha(j2)] 0 <= i2 < i && old(rack)@[i2] is None && 0 <= j2 < 26 && (cc & letter_bit_spec(alpha(j2))) != 0 ==> left_recorded(*board, *cross_checks, gb, horizontal, anchor_row, anchor_col, anchor_pos as int, left_count + 1, max_left as int, old(rack)@.update(i2, Some('\0')), old(placed)@.push(PlacedTile { row: r, col: c, tile: Tile::Blank(Some(alpha(j2))) }), old(prefix_letters)@.push(alpha(j2)), node.path().push((65 + j2) as u8), moves@),
        decreases rack_len - i,
    {
        let ghost m_i = moves@;
        let tile = rack[i];
        match tile {
            None => {
                let mut j: u8 = 0;
                while j < 26
                    invariant
                        j <= 26,
                        i < rack_len == rack@.len(),
                        rack@ == old(rack)@,
                        rack@[i as int] is None,
                        placed@ == old(placed)@,
                        prefix_letters@ == old(prefix_letters)@,
                        anchor_row < 15,
                        anchor_col < 15,
                        anchor_pos == if horizontal { anchor_col } else { anchor_row },
                        left_count < max_left <= anchor_pos + 1,
                        left_pos == anchor_pos - left_count,
                        r == if horizontal { anchor_row } else { left_pos },
                        c == if horizontal { left_pos } else { anchor_col },
                        fixed == if horizontal { anchor_row as int } else { anchor_col as int },
                        forall|p: int| anchor_pos - max_left < p <= anchor_pos ==> #[trigger] free_at(*board, horizontal, fixed, p),
                        !board.occupied(r as int, c as int),
                        placed@.len() == left_count,
                        placed_ok(*board, placed@, horizontal, fixed),
                        forall|k: int|
                            0 <= k < placed@.len() ==> anchor_pos - left_count < coord(#[trigger] placed@[k], dir(horizontal))
                                <= anchor_pos,
                        all_good(*board, slots, dict.keys(), gb, moves@),
                        marked(old(rack)@, slots, src),
                        drawn_from(old(placed)@, slots, src),
                        checks_hold(*cross_checks, dict.keys(), *board, horizontal),
                        tiles_pass(old(placed)@, dict.keys(), *board, horizontal),
                        node.bytes() == gb,
                        node.path() == Seq::new(left_count as nat, |k: int| upper_byte(shown_char(placed@[k].tile)) as u8),
                        forall|k: int| 0 <= k < placed@.len() ==> coord(#[trigger] placed@[k], dir(horizontal)) == anchor_pos - k,
                        anchor_pos + 1 == max_left || free_at(*board, horizontal, fixed, anchor_pos - max_left),
                        dict.keys() matches Some(ks) ==> cc == cross_mask(ks, *board, r as int, c as int, horizontal),
                        grows(old(moves)@, m_sep),
                        grows(m_sep, m_i),
                        grows(m_i, moves@),
                        forall|i2: int| 0 <= i2 < i ==> #[trigger] pair_recorded(
                old(rack)@,
                i2,
                *board,
                horizontal,
                anchor_row,
                anchor_col,
                left_pos,
                anchor_pos,
                *cross_checks,
                gb,
                node.path(),
                old(prefix_letters)@,
                old(placed)@,
                m_i),
                        cc == mask_at(*cross_checks, r, c),
                        forall|j2: u8| j2 < j ==> #[trigger] blank_pair_recorded(
                            old(rack)@,
                            i as int,
                            *board,
                            horizontal,
                            anchor_row,
                            anchor_col,
                            left_pos,
                            anchor_pos,
                            *cross_checks,
                            gb,
                            node.path(),
                            old(prefix_letters)@,
                            old(placed)@,
                            j2,
                            moves@,
                        ),
                        forall|i2: int| #![trigger old(rack)@.update(i2, Some('\0'))] 0 <= i2 < i && old(rack)@[i2] is Some && (cc & letter_bit_spec(old(rack)@[i2]->0)) != 0 ==> left_recorded(*board, *cross_checks, gb, horizontal, anchor_row, anchor_col, anchor_pos as int, left_count + 1, max_left as int, old(rack)@.update(i2, Some('\0')), old(placed)@.push(PlacedTile { row: r, col: c, tile: Tile::Letter(upper(old(rack)@[i2]->0), letter_value(old(rack)@[i2]->0)) }), old(prefix_letters)@.push(upper(old(rack)@[i2]->0)), node.path().push(upper_byte(old(rack)@[i2]->0) as u8), m_i),
                        forall|i2: int, j2: int| #![trigger old(rack)@.update(i2, Some('\0')), alpha(j2)] 0 <= i2 < i && old(rack)@[i2] is None && 0 <= j2 < 26 && (cc & letter_bit_spec(alpha(j2))) != 0 ==> left_recorded(*board, *cross_checks, gb, horizontal, anchor_row, anchor_col, anchor_pos as int, left_count + 1, max_left as int, old(rack)@.update(i2, Some('\0')), old(placed)@.push(PlacedTile { row: r, col: c, tile: Tile::Blank(Some(alpha(j2))) }), old(prefix_letters)@.push(alpha(j2)), node.path().push((65 + j2) as u8), m_i),
                        forall|j2: int| #![trigger alpha(j2)] 0 <= j2 < j && (cc & letter_bit_spec(alpha(j2))) != 0 ==> left_recorded(*board, *cross_checks, gb, horizontal, anchor_row, anchor_col, anchor_pos as int, left_count + 1, max_left as int, old(rack)@.update(i as int, Some('\0')), old(placed)@.push(PlacedTile { row: r, col: c, tile: Tile::Blank(Some(alpha(j2))) }), old(prefix_letters)@.push(alpha(j2)), node.path().push((65 + j2) as u8), moves@),
                    decreases 26 - j,
                {
                    let ghost m_j = moves@;
                    let ch = 65u8 + j;
                    let letter = ch as char;
                    if bit_has(cc, letter) {
                        match node.follow(ch) {
                            Some(next) => {
                                let t = PlacedTile { row: r, col: c, tile: Tile::Blank(Some(letter)) };
                                proof {
                                    lemma_placed_push(*board, placed@, horizontal, fixed, t);
                                    lemma_take_slot(rack@, slots, src, placed@, i as int, t);
                                    lemma_upper_twice(t.tile);
                                    lemma_tiles_pass_push(placed@, dict.keys(), *board, t, horizontal);
                                }
                                rack[i] = Some('\0');
                                let ghost prev = placed@;
                                placed.push(t);
                                proof {
                                    assert(placed@[left_count as int] == t);
                                    assert forall|k: int| 0 <= k < left_count implies placed@[k] == prev[k] by {}
                                    assert(Seq::new((left_count + 1) as nat, |k: int| upper_byte(shown_char(placed@[k].tile)) as u8)
                                        =~= node.path().push(ch));
                                }
                                prefix_letters.push(letter);
                                gen_left(
                                    board,
                                    cross_checks,
                                    gaddag,
                                    dict,
                                    rack,
                                    next,
                                    anchor_row,
                                    anchor_col,
                                    horizontal,
                                    anchor_pos,
                                    left_count + 1,
                                    max_left,
                                    placed,
                                    prefix_letters,
                                    moves,
                                    Ghost(slots),
                                    Ghost(src.push(i as int)),
                                    Ghost(gb),
                                );
                                prefix_letters.pop();
                                placed.pop();
                                rack[i] = None;
                                assert(placed@ =~= old(placed)@);
                                assert(prefix_letters@ =~= old(prefix_letters)@);
                                assert(rack@ =~= old(rack)@);
                            },
                            None => {
                                proof {
                                    let nx = square_of(horizontal, anchor_row, anchor_col, (anchor_pos + 1) as usize);
                                    let p1 = node.path().push(ch);
                                    lemma_left_dead(*board, *cross_checks, gb, horizontal, anchor_row, anchor_col, anchor_pos as int, left_count + 1, max_left as int, old(rack)@.update(i as int, Some('\0')), old(placed)@.push(PlacedTile { row: r, col: c, tile: Tile::Blank(Some(letter)) }), old(prefix_letters)@.push(letter), p1, moves@);
                                    if let Some(ks) = fst_decode(gb) {
                                        if crate::fst_set::live(ks, p1.push(SEPARATOR)) {
                                            assert(p1.is_prefix_of(p1.push(SEPARATOR)));
                                            crate::gaddag::lemma_live_prefix(ks, p1, p1.push(SEPARATOR));
                                        }
                                    }
                                    lemma_exts_dead(
                                        *board,
                                        *cross_checks,
                                        gb,
                                        horizontal,
                                        anchor_row,
                                        anchor_col,
                                        anchor_pos + 1,
                                        old(rack)@.update(i as int, Some('\0')),
                                        old(placed)@.push(PlacedTile { row: r, col: c, tile: Tile::Blank(Some(letter)) }),
                                        old(prefix_letters)@.push(letter),
                                        p1.push(SEPARATOR),
                                        moves@,
                                    );
                                    lemma_slots_dead(
                                        old(rack)@.update(i as int, Some('\0')),
                                        *board,
                                        horizontal,
                                        anchor_row,
                                        anchor_col,
                                        (anchor_pos + 1) as usize,
                                        mask_at(*cross_checks, nx.0, nx.1),
                                        gb,
                                        p1.push(SEPARATOR),
                                        old(prefix_letters)@.push(letter),
                                        old(placed)@.push(PlacedTile { row: r, col: c, tile: Tile::Blank(Some(letter)) }),
                                        moves@,
                                    );
                                }
                            },
                        }
                    }
                    proof {
                        assert forall|j2: u8| j2 < j + 1 implies #[trigger] blank_pair_recorded(
                            old(rack)@,
                            i as int,
                            *board,
                            horizontal,
                            anchor_row,
                            anchor_col,
                            left_pos,
                            anchor_pos,
                            *cross_checks,
                            gb,
                            node.path(),
                            old(prefix_letters)@,
                            old(placed)@,
                            j2,
                            moves@,
                        ) by {
                            if j2 < j {
                                lemma_blank_pair_grows(
                                    old(rack)@,
                                    i as int,
                                    *board,
                                    horizontal,
                                    anchor_row,
                                    anchor_col,
                                    left_pos,
                                    anchor_pos,
                                    *cross_checks,
                                    gb,
                                    node.path(),
                                    old(prefix_letters)@,
                                    old(placed)@,
                                    j2,
                                    m_j,
                                    moves@,
                                );
                            }
                        }
                    }
                    proof {
                        assert(letter == alpha(j as int));
                        assert forall|j2: int| #![trigger alpha(j2)] 0 <= j2 < j + 1 && (cc & letter_bit_spec(alpha(j2))) != 0 implies left_recorded(*board, *cross_checks, gb, horizontal, anchor_row, anchor_col, anchor_pos as int, left_count + 1, max_left as int, old(rack)@.update(i as int, Some('\0')), old(placed)@.push(PlacedTile { row: r, col: c, tile: Tile::Blank(Some(alpha(j2))) }), old(prefix_letters)@.push(alpha(j2)), node.path().push((65 + j2) as u8), moves@) by {
                            if j2 < j {
                                lemma_left_grows(*board, *cross_checks, gb, horizontal, anchor_row, anchor_col, anchor_pos as int, left_count + 1, max_left as int, old(rack)@.update(i as int, Some('\0')), old(placed)@.push(PlacedTile { row: r, col: c, tile: Tile::Blank(Some(alpha(j2))) }), old(prefix_letters)@.push(alpha(j2)), node.path().push((65 + j2) as u8), m_j, moves@);
                            }
                        }
                    }
                    j = j + 1;
                }
            },
            Some(letter) => {
                if bit_has(cc, letter) {
                    let upper_ch = to_upper(letter);
                    let upper = ((upper_ch as u32) % 256) as u8;
                    assert(upper == upper_byte(letter) as u8);
                    match node.follow(upper) {
                        Some(next) => {
                            let saved = rack[i];
                            let t = PlacedTile {
                                row: r,
                                col: c,
                                tile: Tile::Letter(upper_ch, letter_points(letter)),
                            };
                            proof {
                                lemma_nul_letter(cc);
                                lemma_placed_push(*board, placed@, horizontal, fixed, t);
                                lemma_take_slot(rack@, slots, src, placed@, i as int, t);
                                    lemma_upper_twice(t.tile);
                                    lemma_tiles_pass_push(placed@, dict.keys(), *board, t, horizontal);
                            }
                            rack[i] = Some('\0');
                            let ghost prev = placed@;
                            placed.push(t);
                            proof {
                                assert(placed@[left_count as int] == t);
                                assert forall|k: int| 0 <= k < left_count implies placed@[k] == prev[k] by {}
                                assert(Seq::new((left_count + 1) as nat, |k: int| upper_byte(shown_char(placed@[k].tile)) as u8)
                                    =~= node.path().push(upper));
                            }
                            prefix_letters.push(upper_ch);
                            gen_left(
                                board,
                                cross_checks,
                                gaddag,
                                dict,
                                rack,
                                next,
                                anchor_row,
                                anchor_col,
                                horizontal,
                                anchor_pos,
                                left_count + 1,
                                max_left,
                                placed,
                                prefix_letters,
                                moves,
                                Ghost(slots),
                                Ghost(src.push(i as int)),
                                Ghost(gb),
                            );
                            prefix_letters.pop();
                            placed.pop();
                            rack[i] = saved;
                            assert(placed@ =~= old(placed)@);
                            assert(prefix_letters@ =~= old(prefix_letters)@);
                            assert(rack@ =~= old(rack)@);
                        },
                        None => {
                            proof {
                                let nx = square_of(horizontal, anchor_row, anchor_col, (anchor_pos + 1) as usize);
                                let p1 = node.path().push(upper);
                                lemma_left_dead(*board, *cross_checks, gb, horizontal, anchor_row, anchor_col, anchor_pos as int, left_count + 1, max_left as int, old(rack)@.update(i as int, Some('\0')), old(placed)@.push(PlacedTile { row: r, col: c, tile: Tile::Letter(crate::text::upper(letter), letter_value(letter)) }), old(prefix_letters)@.push(crate::text::upper(letter)), p1, moves@);
                                if let Some(ks) = fst_decode(gb) {
                                    if crate::fst_set::live(ks, p1.push(SEPARATOR)) {
                                        assert(p1.is_prefix_of(p1.push(SEPARATOR)));
                                        crate::gaddag::lemma_live_prefix(ks, p1, p1.push(SEPARATOR));
                                    }
                                }
                                lemma_exts_dead(
                                    *board,
                                    *cross_checks,
                                    gb,
                                    horizontal,
                                    anchor_row,
                                    anchor_col,
                                    anchor_pos + 1,
                                    old(rack)@.update(i as int, Some('\0')),
                                    old(placed)@.push(PlacedTile { row: r, col: c, tile: Tile::Letter(crate::text::upper(letter), letter_value(letter)) }),
                                    old(prefix_letters)@.push(crate::text::upper(letter)),
                                    p1.push(SEPARATOR),
                                    moves@,
                                );
                                lemma_slots_dead(
                                    old(rack)@.update(i as int, Some('\0')),
                                    *board,
                                    horizontal,
                                    anchor_row,
                                    anchor_col,
                                    (anchor_pos + 1) as usize,
                                    mask_at(*cross_checks, nx.0, nx.1),
                                    gb,
                                    p1.push(SEPARATOR),
                                    old(prefix_letters)@.push(crate::text::upper(letter)),
                                    old(placed)@.push(PlacedTile { row: r, col: c, tile: Tile::Letter(crate::text::upper(letter), letter_value(letter)) }),
                                    moves@);
                            }
                        },
                    }
                } else {
                    proof {
                        assert(!((cc & letter_bit_spec(letter)) != 0));
                    }
                }
            },
        }
        proof {
            assert forall|i2: int| 0 <= i2 < i + 1 implies #[trigger] pair_recorded(
                old(rack)@,
                i2,
                *board,
                horizontal,
                anchor_row,
                anchor_col,
                left_pos,
                anchor_pos,
                *cross_checks,
                gb,
                node.path(),
                old(prefix_letters)@,
                old(placed)@,
                moves@) by {
                if i2 < i {
                    lemma_pair_recorded_grows(
                        old(rack)@,
                        i2,
                        *board,
                        horizontal,
                        anchor_row,
                        anchor_col,
                        left_pos,
                        anchor_pos,
                        *cross_checks,
                        gb,
                        node.path(),
                        old(prefix_letters)@,
                        old(placed)@,
                        m_i,
                        moves@);
                }
            }
        }
        proof {
            assert forall|i2: int| #![trigger old(rack)@.update(i2, Some('\0'))] 0 <= i2 < i + 1 && old(rack)@[i2] is Some && (cc & letter_bit_spec(old(rack)@[i2]->0)) != 0 implies left_recorded(*board, *cross_checks, gb, horizontal, anchor_row, anchor_col, anchor_pos as int, left_count + 1, max_left as int, old(rack)@.update(i2, Some('\0')), old(placed)@.push(PlacedTile { row: r, col: c, tile: Tile::Letter(upper(old(rack)@[i2]->0), letter_value(old(rack)@[i2]->0)) }), old(prefix_letters)@.push(upper(old(rack)@[i2]->0)), node.path().push(upper_byte(old(rack)@[i2]->0) as u8), moves@) by {
                if i2 < i {
                    lemma_left_grows(*board, *cross_checks, gb, horizontal, anchor_row, anchor_col, anchor_pos as int, left_count + 1, max_left as int, old(rack)@.update(i2, Some('\0')), old(placed)@.push(PlacedTile { row: r, col: c, tile: Tile::Letter(upper(old(rack)@[i2]->0), letter_value(old(rack)@[i2]->0)) }), old(prefix_letters)@.push(upper(old(rack)@[i2]->0)), node.path().push(upper_byte(old(rack)@[i2]->0) as u8), m_i, moves@);
                }
            }
            assert forall|i2: int, j2: int| #![trigger old(rack)@.update(i2, Some('\0')), alpha(j2)] 0 <= i2 < i + 1 && old(rack)@[i2] is None && 0 <= j2 < 26 && (cc & letter_bit_spec(alpha(j2))) != 0 implies left_recorded(*board, *cross_checks, gb, horizontal, anchor_row, anchor_col, anchor_pos as int, left_count + 1, max_left as int, old(rack)@.update(i2, Some('\0')), old(placed)@.push(PlacedTile { row: r, col: c, tile: Tile::Blank(Some(alpha(j2))) }), old(prefix_letters)@.push(alpha(j2)), node.path().push((65 + j2) as u8), moves@) by {
                if i2 < i {
                    lemma_left_grows(*board, *cross_checks, gb, horizontal, anchor_row, anchor_col, anchor_pos as int, left_count + 1, max_left as int, old(rack)@.update(i2, Some('\0')), old(placed)@.push(PlacedTile { row: r, col: c, tile: Tile::Blank(Some(alpha(j2))) }), old(prefix_letters)@.push(alpha(j2)), node.path().push((65 + j2) as u8), m_i, moves@);
                }
            }
        }
        i = i + 1;
    }
    proof {
        let nx = square_of(horizontal, anchor_row, anchor_col, (anchor_pos + 1) as usize);
        lemma_exts_grows(*board, *cross_checks, gb, horizontal, anchor_row, anchor_col, anchor_pos + 1, old(rack)@, old(placed)@, old(prefix_letters)@, node.path().push(SEPARATOR), m_sep, moves@);
        assert(left_recorded(*board, *cross_checks, gb, horizontal, anchor_row, anchor_col, anchor_pos as int, left_count as int, max_left as int, old(rack)@, old(placed)@, old(prefix_letters)@, node.path(), moves@));
        if old(placed)@.len() > 0 && is_key(gb, node.path().push(SEPARATOR)) && ends_at(*board, horizontal, fixed, anchor_pos + 1) {
            lemma_has_move_grows(m_sep, moves@, old(placed)@, old(prefix_letters)@);
        }
        if anchor_pos + 1 < 15 && free_at(*board, horizontal, fixed, anchor_pos + 1) {
            lemma_slots_recorded_grows(
                old(rack)@,
                *board,
                horizontal,
                anchor_row,
                anchor_col,
                (anchor_pos + 1) as usize,
                mask_at(*cross_checks, nx.0, nx.1),
                gb,
                node.path().push(SEPARATOR),
                old(prefix_letters)@,
                old(placed)@,
                m_sep,
                moves@);
        }
    }
}


/// The letters of the board tiles just before position `anchor_pos` of line `fixed`,
/// nearest first, up to the first empty square.
fn tiles_before(board: &Board, horizontal: bool, fixed: usize, anchor_pos: usize) -> (before: Vec<char>)
    requires
        fixed < 15,
        anchor_pos < 15,
    ensures
        before@.len() <= anchor_pos,
        anchor_pos - before@.len() == 0 || free_at(*board, horizontal, fixed as int, anchor_pos - before@.len() - 1),
        forall|k: int|
            0 <= k < before@.len() ==> #[trigger] before@[k] == board_char(
                *board,
                cell(dir(horizontal), fixed as int, anchor_pos - 1 - k).0,
                cell(dir(horizontal), fixed as int, anchor_pos - 1 - k).1,
            ),
        forall|k: int| 0 <= k < before@.len() ==> !#[trigger] free_at(*board, horizontal, fixed as int, anchor_pos - 1 - k),
{
    let mut before: Vec<char> = Vec::new();
    let mut pos = anchor_pos;
    while pos > 0
        invariant
            pos <= anchor_pos < 15,
            fixed < 15,
            before@.len() == anchor_pos - pos,
            forall|k: int|
                0 <= k < before@.len() ==> #[trigger] before@[k] == board_char(
                    *board,
                    cell(dir(horizontal), fixed as int, anchor_pos - 1 - k).0,
                    cell(dir(horizontal), fixed as int, anchor_pos - 1 - k).1,
                ),
            forall|k: int| 0 <= k < before@.len() ==> !#[trigger] free_at(*board, horizontal, fixed as int, anchor_pos - 1 - k),
        ensures
            before@.len() == anchor_pos - pos,
            pos == 0 || free_at(*board, horizontal, fixed as int, pos - 1),
        decreases pos,
    {
        let (r, c) = square(horizontal, fixed, pos - 1);
        if board.is_occupied(r, c) {
            let letter = match board.get(r, c) {
                Some(t) => match t.letter() {
                    Some(x) => x,
                    None => '?',
                },
                None => '?',
            };
            let ghost prev = before@;
            before.push(letter);
            proof {
                assert forall|k: int| 0 <= k < before@.len() implies #[trigger] before@[k] == board_char(
                    *board,
                    cell(dir(horizontal), fixed as int, anchor_pos - 1 - k).0,
                    cell(dir(horizontal), fixed as int, anchor_pos - 1 - k).1,
                ) && !free_at(*board, horizontal, fixed as int, anchor_pos - 1 - k) by {
                    if k < prev.len() {
                        assert(before@[k] == prev[k]);
                    }
                }
            }
            pos = pos - 1;
        } else {
            break;
        }
    }
    before
}

/// The GADDAG path that reads the board tiles just before position `pos` of line `fixed`,
/// nearest first, then the separator.
pub open spec fn prefix_path(b: Board, h: bool, fixed: int, pos: int) -> Seq<u8> {
    let s = run_start(b, h, fixed, pos);
    split_key(line_bytes(b, Seq::empty(), h, fixed, s, pos), pos - s)
}

/// The letters of the board tiles just before position `pos` of line `fixed`, in order.
pub open spec fn prefix_word(b: Board, h: bool, fixed: int, pos: int) -> Seq<char> {
    line_chars(b, h, fixed, run_start(b, h, fixed, pos), pos)
}

/// The run of board tiles before `pos` starts where the squares stop holding tiles.
proof fn lemma_run_start_at(b: Board, h: bool, fixed: int, s: int, pos: int)
    requires
        0 <= s <= pos,
        forall|p: int| s <= p < pos ==> #[trigger] crate::placement::filled(b, Seq::empty(), dir(h), fixed, p),
        s == 0 || !crate::placement::filled(b, Seq::empty(), dir(h), fixed, s - 1),
    ensures
        run_start(b, h, fixed, pos) == s,
    decreases pos - s,
{
    if pos > s {
        assert(crate::placement::filled(b, Seq::empty(), dir(h), fixed, pos - 1));
        lemma_run_start_at(b, h, fixed, s, pos - 1);
    }
}

/// How many squares before position `p` of the line `fixed` can take tiles of the part
/// before the anchor `(ar, ac)`: the empty squares going back from `p`, up to a board tile,
/// another anchor or the edge.
pub open spec fn free_run(b: Board, h: bool, fixed: int, ar: usize, ac: usize, p: int) -> int
    decreases p,
{
    if p <= 0 {
        0
    } else {
        let rc = cell(dir(h), fixed, p - 1);
        if b.occupied(rc.0, rc.1) || (is_anchor(b, rc.0, rc.1) && !(rc.0 == ar && rc.1 == ac)) {
            0
        } else {
            1 + free_run(b, h, fixed, ar, ac, p - 1)
        }
    }
}

/// What generation at the anchor `(ar, ac)` in one direction records among `ms`: with no
/// board tile just before the anchor, every move that starts with a rack tile on the anchor
/// and fills the line after it (`pair_recorded`); with board tiles just before it, every
/// move that fills the line from the anchor on after them (`slots_recorded`, and
/// `exts_recorded` for moves of any length).
pub open spec fn anchor_complete(
    b: Board,
    slots: Seq<Option<char>>,
    ar: usize,
    ac: usize,
    h: bool,
    checks: [[Option<u32>; 15]; 15],
    gb: Seq<u8>,
    ms: Seq<CandidateMove>,
) -> bool {
    let pos = anchor_position(h, ar, ac);
    let fixed = anchor_line(h, ar, ac);
    &&& (pos == 0 || free_at(b, h, fixed, pos - 1)) ==> forall|i: int|
        0 <= i < slots.len() ==> #[trigger] pair_recorded(
            slots,
            i,
            b,
            h,
            ar,
            ac,
            pos,
            pos,
            checks,
            gb,
            Seq::empty(),
            Seq::<char>::empty(),
            Seq::empty(),
            ms,
        )
    &&& (pos > 0 && !free_at(b, h, fixed, pos - 1)) ==> slots_recorded(
        slots,
        b,
        h,
        ar,
        ac,
        pos,
        mask_at(checks, ar, ac),
        gb,
        prefix_path(b, h, fixed, pos as int),
        prefix_word(b, h, fixed, pos as int),
        Seq::empty(),
        ms,
    )
    &&& (pos == 0 || free_at(b, h, fixed, pos - 1)) ==> left_recorded(
        b,
        checks,
        gb,
        h,
        ar,
        ac,
        pos as int,
        0,
        1 + free_run(b, h, fixed, ar, ac, pos as int),
        slots,
        Seq::empty(),
        Seq::empty(),
        Seq::empty(),
        ms,
    )
    &&& (pos > 0 && !free_at(b, h, fixed, pos - 1)) ==> exts_recorded(
        b,
        checks,
        gb,
        h,
        ar,
        ac,
        pos as int,
        slots,
        Seq::empty(),
        prefix_word(b, h, fixed, pos as int),
        prefix_path(b, h, fixed, pos as int),
        ms,
    )
}

/// What generation recorded at an anchor stays recorded as the list grows.
proof fn lemma_anchor_complete_grows(
    b: Board,
    slots: Seq<Option<char>>,
    ar: usize,
    ac: usize,
    h: bool,
    checks: [[Option<u32>; 15]; 15],
    gb: Seq<u8>,
    ms: Seq<CandidateMove>,
    ms2: Seq<CandidateMove>,
)
    requires
        anchor_complete(b, slots, ar, ac, h, checks, gb, ms),
        grows(ms, ms2),
    ensures
        anchor_complete(b, slots, ar, ac, h, checks, gb, ms2),
{
    let pos = anchor_position(h, ar, ac);
    let fixed = anchor_line(h, ar, ac);
    if pos == 0 || free_at(b, h, fixed, pos - 1) {
        assert forall|i: int| 0 <= i < slots.len() implies #[trigger] pair_recorded(
            slots,
            i,
            b,
            h,
            ar,
            ac,
            pos,
            pos,
            checks,
            gb,
            Seq::empty(),
            Seq::<char>::empty(),
            Seq::empty(),
            ms2,
        ) by {
            lemma_pair_recorded_grows(slots, i, b, h, ar, ac, pos, pos, checks, gb, Seq::empty(), Seq::<char>::empty(), Seq::empty(), ms, ms2);
        }
        lemma_left_grows(
            b,
            checks,
            gb,
            h,
            ar,
            ac,
            pos as int,
            0,
            1 + free_run(b, h, fixed, ar, ac, pos as int),
            slots,
            Seq::empty(),
            Seq::empty(),
            Seq::empty(),
            ms,
            ms2,
        );
    }
    if pos > 0 && !free_at(b, h, fixed, pos - 1) {
        lemma_slots_recorded_grows(
            slots,
            b,
            h,
            ar,
            ac,
            pos,
            mask_at(checks, ar, ac),
            gb,
            prefix_path(b, h, fixed, pos as int),
            prefix_word(b, h, fixed, pos as int),
            Seq::empty(),
            ms,
            ms2,
        );
        lemma_exts_grows(
            b,
            checks,
            gb,
            h,
            ar,
            ac,
            pos as int,
            slots,
            Seq::empty(),
            prefix_word(b, h, fixed, pos as int),
            prefix_path(b, h, fixed, pos as int),
            ms,
            ms2,
        );
    }
}

/// The squares generation starts from: the centre on an empty board, else every anchor.
pub open spec fn start_square(b: Board, r: usize, c: usize) -> bool {
    if b.spec_is_empty() {
        r == 7 && c == 7
    } else {
        is_anchor(b, r as int, c as int)
    }
}

/// Generate moves at a specific anchor in one direction.
fn gen_moves_at_anchor(
    board: &Board,
    cross_checks: &[[Option<u32>; 15]; 15],
    gaddag: &Gaddag,
    dict: &FstDictionary,
    rack: &mut Vec<Option<char>>,
    anchor_row: usize,
    anchor_col: usize,
    horizontal: bool,
    moves: &mut Vec<CandidateMove>,
    Ghost(slots): Ghost<Seq<Option<char>>>,
    Ghost(gb): Ghost<Seq<u8>>,
)
    requires
        gaddag.bytes() == gb,
        old(rack)@ == slots,
        checks_hold(*cross_checks, dict.keys(), *board, horizontal),
        anchor_row < 15,
        anchor_col < 15,
        !board.occupied(anchor_row as int, anchor_col as int),
        all_good(*board, slots, dict.keys(), gb, old(moves)@),
    ensures
        final(rack)@ == old(rack)@,
        all_good(*board, slots, dict.keys(), gb, final(moves)@),
        grows(old(moves)@, final(moves)@),
        anchor_position(horizontal, anchor_row, anchor_col) == 0 || free_at(
            *board,
            horizontal,
            anchor_line(horizontal, anchor_row, anchor_col),
            anchor_position(horizontal, anchor_row, anchor_col) - 1,
        ) ==> forall|i: int|
            0 <= i < old(rack)@.len() ==> #[trigger] pair_recorded(
                old(rack)@,
                i,
                *board,
                horizontal,
                anchor_row,
                anchor_col,
                anchor_position(horizontal, anchor_row, anchor_col),
                anchor_position(horizontal, anchor_row, anchor_col),
                *cross_checks,
                gb,
                Seq::empty(),
                Seq::<char>::empty(),
                Seq::empty(),
                final(moves)@),
        anchor_position(horizontal, anchor_row, anchor_col) > 0 && !free_at(
            *board,
            horizontal,
            anchor_line(horizontal, anchor_row, anchor_col),
            anchor_position(horizontal, anchor_row, anchor_col) - 1,
        ) ==> slots_recorded(
            old(rack)@,
            *board,
            horizontal,
            anchor_row,
            anchor_col,
            anchor_position(horizontal, anchor_row, anchor_col),
            mask_at(*cross_checks, anchor_row, anchor_col),
            gb,
            prefix_path(*board, horizontal, anchor_line(horizontal, anchor_row, anchor_col), anchor_position(horizontal, anchor_row, anchor_col) as int),
            prefix_word(*board, horizontal, anchor_line(horizontal, anchor_row, anchor_col), anchor_position(horizontal, anchor_row, anchor_col) as int),
            Seq::empty(),
            final(moves)@,
        ),
        anchor_complete(*board, old(rack)@, anchor_row, anchor_col, horizontal, *cross_checks, gb, final(moves)@),
{
    let row = anchor_row;
    let col = anchor_col;
    let ghost fixed: int = anchor_line(horizontal, anchor_row, anchor_col);
    let anchor_pos = if horizontal {
        col
    } else {
        row
    };
    // The tiles just before the anchor, nearest first.
    let before = tiles_before(board, horizontal, if horizontal { row } else { col }, anchor_pos);
    let mut existing_prefix: Vec<char> = Vec::new();
    let mut k: usize = before.len();
    while k > 0
        invariant
            k <= before@.len(),
            existing_prefix@ == Seq::new((before@.len() - k) as nat, |m: int| before@[before@.len() - 1 - m]),
        decreases k,
    {
        k = k - 1;
        existing_prefix.push(before[k]);
        assert(existing_prefix@ =~= Seq::new((before@.len() - k) as nat, |m: int| before@[before@.len() - 1 - m]));
    }
    if existing_prefix.len() != 0 {
        proof {
            assert(before@.len() > 0);
            assert(!free_at(*board, horizontal, fixed, anchor_pos - 1 - 0));
        }
        // GADDAG prefix entry: the existing letters nearest first, then the separator.
        let mut path: Vec<u8> = Vec::new();
        let mut k: usize = 0;
        while k < before.len()
            invariant
                k <= before@.len(),
                path@ == Seq::new(k as nat, |i: int| upper_byte(before@[i]) as u8),
            decreases before@.len() - k,
        {
            let u = to_upper(before[k]);
            path.push(((u as u32) % 256) as u8);
            proof {
                assert(path@ =~= Seq::new((k + 1) as nat, |i: int| upper_byte(before@[i]) as u8));
            }
            k = k + 1;
        }
        path.push(SEPARATOR);
        proof {
            lemma_prefix_walk(*board, horizontal, fixed, anchor_pos as int, before@, path@);
            let st = anchor_pos - before@.len();
            lemma_run_start_at(*board, horizontal, fixed, st, anchor_pos as int);
            assert(path@ == prefix_path(*board, horizontal, fixed, anchor_pos as int));
            assert(existing_prefix@ =~= prefix_word(*board, horizontal, fixed, anchor_pos as int)) by {
                assert forall|m: int| 0 <= m < existing_prefix@.len() implies existing_prefix@[m] == prefix_word(
                    *board,
                    horizontal,
                    fixed,
                    anchor_pos as int,
                )[m] by {
                    let kk = before@.len() - 1 - m;
                    assert(existing_prefix@[m] == before@[kk]);
                    assert(anchor_pos - 1 - kk == st + m);
                }
            }
            assert(square_of(horizontal, anchor_row, anchor_col, anchor_pos) == (anchor_row, anchor_col));
            assert(free_at(*board, horizontal, fixed, anchor_pos as int));
        }
        match gaddag.follow_path(path.as_slice()) {
            Some(node) => {
                let mut placed: Vec<PlacedTile> = Vec::new();
                extend_right(
                    board,
                    cross_checks,
                    dict,
                    rack,
                    node,
                    anchor_row,
                    anchor_col,
                    horizontal,
                    anchor_pos,
                    &mut placed,
                    existing_prefix.as_slice(),
                    moves,
                    Ghost(slots),
                    Ghost(Seq::<int>::empty()),
                    Ghost(gb),
                    Ghost(anchor_pos - before@.len()),
                    Ghost(anchor_pos as int),
                );
                proof {
                    lemma_walk_recorded(*board, *cross_checks, gb, horizontal, anchor_row, anchor_col, anchor_pos as int, old(rack)@, Seq::empty(), existing_prefix@, path@, old(moves)@, moves@);
                }
            },
            None => {
                proof {
                    lemma_exts_dead(*board, *cross_checks, gb, horizontal, anchor_row, anchor_col, anchor_pos as int, old(rack)@, Seq::empty(), existing_prefix@, path@, moves@);
                    lemma_slots_dead(
                        old(rack)@,
                        *board,
                        horizontal,
                        anchor_row,
                        anchor_col,
                        anchor_pos,
                        mask_at(*cross_checks, anchor_row, anchor_col),
                        gb,
                        path@,
                        existing_prefix@,
                        Seq::empty(),
                        moves@,
                    );
                }
            },
        }
    } else {
        // Count the free squares before the anchor, up to a tile or another anchor.
        let mut left_avail: usize = 0;
        let mut p = anchor_pos;
        while p > 0
            invariant
                p <= anchor_pos < 15,
                anchor_row < 15,
                anchor_col < 15,
                row == anchor_row,
                col == anchor_col,
                anchor_pos == if horizontal { anchor_col } else { anchor_row },
                fixed == anchor_line(horizontal, anchor_row, anchor_col),
                left_avail == anchor_pos - p,
                forall|q: int| p <= q < anchor_pos ==> #[trigger] free_at(*board, horizontal, fixed, q),
                anchor_pos == 0 || free_at(*board, horizontal, fixed, anchor_pos - 1),
                free_run(*board, horizontal, fixed, anchor_row, anchor_col, anchor_pos as int) == left_avail + free_run(*board, horizontal, fixed, anchor_row, anchor_col, p as int),
                p < anchor_pos ==> !is_anchor(
                    *board,
                    cell(dir(horizontal), fixed, p as int).0,
                    cell(dir(horizontal), fixed, p as int).1,
                ),
            ensures
                p <= anchor_pos,
                left_avail == anchor_pos - p,
                free_run(*board, horizontal, fixed, anchor_row, anchor_col, anchor_pos as int) == left_avail,
                forall|q: int| p <= q < anchor_pos ==> #[trigger] free_at(*board, horizontal, fixed, q),
                p == 0 || free_at(*board, horizontal, fixed, p - 1),
            decreases p,
        {
            let q = p - 1;
            let (r, c) = if horizontal {
                (row, q)
            } else {
                (q, col)
            };
            if board.is_occupied(r, c) {
                proof {
                    if p < anchor_pos {
                        let (pr, pc) = cell(dir(horizontal), fixed, p as int);
                        assert(free_at(*board, horizontal, fixed, p as int));
                        assert(board.occupied(r as int, c as int));
                        assert(in_bounds(pr, pc));
                        assert(is_anchor(*board, pr, pc));
                    }
                    assert(cell(dir(horizontal), fixed, p - 1) == (r as int, c as int));
                    assert(free_run(*board, horizontal, fixed, anchor_row, anchor_col, p as int) == 0);
                }
                break;
            }
            let is_anchor = anchor_at(board, r, c);
            proof {
                assert(cell(dir(horizontal), fixed, p - 1) == (r as int, c as int));
            }
            if is_anchor && !(r == anchor_row && c == anchor_col) {
                assert(free_run(*board, horizontal, fixed, anchor_row, anchor_col, p as int) == 0);
                break;
            }
            left_avail = left_avail + 1;
            assert(free_at(*board, horizontal, fixed, q as int));
            p = q;
        }
        let max_left = 1 + left_avail;
        let root = gaddag.root();
        let mut placed: Vec<PlacedTile> = Vec::new();
        let mut prefix_letters: Vec<char> = Vec::new();
        proof {
            assert(free_at(*board, horizontal, fixed, anchor_pos as int));
            assert(root.path() =~= Seq::new(0, |k: int| upper_byte(shown_char(placed@[k].tile)) as u8));
        }
        gen_left(
            board,
            cross_checks,
            gaddag,
            dict,
            rack,
            root,
            anchor_row,
            anchor_col,
            horizontal,
            anchor_pos,
            0,
            max_left,
            &mut placed,
            &mut prefix_letters,
            moves,
            Ghost(slots),
            Ghost(Seq::<int>::empty()),
            Ghost(gb),
        );
        proof {
            assert(root.path() =~= Seq::<u8>::empty());
            assert(placed@ =~= Seq::<PlacedTile>::empty());
            assert((anchor_pos - 0) as usize == anchor_position(horizontal, anchor_row, anchor_col));
            assert(forall|i: int|
                0 <= i < old(rack)@.len() ==> #[trigger] pair_recorded(
                    old(rack)@,
                    i,
                    *board,
                    horizontal,
                    anchor_row,
                    anchor_col,
                    anchor_position(horizontal, anchor_row, anchor_col),
                    anchor_position(horizontal, anchor_row, anchor_col),
                    *cross_checks,
                    gb,
                    Seq::empty(),
                    Seq::<char>::empty(),
                    Seq::empty(),
                    moves@));
        }
    }
}

/// Rack slot `i` holds a letter tile, not a blank, with an ASCII letter.
pub open spec fn letter_slot(slots: Seq<Option<char>>, i: int) -> bool {
    slots[i] matches Some(l) && is_ascii_alpha(l)
}

/// The letter tile of rack slot `i` on square `(r, c)`.
pub open spec fn slot_tile_at(slots: Seq<Option<char>>, i: int, r: usize, c: usize) -> PlacedTile {
    let l = slots[i]->0;
    PlacedTile { row: r, col: c, tile: Tile::Letter(upper(l), letter_value(l)) }
}

/// The two-tile move across the centre of an empty board: the letter of slot `i` on the
/// centre square, that of slot `j` just right of it.
pub open spec fn centre_pair(slots: Seq<Option<char>>, i: int, j: int) -> Seq<PlacedTile> {
    seq![slot_tile_at(slots, i, 7, 7), slot_tile_at(slots, j, 7, 8)]
}

/// The GADDAG key that reads the two letters of slots `i` and `j` as a word from its first
/// letter.
pub open spec fn centre_pair_key(slots: Seq<Option<char>>, i: int, j: int) -> Seq<u8> {
    seq![upper_byte(slots[i]->0) as u8, SEPARATOR, upper_byte(slots[j]->0) as u8]
}

/// On an empty board, every two-letter word that the letters of two rack slots read across
/// the centre, recorded in `found` as `pair_recorded` says, is covered by the ordered list.
proof fn lemma_centre_pairs(
    b: Board,
    slots: Seq<Option<char>>,
    ks: Seq<Seq<u8>>,
    checks: [[Option<u32>; 15]; 15],
    gb: Seq<u8>,
    found: Seq<CandidateMove>,
)
    requires
        b.spec_is_empty(),
        checks_hold(checks, Some(ks), b, true),
        forall|i: int|
            0 <= i < slots.len() ==> #[trigger] pair_recorded(
                slots,
                i,
                b,
                true,
                7usize,
                7usize,
                7usize,
                7usize,
                checks,
                gb,
                Seq::empty(),
                Seq::<char>::empty(),
                Seq::empty(),
                found),
    ensures
        forall|i: int, j: int|
            0 <= i < slots.len() && 0 <= j < slots.len() && i != j && letter_slot(slots, i) && letter_slot(slots, j)
                && is_key(gb, centre_pair_key(slots, i, j)) ==> #[trigger] covers(
                dedup_tiles(sort_by_score(found)),
                centre_pair(slots, i, j),
            ),
{
    lemma_empty_board_mask(ks, b, 7, 7);
    lemma_empty_board_mask(ks, b, 7, 8);
    assert(!b.occupied(7, 7) && !b.occupied(7, 8)) by {
        assert(b.at(7, 7) is None);
        assert(b.at(7, 8) is None);
    }
    assert(checks@[7int]@[7int] == Some(cross_mask(ks, b, 7, 7, true)));
    assert(checks@[7int]@[8int] == Some(cross_mask(ks, b, 7, 8, true)));
    assert(mask_at(checks, 7, 7) == all_letters_spec());
    assert(mask_at(checks, 7, 8) == all_letters_spec());
    assert(free_at(b, true, 7, 8) && free_at(b, true, 7, 9)) by {
        assert(b.at(7, 8) is None);
        assert(b.at(7, 9) is None);
    }
    assert forall|i: int, j: int|
        0 <= i < slots.len() && 0 <= j < slots.len() && i != j && letter_slot(slots, i) && letter_slot(slots, j)
            && is_key(gb, centre_pair_key(slots, i, j)) implies #[trigger] covers(
            dedup_tiles(sort_by_score(found)),
            centre_pair(slots, i, j),
        ) by {
        let l1 = slots[i]->0;
        let l2 = slots[j]->0;
        lemma_alpha_in_all(l1);
        lemma_alpha_in_all(l2);
        assert(pair_recorded(slots, i, b, true, 7usize, 7usize, 7usize, 7usize, checks, gb, Seq::empty(), Seq::<char>::empty(), Seq::empty(), found));
        let t1 = slot_tile_at(slots, i, 7, 7);
        let p1 = Seq::<u8>::empty().push(upper_byte(l1) as u8).push(SEPARATOR);
        let rk = slots.update(i, Some('\0'));
        assert(square_of(true, 7, 7, 7) == (7usize, 7usize));
        assert(square_of(true, 7, 7, 8) == (7usize, 8usize));
        assert(slots_recorded(rk, b, true, 7, 7, 8, mask_at(checks, 7, 8), gb, p1, Seq::<char>::empty().push(upper(l1)), Seq::empty().push(t1), found));
        assert(slot_recorded(rk, j, b, true, 7, 7, 8, mask_at(checks, 7, 8), gb, p1, Seq::<char>::empty().push(upper(l1)), Seq::empty().push(t1), found));
        assert(rk[j] == Some(l2));
        assert(p1.push(upper_byte(l2) as u8) =~= centre_pair_key(slots, i, j));
        assert(Seq::empty().push(t1).push(slot_tile_at(slots, j, 7, 8)) =~= centre_pair(slots, i, j));
        lemma_ordered_covers(found, centre_pair(slots, i, j));
    }
}

/// `ms` is what move generation gives for the rack `slots` on board `b`: the moves found
/// from every anchor in both directions, against each direction's cross-checks, sorted
/// best first with repeated placements dropped. At each anchor every move is found that
/// puts rack tiles on the anchor and the free squares before it (up to a board tile or
/// another anchor), or follows the board tiles just before it, and then fills the line
/// after it, whenever its GADDAG entry is a key (see `anchor_complete`).
pub open spec fn generation_of(
    b: Board,
    slots: Seq<Option<char>>,
    keys: Option<Seq<Seq<u8>>>,
    gb: Seq<u8>,
    ms: Seq<CandidateMove>,
) -> bool {
    exists|found: Seq<CandidateMove>, across: [[Option<u32>; 15]; 15], down: [[Option<u32>; 15]; 15]|
        {
            &&& all_good(b, slots, keys, gb, found)
            &&& ms == dedup_tiles(sort_by_score(found))
            &&& checks_hold(across, keys, b, true)
            &&& checks_hold(down, keys, b, false)
            &&& forall|r: usize, c: usize|
                r < 15 && c < 15 && #[trigger] start_square(b, r, c) ==> anchor_complete(b, slots, r, c, true, across, gb, found)
                    && anchor_complete(b, slots, r, c, false, down, gb, found)
        }
}

/// Generate all valid moves for the given rack on the board.
pub fn generate_moves(board: &Board, rack: &[Tile], gaddag: &Gaddag, dict: &FstDictionary) -> (moves: Vec<
    CandidateMove,
>)
    ensures
        all_good(*board, rack_slots(rack@), dict.keys(), gaddag.bytes(), moves@),
        generation_of(*board, rack_slots(rack@), dict.keys(), gaddag.bytes(), moves@),
        best_first(moves@),
        no_adjacent_repeats(moves@),
        board.spec_is_empty() && dict.keys() is Some ==> forall|i: int, j: int|
            0 <= i < rack@.len() && 0 <= j < rack@.len() && i != j && letter_slot(rack_slots(rack@), i) && letter_slot(
                rack_slots(rack@),
                j,
            ) && is_key(gaddag.bytes(), centre_pair_key(rack_slots(rack@), i, j)) ==> #[trigger] covers(
                moves@,
                centre_pair(rack_slots(rack@), i, j),
            ),
{
    let checks_across = compute_direction_checks(board, dict, true);
    let checks_down = compute_direction_checks(board, dict, false);
    let anchors = find_anchors(board);
    let ghost slots = rack_slots(rack@);
    let mut rack_letters: Vec<Option<char>> = Vec::new();
    let mut k: usize = 0;
    while k < rack.len()
        invariant
            k <= rack@.len(),
            slots == rack_slots(rack@),
            rack_letters@ == slots.take(k as int),
        decreases rack@.len() - k,
    {
        let slot = match rack[k] {
            Tile::Letter(ch, _) => Some(ch),
            Tile::Blank(_) => None,
        };
        rack_letters.push(slot);
        k = k + 1;
        assert(rack_letters@ =~= slots.take(k as int));
    }
    assert(slots.take(rack@.len() as int) =~= slots);
    let mut moves: Vec<CandidateMove> = Vec::new();
    let mut a: usize = 0;
    while a < anchors.len()
        invariant
            a <= anchors@.len(),
            forall|i: int| 0 <= i < anchors@.len() ==> (#[trigger] anchors@[i]).0 < 15 && anchors@[i].1 < 15,
            board.spec_is_empty() ==> anchors@ == seq![(7usize, 7usize)],
            !board.spec_is_empty() ==> forall|i: int|
                0 <= i < anchors@.len() ==> is_anchor(*board, (#[trigger] anchors@[i]).0 as int, anchors@[i].1 as int),
            slots == rack_slots(rack@),
            rack_letters@ == slots,
            checks_hold(checks_across, dict.keys(), *board, true),
            checks_hold(checks_down, dict.keys(), *board, false),
            all_good(*board, slots, dict.keys(), gaddag.bytes(), moves@),
            board.spec_is_empty() && dict.keys() is Some && a > 0 ==> forall|i: int|
                0 <= i < slots.len() ==> #[trigger] pair_recorded(
                    slots,
                    i,
                    *board,
                    true,
                    7usize,
                    7usize,
                    7usize,
                    7usize,
                    checks_across,
                    gaddag.bytes(),
                    Seq::empty(),
                    Seq::<char>::empty(),
                    Seq::empty(),
                    moves@),
            forall|q: int| #![trigger anchors@[q]] 0 <= q < a ==> anchor_complete(*board, slots, anchors@[q].0, anchors@[q].1, true, checks_across, gaddag.bytes(), moves@)
                    && anchor_complete(*board, slots, anchors@[q].0, anchors@[q].1, false, checks_down, gaddag.bytes(), moves@),
        decreases anchors@.len() - a,
    {
        let ghost m0 = moves@;
        let (anchor_row, anchor_col) = anchors[a];
        proof {
            if board.spec_is_empty() {
                assert(board.at(7, 7) is None);
            } else {
                assert(is_anchor(*board, anchors@[a as int].0 as int, anchors@[a as int].1 as int));
            }
        }
        gen_moves_at_anchor(
            board,
            &checks_across,
            gaddag,
            dict,
            &mut rack_letters,
            anchor_row,
            anchor_col,
            true,
            &mut moves,
            Ghost(slots),
            Ghost(gaddag.bytes()),
        );
        let ghost m1 = moves@;
        proof {
            if board.spec_is_empty() {
                assert(anchor_row == 7 && anchor_col == 7);
                assert(board.at(7, 6) is None);
                assert(free_at(*board, true, 7, 6));
            }
        }
        gen_moves_at_anchor(
            board,
            &checks_down,
            gaddag,
            dict,
            &mut rack_letters,
            anchor_row,
            anchor_col,
            false,
            &mut moves,
            Ghost(slots),
            Ghost(gaddag.bytes()),
        );
        proof {
            assert forall|q: int| #![trigger anchors@[q]] 0 <= q < a + 1 implies anchor_complete(*board, slots, anchors@[q].0, anchors@[q].1, true, checks_across, gaddag.bytes(), moves@)
                    && anchor_complete(*board, slots, anchors@[q].0, anchors@[q].1, false, checks_down, gaddag.bytes(), moves@) by {
                if q < a {
                    assert(anchor_complete(*board, slots, anchors@[q].0, anchors@[q].1, true, checks_across, gaddag.bytes(), m0)
                        && anchor_complete(*board, slots, anchors@[q].0, anchors@[q].1, false, checks_down, gaddag.bytes(), m0));
                    lemma_anchor_complete_grows(*board, slots, anchors@[q].0, anchors@[q].1, true, checks_across, gaddag.bytes(), m0, m1);
                    lemma_anchor_complete_grows(*board, slots, anchors@[q].0, anchors@[q].1, true, checks_across, gaddag.bytes(), m1, moves@);
                    lemma_anchor_complete_grows(*board, slots, anchors@[q].0, anchors@[q].1, false, checks_down, gaddag.bytes(), m0, m1);
                    lemma_anchor_complete_grows(*board, slots, anchors@[q].0, anchors@[q].1, false, checks_down, gaddag.bytes(), m1, moves@);
                } else {
                    lemma_anchor_complete_grows(*board, slots, anchor_row, anchor_col, true, checks_across, gaddag.bytes(), m1, moves@);
                }
            }
            if board.spec_is_empty() && dict.keys() is Some {
                assert forall|i: int| 0 <= i < slots.len() implies #[trigger] pair_recorded(
                    slots,
                    i,
                    *board,
                    true,
                    7usize,
                    7usize,
                    7usize,
                    7usize,
                    checks_across,
                    gaddag.bytes(),
                    Seq::empty(),
                    Seq::<char>::empty(),
                    Seq::empty(),
                    moves@) by {
                    lemma_pair_recorded_grows(
                        slots,
                        i,
                        *board,
                        true,
                        7usize,
                        7usize,
                        7usize,
                        7usize,
                        checks_across,
                        gaddag.bytes(),
                        Seq::empty(),
                        Seq::<char>::empty(),
                        Seq::empty(),
                        m1,
                        moves@);
                }
            }
        }
        a = a + 1;
    }
    let ghost found = moves@;
    dedup_moves(&mut moves);
    proof {
        lemma_sort_keeps_good(*board, slots, dict.keys(), gaddag.bytes(), found);
        lemma_dedup_keeps_good(*board, slots, dict.keys(), gaddag.bytes(), sort_by_score(found));
        lemma_ordered_moves(found);
        assert forall|r: usize, c: usize|
            r < 15 && c < 15 && #[trigger] start_square(*board, r, c) implies anchor_complete(
                *board,
                slots,
                r,
                c,
                true,
                checks_across,
                gaddag.bytes(),
                found,
            ) && anchor_complete(*board, slots, r, c, false, checks_down, gaddag.bytes(), found) by {
            if board.spec_is_empty() {
                assert(anchors@[0] == (r, c));
            } else {
                assert(anchors@.contains((r, c)));
                let q = choose|q: int| 0 <= q < anchors@.len() && anchors@[q] == (r, c);
                assert(anchors@[q] == (r, c));
            }
        }
        if board.spec_is_empty() && dict.keys() is Some {
            lemma_centre_pairs(*board, slots, dict.keys()->0, checks_across, gaddag.bytes(), found);
        }
    }
    moves
}

// ---------------------------------------------------------------------------
// Ordering and removing repeated moves.
// ---------------------------------------------------------------------------

/// `m` put into `s` after the last move that scores at least as much.
pub open spec fn insert_by_score(s: Seq<CandidateMove>, m: CandidateMove) -> Seq<CandidateMove>
    decreases s.len(),
{
    if s.len() == 0 {
        seq![m]
    } else if s.last().score >= m.score {
        s.push(m)
    } else {
        insert_by_score(s.drop_last(), m).push(s.last())
    }
}

/// The moves from highest score to lowest, moves of equal score in their first order.
pub open spec fn sort_by_score(s: Seq<CandidateMove>) -> Seq<CandidateMove>
    decreases s.len(),
{
    if s.len() == 0 {
        s
    } else {
        insert_by_score(sort_by_score(s.drop_last()), s.last())
    }
}

/// Some tile of `ts` is `t`, on the same square.
pub open spec fn tile_in(t: PlacedTile, ts: Seq<PlacedTile>) -> bool {
    exists|j: int| 0 <= j < ts.len() && #[trigger] ts[j] == t
}

/// Every tile of `a` stands in `b` too, on the same square, and the two have as many tiles.
pub open spec fn same_tiles(a: CandidateMove, b: CandidateMove) -> bool {
    &&& a.tiles@.len() == b.tiles@.len()
    &&& forall|i: int| 0 <= i < a.tiles@.len() ==> tile_in(#[trigger] a.tiles@[i], b.tiles@)
}

/// The moves with each move dropped that has the same tiles as the last move kept.
pub open spec fn dedup_tiles(s: Seq<CandidateMove>) -> Seq<CandidateMove>
    decreases s.len(),
{
    if s.len() == 0 {
        s
    } else {
        let d = dedup_tiles(s.drop_last());
        if d.len() > 0 && same_tiles(s.last(), d.last()) {
            d
        } else {
            d.push(s.last())
        }
    }
}

proof fn lemma_insert_at(s: Seq<CandidateMove>, m: CandidateMove, k: int)
    requires
        0 <= k <= s.len(),
        forall|j: int| k <= j < s.len() ==> (#[trigger] s[j]).score < m.score,
        k > 0 ==> s[k - 1].score >= m.score,
    ensures
        insert_by_score(s, m) == s.insert(k, m),
    decreases s.len(),
{
    if s.len() == k {
        if s.len() == 0 {
            assert(s.insert(k, m) =~= seq![m]);
        } else {
            assert(s.insert(k, m) =~= s.push(m));
        }
    } else {
        assert(s.last().score < m.score);
        lemma_insert_at(s.drop_last(), m, k);
        assert(s.drop_last().insert(k, m).push(s.last()) =~= s.insert(k, m));
    }
}

proof fn lemma_insert_keeps_good(b: Board, slots: Seq<Option<char>>, keys: Option<Seq<Seq<u8>>>, gb: Seq<u8>, s: Seq<CandidateMove>, m: CandidateMove)
    requires
        all_good(b, slots, keys, gb, s),
        good_move(b, slots, keys, gb, m),
    ensures
        all_good(b, slots, keys, gb, insert_by_score(s, m)),
    decreases s.len(),
{
    if s.len() > 0 && s.last().score < m.score {
        lemma_insert_keeps_good(b, slots, keys, gb, s.drop_last(), m);
        let t = insert_by_score(s.drop_last(), m);
        assert forall|i: int| 0 <= i < t.push(s.last()).len() implies good_move(b, slots, keys, gb, #[trigger] t.push(s.last())[i]) by {
            if i < t.len() {
                assert(t.push(s.last())[i] == t[i]);
            }
        }
    } else if s.len() > 0 {
        assert forall|i: int| 0 <= i < s.push(m).len() implies good_move(b, slots, keys, gb, #[trigger] s.push(m)[i]) by {
            if i < s.len() {
                assert(s.push(m)[i] == s[i]);
            }
        }
    }
}

proof fn lemma_sort_keeps_good(b: Board, slots: Seq<Option<char>>, keys: Option<Seq<Seq<u8>>>, gb: Seq<u8>, s: Seq<CandidateMove>)
    requires
        all_good(b, slots, keys, gb, s),
    ensures
        all_good(b, slots, keys, gb, sort_by_score(s)),
    decreases s.len(),
{
    if s.len() > 0 {
        assert(all_good(b, slots, keys, gb, s.drop_last())) by {
            assert forall|i: int| 0 <= i < s.drop_last().len() implies good_move(b, slots, keys, gb, #[trigger] s.drop_last()[i]) by {
                assert(s.drop_last()[i] == s[i]);
            }
        }
        lemma_sort_keeps_good(b, slots, keys, gb, s.drop_last());
        lemma_insert_keeps_good(b, slots, keys, gb, sort_by_score(s.drop_last()), s.last());
    }
}

proof fn lemma_dedup_keeps_good(b: Board, slots: Seq<Option<char>>, keys: Option<Seq<Seq<u8>>>, gb: Seq<u8>, s: Seq<CandidateMove>)
    requires
        all_good(b, slots, keys, gb, s),
    ensures
        all_good(b, slots, keys, gb, dedup_tiles(s)),
    decreases s.len(),
{
    if s.len() > 0 {
        assert(all_good(b, slots, keys, gb, s.drop_last())) by {
            assert forall|i: int| 0 <= i < s.drop_last().len() implies good_move(b, slots, keys, gb, #[trigger] s.drop_last()[i]) by {
                assert(s.drop_last()[i] == s[i]);
            }
        }
        lemma_dedup_keeps_good(b, slots, keys, gb, s.drop_last());
        let d = dedup_tiles(s.drop_last());
        assert forall|i: int| 0 <= i < d.push(s.last()).len() implies good_move(b, slots, keys, gb, #[trigger] d.push(s.last())[i]) by {
            if i < d.len() {
                assert(d.push(s.last())[i] == d[i]);
            }
        }
    }
}

/// The moves come from highest score to lowest.
pub open spec fn best_first(s: Seq<CandidateMove>) -> bool {
    forall|i: int, j: int| 0 <= i < j < s.len() ==> (#[trigger] s[i]).score >= (#[trigger] s[j]).score
}

/// No move has the same tiles as the move before it.
pub open spec fn no_adjacent_repeats(s: Seq<CandidateMove>) -> bool {
    forall|i: int| 0 < i < s.len() ==> !same_tiles(#[trigger] s[i], s[i - 1])
}

proof fn lemma_insert_best_first(s: Seq<CandidateMove>, m: CandidateMove)
    requires
        best_first(s),
    ensures
        best_first(insert_by_score(s, m)),
        insert_by_score(s, m).len() == s.len() + 1,
        forall|x: CandidateMove| #[trigger] insert_by_score(s, m).contains(x) ==> s.contains(x) || x == m,
    decreases s.len(),
{
    if s.len() == 0 {
    } else if s.last().score >= m.score {
        let t = s.push(m);
        assert forall|i: int, j: int| 0 <= i < j < t.len() implies (#[trigger] t[i]).score >= (#[trigger] t[j]).score by {
            if j == s.len() {
                assert(s[i].score >= s[s.len() - 1].score);
            } else {
                assert(t[i] == s[i] && t[j] == s[j]);
            }
        }
        assert forall|x: CandidateMove| t.contains(x) implies s.contains(x) || x == m by {
            let k = choose|k: int| 0 <= k < t.len() && t[k] == x;
            if k < s.len() {
                assert(s[k] == x);
            }
        }
    } else {
        let d = s.drop_last();
        assert(best_first(d)) by {
            assert forall|i: int, j: int| 0 <= i < j < d.len() implies (#[trigger] d[i]).score >= (#[trigger] d[j]).score by {
                assert(d[i] == s[i] && d[j] == s[j]);
            }
        }
        lemma_insert_best_first(d, m);
        let u = insert_by_score(d, m);
        let t = u.push(s.last());
        assert forall|i: int, j: int| 0 <= i < j < t.len() implies (#[trigger] t[i]).score >= (#[trigger] t[j]).score by {
            if j == u.len() {
                assert(t[i] == u[i]);
                assert(u.contains(u[i]));
                if u[i] != m {
                    assert(d.contains(u[i]));
                    let k = choose|k: int| 0 <= k < d.len() && d[k] == u[i];
                    assert(s[k] == u[i]);
                    assert(s[k].score >= s[s.len() - 1].score);
                }
            } else {
                assert(t[i] == u[i] && t[j] == u[j]);
            }
        }
        assert forall|x: CandidateMove| t.contains(x) implies s.contains(x) || x == m by {
            let k = choose|k: int| 0 <= k < t.len() && t[k] == x;
            if k < u.len() {
                assert(u[k] == x);
                assert(u.contains(x));
                if x != m {
                    let q = choose|q: int| 0 <= q < d.len() && d[q] == x;
                    assert(s[q] == x);
                }
            } else {
                assert(s[s.len() - 1] == x);
            }
        }
    }
}

proof fn lemma_sort_best_first(s: Seq<CandidateMove>)
    ensures
        best_first(sort_by_score(s)),
    decreases s.len(),
{
    if s.len() > 0 {
        lemma_sort_best_first(s.drop_last());
        lemma_insert_best_first(sort_by_score(s.drop_last()), s.last());
    }
}

proof fn lemma_dedup_best_first(s: Seq<CandidateMove>)
    requires
        best_first(s),
    ensures
        best_first(dedup_tiles(s)),
        no_adjacent_repeats(dedup_tiles(s)),
        forall|x: CandidateMove| #[trigger] dedup_tiles(s).contains(x) ==> s.contains(x),
    decreases s.len(),
{
    if s.len() > 0 {
        let d0 = s.drop_last();
        assert(best_first(d0)) by {
            assert forall|i: int, j: int| 0 <= i < j < d0.len() implies (#[trigger] d0[i]).score >= (#[trigger] d0[j]).score by {
                assert(d0[i] == s[i] && d0[j] == s[j]);
            }
        }
        lemma_dedup_best_first(d0);
        let d = dedup_tiles(d0);
        if !(d.len() > 0 && same_tiles(s.last(), d.last())) {
            let t = d.push(s.last());
            assert forall|i: int, j: int| 0 <= i < j < t.len() implies (#[trigger] t[i]).score >= (#[trigger] t[j]).score by {
                if j == d.len() {
                    assert(t[i] == d[i]);
                    assert(d.contains(d[i]));
                    let k = choose|k: int| 0 <= k < d0.len() && d0[k] == d[i];
                    assert(s[k] == d[i]);
                    assert(s[k].score >= s[s.len() - 1].score);
                } else {
                    assert(t[i] == d[i] && t[j] == d[j]);
                }
            }
            assert forall|i: int| 0 < i < t.len() implies !same_tiles(#[trigger] t[i], t[i - 1]) by {
                if i < d.len() {
                    assert(t[i] == d[i] && t[i - 1] == d[i - 1]);
                }
            }
            assert forall|x: CandidateMove| t.contains(x) implies s.contains(x) by {
                let k = choose|k: int| 0 <= k < t.len() && t[k] == x;
                if k < d.len() {
                    assert(d[k] == x);
                    assert(d.contains(x));
                    let q = choose|q: int| 0 <= q < d0.len() && d0[q] == x;
                    assert(s[q] == x);
                } else {
                    assert(s[s.len() - 1] == x);
                }
            }
        } else {
            assert forall|x: CandidateMove| d.contains(x) implies s.contains(x) by {
                let q = choose|q: int| 0 <= q < d0.len() && d0[q] == x;
                assert(s[q] == x);
            }
        }
    }
}

/// On an empty board no square has letters across or down, so every letter is allowed.
proof fn lemma_empty_board_mask(ks: Seq<Seq<u8>>, b: Board, r: int, c: int)
    requires
        b.spec_is_empty(),
    ensures
        cross_mask(ks, b, r, c, true) == all_letters_spec(),
        cross_mask(ks, b, r, c, false) == all_letters_spec(),
        square_mask(ks, b, r, c) == all_letters_spec(),
{
    assert forall|h: bool| #[trigger] cross_mask(ks, b, r, c, h) == all_letters_spec() by {
        let d = !h;
        let (fixed, pos) = if h { (c, r) } else { (r, c) };
        assert(b.at(cell(dir(d), fixed, pos - 1).0, cell(dir(d), fixed, pos - 1).1) is None);
        assert(b.at(cell(dir(d), fixed, pos + 1).0, cell(dir(d), fixed, pos + 1).1) is None);
        assert(!crate::placement::filled(b, Seq::empty(), dir(d), fixed, pos - 1));
        assert(!crate::placement::filled(b, Seq::empty(), dir(d), fixed, pos + 1));
        assert(run_start(b, d, fixed, pos) == pos);
        assert(run_end(b, d, fixed, pos) == pos);
        assert(cross_before(b, r, c, h).len() == 0);
        assert(cross_after(b, r, c, h).len() == 0);
    }
    assert(cross_mask(ks, b, r, c, true) == all_letters_spec());
    assert(cross_mask(ks, b, r, c, false) == all_letters_spec());
    assert(0x3ffffffu32 & 0x3ffffffu32 == 0x3ffffffu32) by (bit_vector);
}

/// Every ASCII letter is among all the letters.
proof fn lemma_alpha_in_all(l: char)
    requires
        is_ascii_alpha(l),
    ensures
        all_letters_spec() & letter_bit_spec(l) != 0,
{
    let u = upper(l);
    assert(65 <= u as int <= 90);
    assert(upper_byte(l) == u as int);
    let k = (upper_byte(l) - 65) as u32;
    assert(k < 26);
    assert(0x3ffffffu32 & (1u32 << k) != 0) by (bit_vector)
        requires
            k < 26,
    ;
}


/// Some move of `ms` places the same tiles as `ts`, on the same squares, in any order.
pub open spec fn covers(ms: Seq<CandidateMove>, ts: Seq<PlacedTile>) -> bool {
    exists|k: int|
        0 <= k < ms.len() && (#[trigger] ms[k]).tiles@.len() == ts.len() && forall|i: int|
            0 <= i < ts.len() ==> tile_in(#[trigger] ts[i], ms[k].tiles@)
}

/// Inserting a move keeps every move and adds it.
proof fn lemma_insert_contains(s: Seq<CandidateMove>, m: CandidateMove)
    ensures
        insert_by_score(s, m).contains(m),
        forall|x: CandidateMove| s.contains(x) ==> #[trigger] insert_by_score(s, m).contains(x),
    decreases s.len(),
{
    let r = insert_by_score(s, m);
    if s.len() == 0 {
        assert(r[0] == m);
    } else if s.last().score >= m.score {
        assert(r[s.len() as int] == m);
        assert forall|x: CandidateMove| s.contains(x) implies #[trigger] r.contains(x) by {
            let j = choose|j: int| 0 <= j < s.len() && s[j] == x;
            assert(r[j] == x);
        }
    } else {
        let d = s.drop_last();
        lemma_insert_contains(d, m);
        let q = insert_by_score(d, m);
        assert(r == q.push(s.last()));
        let jm = choose|j: int| 0 <= j < q.len() && q[j] == m;
        assert(r[jm] == m);
        assert forall|x: CandidateMove| s.contains(x) implies #[trigger] r.contains(x) by {
            let j = choose|j: int| 0 <= j < s.len() && s[j] == x;
            if j == s.len() - 1 {
                assert(r[q.len() as int] == x);
            } else {
                assert(d[j] == x);
                assert(q.contains(x));
                let jq = choose|jq: int| 0 <= jq < q.len() && q[jq] == x;
                assert(r[jq] == x);
            }
        }
    }
}

/// Sorting keeps every move.
proof fn lemma_sort_contains(s: Seq<CandidateMove>)
    ensures
        forall|x: CandidateMove| s.contains(x) ==> #[trigger] sort_by_score(s).contains(x),
    decreases s.len(),
{
    if s.len() > 0 {
        let d = s.drop_last();
        lemma_sort_contains(d);
        lemma_insert_contains(sort_by_score(d), s.last());
        assert forall|x: CandidateMove| s.contains(x) implies #[trigger] sort_by_score(s).contains(x) by {
            let j = choose|j: int| 0 <= j < s.len() && s[j] == x;
            if j < s.len() - 1 {
                assert(d[j] == x);
                assert(d.contains(x));
            }
        }
    }
}

/// Dropping repeats keeps, for every move, one with the same tiles.
proof fn lemma_dedup_covers(s: Seq<CandidateMove>, k: int)
    requires
        0 <= k < s.len(),
    ensures
        covers(dedup_tiles(s), s[k].tiles@),
    decreases s.len(),
{
    let d = dedup_tiles(s.drop_last());
    let r = dedup_tiles(s);
    if k < s.len() - 1 {
        lemma_dedup_covers(s.drop_last(), k);
        assert(s.drop_last()[k] == s[k]);
        let w = choose|w: int|
            0 <= w < d.len() && (#[trigger] d[w]).tiles@.len() == s[k].tiles@.len() && forall|i: int|
                0 <= i < s[k].tiles@.len() ==> tile_in(#[trigger] s[k].tiles@[i], d[w].tiles@);
        assert(r[w] == d[w]);
    } else {
        if d.len() > 0 && same_tiles(s.last(), d.last()) {
            assert(r[d.len() - 1] == d.last());
        } else {
            let x = s.last();
            assert(r[d.len() as int] == x);
            assert forall|i: int| 0 <= i < x.tiles@.len() implies tile_in(#[trigger] x.tiles@[i], r[d.len() as int].tiles@) by {
                assert(x.tiles@[i] == x.tiles@[i]);
            }
        }
    }
}

/// Each placement that some found move makes is made, up to order, by a move of the sorted
/// list without repeats.
proof fn lemma_ordered_covers(found: Seq<CandidateMove>, ts: Seq<PlacedTile>)
    requires
        has_tiles(found, ts),
    ensures
        covers(dedup_tiles(sort_by_score(found)), ts),
{
    let k = choose|k: int| 0 <= k < found.len() && (#[trigger] found[k]).tiles@ == ts;
    lemma_sort_contains(found);
    assert(found.contains(found[k]));
    let srt = sort_by_score(found);
    assert(srt.contains(found[k]));
    let j = choose|j: int| 0 <= j < srt.len() && srt[j] == found[k];
    lemma_dedup_covers(srt, j);
}


/// The moves after ordering and removing repeats come best first, and no move repeats the
/// tiles of the move just before it.
pub proof fn lemma_ordered_moves(found: Seq<CandidateMove>)
    ensures
        best_first(dedup_tiles(sort_by_score(found))),
        no_adjacent_repeats(dedup_tiles(sort_by_score(found))),
{
    lemma_sort_best_first(found);
    lemma_dedup_best_first(sort_by_score(found));
}

/// Whether every tile of `a` stands in `b` on the same square, and the two have as many tiles.
fn same_tiles_exec(a: &CandidateMove, b: &CandidateMove) -> (r: bool)
    ensures
        r == same_tiles(*a, *b),
{
    if a.tiles.len() != b.tiles.len() {
        return false;
    }
    let mut i: usize = 0;
    while i < a.tiles.len()
        invariant
            i <= a.tiles@.len() == b.tiles@.len(),
            forall|x: int| 0 <= x < i ==> tile_in(#[trigger] a.tiles@[x], b.tiles@),
        decreases a.tiles@.len() - i,
    {
        let at = a.tiles[i];
        let mut found = false;
        let mut j: usize = 0;
        while j < b.tiles.len()
            invariant
                j <= b.tiles@.len(),
                i < a.tiles@.len(),
                at == a.tiles@[i as int],
                found ==> tile_in(at, b.tiles@),
                !found ==> forall|y: int| 0 <= y < j ==> #[trigger] b.tiles@[y] != at,
            decreases b.tiles@.len() - j,
        {
            let bt = b.tiles[j];
            if at.row == bt.row && at.col == bt.col && at.tile == bt.tile {
                assert(b.tiles@[j as int] == at);
                found = true;
            }
            j = j + 1;
        }
        if !found {
            proof {
                if tile_in(at, b.tiles@) {
                    let y = choose|y: int| 0 <= y < b.tiles@.len() && #[trigger] b.tiles@[y] == at;
                    assert(b.tiles@[y] != at);
                }
                assert(!tile_in(a.tiles@[i as int], b.tiles@));
            }
            return false;
        }
        i = i + 1;
    }
    true
}

/// Sorts the moves from highest score to lowest, keeping the order of equal scores, then
/// drops each move whose tiles are those of the move kept before it.
fn dedup_moves(moves: &mut Vec<CandidateMove>)
    ensures
        final(moves)@ == dedup_tiles(sort_by_score(old(moves)@)),
{
    let ghost orig = moves@;
    let n = moves.len();
    let mut src: Vec<CandidateMove> = Vec::new();
    std::mem::swap(moves, &mut src);
    // Reverse the moves, so that popping gives them in their first order.
    let mut rev: Vec<CandidateMove> = Vec::new();
    while src.len() > 0
        invariant
            src@.len() + rev@.len() == n == orig.len(),
            src@ == orig.take(src@.len() as int),
            forall|k: int| 0 <= k < rev@.len() ==> #[trigger] rev@[k] == orig[n - 1 - k],
        decreases src@.len(),
    {
        let m = src.pop().unwrap();
        rev.push(m);
        assert(src@ =~= orig.take(src@.len() as int));
    }
    let mut sorted: Vec<CandidateMove> = Vec::new();
    while rev.len() > 0
        invariant
            rev@.len() <= n == orig.len(),
            forall|k: int| 0 <= k < rev@.len() ==> #[trigger] rev@[k] == orig[n - 1 - k],
            sorted@ == sort_by_score(orig.take(n - rev@.len())),
        decreases rev@.len(),
    {
        let ghost done = n - rev@.len();
        let m = rev.pop().unwrap();
        assert(m == orig[done]);
        let mut k = sorted.len();
        while k > 0 && sorted[k - 1].score < m.score
            invariant
                k <= sorted@.len(),
                forall|j: int| k <= j < sorted@.len() ==> (#[trigger] sorted@[j]).score < m.score,
            decreases k,
        {
            k = k - 1;
        }
        proof {
            lemma_insert_at(sorted@, m, k as int);
            assert(orig.take(done + 1).drop_last() =~= orig.take(done));
            assert(orig.take(done + 1).last() == orig[done]);
        }
        sorted.insert(k, m);
    }
    assert(orig.take(n as int) =~= orig);
    // Reverse again and keep each move unless it repeats the tiles of the last one kept.
    let ghost s = sorted@;
    let n2 = sorted.len();
    let mut rev2: Vec<CandidateMove> = Vec::new();
    while sorted.len() > 0
        invariant
            sorted@.len() + rev2@.len() == n2 == s.len(),
            sorted@ == s.take(sorted@.len() as int),
            forall|k: int| 0 <= k < rev2@.len() ==> #[trigger] rev2@[k] == s[n2 - 1 - k],
        decreases sorted@.len(),
    {
        let m = sorted.pop().unwrap();
        rev2.push(m);
        assert(sorted@ =~= s.take(sorted@.len() as int));
    }
    let mut out: Vec<CandidateMove> = Vec::new();
    while rev2.len() > 0
        invariant
            rev2@.len() <= n2 == s.len(),
            forall|k: int| 0 <= k < rev2@.len() ==> #[trigger] rev2@[k] == s[n2 - 1 - k],
            out@ == dedup_tiles(s.take(n2 - rev2@.len())),
        decreases rev2@.len(),
    {
        let ghost done = n2 - rev2@.len();
        let m = rev2.pop().unwrap();
        assert(m == s[done]);
        proof {
            assert(s.take(done + 1).drop_last() =~= s.take(done));
            assert(s.take(done + 1).last() == s[done]);
        }
        let keep = if out.len() == 0 {
            true
        } else {
            !same_tiles_exec(&m, &out[out.len() - 1])
        };
        if keep {
            out.push(m);
        }
    }
    assert(s.take(n2 as int) =~= s);
    *moves = out;
}

} // verus!
