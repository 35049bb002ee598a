//! Validation of a placement: the rules on where new tiles may go, and the words
//! that a placement forms.
use vstd::prelude::*;
use vstd::string::*;
use crate::board::{Board, BOARD_SIZE, CENTER};
use crate::error::WordGameError;
use crate::text::{nat_digits, owned, string_from_chars, usize_decimal};
use crate::tile::Tile;
use crate::scoring::{is_line_run, lemma_line_word_fits, max_word_score, score_word_fits, word_score};

verus! {

/// A tile placed on the board by a player during a turn.
#[derive(Debug, Clone, Copy, PartialEq, Eq, Structural)]
pub struct PlacedTile {
    pub row: usize,
    pub col: usize,
    pub tile: Tile,
}

/// Direction of word placement.
#[derive(Debug, Clone, Copy, PartialEq, Eq, Structural)]
pub enum Direction {
    Horizontal,
    Vertical,
}

/// A validated placement with extracted words.
#[derive(Debug, Clone)]
pub struct ValidatedPlacement {
    pub tiles: Vec<PlacedTile>,
    pub direction: Direction,
    /// All words formed (primary + cross-words), as lists of (row, col) positions.
    pub words_formed: Vec<Vec<(usize, usize)>>,
    /// The actual word strings formed.
    pub word_strings: Vec<String>,
}

// ---------------------------------------------------------------------------
// The model of a placement.
// ---------------------------------------------------------------------------

/// Whether placed tile `t` stands at `(r, c)`.
pub open spec fn at_pos(t: PlacedTile, r: int, c: int) -> bool {
    t.row == r && t.col == c
}

/// Whether some placed tile stands at `(r, c)`.
pub open spec fn has_new(ts: Seq<PlacedTile>, r: int, c: int) -> bool {
    exists|i: int| 0 <= i < ts.len() && at_pos(#[trigger] ts[i], r, c)
}

/// `i` is the first placed tile that stands at `(r, c)`.
pub open spec fn is_first_at(ts: Seq<PlacedTile>, r: int, c: int, i: int) -> bool {
    &&& 0 <= i < ts.len()
    &&& at_pos(ts[i], r, c)
    &&& forall|j: int| 0 <= j < i ==> !at_pos(#[trigger] ts[j], r, c)
}

/// The tile of the first placed tile at `(r, c)`.
pub open spec fn new_tile_at(ts: Seq<PlacedTile>, r: int, c: int) -> Option<Tile> {
    if exists|i: int| is_first_at(ts, r, c, i) {
        Some(ts[choose|i: int| is_first_at(ts, r, c, i)].tile)
    } else {
        None
    }
}

/// The board as it would look with the placed tiles added: a board tile wins, then
/// the first placed tile at that square.
pub open spec fn tile_view(b: Board, ts: Seq<PlacedTile>, r: int, c: int) -> Option<Tile> {
    if b.at(r, c) is Some {
        b.at(r, c)
    } else {
        new_tile_at(ts, r, c)
    }
}

/// The square at position `pos` of the line `fixed` in direction `d`.
pub open spec fn cell(d: Direction, fixed: int, pos: int) -> (int, int) {
    match d {
        Direction::Horizontal => (fixed, pos),
        Direction::Vertical => (pos, fixed),
    }
}

/// Whether the square at `pos` on line `fixed` in direction `d` holds a tile, old or new.
pub open spec fn filled(b: Board, ts: Seq<PlacedTile>, d: Direction, fixed: int, pos: int) -> bool {
    let (r, c) = cell(d, fixed, pos);
    tile_view(b, ts, r, c) is Some
}

/// Where a word through `pos` starts: `pos` moved back over every filled square.
pub open spec fn ext_back(b: Board, ts: Seq<PlacedTile>, d: Direction, fixed: int, pos: int) -> int
    decreases pos,
{
    if pos > 0 && filled(b, ts, d, fixed, pos - 1) {
        ext_back(b, ts, d, fixed, pos - 1)
    } else {
        pos
    }
}

/// Where a word through `pos` ends: `pos` moved forward over every filled square.
pub open spec fn ext_fwd(b: Board, ts: Seq<PlacedTile>, d: Direction, fixed: int, pos: int) -> int
    decreases 15 - pos,
{
    if pos + 1 < 15 && filled(b, ts, d, fixed, pos + 1) {
        ext_fwd(b, ts, d, fixed, pos + 1)
    } else {
        pos
    }
}

/// The squares of the run of filled squares on line `fixed` that covers `lo..=hi`.
pub open spec fn word_positions(
    b: Board,
    ts: Seq<PlacedTile>,
    d: Direction,
    fixed: int,
    lo: int,
    hi: int,
) -> Seq<(usize, usize)> {
    let s = ext_back(b, ts, d, fixed, lo);
    let e = ext_fwd(b, ts, d, fixed, hi);
    Seq::new(
        (e - s + 1) as nat,
        |k: int| ((cell(d, fixed, s + k).0) as usize, (cell(d, fixed, s + k).1) as usize),
    )
}

/// The coordinate of a placed tile along direction `d`.
pub open spec fn coord(t: PlacedTile, d: Direction) -> int {
    match d {
        Direction::Horizontal => t.col as int,
        Direction::Vertical => t.row as int,
    }
}

/// The line of a placed tile across direction `d`.
pub open spec fn line_of(t: PlacedTile, d: Direction) -> int {
    match d {
        Direction::Horizontal => t.row as int,
        Direction::Vertical => t.col as int,
    }
}

/// The other direction.
pub open spec fn perp(d: Direction) -> Direction {
    match d {
        Direction::Horizontal => Direction::Vertical,
        Direction::Vertical => Direction::Horizontal,
    }
}

/// Smallest coordinate along `d` of the placed tiles.
pub open spec fn min_coord(ts: Seq<PlacedTile>, d: Direction) -> int
    decreases ts.len(),
{
    if ts.len() <= 1 {
        if ts.len() == 0 { 0 } else { coord(ts[0], d) }
    } else {
        let m = min_coord(ts.drop_last(), d);
        let x = coord(ts.last(), d);
        if x < m { x } else { m }
    }
}

/// Largest coordinate along `d` of the placed tiles.
pub open spec fn max_coord(ts: Seq<PlacedTile>, d: Direction) -> int
    decreases ts.len(),
{
    if ts.len() <= 1 {
        if ts.len() == 0 { 0 } else { coord(ts[0], d) }
    } else {
        let m = max_coord(ts.drop_last(), d);
        let x = coord(ts.last(), d);
        if x > m { x } else { m }
    }
}

/// The squares of the main word: the run along `d` through all placed tiles.
pub open spec fn primary_positions(b: Board, ts: Seq<PlacedTile>, d: Direction) -> Seq<(usize, usize)> {
    word_positions(b, ts, d, line_of(ts[0], d), min_coord(ts, d), max_coord(ts, d))
}

/// The squares of the run in direction `e` through placed tile `t`.
pub open spec fn cross_positions(b: Board, ts: Seq<PlacedTile>, t: PlacedTile, e: Direction) -> Seq<(usize, usize)> {
    word_positions(b, ts, e, line_of(t, e), coord(t, e), coord(t, e))
}

/// The cross words of the first `k` placed tiles, in their order, each kept when it
/// is at least two squares long.
pub open spec fn cross_words(b: Board, ts: Seq<PlacedTile>, d: Direction, k: int) -> Seq<Seq<(usize, usize)>>
    decreases k,
{
    if k <= 0 {
        Seq::empty()
    } else {
        let w = cross_positions(b, ts, ts[k - 1], perp(d));
        cross_words(b, ts, d, k - 1) + if w.len() >= 2 { seq![w] } else { Seq::empty() }
    }
}

/// All words a placement forms: the main word if it has two squares or more, then
/// the cross words.
pub open spec fn words_spec(b: Board, ts: Seq<PlacedTile>, d: Direction) -> Seq<Seq<(usize, usize)>> {
    let p = primary_positions(b, ts, d);
    (if p.len() >= 2 { seq![p] } else { Seq::empty() }) + cross_words(b, ts, d, ts.len() as int)
}

/// The letters shown on the given squares, skipping squares that show none.
pub open spec fn letters(b: Board, ts: Seq<PlacedTile>, ps: Seq<(usize, usize)>) -> Seq<char>
    decreases ps.len(),
{
    if ps.len() == 0 {
        Seq::empty()
    } else {
        let (r, c) = ps.last();
        let rest = letters(b, ts, ps.drop_last());
        match tile_view(b, ts, r as int, c as int) {
            Some(t) => match t.spec_letter() {
                Some(ch) => rest.push(ch),
                None => rest,
            },
            None => rest,
        }
    }
}

/// Whether placed tile `t` is off the board.
pub open spec fn off_board(t: PlacedTile) -> bool {
    !(t.row < 15 && t.col < 15)
}

/// Whether placed tile `t` may not go where it is: off the board or on a tile.
pub open spec fn bad_tile(b: Board, t: PlacedTile) -> bool {
    off_board(t) || b.occupied(t.row as int, t.col as int)
}

/// `i` is the first placed tile that may not go where it is.
pub open spec fn is_first_bad(b: Board, ts: Seq<PlacedTile>, i: int) -> bool {
    &&& 0 <= i < ts.len()
    &&& bad_tile(b, ts[i])
    &&& forall|j: int| 0 <= j < i ==> !bad_tile(b, #[trigger] ts[j])
}

/// The first placed tile that may not go where it is.
pub open spec fn first_bad(b: Board, ts: Seq<PlacedTile>) -> Option<int> {
    if exists|i: int| is_first_bad(b, ts, i) {
        Some(choose|i: int| is_first_bad(b, ts, i))
    } else {
        None
    }
}

/// Whether two placed tiles share a square.
pub open spec fn has_dup(ts: Seq<PlacedTile>) -> bool {
    exists|i: int, j: int|
        0 <= i < j < ts.len() && (#[trigger] ts[i]).row == (#[trigger] ts[j]).row && ts[i].col
            == ts[j].col
}

/// The direction of a placement: horizontal for one tile or one row, vertical for
/// one column, none otherwise.
pub open spec fn direction_of(ts: Seq<PlacedTile>) -> Option<Direction> {
    if ts.len() == 1 {
        Some(Direction::Horizontal)
    } else if forall|i: int| 0 <= i < ts.len() ==> (#[trigger] ts[i]).row == ts[0].row {
        Some(Direction::Horizontal)
    } else if forall|i: int| 0 <= i < ts.len() ==> (#[trigger] ts[i]).col == ts[0].col {
        Some(Direction::Vertical)
    } else {
        None
    }
}

/// Whether every square between the first and the last placed tile holds a tile,
/// new or old.
pub open spec fn contiguous(b: Board, ts: Seq<PlacedTile>, d: Direction) -> bool {
    ts.len() <= 1 || forall|p: int|
        min_coord(ts, d) <= p <= max_coord(ts, d) ==> {
            let (r, c) = #[trigger] cell(d, line_of(ts[0], d), p);
            has_new(ts, r, c) || b.occupied(r, c)
        }
}

/// Whether some placed tile covers the center square.
pub open spec fn covers_center(ts: Seq<PlacedTile>) -> bool {
    exists|i: int| 0 <= i < ts.len() && at_pos(#[trigger] ts[i], 7, 7)
}

/// Whether a square next to `(r, c)` holds a board tile.
pub open spec fn adjacent_occupied(b: Board, r: int, c: int) -> bool {
    b.occupied(r - 1, c) || b.occupied(r + 1, c) || b.occupied(r, c - 1) || b.occupied(r, c + 1)
}

/// Whether some placed tile is next to a board tile.
pub open spec fn touches(b: Board, ts: Seq<PlacedTile>) -> bool {
    exists|i: int| 0 <= i < ts.len() && adjacent_occupied(b, (#[trigger] ts[i]).row as int, ts[i].col as int)
}

pub open spec fn msg_empty() -> Seq<char> {
    "must place at least one tile"@
}

pub open spec fn msg_off_board(t: PlacedTile) -> Seq<char> {
    "position ("@ + nat_digits(t.row as nat) + ", "@ + nat_digits(t.col as nat) + ") is out of bounds"@
}

pub open spec fn msg_occupied(t: PlacedTile) -> Seq<char> {
    "position ("@ + nat_digits(t.row as nat) + ", "@ + nat_digits(t.col as nat) + ") is already occupied"@
}

pub open spec fn msg_duplicate() -> Seq<char> {
    "duplicate tile positions"@
}

pub open spec fn msg_line() -> Seq<char> {
    "tiles must be in a single row or column"@
}

pub open spec fn msg_gap() -> Seq<char> {
    "tiles must form a contiguous line"@
}

pub open spec fn msg_center() -> Seq<char> {
    "first move must cover the center square"@
}

pub open spec fn msg_two() -> Seq<char> {
    "first move must place at least 2 tiles"@
}

pub open spec fn msg_adjacent() -> Seq<char> {
    "tiles must be adjacent to existing tiles"@
}

pub open spec fn msg_no_words() -> Seq<char> {
    "no words formed"@
}

/// Why a placement is refused, checked in this order; `None` when it is accepted.
pub open spec fn placement_failure(b: Board, ts: Seq<PlacedTile>, first: bool) -> Option<Seq<char>> {
    if ts.len() == 0 {
        Some(msg_empty())
    } else if first_bad(b, ts) is Some {
        let t = ts[first_bad(b, ts)->0];
        if off_board(t) {
            Some(msg_off_board(t))
        } else {
            Some(msg_occupied(t))
        }
    } else if has_dup(ts) {
        Some(msg_duplicate())
    } else if direction_of(ts) is None {
        Some(msg_line())
    } else {
        let d = direction_of(ts)->0;
        if !contiguous(b, ts, d) {
            Some(msg_gap())
        } else if first && !covers_center(ts) {
            Some(msg_center())
        } else if first && ts.len() < 2 {
            Some(msg_two())
        } else if !first && !touches(b, ts) {
            Some(msg_adjacent())
        } else if words_spec(b, ts, d).len() == 0 {
            Some(msg_no_words())
        } else {
            None
        }
    }
}

/// Whether `e` is the refusal of a placement with message `m`.
pub open spec fn is_placement_error(e: WordGameError, m: Seq<char>) -> bool {
    match e {
        WordGameError::InvalidPlacement(s) => s@ == m,
        _ => false,
    }
}


// ---------------------------------------------------------------------------
// The checks.
// ---------------------------------------------------------------------------

/// The first placed tile at a square is unique.
proof fn lemma_first_at(ts: Seq<PlacedTile>, r: int, c: int, i: int)
    requires
        is_first_at(ts, r, c, i),
    ensures
        new_tile_at(ts, r, c) == Some(ts[i].tile),
{
    let k = choose|k: int| is_first_at(ts, r, c, k);
    assert(is_first_at(ts, r, c, k));
    if k < i {
        assert(!at_pos(ts[k], r, c));
    } else if i < k {
        assert(!at_pos(ts[i], r, c));
    }
}

/// The tile a square would show with the placed tiles added.
fn tile_at(board: &Board, tiles: &[PlacedTile], row: usize, col: usize) -> (r: Option<Tile>)
    ensures
        r == tile_view(*board, tiles@, row as int, col as int),
{
    let g = board.get(row, col);
    if g.is_some() {
        return Some(*g.unwrap());
    }
    assert(board.at(row as int, col as int) is None);
    let mut i: usize = 0;
    while i < tiles.len()
        invariant
            i <= tiles@.len(),
            forall|j: int| 0 <= j < i ==> !at_pos(#[trigger] tiles@[j], row as int, col as int),
            board.at(row as int, col as int) is None,
        decreases tiles@.len() - i,
    {
        if tiles[i].row == row && tiles[i].col == col {
            proof {
                lemma_first_at(tiles@, row as int, col as int, i as int);
            }
            return Some(tiles[i].tile);
        }
        i = i + 1;
    }
    proof {
        if exists|k: int| is_first_at(tiles@, row as int, col as int, k) {
            let k = choose|k: int| is_first_at(tiles@, row as int, col as int, k);
            assert(!at_pos(tiles@[k], row as int, col as int));
        }
    }
    None
}

/// The letter a square would show with the placed tiles added.
fn tile_letter(board: &Board, tiles: &[PlacedTile], row: usize, col: usize) -> (r: Option<char>)
    ensures
        r == match tile_view(*board, tiles@, row as int, col as int) {
            Some(t) => t.spec_letter(),
            None => None,
        },
{
    match tile_at(board, tiles, row, col) {
        Some(t) => t.letter(),
        None => None,
    }
}

/// The square at `pos` of line `fixed` in direction `d`.
fn cell_of(d: Direction, fixed: usize, pos: usize) -> (rc: (usize, usize))
    ensures
        rc.0 as int == cell(d, fixed as int, pos as int).0,
        rc.1 as int == cell(d, fixed as int, pos as int).1,
{
    match d {
        Direction::Horizontal => (fixed, pos),
        Direction::Vertical => (pos, fixed),
    }
}

/// Whether the square at `pos` of line `fixed` shows a tile, old or new.
fn is_filled(board: &Board, tiles: &[PlacedTile], d: Direction, fixed: usize, pos: usize) -> (r: bool)
    ensures
        r == filled(*board, tiles@, d, fixed as int, pos as int),
{
    let (r, c) = cell_of(d, fixed, pos);
    tile_at(board, tiles, r, c).is_some()
}

/// The squares of the run of filled squares on line `fixed` that covers `lo..=hi`.
fn run_positions(
    board: &Board,
    tiles: &[PlacedTile],
    d: Direction,
    fixed: usize,
    lo: usize,
    hi: usize,
) -> (ps: Vec<(usize, usize)>)
    requires
        fixed < 15,
        lo <= hi < 15,
    ensures
        ps@ == word_positions(*board, tiles@, d, fixed as int, lo as int, hi as int),
        ps@.len() <= 15,
{
    let ghost b = *board;
    let ghost ts = tiles@;
    let mut start = lo;
    while start > 0 && is_filled(board, tiles, d, fixed, start - 1)
        invariant
            start <= lo,
            ext_back(b, ts, d, fixed as int, start as int) == ext_back(b, ts, d, fixed as int, lo as int),
            b == *board,
            ts == tiles@,
        decreases start,
    {
        start = start - 1;
    }
    let mut end = hi;
    while end + 1 < BOARD_SIZE && is_filled(board, tiles, d, fixed, end + 1)
        invariant
            hi <= end < 15,
            ext_fwd(b, ts, d, fixed as int, end as int) == ext_fwd(b, ts, d, fixed as int, hi as int),
            b == *board,
            ts == tiles@,
        decreases 15 - end,
    {
        end = end + 1;
    }
    let ghost want = word_positions(b, ts, d, fixed as int, lo as int, hi as int);
    assert(want.len() == end - start + 1);
    let mut ps: Vec<(usize, usize)> = Vec::new();
    let mut p = start;
    while p <= end
        invariant
            start <= p <= end + 1,
            end < 15,
            want.len() == end - start + 1,
            want == word_positions(b, ts, d, fixed as int, lo as int, hi as int),
            ext_back(b, ts, d, fixed as int, lo as int) == start,
            ps@ == want.subrange(0, p - start),
        decreases end + 1 - p,
    {
        ps.push(cell_of(d, fixed, p));
        p = p + 1;
        assert(ps@ =~= want.subrange(0, p - start));
    }
    assert(ps@ =~= want);
    ps
}

/// The letters shown along the given squares, as a string.
fn word_string(board: &Board, tiles: &[PlacedTile], ps: &Vec<(usize, usize)>) -> (s: String)
    ensures
        s@ == letters(*board, tiles@, ps@),
{
    let mut chars: Vec<char> = Vec::new();
    let mut k: usize = 0;
    while k < ps.len()
        invariant
            k <= ps@.len(),
            chars@ == letters(*board, tiles@, ps@.subrange(0, k as int)),
        decreases ps@.len() - k,
    {
        let (r, c) = ps[k];
        let l = tile_letter(board, tiles, r, c);
        proof {
            assert(ps@.subrange(0, k + 1).drop_last() =~= ps@.subrange(0, k as int));
        }
        if let Some(ch) = l {
            chars.push(ch);
        }
        k = k + 1;
    }
    assert(ps@.subrange(0, ps@.len() as int) =~= ps@);
    string_from_chars(&chars)
}

/// Smallest and largest coordinate along `d` of the placed tiles.
fn coord_range(tiles: &[PlacedTile], d: Direction) -> (mm: (usize, usize))
    requires
        tiles@.len() >= 1,
    ensures
        mm.0 == min_coord(tiles@, d),
        mm.1 == max_coord(tiles@, d),
{
    let mut mn = match d {
        Direction::Horizontal => tiles[0].col,
        Direction::Vertical => tiles[0].row,
    };
    let mut mx = mn;
    let mut i: usize = 1;
    assert(tiles@.subrange(0, 1).len() == 1);
    while i < tiles.len()
        invariant
            1 <= i <= tiles@.len(),
            mn == min_coord(tiles@.subrange(0, i as int), d),
            mx == max_coord(tiles@.subrange(0, i as int), d),
        decreases tiles@.len() - i,
    {
        let x = match d {
            Direction::Horizontal => tiles[i].col,
            Direction::Vertical => tiles[i].row,
        };
        assert(tiles@.subrange(0, i + 1).drop_last() =~= tiles@.subrange(0, i as int));
        if x < mn {
            mn = x;
        }
        if x > mx {
            mx = x;
        }
        i = i + 1;
    }
    assert(tiles@.subrange(0, tiles@.len() as int) =~= tiles@);
    (mn, mx)
}


/// A refusal of the placement with the given message.
fn refuse(m: &str) -> (e: WordGameError)
    ensures
        is_placement_error(e, m@),
{
    WordGameError::InvalidPlacement(owned(m))
}

/// A refusal naming the square `(row, col)`, with the given ending.
fn refuse_at(row: usize, col: usize, ending: &str) -> (e: WordGameError)
    ensures
        is_placement_error(
            e,
            "position ("@ + nat_digits(row as nat) + ", "@ + nat_digits(col as nat) + ending@,
        ),
{
    let mut m = owned("position (");
    m.append(usize_decimal(row).as_str());
    m.append(", ");
    m.append(usize_decimal(col).as_str());
    m.append(ending);
    WordGameError::InvalidPlacement(m)
}

fn determine_direction(tiles: &[PlacedTile]) -> (r: Result<Direction, WordGameError>)
    requires
        tiles@.len() >= 1,
    ensures
        match r {
            Ok(d) => direction_of(tiles@) == Some(d),
            Err(e) => direction_of(tiles@) is None && is_placement_error(e, msg_line()),
        },
{
    if tiles.len() == 1 {
        // Single tile: direction doesn't matter, default to Horizontal
        return Ok(Direction::Horizontal);
    }
    let mut same_row = true;
    let mut same_col = true;
    let mut i: usize = 0;
    while i < tiles.len()
        invariant
            i <= tiles@.len(),
            tiles@.len() >= 2,
            same_row == forall|j: int| 0 <= j < i ==> (#[trigger] tiles@[j]).row == tiles@[0].row,
            same_col == forall|j: int| 0 <= j < i ==> (#[trigger] tiles@[j]).col == tiles@[0].col,
        decreases tiles@.len() - i,
    {
        if tiles[i].row != tiles[0].row {
            same_row = false;
        }
        if tiles[i].col != tiles[0].col {
            same_col = false;
        }
        i = i + 1;
    }
    if same_row {
        Ok(Direction::Horizontal)
    } else if same_col {
        Ok(Direction::Vertical)
    } else {
        proof {
            reveal_strlit("tiles must be in a single row or column");
        }
        Err(refuse("tiles must be in a single row or column"))
    }
}

fn check_contiguous(board: &Board, tiles: &[PlacedTile], direction: Direction) -> (r: Result<(), WordGameError>)
    requires
        tiles@.len() >= 1,
        forall|i: int| 0 <= i < tiles@.len() ==> !off_board(#[trigger] tiles@[i]),
        direction_of(tiles@) == Some(direction),
    ensures
        match r {
            Ok(_) => contiguous(*board, tiles@, direction),
            Err(e) => !contiguous(*board, tiles@, direction) && is_placement_error(e, msg_gap()),
        },
{
    if tiles.len() <= 1 {
        return Ok(());
    }
    let (min, max) = coord_range(tiles, direction);
    let fixed = match direction {
        Direction::Horizontal => tiles[0].row,
        Direction::Vertical => tiles[0].col,
    };
    proof {
        lemma_coord_range_bounds(tiles@, direction);
    }
    let ghost b = *board;
    let ghost ts = tiles@;
    let mut pos = min;
    while pos <= max
        invariant
            min <= pos <= max + 1,
            max < 15,
            fixed < 15,
            ts.len() >= 2,
            min == min_coord(ts, direction),
            max == max_coord(ts, direction),
            fixed == line_of(ts[0], direction),
            b == *board,
            ts == tiles@,
            forall|p: int|
                min <= p < pos ==> {
                    let (r, c) = #[trigger] cell(direction, line_of(ts[0], direction), p);
                    has_new(ts, r, c) || b.occupied(r, c)
                },
        decreases max + 1 - pos,
    {
        let (row, col) = cell_of(direction, fixed, pos);
        let mut is_new = false;
        let mut i: usize = 0;
        while i < tiles.len()
            invariant
                i <= ts.len(),
                ts == tiles@,
                is_new == exists|j: int| 0 <= j < i && at_pos(#[trigger] ts[j], row as int, col as int),
            decreases ts.len() - i,
        {
            if tiles[i].row == row && tiles[i].col == col {
                is_new = true;
            }
            i = i + 1;
        }
        let is_existing = board.is_occupied(row, col);
        if !is_new && !is_existing {
            proof {
                reveal_strlit("tiles must form a contiguous line");
                let (r, c) = cell(direction, line_of(ts[0], direction), pos as int);
                assert(r == row && c == col);
                assert(!has_new(ts, r, c));
                assert(!(has_new(ts, r, c) || b.occupied(r, c)));
                assert(ts.len() > 1);
            }
            return Err(refuse("tiles must form a contiguous line"));
        }
        pos = pos + 1;
    }
    Ok(())
}

/// The coordinates of placed tiles that are on the board are on the board.
pub(crate) proof fn lemma_coord_range_bounds(ts: Seq<PlacedTile>, d: Direction)
    requires
        ts.len() >= 1,
        forall|i: int| 0 <= i < ts.len() ==> !off_board(#[trigger] ts[i]),
    ensures
        0 <= min_coord(ts, d) <= max_coord(ts, d) < 15,
        0 <= line_of(ts[0], d) < 15,
        exists|i: int| 0 <= i < ts.len() && coord(#[trigger] ts[i], d) == min_coord(ts, d),
        exists|i: int| 0 <= i < ts.len() && coord(#[trigger] ts[i], d) == max_coord(ts, d),
        forall|i: int| 0 <= i < ts.len() ==> min_coord(ts, d) <= #[trigger] coord(ts[i], d) <= max_coord(ts, d),
    decreases ts.len(),
{
    assert(!off_board(ts[0]));
    if ts.len() > 1 {
        let s = ts.drop_last();
        assert forall|i: int| 0 <= i < s.len() implies !off_board(#[trigger] s[i]) by {
            assert(s[i] == ts[i]);
        }
        lemma_coord_range_bounds(s, d);
        assert(!off_board(ts[ts.len() - 1]));
        assert forall|i: int| 0 <= i < ts.len() implies min_coord(ts, d) <= #[trigger] coord(ts[i], d) <= max_coord(ts, d) by {
            if i < ts.len() - 1 {
                assert(s[i] == ts[i]);
            }
        }
        if coord(ts.last(), d) < min_coord(s, d) {
            assert(coord(ts[ts.len() - 1], d) == min_coord(ts, d));
        } else {
            let k = choose|i: int| 0 <= i < s.len() && coord(#[trigger] s[i], d) == min_coord(s, d);
            assert(coord(ts[k], d) == min_coord(ts, d));
        }
        if coord(ts.last(), d) > max_coord(s, d) {
            assert(coord(ts[ts.len() - 1], d) == max_coord(ts, d));
        } else {
            let k = choose|i: int| 0 <= i < s.len() && coord(#[trigger] s[i], d) == max_coord(s, d);
            assert(coord(ts[k], d) == max_coord(ts, d));
        }
    } else {
        assert(coord(ts[0], d) == min_coord(ts, d));
    }
}

fn has_adjacent_tile(board: &Board, row: usize, col: usize) -> (r: bool)
    requires
        row < 15,
        col < 15,
    ensures
        r == adjacent_occupied(*board, row as int, col as int),
{
    proof {
        board.lemma_off_board(row - 1, col as int);
        board.lemma_off_board(row as int, col - 1);
    }
    (row > 0 && board.is_occupied(row - 1, col)) || board.is_occupied(row + 1, col) || (col > 0
        && board.is_occupied(row, col - 1)) || board.is_occupied(row, col + 1)
}

/// Extract the full word along `direction` that includes the placed tiles.
fn extract_word_along(board: &Board, tiles: &[PlacedTile], direction: Direction) -> (ps: Vec<(usize, usize)>)
    requires
        tiles@.len() >= 1,
        forall|i: int| 0 <= i < tiles@.len() ==> !off_board(#[trigger] tiles@[i]),
    ensures
        ps@ == primary_positions(*board, tiles@, direction),
{
    let (min_pos, max_pos) = coord_range(tiles, direction);
    let fixed = match direction {
        Direction::Horizontal => tiles[0].row,
        Direction::Vertical => tiles[0].col,
    };
    proof {
        lemma_coord_range_bounds(tiles@, direction);
    }
    run_positions(board, tiles, direction, fixed, min_pos, max_pos)
}

/// Extract a cross-word through (row, col) in the given direction.
fn extract_cross_word(
    board: &Board,
    tiles: &[PlacedTile],
    row: usize,
    col: usize,
    direction: Direction,
) -> (ps: Vec<(usize, usize)>)
    requires
        row < 15,
        col < 15,
    ensures
        ps@ == cross_positions(*board, tiles@, PlacedTile { row, col, tile: Tile::Blank(None) }, direction),
{
    let (fixed, pos) = match direction {
        Direction::Horizontal => (row, col),
        Direction::Vertical => (col, row),
    };
    run_positions(board, tiles, direction, fixed, pos, pos)
}

/// Extract all words formed by the placement.
fn extract_words(board: &Board, tiles: &[PlacedTile], direction: Direction) -> (r: Result<
    (Vec<Vec<(usize, usize)>>, Vec<String>),
    WordGameError,
>)
    requires
        tiles@.len() >= 1,
        forall|i: int| 0 <= i < tiles@.len() ==> !off_board(#[trigger] tiles@[i]),
    ensures
        r is Ok,
        r matches Ok((ws, ss)) ==> words_match(*board, tiles@, words_spec(*board, tiles@, direction), ws@, ss@),
{
    let ghost b = *board;
    let ghost ts = tiles@;
    let mut all_positions: Vec<Vec<(usize, usize)>> = Vec::new();
    let mut all_strings: Vec<String> = Vec::new();
    let primary = extract_word_along(board, tiles, direction);
    if primary.len() >= 2 {
        let s = word_string(board, tiles, &primary);
        all_positions.push(primary);
        all_strings.push(s);
    }
    let ghost head = all_positions@.len();
    let cross_dir = match direction {
        Direction::Horizontal => Direction::Vertical,
        Direction::Vertical => Direction::Horizontal,
    };
    let ghost p = primary_positions(b, ts, direction);
    let ghost head_spec: Seq<Seq<(usize, usize)>> = if p.len() >= 2 { seq![p] } else { Seq::empty() };
    assert(words_match(b, ts, head_spec + cross_words(b, ts, direction, 0), all_positions@, all_strings@));
    let mut i: usize = 0;
    while i < tiles.len()
        invariant
            i <= ts.len(),
            ts == tiles@,
            b == *board,
            cross_dir == perp(direction),
            forall|k: int| 0 <= k < ts.len() ==> !off_board(#[trigger] ts[k]),
            words_match(b, ts, head_spec + cross_words(b, ts, direction, i as int), all_positions@, all_strings@),
        decreases ts.len() - i,
    {
        let t = tiles[i];
        assert(!off_board(ts[i as int]));
        let cross = extract_cross_word(board, tiles, t.row, t.col, cross_dir);
        proof {
            assert(cross_positions(b, ts, PlacedTile { row: t.row, col: t.col, tile: Tile::Blank(None) }, cross_dir)
                == cross_positions(b, ts, ts[i as int], perp(direction)));
        }
        let ghost before = head_spec + cross_words(b, ts, direction, i as int);
        if cross.len() >= 2 {
            let s = word_string(board, tiles, &cross);
            all_positions.push(cross);
            all_strings.push(s);
        }
        i = i + 1;
        proof {
            let after = head_spec + cross_words(b, ts, direction, i as int);
            let w = cross_positions(b, ts, ts[i - 1], perp(direction));
            assert(after =~= before + if w.len() >= 2 { seq![w] } else { Seq::empty() });
        }
    }
    Ok((all_positions, all_strings))
}

/// Whether computed words `ws` and strings `ss` are the modelled words `spec`.
pub open spec fn words_match(
    b: Board,
    ts: Seq<PlacedTile>,
    spec: Seq<Seq<(usize, usize)>>,
    ws: Seq<Vec<(usize, usize)>>,
    ss: Seq<String>,
) -> bool {
    &&& ws.len() == spec.len()
    &&& ss.len() == spec.len()
    &&& forall|k: int| 0 <= k < spec.len() ==> (#[trigger] ws[k])@ == spec[k]
    &&& forall|k: int| 0 <= k < spec.len() ==> (#[trigger] ss[k])@ == letters(b, ts, spec[k])
}


/// The first tile that may not go where it is, is unique.
proof fn lemma_first_bad(b: Board, ts: Seq<PlacedTile>, i: int)
    requires
        is_first_bad(b, ts, i),
    ensures
        first_bad(b, ts) == Some(i),
{
    let k = choose|k: int| is_first_bad(b, ts, k);
    assert(is_first_bad(b, ts, k));
    if k < i {
        assert(!bad_tile(b, ts[k]));
    } else if i < k {
        assert(!bad_tile(b, ts[i]));
    }
}

/// Validate tile placement on the board.
pub fn validate_placement(board: &Board, tiles: &[PlacedTile], is_first_move: bool) -> (r: Result<
    ValidatedPlacement,
    WordGameError,
>)
    ensures
        match r {
            Ok(vp) => {
                &&& placement_failure(*board, tiles@, is_first_move) is None
                &&& forall|i: int| 0 <= i < tiles@.len() ==> !bad_tile(*board, #[trigger] tiles@[i])
                &&& !has_dup(tiles@)
                &&& vp.tiles@ == tiles@
                &&& direction_of(tiles@) == Some(vp.direction)
                &&& words_match(
                    *board,
                    tiles@,
                    words_spec(*board, tiles@, vp.direction),
                    vp.words_formed@,
                    vp.word_strings@,
                )
            },
            Err(e) => placement_failure(*board, tiles@, is_first_move) matches Some(m)
                && is_placement_error(e, m),
        },
{
    let ghost b = *board;
    let ghost ts = tiles@;
    if tiles.len() == 0 {
        return Err(refuse("must place at least one tile"));
    }
    // Check all positions are in bounds and empty
    let mut i: usize = 0;
    while i < tiles.len()
        invariant
            i <= ts.len(),
            ts == tiles@,
            b == *board,
            forall|j: int| 0 <= j < i ==> !bad_tile(b, #[trigger] ts[j]),
        decreases ts.len() - i,
    {
        let t = tiles[i];
        if t.row >= BOARD_SIZE || t.col >= BOARD_SIZE {
            proof {
                lemma_first_bad(b, ts, i as int);
            }
            return Err(refuse_at(t.row, t.col, ") is out of bounds"));
        }
        if board.is_occupied(t.row, t.col) {
            proof {
                lemma_first_bad(b, ts, i as int);
            }
            return Err(refuse_at(t.row, t.col, ") is already occupied"));
        }
        i = i + 1;
    }
    proof {
        if exists|k: int| is_first_bad(b, ts, k) {
            let k = choose|k: int| is_first_bad(b, ts, k);
            assert(!bad_tile(b, ts[k]));
        }
        assert forall|k: int| 0 <= k < ts.len() implies !off_board(#[trigger] ts[k]) by {
            assert(!bad_tile(b, ts[k]));
        }
    }
    assert(first_bad(b, ts) is None);
    // Check no duplicate positions
    let mut i: usize = 0;
    while i < tiles.len()
        invariant
            i <= ts.len(),
            ts == tiles@,
            ts.len() > 0,
            b == *board,
            first_bad(b, ts) is None,
            forall|a: int, c: int|
                0 <= a < i && a < c < ts.len() ==> !((#[trigger] ts[a]).row == (#[trigger] ts[c]).row
                    && ts[a].col == ts[c].col),
        decreases ts.len() - i,
    {
        let mut j: usize = i + 1;
        while j < tiles.len()
            invariant
                i < ts.len(),
                i + 1 <= j <= ts.len(),
                ts == tiles@,
                ts.len() > 0,
                b == *board,
                first_bad(b, ts) is None,
                forall|c: int| i < c < j ==> !((#[trigger] ts[c]).row == ts[i as int].row && ts[c].col == ts[i as int].col),
            decreases ts.len() - j,
        {
            if tiles[i].row == tiles[j].row && tiles[i].col == tiles[j].col {
                proof {
                    assert(has_dup(ts)) by {
                        assert(ts[i as int].row == ts[j as int].row && ts[i as int].col == ts[j as int].col);
                    }
                }
                return Err(refuse("duplicate tile positions"));
            }
            j = j + 1;
        }
        i = i + 1;
    }
    assert(!has_dup(ts));
    assert(forall|i: int| 0 <= i < ts.len() ==> !bad_tile(b, #[trigger] ts[i]));
    // Determine direction
    let direction = match determine_direction(tiles) {
        Ok(d) => d,
        Err(e) => {
            return Err(e);
        },
    };
    // Check tiles are contiguous (with existing board tiles filling gaps)
    match check_contiguous(board, tiles, direction) {
        Ok(_) => {},
        Err(e) => {
            return Err(e);
        },
    }
    if is_first_move {
        // First move must cover center
        let mut covers = false;
        let mut k: usize = 0;
        while k < tiles.len()
            invariant
                k <= ts.len(),
                ts == tiles@,
                covers == exists|j: int| 0 <= j < k && at_pos(#[trigger] ts[j], 7, 7),
            decreases ts.len() - k,
        {
            if tiles[k].row == CENTER && tiles[k].col == CENTER {
                covers = true;
            }
            k = k + 1;
        }
        if !covers {
            return Err(refuse("first move must cover the center square"));
        }
        // First move must form a word of at least 2 letters
        if tiles.len() < 2 {
            return Err(refuse("first move must place at least 2 tiles"));
        }
    } else {
        // Must be adjacent to at least one existing tile
        let mut adjacent = false;
        let mut k: usize = 0;
        while k < tiles.len()
            invariant
                k <= ts.len(),
                ts == tiles@,
                b == *board,
                forall|j: int| 0 <= j < ts.len() ==> !off_board(#[trigger] ts[j]),
                adjacent == exists|j: int|
                    0 <= j < k && adjacent_occupied(b, (#[trigger] ts[j]).row as int, ts[j].col as int),
            decreases ts.len() - k,
        {
            assert(!off_board(ts[k as int]));
            if has_adjacent_tile(board, tiles[k].row, tiles[k].col) {
                adjacent = true;
            }
            k = k + 1;
        }
        if !adjacent {
            return Err(refuse("tiles must be adjacent to existing tiles"));
        }
    }
    // Extract all words formed
    let (words_formed, word_strings) = match extract_words(board, tiles, direction) {
        Ok(w) => w,
        Err(e) => {
            return Err(e);
        },
    };
    if words_formed.len() == 0 {
        return Err(refuse("no words formed"));
    }
    let mut copy: Vec<PlacedTile> = Vec::new();
    let mut k: usize = 0;
    while k < tiles.len()
        invariant
            k <= ts.len(),
            ts == tiles@,
            copy@ == ts.subrange(0, k as int),
        decreases ts.len() - k,
    {
        copy.push(tiles[k]);
        k = k + 1;
        assert(copy@ =~= ts.subrange(0, k as int));
    }
    assert(copy@ =~= ts);
    Ok(ValidatedPlacement { tiles: copy, direction, words_formed, word_strings })
}


// ---------------------------------------------------------------------------
// Words are runs of squares along a line.
// ---------------------------------------------------------------------------

pub(crate) proof fn lemma_ext_back_range(b: Board, ts: Seq<PlacedTile>, d: Direction, fixed: int, pos: int)
    requires
        0 <= pos,
    ensures
        0 <= ext_back(b, ts, d, fixed, pos) <= pos,
    decreases pos,
{
    if pos > 0 && filled(b, ts, d, fixed, pos - 1) {
        lemma_ext_back_range(b, ts, d, fixed, pos - 1);
    }
}

pub(crate) proof fn lemma_ext_fwd_range(b: Board, ts: Seq<PlacedTile>, d: Direction, fixed: int, pos: int)
    requires
        pos < 15,
    ensures
        pos <= ext_fwd(b, ts, d, fixed, pos) < 15,
    decreases 15 - pos,
{
    if pos + 1 < 15 && filled(b, ts, d, fixed, pos + 1) {
        lemma_ext_fwd_range(b, ts, d, fixed, pos + 1);
    }
}

/// A word is the run of squares of one line from its start to its end.
pub proof fn lemma_word_positions_run(b: Board, ts: Seq<PlacedTile>, d: Direction, fixed: int, lo: int, hi: int)
    requires
        0 <= fixed < 15,
        0 <= lo <= hi < 15,
    ensures
        is_line_run(word_positions(b, ts, d, fixed, lo, hi), d, fixed, ext_back(b, ts, d, fixed, lo)),
        word_positions(b, ts, d, fixed, lo, hi).len() >= 1,
{
    lemma_ext_back_range(b, ts, d, fixed, lo);
    lemma_ext_fwd_range(b, ts, d, fixed, hi);
    let s = ext_back(b, ts, d, fixed, lo);
    let ps = word_positions(b, ts, d, fixed, lo, hi);
    assert forall|k: int| 0 <= k < ps.len() implies (#[trigger] ps[k]).0 == cell(d, fixed, s + k).0
        && ps[k].1 == cell(d, fixed, s + k).1 by {
        assert(0 <= cell(d, fixed, s + k).0 && 0 <= cell(d, fixed, s + k).1);
    }
}

proof fn lemma_cross_words_len(b: Board, ts: Seq<PlacedTile>, d: Direction, k: int)
    ensures
        cross_words(b, ts, d, k).len() <= if k < 0 { 0 } else { k },
    decreases k,
{
    if k > 0 {
        lemma_cross_words_len(b, ts, d, k - 1);
    }
}

/// Every cross word is a run of squares of one line.
proof fn lemma_cross_words_runs(
    b: Board,
    ts: Seq<PlacedTile>,
    d: Direction,
    k: int,
    nt: Seq<PlacedTile>,
    m: Seq<(usize, usize, Tile)>,
)
    requires
        k <= ts.len(),
        forall|i: int| 0 <= i < ts.len() ==> !off_board(#[trigger] ts[i]),
    ensures
        forall|j: int|
            0 <= j < cross_words(b, ts, d, k).len() ==> score_word_fits(#[trigger] cross_words(b, ts, d, k)[j], b, nt, m)
                && 0 <= word_score(cross_words(b, ts, d, k)[j], b, nt, m) <= max_word_score(),
    decreases k,
{
    if k > 0 {
        lemma_cross_words_runs(b, ts, d, k - 1, nt, m);
        let t = ts[k - 1];
        assert(!off_board(t));
        let e = perp(d);
        let w = cross_positions(b, ts, t, e);
        lemma_word_positions_run(b, ts, e, line_of(t, e), coord(t, e), coord(t, e));
        lemma_line_word_fits(w, e, line_of(t, e), ext_back(b, ts, e, line_of(t, e), coord(t, e)), b, nt, m);
        let prev = cross_words(b, ts, d, k - 1);
        let cur = cross_words(b, ts, d, k);
        assert forall|j: int| 0 <= j < cur.len() implies score_word_fits(#[trigger] cur[j], b, nt, m)
            && 0 <= word_score(cur[j], b, nt, m) <= max_word_score() by {
            if j < prev.len() {
                assert(cur[j] == prev[j]);
            } else {
                assert(cur[j] == w);
            }
        }
    }
}

/// The words of an accepted placement: at most one more than the tiles placed, and
/// each of them can be scored inside `i32`, for at most `max_word_score()`.
pub proof fn lemma_words_fit(
    b: Board,
    ts: Seq<PlacedTile>,
    d: Direction,
    nt: Seq<PlacedTile>,
    m: Seq<(usize, usize, Tile)>,
)
    requires
        ts.len() >= 1,
        forall|i: int| 0 <= i < ts.len() ==> !off_board(#[trigger] ts[i]),
    ensures
        words_spec(b, ts, d).len() <= ts.len() + 1,
        forall|j: int|
            0 <= j < words_spec(b, ts, d).len() ==> score_word_fits(#[trigger] words_spec(b, ts, d)[j], b, nt, m)
                && 0 <= word_score(words_spec(b, ts, d)[j], b, nt, m) <= max_word_score(),
{
    lemma_cross_words_len(b, ts, d, ts.len() as int);
    lemma_cross_words_runs(b, ts, d, ts.len() as int, nt, m);
    lemma_coord_range_bounds(ts, d);
    let p = primary_positions(b, ts, d);
    lemma_word_positions_run(b, ts, d, line_of(ts[0], d), min_coord(ts, d), max_coord(ts, d));
    lemma_line_word_fits(p, d, line_of(ts[0], d), ext_back(b, ts, d, line_of(ts[0], d), min_coord(ts, d)), b, nt, m);
    let ws = words_spec(b, ts, d);
    let head: Seq<Seq<(usize, usize)>> = if p.len() >= 2 { seq![p] } else { Seq::empty() };
    let cw = cross_words(b, ts, d, ts.len() as int);
    assert forall|j: int| 0 <= j < ws.len() implies score_word_fits(#[trigger] ws[j], b, nt, m)
        && 0 <= word_score(ws[j], b, nt, m) <= max_word_score() by {
        if j < head.len() {
            assert(ws[j] == p);
        } else {
            assert(ws[j] == cw[j - head.len()]);
        }
    }
}

proof fn lemma_find_first_bad(b: Board, ts: Seq<PlacedTile>, k: int)
    requires
        0 <= k < ts.len(),
        bad_tile(b, ts[k]),
    ensures
        exists|i: int| is_first_bad(b, ts, i),
    decreases k,
{
    if exists|j: int| 0 <= j < k && bad_tile(b, #[trigger] ts[j]) {
        let j = choose|j: int| 0 <= j < k && bad_tile(b, #[trigger] ts[j]);
        lemma_find_first_bad(b, ts, j);
    } else {
        assert(is_first_bad(b, ts, k));
    }
}

/// When no placed tile is the first that may not go where it is, none is.
pub proof fn lemma_no_bad_tile(b: Board, ts: Seq<PlacedTile>)
    requires
        first_bad(b, ts) is None,
    ensures
        forall|i: int| 0 <= i < ts.len() ==> !bad_tile(b, #[trigger] ts[i]),
{
    assert forall|i: int| 0 <= i < ts.len() implies !bad_tile(b, #[trigger] ts[i]) by {
        if bad_tile(b, ts[i]) {
            lemma_find_first_bad(b, ts, i);
        }
    }
}

/// How far apart two squares are, counting rows and columns.
pub open spec fn square_distance(r: int, c: int, r2: int, c2: int) -> int {
    (if r2 >= r { r2 - r } else { r - r2 }) + (if c2 >= c { c2 - c } else { c - c2 })
}

/// A square is next to the board's tiles exactly when some board tile is one step away
/// from it, across one of its four sides: above, below, left or right.
pub proof fn lemma_adjacent_is_one_step(b: Board, r: int, c: int)
    ensures
        adjacent_occupied(b, r, c) <==> exists|r2: int, c2: int|
            #[trigger] b.occupied(r2, c2) && square_distance(r, c, r2, c2) == 1,
{
    if adjacent_occupied(b, r, c) {
        if b.occupied(r - 1, c) {
            assert(square_distance(r, c, r - 1, c) == 1);
        } else if b.occupied(r + 1, c) {
            assert(square_distance(r, c, r + 1, c) == 1);
        } else if b.occupied(r, c - 1) {
            assert(square_distance(r, c, r, c - 1) == 1);
        } else {
            assert(square_distance(r, c, r, c + 1) == 1);
        }
    }
    if exists|r2: int, c2: int| #[trigger] b.occupied(r2, c2) && square_distance(r, c, r2, c2) == 1 {
        let (r2, c2) = choose|r2: int, c2: int| #[trigger] b.occupied(r2, c2) && square_distance(r, c, r2, c2) == 1;
        if r2 == r - 1 {
            assert(c2 == c);
        } else if r2 == r + 1 {
            assert(c2 == c);
        } else {
            assert(r2 == r);
            assert(c2 == c - 1 || c2 == c + 1);
        }
    }
}

/// Placed tiles touch the board exactly when one of them is one step from a board tile:
/// a placement with a tile next to a board tile, on any side, is not refused as apart.
pub proof fn lemma_touches_is_one_step(b: Board, ts: Seq<PlacedTile>)
    ensures
        touches(b, ts) <==> exists|i: int, r2: int, c2: int|
            0 <= i < ts.len() && #[trigger] b.occupied(r2, c2) && square_distance(
                (#[trigger] ts[i]).row as int,
                ts[i].col as int,
                r2,
                c2,
            ) == 1,
{
    if touches(b, ts) {
        let i = choose|i: int| 0 <= i < ts.len() && adjacent_occupied(b, (#[trigger] ts[i]).row as int, ts[i].col as int);
        lemma_adjacent_is_one_step(b, ts[i].row as int, ts[i].col as int);
        let (r2, c2) = choose|r2: int, c2: int|
            #[trigger] b.occupied(r2, c2) && square_distance(ts[i].row as int, ts[i].col as int, r2, c2) == 1;
        assert(b.occupied(r2, c2));
    }
    if exists|i: int, r2: int, c2: int|
        0 <= i < ts.len() && #[trigger] b.occupied(r2, c2) && square_distance(
            (#[trigger] ts[i]).row as int,
            ts[i].col as int,
            r2,
            c2,
        ) == 1 {
        let (i, r2, c2) = choose|i: int, r2: int, c2: int|
            0 <= i < ts.len() && #[trigger] b.occupied(r2, c2) && square_distance(
                (#[trigger] ts[i]).row as int,
                ts[i].col as int,
                r2,
                c2,
            ) == 1;
        lemma_adjacent_is_one_step(b, ts[i].row as int, ts[i].col as int);
        assert(adjacent_occupied(b, ts[i].row as int, ts[i].col as int));
    }
}

} // verus!
