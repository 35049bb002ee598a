//! The score move generation gives a candidate move is the score the game awards for it.
use vstd::prelude::*;
use crate::board::Board;
use crate::game::{place_score, placed_map, words_total};
use crate::movegen::{candidate_score, cross_score, cross_total, dir, has_line_neighbor, line_sums, primary_score, scoring_horizontal, span_score};
use crate::placement::{
    at_pos, cell, coord, cross_positions, cross_words, direction_of, ext_back, ext_fwd, filled, has_dup, has_new,
    is_first_at, lemma_coord_range_bounds, lemma_ext_back_range, lemma_ext_fwd_range, lemma_no_bad_tile, line_of,
    max_coord, min_coord, new_tile_at, off_board, bad_tile, perp, placement_failure, primary_positions, word_positions,
    words_spec, Direction, PlacedTile,
};
use crate::scoring::{entry_at, is_first_entry, map_tile, word_score, word_sums};

verus! {

/// Some placed tile at `(r, c)` makes one of them the first there.
proof fn lemma_first_exists(ts: Seq<PlacedTile>, r: int, c: int, k: int)
    requires
        0 <= k < ts.len(),
        at_pos(ts[k], r, c),
    ensures
        exists|i: int| is_first_at(ts, r, c, i),
    decreases k,
{
    if exists|j: int| 0 <= j < k && at_pos(#[trigger] ts[j], r, c) {
        let j = choose|j: int| 0 <= j < k && at_pos(#[trigger] ts[j], r, c);
        lemma_first_exists(ts, r, c, j);
    } else {
        assert(is_first_at(ts, r, c, k));
    }
}

/// The map of the placed tiles gives, at each square, the tile of the first placed tile
/// there, and gives one exactly where a placed tile stands.
proof fn lemma_map_is_new(ts: Seq<PlacedTile>, r: int, c: int)
    ensures
        map_tile(placed_map(ts), r, c) == new_tile_at(ts, r, c),
        new_tile_at(ts, r, c) is Some <==> has_new(ts, r, c),
{
    let m = placed_map(ts);
    assert(m.len() == ts.len());
    assert forall|i: int| #[trigger] is_first_entry(m, r, c, i) <==> is_first_at(ts, r, c, i) by {
        if 0 <= i < ts.len() {
            assert forall|j: int| #![trigger m[j]] #![trigger ts[j]] 0 <= j <= i implies (entry_at(m[j], r, c) <==> at_pos(ts[j], r, c)) by {
                assert(m[j] == (ts[j].row, ts[j].col, ts[j].tile));
            }
        }
    }
    if has_new(ts, r, c) {
        let k = choose|k: int| 0 <= k < ts.len() && at_pos(#[trigger] ts[k], r, c);
        lemma_first_exists(ts, r, c, k);
    }
    if exists|i: int| is_first_at(ts, r, c, i) {
        let i = choose|i: int| is_first_at(ts, r, c, i);
        assert(is_first_entry(m, r, c, i));
        let k = choose|k: int| is_first_entry(m, r, c, k);
        assert(is_first_at(ts, r, c, k));
        if k < i {
            assert(!at_pos(ts[k], r, c));
        }
        if i < k {
            assert(!at_pos(ts[i], r, c));
        }
        assert(m[i] == (ts[i].row, ts[i].col, ts[i].tile));
    }
}

/// The squares of positions `s..e` of line `fixed` in direction `d`.
pub open spec fn squares(d: Direction, fixed: int, s: int, e: int) -> Seq<(usize, usize)> {
    Seq::new((e - s) as nat, |k: int| ((cell(d, fixed, s + k).0) as usize, (cell(d, fixed, s + k).1) as usize))
}

/// Over squares where `ps` and `ts` place the same tiles, move generation's letter sum and
/// word multiplier are the game's.
proof fn lemma_sums_match(b: Board, ps: Seq<PlacedTile>, ts: Seq<PlacedTile>, h: bool, fixed: int, s: int, e: int)
    requires
        0 <= s <= e <= 15,
        0 <= fixed < 15,
        forall|q: int|
            s <= q < e ==> has_new(ps, #[trigger] cell(dir(h), fixed, q).0, cell(dir(h), fixed, q).1) == has_new(
                ts,
                cell(dir(h), fixed, q).0,
                cell(dir(h), fixed, q).1,
            ) && new_tile_at(ps, cell(dir(h), fixed, q).0, cell(dir(h), fixed, q).1) == new_tile_at(
                ts,
                cell(dir(h), fixed, q).0,
                cell(dir(h), fixed, q).1,
            ),
    ensures
        line_sums(b, ps, h, fixed, s, e) == word_sums(squares(dir(h), fixed, s, e), b, ts, placed_map(ts)),
    decreases e - s,
{
    let sq = squares(dir(h), fixed, s, e);
    if e > s {
        lemma_sums_match(b, ps, ts, h, fixed, s, e - 1);
        assert(sq.drop_last() =~= squares(dir(h), fixed, s, e - 1));
        let rc = cell(dir(h), fixed, e - 1);
        assert(sq.last() == (rc.0 as usize, rc.1 as usize));
        assert((rc.0 as usize) as int == rc.0 && (rc.1 as usize) as int == rc.1);
        lemma_map_is_new(ts, rc.0, rc.1);
        lemma_map_is_new(ps, rc.0, rc.1);
    } else {
        assert(sq =~= Seq::<(usize, usize)>::empty());
    }
}

/// Where no placed tile stands before `pos`, a run starts where the board's run starts.
proof fn lemma_back_same(b: Board, ts: Seq<PlacedTile>, d: Direction, fixed: int, pos: int)
    requires
        forall|q: int| 0 <= q < pos ==> !has_new(ts, #[trigger] cell(d, fixed, q).0, cell(d, fixed, q).1),
    ensures
        ext_back(b, ts, d, fixed, pos) == ext_back(b, Seq::empty(), d, fixed, pos),
    decreases pos,
{
    if pos > 0 {
        let rc = cell(d, fixed, pos - 1);
        lemma_map_is_new(ts, rc.0, rc.1);
        lemma_map_is_new(Seq::<PlacedTile>::empty(), rc.0, rc.1);
        assert(!has_new(Seq::<PlacedTile>::empty(), rc.0, rc.1));
        assert(filled(b, ts, d, fixed, pos - 1) == filled(b, Seq::empty(), d, fixed, pos - 1));
        lemma_back_same(b, ts, d, fixed, pos - 1);
    }
}

/// Where no placed tile stands after `pos`, a run ends where the board's run ends.
proof fn lemma_fwd_same(b: Board, ts: Seq<PlacedTile>, d: Direction, fixed: int, pos: int)
    requires
        forall|q: int| pos < q < 15 ==> !has_new(ts, #[trigger] cell(d, fixed, q).0, cell(d, fixed, q).1),
    ensures
        ext_fwd(b, ts, d, fixed, pos) == ext_fwd(b, Seq::empty(), d, fixed, pos),
    decreases 15 - pos,
{
    if pos + 1 < 15 {
        let rc = cell(d, fixed, pos + 1);
        lemma_map_is_new(ts, rc.0, rc.1);
        lemma_map_is_new(Seq::<PlacedTile>::empty(), rc.0, rc.1);
        assert(!has_new(Seq::<PlacedTile>::empty(), rc.0, rc.1));
        assert(filled(b, ts, d, fixed, pos + 1) == filled(b, Seq::empty(), d, fixed, pos + 1));
        lemma_fwd_same(b, ts, d, fixed, pos + 1);
    }
}

/// The total of a list of words joined to another is the sum of their totals.
proof fn lemma_words_total_add(x: Seq<Seq<(usize, usize)>>, y: Seq<Seq<(usize, usize)>>, b: Board, ts: Seq<PlacedTile>)
    ensures
        words_total(x + y, b, ts) == words_total(x, b, ts) + words_total(y, b, ts),
    decreases y.len(),
{
    if y.len() > 0 {
        lemma_words_total_add(x, y.drop_last(), b, ts);
        assert((x + y).drop_last() =~= x + y.drop_last());
    } else {
        assert(x + y =~= x);
    }
}


/// With no two placed tiles on one square, the tile at a placed tile's square is its own.
proof fn lemma_own_tile(ts: Seq<PlacedTile>, i: int)
    requires
        0 <= i < ts.len(),
        !has_dup(ts),
    ensures
        new_tile_at(ts, ts[i].row as int, ts[i].col as int) == Some(ts[i].tile),
{
    let r = ts[i].row as int;
    let c = ts[i].col as int;
    assert forall|j: int| 0 <= j < i implies !at_pos(#[trigger] ts[j], r, c) by {
        if at_pos(ts[j], r, c) {
            assert(ts[j].row == ts[i].row && ts[j].col == ts[i].col);
            assert(has_dup(ts));
        }
    }
    assert(is_first_at(ts, r, c, i));
    let k = choose|k: int| is_first_at(ts, r, c, k);
    if k < i {
        assert(!at_pos(ts[k], r, c));
    }
    if i < k {
        assert(!at_pos(ts[i], r, c));
    }
}

/// The facts about a placement the game accepts that its scoring rests on: every tile on
/// the board, none on another's square, all on the line `fixed` of direction `d`, which is
/// the direction move generation scores in.
pub open spec fn placed_in_line(ts: Seq<PlacedTile>, d: Direction, h: bool, fixed: int) -> bool {
    &&& ts.len() >= 1
    &&& forall|i: int| 0 <= i < ts.len() ==> !off_board(#[trigger] ts[i])
    &&& !has_dup(ts)
    &&& dir(h) == d
    &&& 0 <= fixed < 15
    &&& forall|i: int| 0 <= i < ts.len() ==> line_of(#[trigger] ts[i], d) == fixed
}

/// The cross words of the first `k` placed tiles total what move generation gives them.
proof fn lemma_cross_match(b: Board, ts: Seq<PlacedTile>, d: Direction, h: bool, fixed: int, k: int)
    requires
        placed_in_line(ts, d, h, fixed),
        0 <= k <= ts.len(),
    ensures
        words_total(cross_words(b, ts, d, k), b, ts) == cross_total(b, ts, h, k),
    decreases k,
{
    if k > 0 {
        lemma_cross_match(b, ts, d, h, fixed, k - 1);
        let t = ts[k - 1];
        assert(!off_board(t));
        let e = perp(d);
        assert(dir(!h) == e);
        let f2 = line_of(t, e);
        let c0 = coord(t, e);
        assert(cell(e, f2, c0) == (t.row as int, t.col as int));
        assert forall|q: int| q != c0 implies !has_new(ts, #[trigger] cell(e, f2, q).0, cell(e, f2, q).1) by {
            if has_new(ts, cell(e, f2, q).0, cell(e, f2, q).1) {
                let j = choose|j: int| 0 <= j < ts.len() && at_pos(#[trigger] ts[j], cell(e, f2, q).0, cell(e, f2, q).1);
                assert(line_of(ts[j], d) == fixed);
                assert(line_of(t, d) == fixed);
            }
        }
        lemma_back_same(b, ts, e, f2, c0);
        lemma_fwd_same(b, ts, e, f2, c0);
        lemma_ext_back_range(b, ts, e, f2, c0);
        lemma_ext_fwd_range(b, ts, e, f2, c0);
        let s2 = ext_back(b, ts, e, f2, c0);
        let e2 = ext_fwd(b, ts, e, f2, c0);
        let w = cross_positions(b, ts, t, e);
        assert(w =~= squares(e, f2, s2, e2 + 1));
        lemma_own_tile(ts, k - 1);
        let one = seq![t];
        assert forall|q: int| #![trigger cell(e, f2, q)] s2 <= q < e2 + 1 implies has_new(one, cell(dir(!h), f2, q).0, cell(dir(!h), f2, q).1)
            == has_new(ts, cell(dir(!h), f2, q).0, cell(dir(!h), f2, q).1) && new_tile_at(
            one,
            cell(dir(!h), f2, q).0,
            cell(dir(!h), f2, q).1,
        ) == new_tile_at(ts, cell(dir(!h), f2, q).0, cell(dir(!h), f2, q).1) by {
            lemma_map_is_new(one, cell(e, f2, q).0, cell(e, f2, q).1);
            lemma_map_is_new(ts, cell(e, f2, q).0, cell(e, f2, q).1);
            if q == c0 {
                assert(at_pos(one[0], t.row as int, t.col as int));
                assert(at_pos(ts[k - 1], t.row as int, t.col as int));
                lemma_own_tile(one, 0);
            } else {
                if has_new(one, cell(e, f2, q).0, cell(e, f2, q).1) {
                    let j = choose|j: int| 0 <= j < one.len() && at_pos(#[trigger] one[j], cell(e, f2, q).0, cell(e, f2, q).1);
                    assert(one[j] == t);
                }
            }
        }
        lemma_sums_match(b, one, ts, !h, f2, s2, e2 + 1);
        let cw = cross_words(b, ts, d, k - 1);
        if w.len() >= 2 {
            assert((cw + seq![w]).drop_last() =~= cw);
            assert(cross_score(b, t, h) == span_score(b, one, !h, f2, s2, e2));
        } else {
            assert(cw + Seq::<Seq<(usize, usize)>>::empty() =~= cw);
        }
    }
}

/// The score move generation gives a placement the game accepts is the score the game
/// awards for it: its main word, each cross word, and the bonus for a full rack.
pub proof fn lemma_candidate_score_is_place_score(b: Board, ts: Seq<PlacedTile>, first: bool)
    requires
        placement_failure(b, ts, first) is None,
    ensures
        candidate_score(b, ts) == place_score(b, ts),
{
    lemma_no_bad_tile(b, ts);
    let d = direction_of(ts)->0;
    let h = scoring_horizontal(ts);
    assert forall|i: int| 0 <= i < ts.len() implies !off_board(#[trigger] ts[i]) by {
        assert(!bad_tile(b, ts[i]));
    }
    lemma_coord_range_bounds(ts, d);
    let fixed = line_of(ts[0], d);
    if ts.len() >= 2 {
        if ts[0].row == ts[1].row {
            if !(forall|i: int| 0 <= i < ts.len() ==> (#[trigger] ts[i]).row == ts[0].row) {
                assert(ts[1].col == ts[0].col);
                assert(has_dup(ts));
            }
        } else {
            assert(ts[1].row != ts[0].row);
        }
    }
    assert(dir(h) == d);
    assert forall|i: int| 0 <= i < ts.len() implies line_of(#[trigger] ts[i], d) == fixed by {}
    assert(placed_in_line(ts, d, h, fixed));
    let lo = min_coord(ts, d);
    let hi = max_coord(ts, d);
    assert forall|q: int| 0 <= q < lo implies !has_new(ts, #[trigger] cell(d, fixed, q).0, cell(d, fixed, q).1) by {
        if has_new(ts, cell(d, fixed, q).0, cell(d, fixed, q).1) {
            let j = choose|j: int| 0 <= j < ts.len() && at_pos(#[trigger] ts[j], cell(d, fixed, q).0, cell(d, fixed, q).1);
            assert(line_of(ts[j], d) == fixed);
            assert(coord(ts[j], d) == q);
        }
    }
    assert forall|q: int| hi < q < 15 implies !has_new(ts, #[trigger] cell(d, fixed, q).0, cell(d, fixed, q).1) by {
        if has_new(ts, cell(d, fixed, q).0, cell(d, fixed, q).1) {
            let j = choose|j: int| 0 <= j < ts.len() && at_pos(#[trigger] ts[j], cell(d, fixed, q).0, cell(d, fixed, q).1);
            assert(line_of(ts[j], d) == fixed);
            assert(coord(ts[j], d) == q);
        }
    }
    lemma_back_same(b, ts, d, fixed, lo);
    lemma_fwd_same(b, ts, d, fixed, hi);
    lemma_ext_back_range(b, ts, d, fixed, lo);
    lemma_ext_fwd_range(b, ts, d, fixed, hi);
    let s = ext_back(b, ts, d, fixed, lo);
    let e = ext_fwd(b, ts, d, fixed, hi);
    let p = primary_positions(b, ts, d);
    assert(p =~= squares(d, fixed, s, e + 1));
    lemma_sums_match(b, ts, ts, h, fixed, s, e + 1);
    let prim = if p.len() >= 2 { seq![p] } else { Seq::<Seq<(usize, usize)>>::empty() };
    if p.len() >= 2 {
        assert(seq![p].drop_last() =~= Seq::<Seq<(usize, usize)>>::empty());
        assert(words_total(Seq::<Seq<(usize, usize)>>::empty(), b, ts) == 0);
        assert(words_total(prim, b, ts) == word_score(p, b, ts, placed_map(ts)));
        assert(primary_score(b, ts, h) == span_score(b, ts, h, fixed, s, e));
    } else {
        if ts.len() >= 2 {
            assert(coord(ts[0], d) == lo && coord(ts[1], d) == lo);
            assert(line_of(ts[0], d) == fixed && line_of(ts[1], d) == fixed);
            assert(ts[0].row == ts[1].row && ts[0].col == ts[1].col);
            assert(has_dup(ts));
        }
        if has_line_neighbor(b, ts[0], h) {
            let t = ts[0];
            if t.col > 0 && b.occupied(t.row as int, t.col - 1) {
                assert(filled(b, ts, d, fixed, lo - 1));
                lemma_ext_back_range(b, ts, d, fixed, lo - 1);
            } else {
                assert(filled(b, ts, d, fixed, hi + 1));
                lemma_ext_fwd_range(b, ts, d, fixed, hi + 1);
            }
        }
        assert(primary_score(b, ts, h) == 0);
    }
    lemma_cross_match(b, ts, d, h, fixed, ts.len() as int);
    lemma_words_total_add(prim, cross_words(b, ts, d, ts.len() as int), b, ts);
}

} // verus!
