//! How the computer player picks among its candidate moves, and what its rack keeps.
use vstd::prelude::*;
use crate::movegen::CandidateMove;
use crate::placement::PlacedTile;
use crate::random::gen_index;
use crate::text::{to_upper, upper};
use crate::tile::Tile;

verus! {

/// AI difficulty levels.
#[derive(Debug, Clone, Copy, PartialEq, Eq, Structural)]
pub enum Difficulty {
    /// Picks a random move from the bottom third by score.
    Easy,
    /// Picks from the top 5 moves with some noise.
    Medium,
    /// Picks the best move considering score + leave evaluation.
    Hard,
}

/// Where the easy player's choices begin: the last third of the moves, at least one move.
pub open spec fn easy_start(n: int) -> int {
    let count = if n / 3 > 1 { n / 3 } else { 1 };
    if n > count { n - count } else { 0 }
}

/// How many of the first moves the medium player chooses among: five, or all if fewer.
pub open spec fn medium_count(n: int) -> int {
    if n < 5 { n } else { 5 }
}

/// The seed the computer player draws with: 31 per recorded turn plus the tiles left in the bag.
pub open spec fn selection_seed_spec(turns: int, in_bag: int) -> int {
    turns * 31 + in_bag
}

/// The tiles of a move, copied.
fn copy_tiles(tiles: &Vec<PlacedTile>) -> (out: Vec<PlacedTile>)
    ensures
        out@ == tiles@,
{
    vstd::slice::slice_to_vec(tiles.as_slice())
}

/// Pick from the bottom third of moves (lower scoring).
pub fn select_easy(moves: &[CandidateMove], rng: &mut rand::rngs::StdRng) -> (tiles: Vec<PlacedTile>)
    requires
        moves@.len() >= 1,
    ensures
        exists|i: int| easy_start(moves@.len() as int) <= i < moves@.len() && tiles@ == moves@[i].tiles@,
{
    let n = moves.len();
    let third = n / 3;
    let count = if third > 1 {
        third
    } else {
        1
    };
    let start = if n > count {
        n - count
    } else {
        0
    };
    let idx = gen_index(rng, start, n);
    copy_tiles(&moves[idx].tiles)
}

/// Pick from the top 5 moves with uniform probability.
pub fn select_medium(moves: &[CandidateMove], rng: &mut rand::rngs::StdRng) -> (tiles: Vec<PlacedTile>)
    requires
        moves@.len() >= 1,
    ensures
        exists|i: int| 0 <= i < medium_count(moves@.len() as int) && tiles@ == moves@[i].tiles@,
{
    let top_n = if moves.len() < 5 {
        moves.len()
    } else {
        5
    };
    let idx = gen_index(rng, 0, top_n);
    copy_tiles(&moves[idx].tiles)
}

/// The seed the computer player draws with for a game that has recorded `turns` turns and
/// has `in_bag` tiles left in the bag.
pub fn selection_seed(turns: usize, in_bag: usize) -> (s: u64)
    requires
        selection_seed_spec(turns as int, in_bag as int) <= u64::MAX,
    ensures
        s == selection_seed_spec(turns as int, in_bag as int),
{
    (turns as u64) * 31 + (in_bag as u64)
}

/// Whether rack tile `r` answers played tile `t`: a blank answers a blank, and a letter
/// answers the same letter in either case.
pub open spec fn leave_match(r: Tile, t: Tile) -> bool {
    match t {
        Tile::Blank(_) => r is Blank,
        Tile::Letter(ch, _) => match r {
            Tile::Letter(c, _) => upper(c) == upper(ch),
            Tile::Blank(_) => false,
        },
    }
}

/// `i` is the first tile of `rem` that answers `t`.
pub open spec fn is_first_match(rem: Seq<Tile>, t: Tile, i: int) -> bool {
    &&& 0 <= i < rem.len()
    &&& leave_match(rem[i], t)
    &&& forall|j: int| 0 <= j < i ==> !leave_match(#[trigger] rem[j], t)
}

/// The rack tiles after the first one that answers `t` is taken out, if any does.
pub open spec fn leave_step(rem: Seq<Tile>, t: Tile) -> Seq<Tile> {
    if exists|i: int| is_first_match(rem, t, i) {
        rem.remove(choose|i: int| is_first_match(rem, t, i))
    } else {
        rem
    }
}

/// The rack tiles that remain after the tiles of `played`, in order, each take out the
/// first rack tile that answers them.
pub open spec fn leave_of(rack: Seq<Tile>, played: Seq<PlacedTile>) -> Seq<Tile>
    decreases played.len(),
{
    if played.len() == 0 {
        rack
    } else {
        leave_step(leave_of(rack, played.drop_last()), played.last().tile)
    }
}

proof fn lemma_first_match_unique(rem: Seq<Tile>, t: Tile, i: int)
    requires
        is_first_match(rem, t, i),
    ensures
        (choose|k: int| is_first_match(rem, t, k)) == i,
{
    let k = choose|k: int| is_first_match(rem, t, k);
    assert(is_first_match(rem, t, k));
    if k < i {
        assert(!leave_match(rem[k], t));
    } else if k > i {
        assert(!leave_match(rem[i], t));
    }
}

/// Whether rack tile `r` answers played tile `t`.
fn answers(r: &Tile, t: &Tile) -> (b: bool)
    ensures
        b == leave_match(*r, *t),
{
    match t {
        Tile::Blank(_) => r.is_blank(),
        Tile::Letter(ch, _) => match r {
            Tile::Letter(c, _) => to_upper(*c) == to_upper(*ch),
            Tile::Blank(_) => false,
        },
    }
}

/// Figure out which rack tiles remain after playing the given tiles.
pub fn compute_leave(rack: &[Tile], played: &[PlacedTile]) -> (remaining: Vec<Tile>)
    ensures
        remaining@ == leave_of(rack@, played@),
{
    let mut remaining = vstd::slice::slice_to_vec(rack);
    let mut k: usize = 0;
    while k < played.len()
        invariant
            k <= played@.len(),
            remaining@ == leave_of(rack@, played@.take(k as int)),
        decreases played@.len() - k,
    {
        let t = played[k].tile;
        let ghost before = remaining@;
        let mut i: usize = 0;
        while i < remaining.len() && !answers(&remaining[i], &t)
            invariant
                i <= remaining@.len(),
                remaining@ == before,
                forall|j: int| 0 <= j < i ==> !leave_match(#[trigger] remaining@[j], t),
            decreases remaining@.len() - i,
        {
            i = i + 1;
        }
        proof {
            assert(played@.take(k + 1).drop_last() =~= played@.take(k as int));
            assert(played@.take(k + 1).last() == played@[k as int]);
        }
        if i < remaining.len() {
            proof {
                assert(is_first_match(before, t, i as int));
                lemma_first_match_unique(before, t, i as int);
            }
            remaining.remove(i);
        } else {
            proof {
                if exists|x: int| is_first_match(before, t, x) {
                    let x = choose|x: int| is_first_match(before, t, x);
                    assert(!leave_match(before[x], t));
                }
            }
        }
        k = k + 1;
    }
    assert(played@.take(played@.len() as int) =~= played@);
    remaining
}

/// Every tile left on the rack after a move was on the rack before it, and each played
/// tile takes out at most one rack tile.
pub proof fn lemma_leave_within_rack(rack: Seq<Tile>, played: Seq<PlacedTile>)
    ensures
        leave_of(rack, played).to_multiset().subset_of(rack.to_multiset()),
        leave_of(rack, played).len() + played.len() >= rack.len(),
        leave_of(rack, played).len() <= rack.len(),
    decreases played.len(),
{
    broadcast use vstd::multiset::group_multiset_axioms;
    if played.len() > 0 {
        lemma_leave_within_rack(rack, played.drop_last());
        let rem = leave_of(rack, played.drop_last());
        let t = played.last().tile;
        if exists|i: int| is_first_match(rem, t, i) {
            let i = choose|i: int| is_first_match(rem, t, i);
            rem.to_multiset_ensures();
            assert(rem.remove(i).to_multiset() =~= rem.to_multiset().remove(rem[i]));
            assert(rem.remove(i).len() == rem.len() - 1);
        }
    }
}

} // verus!
