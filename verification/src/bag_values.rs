//! What the standard bag holds: how many tiles, and what they are worth in all.
use vstd::prelude::*;
use crate::scoring::{lemma_points_sum_adds, points_sum};
use crate::tile::{letter_counts, letter_value, letters_prefix, standard_tiles, Tile};

verus! {

/// A row of copies of one tile is worth its length times the tile's points.
proof fn lemma_points_sum_copies(s: Seq<Tile>, t: Tile)
    requires
        forall|i: int| 0 <= i < s.len() ==> #[trigger] s[i] == t,
    ensures
        points_sum(s) == s.len() * (t.spec_points() as int),
    decreases s.len(),
{
    if s.len() > 0 {
        let m = (s.len() - 1) as nat;
        let p = t.spec_points() as int;
        lemma_points_sum_copies(s.drop_last(), t);
        assert(s.last() == t);
        assert(m * p + p == s.len() * p) by (nonlinear_arith)
            requires
                m + 1 == s.len(),
        ;
    }
}

/// How many tiles the first `k` entries of the letter table give.
pub open spec fn count_total(k: nat) -> int
    decreases k,
{
    if k == 0 || k > 26 {
        0
    } else {
        count_total((k - 1) as nat) + letter_counts()[k - 1].1
    }
}

/// What the tiles of the first `k` entries of the letter table are worth.
pub open spec fn value_total(k: nat) -> int
    decreases k,
{
    if k == 0 || k > 26 {
        0
    } else {
        value_total((k - 1) as nat) + letter_counts()[k - 1].1 * letter_value(letter_counts()[k - 1].0)
    }
}

proof fn lemma_prefix_totals(k: nat)
    requires
        k <= 26,
    ensures
        letters_prefix(k).len() == count_total(k),
        points_sum(letters_prefix(k)) == value_total(k),
    decreases k,
{
    if k > 0 {
        lemma_prefix_totals((k - 1) as nat);
        let (ch, n) = letter_counts()[k - 1];
        let t = Tile::Letter(ch, letter_value(ch));
        let row = Seq::new(n, |i: int| Tile::Letter(ch, letter_value(ch)));
        lemma_points_sum_copies(row, t);
        lemma_points_sum_adds(letters_prefix((k - 1) as nat), row, t);
    }
}

/// The standard bag: 100 tiles (98 letters and two blanks) worth 187 points in all.
pub proof fn lemma_standard_bag_totals()
    ensures
        standard_tiles().len() == 100,
        points_sum(standard_tiles()) == 187,
{
    lemma_prefix_totals(26);
    reveal_with_fuel(count_total, 27);
    reveal_with_fuel(value_total, 27);
    crate::tile::lemma_letter_values();
    assert(count_total(26) == 98);
    assert(value_total(26) == 187);
    let blanks = seq![Tile::Blank(None), Tile::Blank(None)];
    lemma_points_sum_adds(letters_prefix(26), blanks, Tile::Blank(None));
    lemma_points_sum_adds(seq![Tile::Blank(None)], seq![Tile::Blank(None)], Tile::Blank(None));
    assert(seq![Tile::Blank(None)] + seq![Tile::Blank(None)] =~= blanks);
}

} // verus!
