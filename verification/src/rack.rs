//! A player's rack of tiles.
use vstd::prelude::*;
use crate::text::{upper, to_upper};
use crate::tile::Tile;
use vstd::multiset::Multiset;

verus! {

pub const RACK_SIZE: usize = 7;

/// Whether rack tile `t` answers a request for tile `q`: any blank answers a blank,
/// and a letter answers a letter of the same character, ignoring ASCII case.
pub open spec fn answers(t: Tile, q: Tile) -> bool {
    match q {
        Tile::Blank(_) => t is Blank,
        Tile::Letter(ch, _) => match t {
            Tile::Letter(c, _) => upper(c) == upper(ch),
            Tile::Blank(_) => false,
        },
    }
}

/// `i` is the first position of `s` whose tile answers `q`.
pub open spec fn is_first_answer(s: Seq<Tile>, q: Tile, i: int) -> bool {
    &&& 0 <= i < s.len()
    &&& answers(s[i], q)
    &&& forall|j: int| 0 <= j < i ==> !answers(#[trigger] s[j], q)
}

/// The first position of `s` whose tile answers `q`, if there is one.
pub open spec fn first_answer(s: Seq<Tile>, q: Tile) -> Option<int> {
    if exists|i: int| is_first_answer(s, q, i) {
        Some(choose|i: int| is_first_answer(s, q, i))
    } else {
        None
    }
}

/// `s` after removing the first tile that answers `q` (unchanged if none does).
pub open spec fn remove_answer(s: Seq<Tile>, q: Tile) -> Seq<Tile> {
    match first_answer(s, q) {
        Some(i) => s.remove(i),
        None => s,
    }
}

/// The first answering position is unique.
pub proof fn lemma_first_answer(s: Seq<Tile>, q: Tile, i: int)
    requires
        is_first_answer(s, q, i),
    ensures
        first_answer(s, q) == Some(i),
{
    let k = choose|k: int| is_first_answer(s, q, k);
    assert(is_first_answer(s, q, k));
    if k < i {
        assert(!answers(s[k], q));
    } else if i < k {
        assert(!answers(s[i], q));
    }
}

/// Whether rack tile `t` answers request `q`.
pub fn tile_answers(t: &Tile, q: &Tile) -> (r: bool)
    ensures
        r == answers(*t, *q),
{
    match q {
        Tile::Blank(_) => t.is_blank(),
        Tile::Letter(ch, _) => match t {
            Tile::Letter(c, _) => to_upper(*c) == to_upper(*ch),
            Tile::Blank(_) => false,
        },
    }
}

/// The position of the first tile of `tiles` that answers `q`.
pub fn find_answer(tiles: &Vec<Tile>, q: &Tile) -> (r: Option<usize>)
    ensures
        match r {
            Some(i) => first_answer(tiles@, *q) == Some(i as int),
            None => first_answer(tiles@, *q) is None && forall|j: int|
                0 <= j < tiles@.len() ==> !answers(#[trigger] tiles@[j], *q),
        },
{
    let mut i: usize = 0;
    while i < tiles.len()
        invariant
            i <= tiles@.len(),
            forall|j: int| 0 <= j < i ==> !answers(#[trigger] tiles@[j], *q),
        decreases tiles@.len() - i,
    {
        if tile_answers(&tiles[i], q) {
            proof {
                lemma_first_answer(tiles@, *q, i as int);
            }
            return Some(i);
        }
        i = i + 1;
    }
    proof {
        if exists|k: int| is_first_answer(tiles@, *q, k) {
            let k = choose|k: int| is_first_answer(tiles@, *q, k);
            assert(!answers(tiles@[k], *q));
        }
    }
    None
}

/// A player's tile rack.
#[derive(Debug, Clone)]
pub struct Rack {
    pub tiles: Vec<Tile>,
}

impl View for Rack {
    type V = Seq<Tile>;

    open spec fn view(&self) -> Seq<Tile> {
        self.tiles@
    }
}

impl Rack {
    pub fn new() -> (r: Self)
        ensures
            r@ == Seq::<Tile>::empty(),
    {
        Rack { tiles: Vec::with_capacity(RACK_SIZE) }
    }

    pub fn len(&self) -> (r: usize)
        ensures
            r == self@.len(),
    {
        self.tiles.len()
    }

    pub fn is_empty(&self) -> (r: bool)
        ensures
            r == (self@.len() == 0),
    {
        self.tiles.len() == 0
    }

    /// Remove a specific tile from the rack. For blanks, matches any blank.
    /// For letters, matches by character (case-insensitive).
    /// Returns the removed tile, or None if not found.
    pub fn remove_tile(&mut self, tile: &Tile) -> (r: Option<Tile>)
        ensures
            final(self)@ == remove_answer(old(self)@, *tile),
            match first_answer(old(self)@, *tile) {
                Some(i) => r == Some(old(self)@[i]),
                None => r is None,
            },
    {
        match find_answer(&self.tiles, tile) {
            Some(i) => Some(self.tiles.remove(i)),
            None => None,
        }
    }

    /// Add tiles to the rack.
    pub fn add_tiles(&mut self, tiles: Vec<Tile>)
        ensures
            final(self)@ == old(self)@ + tiles@,
    {
        let mut tiles = tiles;
        self.tiles.append(&mut tiles);
    }

    /// How many tiles needed to fill the rack to 7.
    pub fn tiles_needed(&self) -> (r: usize)
        ensures
            r == if self@.len() < 7 { 7 - self@.len() } else { 0 },
    {
        RACK_SIZE.saturating_sub(self.tiles.len())
    }
}

impl Default for Rack {
    fn default() -> (r: Self)
        ensures
            r@ == Seq::<Tile>::empty(),
    {
        Self::new()
    }
}

/// Removing a tile that the rack holds takes exactly that tile out: the rack's
/// multiset shrinks by the removed tile.
pub proof fn lemma_remove_answer_multiset(s: Seq<Tile>, q: Tile)
    requires
        first_answer(s, q) is Some,
    ensures
        remove_answer(s, q).to_multiset() == s.to_multiset().remove(s[first_answer(s, q)->0]),
        remove_answer(s, q).len() == s.len() - 1,
{
    let i = first_answer(s, q)->0;
    let k = choose|k: int| is_first_answer(s, q, k);
    assert(is_first_answer(s, q, k));
    broadcast use vstd::seq_lib::group_seq_properties;
    assert(s =~= s.subrange(0, i) + seq![s[i]] + s.subrange(i + 1, s.len() as int));
    assert(s.remove(i) =~= s.subrange(0, i) + s.subrange(i + 1, s.len() as int));
    vstd::seq_lib::lemma_multiset_commutative(s.subrange(0, i) + seq![s[i]], s.subrange(i + 1, s.len() as int));
    vstd::seq_lib::lemma_multiset_commutative(s.subrange(0, i), seq![s[i]]);
    vstd::seq_lib::lemma_multiset_commutative(s.subrange(0, i), s.subrange(i + 1, s.len() as int));
}


/// Removing the requested tiles `qs` from `rack` one after the other: the rack left,
/// the rack tiles taken out, and the index of the first request that no tile
/// answered (the run stops there).
pub open spec fn remove_run(rack: Seq<Tile>, qs: Seq<Tile>) -> (Seq<Tile>, Seq<Tile>, Option<int>)
    decreases qs.len(),
{
    if qs.len() == 0 {
        (rack, Seq::empty(), None)
    } else {
        let (r, removed, fail) = remove_run(rack, qs.drop_last());
        if fail is Some {
            (r, removed, fail)
        } else {
            match first_answer(r, qs.last()) {
                Some(i) => (r.remove(i), removed.push(r[i]), None),
                None => (r, removed, Some(qs.len() - 1)),
            }
        }
    }
}

/// A run of removals that succeeds takes out one tile per request, and the tiles
/// taken out together with the tiles left are the tiles the rack held.
pub proof fn lemma_remove_run(rack: Seq<Tile>, qs: Seq<Tile>)
    ensures
        remove_run(rack, qs).2 is None ==> {
            &&& remove_run(rack, qs).0.len() + qs.len() == rack.len()
            &&& remove_run(rack, qs).1.len() == qs.len()
            &&& remove_run(rack, qs).0.to_multiset().add(remove_run(rack, qs).1.to_multiset())
                == rack.to_multiset()
        },
        remove_run(rack, qs).2 matches Some(f) ==> 0 <= f < qs.len(),
        remove_run(rack, qs).0.len() <= rack.len(),
    decreases qs.len(),
{
    broadcast use vstd::seq_lib::group_seq_properties;
    broadcast use vstd::multiset::group_multiset_properties;
    if qs.len() == 0 {
        assert(rack.to_multiset().add(Seq::<Tile>::empty().to_multiset()) =~= rack.to_multiset());
    } else {
        lemma_remove_run(rack, qs.drop_last());
        let (r, removed, fail) = remove_run(rack, qs.drop_last());
        if fail is None {
            if let Some(i) = first_answer(r, qs.last()) {
                lemma_remove_answer_multiset(r, qs.last());
                assert(remove_answer(r, qs.last()) == r.remove(i));
                let x = r[i];
                vstd::seq_lib::lemma_multiset_commutative(removed, seq![x]);
                assert(removed.push(x) =~= removed + seq![x]);
                assert(r.to_multiset().contains(x));
                assert(r.to_multiset() =~= r.remove(i).to_multiset().insert(x));
                assert(seq![x].to_multiset() =~= Multiset::empty().insert(x));
                assert(r.remove(i).to_multiset().add(removed.push(x).to_multiset()) =~= r.to_multiset().add(
                    removed.to_multiset(),
                ));
            }
        }
    }
}

/// Once a request fails, the run stops: later requests change nothing.
pub proof fn lemma_remove_run_stop(rack: Seq<Tile>, qs: Seq<Tile>, k: int)
    requires
        0 <= k <= qs.len(),
        remove_run(rack, qs.subrange(0, k)).2 is Some,
    ensures
        remove_run(rack, qs) == remove_run(rack, qs.subrange(0, k)),
    decreases qs.len() - k,
{
    if k < qs.len() {
        assert(qs.subrange(0, k + 1).drop_last() =~= qs.subrange(0, k));
        assert(remove_run(rack, qs.subrange(0, k + 1)) == remove_run(rack, qs.subrange(0, k)));
        lemma_remove_run_stop(rack, qs, k + 1);
    } else {
        assert(qs.subrange(0, k) =~= qs);
    }
}

/// Some rack tile answering `q` makes one of them the first that does.
proof fn lemma_answer_has_first(s: Seq<Tile>, q: Tile, k: int)
    requires
        0 <= k < s.len(),
        answers(s[k], q),
    ensures
        first_answer(s, q) is Some,
        0 <= first_answer(s, q)->0 < s.len(),
        answers(s[first_answer(s, q)->0], q),
    decreases k,
{
    if exists|j: int| 0 <= j < k && answers(#[trigger] s[j], q) {
        let j = choose|j: int| 0 <= j < k && answers(#[trigger] s[j], q);
        lemma_answer_has_first(s, q, j);
    } else {
        assert(is_first_answer(s, q, k));
        lemma_first_answer(s, q, k);
    }
}

/// What a request takes from a rack. A request for a letter is answered only by a letter
/// tile of the same character, ignoring ASCII case, and never by a blank; it goes
/// unanswered exactly when the rack holds no such letter. A request for a blank is
/// answered only by a blank, and goes unanswered exactly when the rack holds none.
pub proof fn lemma_request_answered_by_kind(s: Seq<Tile>, q: Tile)
    ensures
        q matches Tile::Letter(ch, _) ==> {
            &&& first_answer(s, q) matches Some(i) ==> 0 <= i < s.len() && (s[i] matches Tile::Letter(c, _) && upper(c)
                == upper(ch))
            &&& first_answer(s, q) is None <==> forall|j: int|
                0 <= j < s.len() ==> !(#[trigger] s[j] matches Tile::Letter(c, _) && upper(c) == upper(ch))
        },
        q is Blank ==> {
            &&& first_answer(s, q) matches Some(i) ==> 0 <= i < s.len() && s[i] is Blank
            &&& first_answer(s, q) is None <==> forall|j: int| 0 <= j < s.len() ==> !(#[trigger] s[j] is Blank)
        },
{
    if first_answer(s, q) is Some {
        let i = choose|i: int| is_first_answer(s, q, i);
        assert(is_first_answer(s, q, i));
        assert(answers(s[i], q));
    }
    match q {
        Tile::Letter(ch, _) => {
            if exists|j: int| 0 <= j < s.len() && (#[trigger] s[j] matches Tile::Letter(c, _) && upper(c) == upper(ch)) {
                let j = choose|j: int| 0 <= j < s.len() && (#[trigger] s[j] matches Tile::Letter(c, _) && upper(c) == upper(ch));
                assert(answers(s[j], q));
                lemma_answer_has_first(s, q, j);
            }
        },
        Tile::Blank(_) => {
            if exists|j: int| 0 <= j < s.len() && #[trigger] s[j] is Blank {
                let j = choose|j: int| 0 <= j < s.len() && #[trigger] s[j] is Blank;
                assert(answers(s[j], q));
                lemma_answer_has_first(s, q, j);
            }
        },
    }
}

} // verus!
