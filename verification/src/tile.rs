//! Tiles, their point values and the bag from which players draw.
use vstd::prelude::*;
use vstd::multiset::Multiset;
use crate::text::{upper, to_upper};
use crate::random::{seeded_rng, shuffle_tiles};

verus! {

/// A tile: either a letter with its inherent point value, or a blank (wildcard).
#[derive(Debug, Clone, Copy, PartialEq, Eq, Structural)]
pub enum Tile {
    Letter(char, u8),
    Blank(Option<char>),
}

impl Tile {
    /// The character a tile shows: its letter, or the letter a blank was given.
    pub open spec fn spec_letter(self) -> Option<char> {
        match self {
            Tile::Letter(ch, _) => Some(ch),
            Tile::Blank(ch) => ch,
        }
    }

    /// Point value of a tile; blanks are worth nothing.
    pub open spec fn spec_points(self) -> u8 {
        match self {
            Tile::Letter(_, pts) => pts,
            Tile::Blank(_) => 0,
        }
    }

    /// The display character of this tile.
    pub fn letter(&self) -> (r: Option<char>)
        ensures
            r == self.spec_letter(),
    {
        match self {
            Tile::Letter(ch, _) => Some(*ch),
            Tile::Blank(ch) => *ch,
        }
    }

    /// Point value of this tile (blanks are always 0).
    pub fn points(&self) -> (r: u8)
        ensures
            r == self.spec_points(),
    {
        match self {
            Tile::Letter(_, pts) => *pts,
            Tile::Blank(_) => 0,
        }
    }

    /// Whether this tile is a blank.
    pub fn is_blank(&self) -> (r: bool)
        ensures
            r == (*self is Blank),
    {
        match self {
            Tile::Blank(_) => true,
            Tile::Letter(_, _) => false,
        }
    }
}

/// The standard letter values, for upper-case letters; any other character is worth 0.
pub open spec fn upper_letter_value(c: char) -> u8 {
    if c == 'A' || c == 'E' || c == 'I' || c == 'O' || c == 'U' || c == 'L' || c == 'N' || c == 'S'
        || c == 'T' || c == 'R' {
        1
    } else if c == 'D' || c == 'G' {
        2
    } else if c == 'B' || c == 'C' || c == 'M' || c == 'P' {
        3
    } else if c == 'F' || c == 'H' || c == 'V' || c == 'W' || c == 'Y' {
        4
    } else if c == 'K' {
        5
    } else if c == 'J' || c == 'X' {
        8
    } else if c == 'Q' || c == 'Z' {
        10
    } else {
        0
    }
}

/// Point value of a letter, regardless of its ASCII case.
pub open spec fn letter_value(c: char) -> u8 {
    upper_letter_value(upper(c))
}

/// Point values for each letter.
pub fn letter_points(ch: char) -> (r: u8)
    ensures
        r == letter_value(ch),
{
    let c = to_upper(ch);
    if c == 'A' || c == 'E' || c == 'I' || c == 'O' || c == 'U' || c == 'L' || c == 'N' || c == 'S'
        || c == 'T' || c == 'R' {
        1
    } else if c == 'D' || c == 'G' {
        2
    } else if c == 'B' || c == 'C' || c == 'M' || c == 'P' {
        3
    } else if c == 'F' || c == 'H' || c == 'V' || c == 'W' || c == 'Y' {
        4
    } else if c == 'K' {
        5
    } else if c == 'J' || c == 'X' {
        8
    } else if c == 'Q' || c == 'Z' {
        10
    } else {
        0
    }
}

/// How many copies of each letter the standard bag holds, in alphabetical order.
pub open spec fn letter_counts() -> Seq<(char, nat)> {
    seq![
        ('A', 9), ('B', 2), ('C', 2), ('D', 4), ('E', 12), ('F', 2), ('G', 3), ('H', 2), ('I', 9),
        ('J', 1), ('K', 1), ('L', 4), ('M', 2), ('N', 6), ('O', 8), ('P', 2), ('Q', 1), ('R', 6),
        ('S', 4), ('T', 6), ('U', 4), ('V', 2), ('W', 2), ('X', 1), ('Y', 2), ('Z', 1),
    ]
}

/// The letter tiles for the first `k` entries of the count table, in table order.
pub open spec fn letters_prefix(k: nat) -> Seq<Tile>
    decreases k,
{
    if k == 0 || k > letter_counts().len() {
        Seq::empty()
    } else {
        let (ch, n) = letter_counts()[k - 1];
        letters_prefix((k - 1) as nat) + Seq::new(n, |i: int| Tile::Letter(ch, letter_value(ch)))
    }
}

/// The 100 tiles of the standard bag, before shuffling: the letters in alphabetical
/// order, each repeated by its count, then two blanks.
pub open spec fn standard_tiles() -> Seq<Tile> {
    letters_prefix(26) + seq![Tile::Blank(None), Tile::Blank(None)]
}

/// Standard 100-tile bag distribution.
pub fn standard_distribution() -> (tiles: Vec<Tile>)
    ensures
        tiles@ == standard_tiles(),
{
    let letters: [(char, u8); 26] = [
        ('A', 9), ('B', 2), ('C', 2), ('D', 4), ('E', 12), ('F', 2), ('G', 3), ('H', 2), ('I', 9),
        ('J', 1), ('K', 1), ('L', 4), ('M', 2), ('N', 6), ('O', 8), ('P', 2), ('Q', 1), ('R', 6),
        ('S', 4), ('T', 6), ('U', 4), ('V', 2), ('W', 2), ('X', 1), ('Y', 2), ('Z', 1),
    ];
    assert(forall|k: int| 0 <= k < 26 ==> #[trigger] letters@[k].0 == letter_counts()[k].0
        && letters@[k].1 as nat == letter_counts()[k].1);
    let mut tiles: Vec<Tile> = Vec::with_capacity(100);
    let mut k: usize = 0;
    while k < 26
        invariant
            k <= 26,
            tiles@ == letters_prefix(k as nat),
            forall|j: int| 0 <= j < 26 ==> #[trigger] letters@[j].0 == letter_counts()[j].0
                && letters@[j].1 as nat == letter_counts()[j].1,
        decreases 26 - k,
    {
        let (ch, count) = letters[k];
        let pts = letter_points(ch);
        let ghost before = tiles@;
        let mut i: u8 = 0;
        while i < count
            invariant
                i <= count,
                tiles@ == before + Seq::new(i as nat, |j: int| Tile::Letter(ch, letter_value(ch))),
                pts == letter_value(ch),
            decreases count - i,
        {
            tiles.push(Tile::Letter(ch, pts));
            i = i + 1;
            assert(tiles@ =~= before + Seq::new(i as nat, |j: int| Tile::Letter(ch, letter_value(ch))));
        }
        k = k + 1;
        assert(tiles@ =~= letters_prefix(k as nat));
    }
    tiles.push(Tile::Blank(None));
    tiles.push(Tile::Blank(None));
    assert(tiles@ =~= standard_tiles());
    tiles
}

/// The tile bag from which players draw.
#[derive(Debug, Clone)]
pub struct TileBag {
    tiles: Vec<Tile>,
}

impl View for TileBag {
    type V = Seq<Tile>;

    closed spec fn view(&self) -> Seq<Tile> {
        self.tiles@
    }
}

impl TileBag {
    /// Create a new standard bag, shuffled with the given seed.
    pub fn new(seed: u64) -> (bag: Self)
        ensures
            bag@.to_multiset() == standard_tiles().to_multiset(),
            bag@.len() == 100,
    {
        let mut tiles = standard_distribution();
        proof {
            lemma_standard_tiles_len();
        }
        let mut rng = seeded_rng(seed);
        shuffle_tiles(&mut tiles, &mut rng);
        TileBag { tiles }
    }

    /// A bag holding exactly the given tiles, in that order; tiles are drawn from the end.
    pub fn from_tiles(tiles: Vec<Tile>) -> (bag: Self)
        ensures
            bag@ == tiles@,
    {
        TileBag { tiles }
    }

    /// Draw up to `n` tiles from the bag.
    pub fn draw(&mut self, n: usize) -> (drawn: Vec<Tile>)
        ensures
            ({
                let count = if n < old(self)@.len() { n as int } else { old(self)@.len() as int };
                let cut = old(self)@.len() - count;
                &&& drawn@ == old(self)@.subrange(cut, old(self)@.len() as int)
                &&& final(self)@ == old(self)@.subrange(0, cut)
            }),
    {
        let len = self.tiles.len();
        let count = if n < len { n } else { len };
        self.tiles.split_off(len - count)
    }

    /// Return tiles to the bag and reshuffle.
    pub fn return_tiles(&mut self, tiles: Vec<Tile>, seed: u64)
        ensures
            final(self)@.to_multiset() == old(self)@.to_multiset().add(tiles@.to_multiset()),
            final(self)@.len() == old(self)@.len() + tiles@.len(),
    {
        let ghost added = tiles@;
        let mut tiles = tiles;
        self.tiles.append(&mut tiles);
        proof {
            vstd::seq_lib::lemma_multiset_commutative(old(self)@, added);
        }
        let mut rng = seeded_rng(seed);
        shuffle_tiles(&mut self.tiles, &mut rng);
    }

    /// Number of tiles remaining.
    pub fn remaining(&self) -> (r: usize)
        ensures
            r == self@.len(),
    {
        self.tiles.len()
    }

    /// Whether the bag is empty.
    pub fn is_empty(&self) -> (r: bool)
        ensures
            r == (self@.len() == 0),
    {
        self.tiles.len() == 0
    }
}

/// The standard bag holds 100 tiles.
pub proof fn lemma_standard_tiles_len()
    ensures
        standard_tiles().len() == 100,
{
    reveal_with_fuel(letters_prefix, 27);
    assert(letters_prefix(26).len() == 98);
}


/// The letter values are the standard ones, in either case: A, E, I, O, U, L, N, S, T and R
/// are worth 1; D and G 2; B, C, M and P 3; F, H, V, W and Y 4; K 5; J and X 8; Q and Z 10.
/// Every other character is worth nothing.
pub proof fn lemma_letter_values()
    ensures
        forall|c: char| #![trigger letter_value(c)]
            ('a' <= c <= 'z' || 'A' <= c <= 'Z') ==> letter_value(c) == letter_value(upper(c)),
        forall|c: char| #![trigger letter_value(c)] !('a' <= c <= 'z' || 'A' <= c <= 'Z') ==> letter_value(c) == 0,
        letter_value('A') == 1 && letter_value('E') == 1 && letter_value('I') == 1 && letter_value('O') == 1
            && letter_value('U') == 1 && letter_value('L') == 1 && letter_value('N') == 1 && letter_value('S') == 1
            && letter_value('T') == 1 && letter_value('R') == 1,
        letter_value('D') == 2 && letter_value('G') == 2,
        letter_value('B') == 3 && letter_value('C') == 3 && letter_value('M') == 3 && letter_value('P') == 3,
        letter_value('F') == 4 && letter_value('H') == 4 && letter_value('V') == 4 && letter_value('W') == 4
            && letter_value('Y') == 4,
        letter_value('K') == 5,
        letter_value('J') == 8 && letter_value('X') == 8,
        letter_value('Q') == 10 && letter_value('Z') == 10,
        letter_value('a') == 1 && letter_value('e') == 1 && letter_value('i') == 1 && letter_value('o') == 1
            && letter_value('u') == 1 && letter_value('l') == 1 && letter_value('n') == 1 && letter_value('s') == 1
            && letter_value('t') == 1 && letter_value('r') == 1,
        letter_value('d') == 2 && letter_value('g') == 2,
        letter_value('b') == 3 && letter_value('c') == 3 && letter_value('m') == 3 && letter_value('p') == 3,
        letter_value('f') == 4 && letter_value('h') == 4 && letter_value('v') == 4 && letter_value('w') == 4
            && letter_value('y') == 4,
        letter_value('k') == 5,
        letter_value('j') == 8 && letter_value('x') == 8,
        letter_value('q') == 10 && letter_value('z') == 10,
{
    assert forall|c: char| #![trigger letter_value(c)] ('a' <= c <= 'z' || 'A' <= c <= 'Z') implies letter_value(c)
        == letter_value(upper(c)) by {
        assert(upper(upper(c)) == upper(c));
    }
}

} // verus!
