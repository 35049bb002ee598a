//! The word game: its state, the turns a player can take, and how a game ends.
use vstd::prelude::*;
use vstd::string::*;
use crate::board::Board;
use crate::error::WordGameError;
use crate::match_state::{GameResults, TurnResult};
use crate::game_trait::TurnBasedGame;
use crate::placement::{
    bad_tile, direction_of, has_dup, letters, placement_failure, validate_placement, words_spec,
    PlacedTile,
};
use crate::rack::{remove_run, Rack};
use crate::scoring::{points_sum, word_score};
use crate::text::int_decimal;
use crate::tile::{Tile, TileBag};

verus! {

/// Number of turns in a row without points after which the game ends.
pub const MAX_CONSECUTIVE_ZERO_TURNS: u8 = 6;

/// Tiles the bag must hold for an exchange to be allowed.
pub const MIN_BAG_FOR_EXCHANGE: usize = 7;

/// Trait for word validation — allows mock implementations in tests.
///
/// The game's contracts speak of a validator through `accepts`. An implementation
/// verified here is held to `is_valid_word` giving what `accepts` says; one written
/// outside verified code is not checked, and keeps the default `accepts` (every word),
/// so what the game's contracts say of words it rejects does not hold for it.
pub trait WordValidator: Send + Sync {
    /// Whether this validator accepts the word with the characters `w`. An implementation
    /// that does not say otherwise accepts every word.
    open spec fn accepts(&self, w: Seq<char>) -> bool {
        true
    }

    /// Whether the word is valid: what `accepts` says of it.
    fn is_valid_word(&self, word: &str) -> (r: bool)
        ensures
            r == self.accepts(word@),
    ;
}

/// A validator that accepts all words (for testing / local play without dictionary).
#[derive(Debug, Clone)]
pub struct AcceptAllValidator;

impl WordValidator for AcceptAllValidator {
    fn is_valid_word(&self, _word: &str) -> (r: bool) {
        true
    }
}

/// Game configuration.
#[derive(Debug, Clone)]
pub struct WordGameConfig {
    /// Whether to validate words (false = accept all).
    pub validate_words: bool,
}

impl Default for WordGameConfig {
    fn default() -> (c: Self)
        ensures
            !c.validate_words,
    {
        WordGameConfig { validate_words: false }
    }
}

/// An action a player can take.
#[derive(Debug, Clone)]
pub enum WordAction {
    /// Place tiles on the board.
    Place(Vec<PlacedTile>),
    /// Exchange tiles (return these, draw new ones).
    Exchange(Vec<Tile>),
    /// Pass the turn.
    Pass,
}

/// Full game state.
#[derive(Debug, Clone)]
pub struct WordGameState {
    pub board: Board,
    pub bag: TileBag,
    pub players: Vec<WordPlayerState>,
    pub current_player_idx: usize,
    pub consecutive_zero_turns: u8,
    pub finished: bool,
    pub turn_history: Vec<TurnRecord>,
}

/// Per-player state.
#[derive(Debug, Clone)]
pub struct WordPlayerState {
    pub rack: Rack,
    pub score: i32,
}

/// Record of a turn for history.
#[derive(Debug, Clone)]
pub struct TurnRecord {
    pub player_idx: usize,
    pub action_type: String,
    pub score_delta: i32,
    pub words_formed: Vec<String>,
}

/// Public view (no racks visible).
#[derive(Debug, Clone)]
pub struct WordPublicView {
    pub board: Board,
    pub scores: Vec<i32>,
    pub current_player_idx: usize,
    pub tiles_remaining: usize,
    pub finished: bool,
    pub turn_history: Vec<TurnRecord>,
}

/// The word game itself.
#[derive(Debug, Clone)]
pub struct WordGame {
    state: WordGameState,
    config: WordGameConfig,
    /// RNG seed, incremented for each random operation.
    rng_counter: u64,
}

// ---------------------------------------------------------------------------
// The model of a game.
// ---------------------------------------------------------------------------

/// A turn record, as values.
pub struct RecordView {
    pub player_idx: int,
    pub action_type: Seq<char>,
    pub score_delta: int,
    pub words_formed: Seq<Seq<char>>,
}

/// The state of a game, as values.
pub struct GameView {
    pub board: Board,
    pub bag: Seq<Tile>,
    pub racks: Seq<Seq<Tile>>,
    pub scores: Seq<int>,
    pub current: int,
    pub zero: int,
    pub finished: bool,
    pub history: Seq<RecordView>,
}

impl TurnRecord {
    pub open spec fn record_view(self) -> RecordView {
        RecordView {
            player_idx: self.player_idx as int,
            action_type: self.action_type@,
            score_delta: self.score_delta as int,
            words_formed: self.words_formed@.map_values(|w: String| w@),
        }
    }
}

impl View for WordGameState {
    type V = GameView;

    open spec fn view(&self) -> GameView {
        GameView {
            board: self.board,
            bag: self.bag@,
            racks: self.players@.map_values(|p: WordPlayerState| p.rack@),
            scores: self.players@.map_values(|p: WordPlayerState| p.score as int),
            current: self.current_player_idx as int,
            zero: self.consecutive_zero_turns as int,
            finished: self.finished,
            history: self.turn_history@.map_values(|r: TurnRecord| r.record_view()),
        }
    }
}

/// The turn passes to the next player.
pub open spec fn advanced(v: GameView) -> GameView {
    GameView { current: (v.current + 1) % (v.racks.len() as int), ..v }
}

/// Sum of the rack penalties of all racks.
pub open spec fn penalty_total(racks: Seq<Seq<Tile>>) -> int
    decreases racks.len(),
{
    if racks.len() == 0 {
        0
    } else {
        penalty_total(racks.drop_last()) + points_sum(racks.last())
    }
}

/// `i` is the first player whose rack is empty.
pub open spec fn is_first_empty(racks: Seq<Seq<Tile>>, i: int) -> bool {
    &&& 0 <= i < racks.len()
    &&& racks[i].len() == 0
    &&& forall|j: int| 0 <= j < i ==> (#[trigger] racks[j]).len() != 0
}

/// The first player whose rack is empty, if any.
pub open spec fn first_empty(racks: Seq<Seq<Tile>>) -> Option<int> {
    if exists|i: int| is_first_empty(racks, i) {
        Some(choose|i: int| is_first_empty(racks, i))
    } else {
        None
    }
}

/// The game ends: every player loses the value of their rack, and the first player
/// with an empty rack gains the values of all racks.
pub open spec fn finished_view(v: GameView) -> GameView {
    GameView {
        finished: true,
        scores: Seq::new(
            v.scores.len(),
            |i: int|
                v.scores[i] - points_sum(v.racks[i]) + if first_empty(v.racks) == Some(i) {
                    penalty_total(v.racks)
                } else {
                    0
                },
        ),
        ..v
    }
}

/// The total of a list of scores.
pub open spec fn score_sum(s: Seq<int>) -> int
    decreases s.len(),
{
    if s.len() == 0 {
        0
    } else {
        score_sum(s.drop_last()) + s.last()
    }
}

/// The first `m` final scores total the first `m` scores, less the first `m` racks' values,
/// plus the going-out bonus when its player is among the first `m`.
proof fn lemma_final_prefix(v: GameView, m: int)
    requires
        v.scores.len() == v.racks.len(),
        0 <= m <= v.scores.len(),
    ensures
        score_sum(finished_view(v).scores.take(m)) == score_sum(v.scores.take(m)) - penalty_total(v.racks.take(m))
            + if first_empty(v.racks) matches Some(e) && e < m { penalty_total(v.racks) } else { 0 },
    decreases m,
{
    let f = finished_view(v).scores;
    if m > 0 {
        lemma_final_prefix(v, m - 1);
        assert(f.take(m).drop_last() =~= f.take(m - 1));
        assert(v.scores.take(m).drop_last() =~= v.scores.take(m - 1));
        assert(v.racks.take(m).drop_last() =~= v.racks.take(m - 1));
        assert(f.take(m).last() == f[m - 1]);
        assert(v.racks.take(m).last() == v.racks[m - 1]);
        if let Some(e) = first_empty(v.racks) {
            let k = choose|k: int| is_first_empty(v.racks, k);
            assert(is_first_empty(v.racks, k));
        }
    } else {
        assert(f.take(0) =~= Seq::<int>::empty());
        assert(v.scores.take(0) =~= Seq::<int>::empty());
        assert(v.racks.take(0) =~= Seq::<Seq<Tile>>::empty());
    }
}

/// How the game's end settles the scores. Every player loses the point value of the tiles
/// left on their rack. When some rack is empty, the first player whose rack is empty gains
/// the point values of all racks, so the points only change hands: the scores' total is
/// unchanged. When no rack is empty, the total drops by the values of all racks.
pub proof fn lemma_going_out(v: GameView)
    requires
        v.scores.len() == v.racks.len(),
    ensures
        forall|k: int|
            0 <= k < v.racks.len() && (exists|j: int| 0 <= j < k && (#[trigger] v.racks[j]).len() == 0)
                ==> #[trigger] finished_view(v).scores[k] == v.scores[k] - points_sum(v.racks[k]),
        forall|k: int|
            0 <= k < v.racks.len() && v.racks[k].len() != 0 ==> #[trigger] finished_view(v).scores[k] == v.scores[k]
                - points_sum(v.racks[k]),
        forall|i: int|
            0 <= i < v.racks.len() && (#[trigger] v.racks[i]).len() == 0 && (forall|j: int|
                0 <= j < i ==> (#[trigger] v.racks[j]).len() != 0) ==> {
                &&& finished_view(v).scores[i] == v.scores[i] + penalty_total(v.racks)
                &&& score_sum(finished_view(v).scores) == score_sum(v.scores)
            },
        (forall|j: int| 0 <= j < v.racks.len() ==> (#[trigger] v.racks[j]).len() != 0) ==> score_sum(
            finished_view(v).scores,
        ) == score_sum(v.scores) - penalty_total(v.racks),
{
    let n = v.racks.len() as int;
    lemma_final_prefix(v, n);
    assert(finished_view(v).scores.take(n) =~= finished_view(v).scores);
    assert(v.scores.take(n) =~= v.scores);
    assert(v.racks.take(n) =~= v.racks);
    if exists|k: int| is_first_empty(v.racks, k) {
        let e = choose|k: int| is_first_empty(v.racks, k);
        assert(is_first_empty(v.racks, e));
        assert(points_sum(v.racks[e]) == 0);
        assert forall|k: int|
            0 <= k < v.racks.len() && (exists|j: int| 0 <= j < k && (#[trigger] v.racks[j]).len() == 0)
                implies #[trigger] finished_view(v).scores[k] == v.scores[k] - points_sum(v.racks[k]) by {
            let j = choose|j: int| 0 <= j < k && (#[trigger] v.racks[j]).len() == 0;
            if k == e {
                assert(v.racks[j].len() != 0);
            }
        }
        assert forall|i: int|
            0 <= i < v.racks.len() && (#[trigger] v.racks[i]).len() == 0 && (forall|j: int|
                0 <= j < i ==> (#[trigger] v.racks[j]).len() != 0) implies {
                &&& finished_view(v).scores[i] == v.scores[i] + penalty_total(v.racks)
                &&& score_sum(finished_view(v).scores) == score_sum(v.scores)
            } by {
            if i < e {
                assert(v.racks[i].len() != 0);
            } else if e < i {
                assert(v.racks[e].len() != 0);
            }
        }
    } else {
        assert forall|i: int| 0 <= i < v.racks.len() && (#[trigger] v.racks[i]).len() == 0 implies !(forall|j: int|
            0 <= j < i ==> (#[trigger] v.racks[j]).len() != 0) by {
            if forall|j: int| 0 <= j < i ==> (#[trigger] v.racks[j]).len() != 0 {
                assert(is_first_empty(v.racks, i));
            }
        }
        assert forall|k: int|
            0 <= k < v.racks.len() && (exists|j: int| 0 <= j < k && (#[trigger] v.racks[j]).len() == 0)
                implies #[trigger] finished_view(v).scores[k] == v.scores[k] - points_sum(v.racks[k]) by {}
    }
}

/// The end check after a turn: six turns in a row without points, or an empty bag
/// and an empty rack, end the game.
pub open spec fn end_checked(v: GameView) -> GameView {
    if v.zero >= 6 {
        finished_view(v)
    } else if v.bag.len() == 0 && exists|i: int| 0 <= i < v.racks.len() && (#[trigger] v.racks[i]).len() == 0 {
        finished_view(v)
    } else {
        v
    }
}

/// A turn without points is recorded and the turn passes on.
pub open spec fn after_zero_turn(v: GameView, p: int, action: Seq<char>) -> GameView {
    end_checked(
        advanced(
            GameView {
                zero: v.zero + 1,
                history: v.history.push(
                    RecordView { player_idx: p, action_type: action, score_delta: 0, words_formed: Seq::empty() },
                ),
                ..v
            },
        ),
    )
}

/// The game after player `p` passes.
pub open spec fn after_pass(v: GameView, p: int) -> GameView {
    after_zero_turn(v, p, "pass"@)
}

/// Number of tiles drawn when `wanted` are asked for from a bag of `left`.
pub open spec fn draw_count(wanted: int, left: int) -> int {
    if wanted < left { wanted } else { left }
}

/// The game after player `p` exchanged the tiles `qs`, except for the order of the
/// tiles in the bag, which a shuffle decides; `bag` is the bag that resulted.
pub open spec fn after_exchange(v: GameView, p: int, qs: Seq<Tile>, bag: Seq<Tile>) -> GameView {
    let (rest, removed, _) = remove_run(v.racks[p], qs);
    let cut = v.bag.len() - draw_count(removed.len() as int, v.bag.len() as int);
    let drawn = v.bag.subrange(cut, v.bag.len() as int);
    after_zero_turn(GameView { racks: v.racks.update(p, rest + drawn), bag, ..v }, p, "exchange"@)
}

/// The bag an exchange leaves, before shuffling: the bag without the drawn tiles,
/// then the tiles given back.
pub open spec fn exchange_bag(v: GameView, p: int, qs: Seq<Tile>) -> Seq<Tile> {
    let (rest, removed, _) = remove_run(v.racks[p], qs);
    let cut = v.bag.len() - draw_count(removed.len() as int, v.bag.len() as int);
    v.bag.subrange(0, cut) + removed
}

/// The entries `(row, col, tile)` of placed tiles.
pub open spec fn placed_map(ts: Seq<PlacedTile>) -> Seq<(usize, usize, Tile)> {
    ts.map_values(|t: PlacedTile| (t.row, t.col, t.tile))
}

/// The tiles requested from the rack by a placement.
pub open spec fn placed_tiles(ts: Seq<PlacedTile>) -> Seq<Tile> {
    ts.map_values(|t: PlacedTile| t.tile)
}

/// Sum of the scores of the words `ws`.
pub open spec fn words_total(ws: Seq<Seq<(usize, usize)>>, b: Board, ts: Seq<PlacedTile>) -> int
    decreases ws.len(),
{
    if ws.len() == 0 {
        0
    } else {
        words_total(ws.drop_last(), b, ts) + word_score(ws.last(), b, ts, placed_map(ts))
    }
}

/// The words a placement forms, as strings.
pub open spec fn word_texts(b: Board, ts: Seq<PlacedTile>) -> Seq<Seq<char>> {
    let ws = words_spec(b, ts, direction_of(ts)->0);
    ws.map_values(|w: Seq<(usize, usize)>| letters(b, ts, w))
}

/// Points scored by a placement: all words formed, plus 50 for placing seven tiles.
pub open spec fn place_score(b: Board, ts: Seq<PlacedTile>) -> int {
    words_total(words_spec(b, ts, direction_of(ts)->0), b, ts) + if ts.len() == 7 { 50int } else { 0int }
}

/// The board with the placed tiles put on it, in order.
pub open spec fn board_with(b: Board, ts: Seq<PlacedTile>) -> Board
    decreases ts.len(),
{
    if ts.len() == 0 {
        b
    } else {
        let t = ts.last();
        board_with(b, ts.drop_last()).spec_set(t.row as int, t.col as int, t.tile)
    }
}

/// The game after player `p` placed the tiles `ts`.
pub open spec fn after_place(v: GameView, p: int, ts: Seq<PlacedTile>) -> GameView {
    let (rest, _, _) = remove_run(v.racks[p], placed_tiles(ts));
    let needed = if rest.len() < 7 { 7 - rest.len() } else { 0 };
    let cut = v.bag.len() - draw_count(needed, v.bag.len() as int);
    let drawn = v.bag.subrange(cut, v.bag.len() as int);
    let score = place_score(v.board, ts);
    end_checked(
        advanced(
            GameView {
                board: board_with(v.board, ts),
                bag: v.bag.subrange(0, cut),
                racks: v.racks.update(p, rest + drawn),
                scores: v.scores.update(p, v.scores[p] + score),
                zero: 0,
                history: v.history.push(
                    RecordView {
                        player_idx: p,
                        action_type: "place"@,
                        score_delta: score,
                        words_formed: word_texts(v.board, ts),
                    },
                ),
                ..v
            },
        ),
    )
}

/// `words` joined with `sep` between them.
pub open spec fn join(words: Seq<Seq<char>>, sep: Seq<char>) -> Seq<char>
    decreases words.len(),
{
    if words.len() == 0 {
        Seq::empty()
    } else if words.len() == 1 {
        words[0]
    } else {
        join(words.drop_last(), sep) + sep + words.last()
    }
}

/// The summary of a placement.
pub open spec fn place_summary(words: Seq<Seq<char>>, score: int) -> Seq<char> {
    "played "@ + join(words, ", "@) + " for "@ + int_decimal(score) + " points"@
}

/// The character a refused tile is named by.
pub open spec fn tile_char(t: Tile) -> char {
    match t.spec_letter() {
        Some(c) => c,
        None => '?',
    }
}

/// Largest score of one placement: at most eight words, plus the bingo bonus.
pub open spec fn max_move_score() -> int {
    8 * crate::scoring::max_word_score() + 50
}


/// The game after up to `k` turns in which each player to move passes, stopping once it
/// has ended.
pub open spec fn passes(v: GameView, k: nat) -> GameView
    decreases k,
{
    if k == 0 || v.finished {
        v
    } else {
        passes(after_pass(v, v.current), (k - 1) as nat)
    }
}

/// Passing in turn ends a game still going within `6 - zero` turns: six turns in a row
/// without points end the game.
pub proof fn lemma_passes_end_game(v: GameView)
    requires
        0 <= v.zero < 6,
        !v.finished,
    ensures
        passes(v, (6 - v.zero) as nat).finished,
    decreases 6 - v.zero,
{
    let w = after_pass(v, v.current);
    let k = (6 - v.zero) as nat;
    assert(passes(v, k) == passes(w, (k - 1) as nat));
    if w.finished {
        assert(passes(w, (k - 1) as nat) == w);
    } else {
        assert(w.zero == v.zero + 1);
        if v.zero + 1 >= 6 {
            assert(w.finished);
        } else {
            lemma_passes_end_game(w);
            assert((6 - w.zero) as nat == ((6 - v.zero) as nat - 1) as nat);
        }
    }
}

/// What every game keeps: two to four players, a current player among them, at most
/// seven tiles per rack, fewer than six turns in a row without points while the game
/// runs, and scores that stay far inside `i32` (while the game runs, each score is at
/// most the number of tiles on the board times the largest score of one move).
pub open spec fn state_wf(v: GameView) -> bool {
    &&& 2 <= v.racks.len() <= 4
    &&& v.scores.len() == v.racks.len()
    &&& 0 <= v.current < v.racks.len()
    &&& 0 <= v.zero <= 6
    &&& !v.finished ==> v.zero < 6
    &&& forall|i: int| 0 <= i < v.racks.len() ==> (#[trigger] v.racks[i]).len() <= 7
    &&& forall|i: int|
        0 <= i < v.scores.len() ==> -2000 <= #[trigger] v.scores[i] <= 225 * max_move_score() + 8000
    &&& !v.finished ==> forall|i: int|
        0 <= i < v.scores.len() ==> 0 <= #[trigger] v.scores[i] <= v.board.num_tiles() * max_move_score()
}

proof fn lemma_penalty_total_bounds(racks: Seq<Seq<Tile>>)
    requires
        forall|i: int| 0 <= i < racks.len() ==> (#[trigger] racks[i]).len() <= 7,
    ensures
        0 <= penalty_total(racks) <= 1785 * racks.len(),
    decreases racks.len(),
{
    if racks.len() > 0 {
        let s = racks.drop_last();
        assert forall|i: int| 0 <= i < s.len() implies (#[trigger] s[i]).len() <= 7 by {
            assert(s[i] == racks[i]);
        }
        lemma_penalty_total_bounds(s);
        crate::scoring::lemma_points_sum_bounds(racks.last());
        assert(racks[racks.len() - 1].len() <= 7);
    }
}

proof fn lemma_finished_wf(v: GameView)
    requires
        2 <= v.racks.len() <= 4,
        v.scores.len() == v.racks.len(),
        0 <= v.current < v.racks.len(),
        0 <= v.zero <= 6,
        forall|i: int| 0 <= i < v.racks.len() ==> (#[trigger] v.racks[i]).len() <= 7,
        forall|i: int| 0 <= i < v.scores.len() ==> 0 <= #[trigger] v.scores[i] <= 225 * max_move_score(),
    ensures
        state_wf(finished_view(v)),
{
    lemma_penalty_total_bounds(v.racks);
    let f = finished_view(v);
    assert forall|i: int| 0 <= i < f.scores.len() implies -2000 <= #[trigger] f.scores[i] <= 225
        * max_move_score() + 8000 by {
        crate::scoring::lemma_points_sum_bounds(v.racks[i]);
        assert(v.racks[i].len() <= 7);
    }
}

impl WordGame {
    /// The state of the game.
    pub closed spec fn spec_state(&self) -> WordGameState {
        self.state
    }

    /// The configuration of the game.
    pub closed spec fn spec_config(&self) -> WordGameConfig {
        self.config
    }

    /// The seed the next random operation will use.
    pub closed spec fn spec_rng(&self) -> u64 {
        self.rng_counter
    }

    /// Whether the game is well formed.
    pub open spec fn wf(&self) -> bool {
        state_wf(self.spec_state()@)
    }


    /// Create a new game.
    fn init(config: &WordGameConfig, num_players: usize, rng_seed: u64) -> (g: Self)
        requires
            2 <= num_players <= 4,
        ensures
            g.wf(),
            is_initial(g.spec_state()@, num_players as int),
            g.spec_config().validate_words == config.validate_words,
            g.spec_rng() == (if rng_seed == u64::MAX { 0 } else { (rng_seed + 1) as u64 }),
    {
        let mut bag = TileBag::new(rng_seed);
        let mut players: Vec<WordPlayerState> = Vec::with_capacity(num_players);
        let mut i: usize = 0;
        let ghost racks0: Seq<Seq<Tile>> = Seq::empty();
        assert(players@.map_values(|p: WordPlayerState| p.rack@) =~= Seq::<Seq<Tile>>::empty());
        proof {
            broadcast use vstd::multiset::group_multiset_properties;
            assert(bag@.to_multiset().add(racks_multiset(Seq::<Seq<Tile>>::empty())) =~= bag@.to_multiset());
        }
        while i < num_players
            invariant
                i <= num_players <= 4,
                players@.len() == i,
                bag@.len() == 100 - 7 * i,
                forall|k: int| 0 <= k < i ==> (#[trigger] players@[k]).rack@.len() == 7,
                forall|k: int| 0 <= k < i ==> (#[trigger] players@[k]).score == 0,
                bag@.to_multiset().add(racks_multiset(players@.map_values(|p: WordPlayerState| p.rack@)))
                    == crate::tile::standard_tiles().to_multiset(),
            decreases num_players - i,
        {
            let ghost before = bag@;
            let ghost racks_before = players@.map_values(|p: WordPlayerState| p.rack@);
            let mut rack = Rack::new();
            let drawn = bag.draw(7);
            let ghost drawn_v = drawn@;
            rack.add_tiles(drawn);
            assert(rack@ =~= drawn_v);
            players.push(WordPlayerState { rack, score: 0 });
            proof {
                broadcast use vstd::multiset::group_multiset_properties;
                let racks_after = players@.map_values(|p: WordPlayerState| p.rack@);
                assert(racks_after =~= racks_before.push(drawn_v));
                assert(racks_after.drop_last() =~= racks_before);
                assert(before =~= bag@ + drawn_v);
                vstd::seq_lib::lemma_multiset_commutative(bag@, drawn_v);
                assert(bag@.to_multiset().add(racks_multiset(racks_after)) =~= before.to_multiset().add(
                    racks_multiset(racks_before),
                ));
            }
            i = i + 1;
        }
        let g = WordGame {
            state: WordGameState {
                board: Board::new(),
                bag,
                players,
                current_player_idx: 0,
                consecutive_zero_turns: 0,
                finished: false,
                turn_history: Vec::new(),
            },
            config: WordGameConfig { validate_words: config.validate_words },
            rng_counter: rng_seed.wrapping_add(1),
        };
        proof {
            let v = g.state@;
            assert(v.history =~= Seq::<RecordView>::empty());
            assert forall|k: int| 0 <= k < v.racks.len() implies (#[trigger] v.racks[k]).len() <= 7 by {
                assert(v.racks[k] == g.state.players@[k].rack@);
            }
            assert forall|k: int| 0 <= k < v.scores.len() implies #[trigger] v.scores[k] == 0 by {
                assert(v.scores[k] == g.state.players@[k].score);
            }
        }
        g
    }

    /// Create a new game with the given number of players.
    pub fn new_game(config: &WordGameConfig, num_players: usize, rng_seed: u64) -> (g: Self)
        requires
            2 <= num_players <= 4,
        ensures
            g.wf(),
            is_initial(g.spec_state()@, num_players as int),
            g.spec_config().validate_words == config.validate_words,
    {
        Self::init(config, num_players, rng_seed)
    }

    /// Get the full game state.
    pub fn state(&self) -> (s: &WordGameState)
        ensures
            *s == self.spec_state(),
    {
        &self.state
    }

    /// Get a player's private state (rack, score).
    pub fn player_state(&self, player_idx: usize) -> (p: Option<&WordPlayerState>)
        ensures
            match p {
                Some(ps) => player_idx < self.spec_state().players@.len() && *ps
                    == self.spec_state().players@[player_idx as int],
                None => player_idx >= self.spec_state().players@.len(),
            },
    {
        if player_idx < self.state.players.len() {
            Some(&self.state.players[player_idx])
        } else {
            None
        }
    }

    /// Get the public view (for spectators/opponents).
    pub fn public_view(&self) -> (pv: WordPublicView)
        ensures
            pv.board == self.spec_state().board,
            pv.scores@.len() == self.spec_state().players@.len(),
            forall|i: int| 0 <= i < pv.scores@.len() ==> #[trigger] pv.scores@[i] == self.spec_state().players@[i].score,
            pv.current_player_idx == self.spec_state().current_player_idx,
            pv.tiles_remaining == self.spec_state().bag@.len(),
            pv.finished == self.spec_state().finished,
            pv.turn_history@.map_values(|r: TurnRecord| r.record_view()) == self.spec_state()@.history,
    {
        let mut scores: Vec<i32> = Vec::new();
        let mut i: usize = 0;
        while i < self.state.players.len()
            invariant
                i <= self.state.players@.len(),
                scores@.len() == i,
                forall|k: int| 0 <= k < i ==> #[trigger] scores@[k] == self.state.players@[k].score,
            decreases self.state.players@.len() - i,
        {
            scores.push(self.state.players[i].score);
            i = i + 1;
        }
        let mut history: Vec<TurnRecord> = Vec::new();
        let ghost want = self.state@.history;
        let mut i: usize = 0;
        while i < self.state.turn_history.len()
            invariant
                i <= self.state.turn_history@.len(),
                want == self.state@.history,
                history@.len() == i,
                history@.map_values(|r: TurnRecord| r.record_view()) == want.subrange(0, i as int),
            decreases self.state.turn_history@.len() - i,
        {
            assert(want[i as int] == self.state.turn_history@[i as int].record_view());
            let rec = copy_record(&self.state.turn_history[i]);
            let ghost hv = history@;
            history.push(rec);
            assert(forall|k: int| 0 <= k < i ==> history@[k] == hv[k]);
            let ghost a = history@.map_values(|r: TurnRecord| r.record_view());
            let ghost b = hv.map_values(|r: TurnRecord| r.record_view());
            assert(forall|k: int| 0 <= k < i ==> #[trigger] a[k] == b[k]);
            assert(a[i as int] == want[i as int]);
            i = i + 1;
            assert(history@.map_values(|r: TurnRecord| r.record_view()) =~= want.subrange(0, i as int));
        }
        assert(want.subrange(0, want.len() as int) =~= want);
        WordPublicView {
            board: self.state.board,
            scores,
            current_player_idx: self.state.current_player_idx,
            tiles_remaining: self.state.bag.remaining(),
            finished: self.state.finished,
            turn_history: history,
        }
    }

    /// Which player's turn is it? None if game is over.
    pub fn current_player(&self) -> (r: Option<usize>)
        ensures
            r == if self.spec_state().finished {
                None
            } else {
                Some(self.spec_state().current_player_idx)
            },
    {
        if self.state.finished {
            None
        } else {
            Some(self.state.current_player_idx)
        }
    }

    /// Validate and apply an action; words are not checked against a dictionary.
    pub fn apply_action(&mut self, player_idx: usize, action: WordAction) -> (r: Result<TurnResult, WordGameError>)
        requires
            old(self).wf(),
        ensures
            action_outcome(*old(self), *final(self), player_idx as int, action, None::<&AcceptAllValidator>, r),
            final(self).wf(),
            r is Ok ==> tile_count(final(self).spec_state()@) == tile_count(old(self).spec_state()@),
    {
        // Accepting every word is the same as checking none.
        self.apply_action_with_validator(player_idx, action, None::<&AcceptAllValidator>)
    }

    /// Is the game finished?
    pub fn is_finished(&self) -> (r: bool)
        ensures
            r == self.spec_state().finished,
    {
        self.state.finished
    }

    /// Final results (scores, winner), once the game is finished.
    pub fn results(&self) -> (r: Option<GameResults>)
        ensures
            match r {
                None => !self.spec_state().finished,
                Some(res) => {
                    &&& self.spec_state().finished
                    &&& res.player_scores@.map_values(|x: i32| x as int) == self.spec_state()@.scores
                    &&& res.winner == winner_index_of(self.spec_state()@.scores)
                },
            },
    {
        if !self.state.finished {
            return None;
        }
        let ghost sc = self.state@.scores;
        let mut scores: Vec<i32> = Vec::new();
        let mut i: usize = 0;
        while i < self.state.players.len()
            invariant
                i <= self.state.players@.len(),
                sc == self.state@.scores,
                scores@.len() == i,
                scores@.map_values(|x: i32| x as int) == sc.subrange(0, i as int),
            decreases self.state.players@.len() - i,
        {
            assert(sc[i as int] == self.state.players@[i as int].score as int);
            let ghost sv = scores@;
            scores.push(self.state.players[i].score);
            let ghost a = scores@.map_values(|x: i32| x as int);
            let ghost b = sv.map_values(|x: i32| x as int);
            assert(forall|k: int| 0 <= k < i ==> #[trigger] a[k] == b[k]);
            assert(a[i as int] == sc[i as int]);
            i = i + 1;
            assert(scores@.map_values(|x: i32| x as int) =~= sc.subrange(0, i as int));
        }
        assert(sc.subrange(0, sc.len() as int) =~= sc);
        let winner = winner_index(&scores);
        Some(GameResults { player_scores: scores, winner })
    }

    /// Number of players.
    pub fn num_players(&self) -> (r: usize)
        ensures
            r == self.spec_state().players@.len(),
    {
        self.state.players.len()
    }

    /// Minimum/maximum player count for this game type.
    pub fn player_count_range() -> (r: (usize, usize))
        ensures
            r == (2usize, 4usize),
    {
        (2, 4)
    }

    fn next_rng(&mut self) -> (seed: u64)
        ensures
            seed == old(self).rng_counter,
            final(self).rng_counter == (if old(self).rng_counter == u64::MAX { 0 } else { old(self).rng_counter + 1 }),
            final(self).state == old(self).state,
            final(self).config == old(self).config,
    {
        let seed = self.rng_counter;
        self.rng_counter = self.rng_counter.wrapping_add(1);
        seed
    }

    fn advance_turn(&mut self)
        requires
            old(self).state.current_player_idx < old(self).state.players@.len(),
        ensures
            final(self).state@ == advanced(old(self).state@),
            final(self).config == old(self).config,
            final(self).rng_counter == old(self).rng_counter,
    {
        let n = self.state.players.len();
        let c = self.state.current_player_idx;
        self.state.current_player_idx = (c + 1) % n;
        assert(self.state@.racks =~= advanced(old(self).state@).racks);
        assert(self.state@.scores =~= advanced(old(self).state@).scores);
    }

    fn finish_game(&mut self)
        requires
            2 <= old(self).state@.racks.len() <= 4,
            forall|i: int| 0 <= i < old(self).state@.racks.len() ==> (#[trigger] old(self).state@.racks[i]).len() <= 7,
            forall|i: int| 0 <= i < old(self).state@.scores.len() ==> 0 <= #[trigger] old(self).state@.scores[i]
                <= 225 * max_move_score(),
        ensures
            final(self).state@ == finished_view(old(self).state@),
            final(self).config == old(self).config,
            final(self).rng_counter == old(self).rng_counter,
    {
        let ghost v = self.state@;
        proof {
            lemma_penalty_total_bounds(v.racks);
        }
        self.state.finished = true;
        // Subtract remaining rack values from each player
        // The player who went out gets the sum of all other racks added
        let n = self.state.players.len();
        let mut rack_values: Vec<i32> = Vec::new();
        let mut empty_player: Option<usize> = None;
        let mut i: usize = 0;
        while i < n
            invariant
                i <= n,
                n == v.racks.len(),
                self.state@.racks == v.racks,
                self.config == old(self).config,
                self.rng_counter == old(self).rng_counter,
                forall|k: int| 0 <= k < v.racks.len() ==> (#[trigger] v.racks[k]).len() <= 7,
                rack_values@.len() == i,
                forall|k: int| 0 <= k < i ==> #[trigger] rack_values@[k] == points_sum(v.racks[k]),
                match empty_player {
                    Some(e) => is_first_empty(v.racks, e as int),
                    None => forall|k: int| 0 <= k < i ==> (#[trigger] v.racks[k]).len() != 0,
                },
            decreases n - i,
        {
            let rack = &self.state.players[i].rack;
            assert(rack@ == v.racks[i as int]);
            proof {
                crate::scoring::lemma_points_sum_bounds(v.racks[i as int]);
            }
            rack_values.push(crate::scoring::rack_penalty(rack.tiles.as_slice()));
            if empty_player.is_none() && rack.is_empty() {
                empty_player = Some(i);
            }
            i = i + 1;
        }
        proof {
            match empty_player {
                Some(e) => {
                    let k = choose|k: int| is_first_empty(v.racks, k);
                    assert(is_first_empty(v.racks, k));
                    if k < e {
                        assert(v.racks[k].len() != 0);
                    } else if e < k {
                        assert(v.racks[e as int].len() != 0);
                    }
                    assert(first_empty(v.racks) == Some(e as int));
                },
                None => {
                    if exists|k: int| is_first_empty(v.racks, k) {
                        let k = choose|k: int| is_first_empty(v.racks, k);
                        assert(v.racks[k].len() != 0);
                    }
                    assert(first_empty(v.racks) is None);
                },
            }
        }
        let mut total: i32 = 0;
        let mut j: usize = 0;
        while j < n
            invariant
                j <= n,
                n == v.racks.len(),
                n <= 4,
                rack_values@.len() == n,
                forall|k: int| 0 <= k < n ==> #[trigger] rack_values@[k] == points_sum(v.racks[k]),
                forall|k: int| 0 <= k < v.racks.len() ==> (#[trigger] v.racks[k]).len() <= 7,
                total == penalty_total(v.racks.subrange(0, j as int)),
                0 <= total <= 1785 * j,
            decreases n - j,
        {
            proof {
                crate::scoring::lemma_points_sum_bounds(v.racks[j as int]);
                assert(v.racks.subrange(0, j + 1).drop_last() =~= v.racks.subrange(0, j as int));
                assert(v.racks.subrange(0, j + 1).last() == v.racks[j as int]);
            }
            total = total + rack_values[j];
            j = j + 1;
        }
        assert(v.racks.subrange(0, n as int) =~= v.racks);
        let mut i: usize = 0;
        while i < n
            invariant
                i <= n,
                n == v.racks.len(),
                self.state.players@.len() == n,
                self.state.finished,
                self.config == old(self).config,
                self.rng_counter == old(self).rng_counter,
                self.state.board == v.board,
                self.state.bag@ == v.bag,
                self.state.current_player_idx == v.current,
                self.state.consecutive_zero_turns == v.zero,
                self.state.turn_history@.map_values(|r: TurnRecord| r.record_view()) == v.history,
                rack_values@.len() == n,
                forall|k: int| 0 <= k < n ==> #[trigger] rack_values@[k] == points_sum(v.racks[k]),
                forall|k: int| 0 <= k < n ==> (#[trigger] self.state.players@[k]).rack@ == v.racks[k],
                forall|k: int| i <= k < n ==> (#[trigger] self.state.players@[k]).score == v.scores[k],
                forall|k: int| 0 <= k < i ==> (#[trigger] self.state.players@[k]).score == v.scores[k]
                    - points_sum(v.racks[k]),
                forall|k: int| 0 <= k < v.scores.len() ==> 0 <= #[trigger] v.scores[k] <= 225 * max_move_score(),
                forall|k: int| 0 <= k < v.racks.len() ==> (#[trigger] v.racks[k]).len() <= 7,
                v.scores.len() == n,
            decreases n - i,
        {
            proof {
                crate::scoring::lemma_points_sum_bounds(v.racks[i as int]);
            }
            let pen = rack_values[i];
            self.state.players[i].score = self.state.players[i].score - pen;
            i = i + 1;
        }
        if let Some(winner_idx) = empty_player {
            proof {
                crate::scoring::lemma_points_sum_bounds(v.racks[winner_idx as int]);
                assert(v.racks[winner_idx as int].len() == 0);
            }
            self.state.players[winner_idx].score = self.state.players[winner_idx].score + total;
        }
        proof {
            let f = finished_view(v);
            assert(self.state@.racks =~= f.racks);
            assert(self.state@.scores =~= f.scores);
        }
    }


    /// Appends `rec` to the history.
    fn push_record(&mut self, rec: TurnRecord)
        ensures
            final(self).state@ == (GameView { history: old(self).state@.history.push(rec.record_view()), ..old(self).state@ }),
            final(self).config == old(self).config,
            final(self).rng_counter == old(self).rng_counter,
            final(self).state.players == old(self).state.players,
    {
        let ghost v = self.state@;
        self.state.turn_history.push(rec);
        assert(self.state@.history =~= v.history.push(rec.record_view()));
        assert(self.state@.racks =~= v.racks);
        assert(self.state@.scores =~= v.scores);
    }


    /// Removes the requested tiles from the rack of player `p`, one after the other,
    /// stopping at the first that the rack cannot answer.
    fn remove_from_rack(&mut self, p: usize, qs: &Vec<Tile>) -> (r: Result<Vec<Tile>, WordGameError>)
        requires
            p < old(self).state.players@.len(),
        ensures
            ({
                let (rest, removed, fail) = remove_run(old(self).state@.racks[p as int], qs@);
                &&& final(self).state@ == (GameView { racks: old(self).state@.racks.update(p as int, rest), ..old(self).state@ })
                &&& match fail {
                    Some(f) => r == Err::<Vec<Tile>, WordGameError>(WordGameError::TileNotInRack(tile_char(qs@[f]))),
                    None => r matches Ok(v) && v@ == removed,
                }
            }),
            final(self).config == old(self).config,
            final(self).rng_counter == old(self).rng_counter,
    {
        let ghost v = self.state@;
        let ghost rack0 = v.racks[p as int];
        let mut removed: Vec<Tile> = Vec::new();
        let mut failed: Option<char> = None;
        let mut i: usize = 0;
        assert(qs@.subrange(0, 0) =~= Seq::<Tile>::empty());
        assert(v.racks.update(p as int, rack0) =~= v.racks);
        while i < qs.len() && failed.is_none()
            invariant
                i <= qs@.len(),
                p < v.racks.len(),
                self.state.players@.len() == v.racks.len(),
                self.config == old(self).config,
                self.rng_counter == old(self).rng_counter,
                self.state@ == (GameView {
                    racks: v.racks.update(p as int, remove_run(rack0, qs@.subrange(0, i as int)).0),
                    ..v
                }),
                failed is None ==> remove_run(rack0, qs@.subrange(0, i as int)).2 is None
                    && removed@ == remove_run(rack0, qs@.subrange(0, i as int)).1,
                failed matches Some(c) ==> i >= 1 && remove_run(rack0, qs@.subrange(0, i as int)).2 == Some(i - 1)
                    && c == tile_char(qs@[i - 1]),
            decreases qs@.len() - i,
        {
            let ghost pre = self.state@;
            assert(qs@.subrange(0, i + 1).drop_last() =~= qs@.subrange(0, i as int));
            assert(qs@.subrange(0, i + 1).last() == qs@[i as int]);
            assert(self.state.players@[p as int].rack@ == pre.racks[p as int]);
            let ghost old_players = self.state.players@;
            let t = self.state.players[p].rack.remove_tile(&qs[i]);
            assert(self.state.players@.len() == old_players.len());
            assert(forall|j: int| 0 <= j < old_players.len() && j != p ==> self.state.players@[j] == old_players[j]);
            assert(self.state.players@[p as int].rack@ == crate::rack::remove_answer(pre.racks[p as int], qs@[i as int]));
            assert(pre.racks[p as int] == remove_run(rack0, qs@.subrange(0, i as int)).0);
            match t {
                Some(x) => {
                    removed.push(x);
                },
                None => {
                    let c = match qs[i].letter() {
                        Some(c) => c,
                        None => '?',
                    };
                    failed = Some(c);
                },
            }
            proof {
                assert(remove_run(rack0, qs@.subrange(0, i + 1)).0 == crate::rack::remove_answer(
                    remove_run(rack0, qs@.subrange(0, i as int)).0,
                    qs@[i as int],
                ));
                assert(self.state@.racks.len() == v.racks.len());
                assert(self.state@.racks[p as int] == remove_run(rack0, qs@.subrange(0, i + 1)).0);
                assert(forall|j: int| 0 <= j < v.racks.len() && j != p ==> self.state@.racks[j] == pre.racks[j]);
                assert(forall|j: int| 0 <= j < v.racks.len() && j != p ==> pre.racks[j] == v.racks[j]);
                assert(self.state@.racks =~= v.racks.update(
                    p as int,
                    remove_run(rack0, qs@.subrange(0, i + 1)).0,
                ));
                assert(self.state@.scores =~= pre.scores);
            }
            i = i + 1;
        }
        match failed {
            Some(c) => {
                proof {
                    crate::rack::lemma_remove_run_stop(rack0, qs@, i as int);
                }
                Err(WordGameError::TileNotInRack(c))
            },
            None => {
                assert(qs@.subrange(0, qs@.len() as int) =~= qs@);
                Ok(removed)
            },
        }
    }


    fn apply_place<V: WordValidator>(
        &mut self,
        player_idx: usize,
        tiles: Vec<PlacedTile>,
        validator: Option<&V>,
    ) -> (r: Result<TurnResult, WordGameError>)
        requires
            old(self).wf(),
            !old(self).state.finished,
            player_idx == old(self).state.current_player_idx,
        ensures
            place_outcome(*old(self), *final(self), player_idx as int, tiles@, validator, r),
            final(self).wf(),
    {
        let ghost v = self.state@;
        let ghost ts = tiles@;
        let is_first_move = self.state.board.is_empty();
        let validated = match validate_placement(&self.state.board, tiles.as_slice(), is_first_move) {
            Ok(vp) => vp,
            Err(e) => {
                return Err(e);
            },
        };
        let ghost texts = word_texts(v.board, ts);
        assert(validated.word_strings@.map_values(|w: String| w@) =~= texts);
        // Validate words if configured
        if self.config.validate_words {
            if let Some(val) = validator {
                let bad = first_bad_word(val, &validated.word_strings);
                proof {
                    match bad {
                        Some(k) => {
                            assert forall|j: int| 0 <= j < k implies (*val).accepts(#[trigger] texts[j]) by {
                                assert(texts[j] == validated.word_strings@[j]@);
                            }
                            assert(texts[k as int] == validated.word_strings@[k as int]@);
                            lemma_first_rejected(*val, texts, k as int);
                        },
                        None => {
                            assert forall|j: int| 0 <= j < texts.len() implies (*val).accepts(#[trigger] texts[j]) by {
                                assert(texts[j] == validated.word_strings@[j]@);
                            }
                        },
                    }
                }
                if let Some(k) = bad {
                    let w = validated.word_strings[k].clone();
                    proof {
                        assert(w@ == texts[k as int]);
                    }
                    return Err(WordGameError::InvalidWord(w));
                }
            }
        }
        // Remove tiles from rack
        let (requests, tiles_to_place) = placement_requests(&tiles);
        proof {
            crate::rack::lemma_remove_run(v.racks[player_idx as int], placed_tiles(ts));
        }
        match self.remove_from_rack(player_idx, &requests) {
            Ok(_) => {},
            Err(e) => {
                proof {
                    assert(state_wf(self.state@));
                }
                return Err(e);
            },
        }
        // Score all words
        let total_score = placement_score(&self.state.board, &tiles, &tiles_to_place, &validated);
        // Place tiles on board
        place_entries(&mut self.state.board, &tiles, &tiles_to_place);
        proof {
            lemma_board_with(v.board, ts);
        }
        let summary = self.commit_place(player_idx, total_score, validated.word_strings, Ghost(v), Ghost(ts));
        Ok(TurnResult { score_delta: total_score, turn_summary: summary })
    }

    /// Draws, scores and records a placement whose tiles are already on the board and
    /// out of the rack, then passes the turn.
    fn commit_place(
        &mut self,
        player_idx: usize,
        total_score: i32,
        word_strings: Vec<String>,
        Ghost(v): Ghost<GameView>,
        Ghost(ts): Ghost<Seq<PlacedTile>>,
    ) -> (summary: String)
        requires
            state_wf(v),
            !v.finished,
            player_idx == v.current,
            placement_failure(v.board, ts, v.board.spec_is_empty()) is None,
            remove_run(v.racks[player_idx as int], placed_tiles(ts)).2 is None,
            ts.len() >= 1,
            ts.len() + remove_run(v.racks[player_idx as int], placed_tiles(ts)).0.len() == v.racks[player_idx as int].len(),
            old(self).state@ == (GameView {
                board: board_with(v.board, ts),
                racks: v.racks.update(player_idx as int, remove_run(v.racks[player_idx as int], placed_tiles(ts)).0),
                ..v
            }),
            board_with(v.board, ts).num_tiles() == v.board.num_tiles() + ts.len(),
            total_score == place_score(v.board, ts),
            0 <= total_score <= max_move_score(),
            word_strings@.map_values(|w: String| w@) == word_texts(v.board, ts),
        ensures
            final(self).state@ == after_place(v, player_idx as int, ts),
            final(self).config == old(self).config,
            final(self).rng_counter == old(self).rng_counter,
            final(self).wf(),
            summary@ == place_summary(word_texts(v.board, ts), total_score as int),
    {
        let ghost v1 = self.state@;
        let ghost texts = word_texts(v.board, ts);
        // Draw new tiles
        assert(self.state.players@[player_idx as int].rack@ == v1.racks[player_idx as int]);
        let needed = self.state.players[player_idx].rack.tiles_needed();
        let drawn = self.state.bag.draw(needed);
        let ghost drawn_v = drawn@;
        let ghost players1 = self.state.players@;
        self.state.players[player_idx].rack.add_tiles(drawn);
        assert(self.state.players@.len() == players1.len());
        assert(forall|j: int| 0 <= j < players1.len() && j != player_idx ==> self.state.players@[j] == players1[j]);
        let ghost players2 = self.state.players@;
        // Update score
        proof {
            v.board.lemma_set_num_tiles(0, 0, Tile::Blank(None));
            board_with(v.board, ts).lemma_set_num_tiles(0, 0, Tile::Blank(None));
            assert(v.scores[player_idx as int] <= v.board.num_tiles() * max_move_score());
            assert(v.scores[player_idx as int] + total_score <= 225 * max_move_score()) by (nonlinear_arith)
                requires
                    v.scores[player_idx as int] <= v.board.num_tiles() * max_move_score(),
                    v.board.num_tiles() + 1 <= 225,
                    total_score <= max_move_score(),
                    max_move_score() > 0,
            ;
            assert(players2[player_idx as int].score == v.scores[player_idx as int]);
        }
        self.state.players[player_idx].score = self.state.players[player_idx].score + total_score;
        assert(self.state.players@.len() == players2.len());
        assert(forall|j: int| 0 <= j < players2.len() && j != player_idx ==> self.state.players@[j] == players2[j]);
        self.state.consecutive_zero_turns = 0;
        let mut summary = crate::text::owned("played ");
        summary.append(join_words(&word_strings, ", ").as_str());
        summary.append(" for ");
        summary.append(crate::text::i32_decimal(total_score).as_str());
        summary.append(" points");
        let rec = TurnRecord {
            player_idx,
            action_type: crate::text::owned("place"),
            score_delta: total_score,
            words_formed: word_strings,
        };
        self.push_record(rec);
        proof {
            let (rest, _, _) = remove_run(v.racks[player_idx as int], placed_tiles(ts));
            let need = if rest.len() < 7 { 7 - rest.len() } else { 0 };
            let cut = v.bag.len() - draw_count(need, v.bag.len() as int);
            let dr = v.bag.subrange(cut, v.bag.len() as int);
            let score = place_score(v.board, ts);
            let w = GameView {
                board: board_with(v.board, ts),
                bag: v.bag.subrange(0, cut),
                racks: v.racks.update(player_idx as int, rest + dr),
                scores: v.scores.update(player_idx as int, v.scores[player_idx as int] + score),
                zero: 0,
                history: v.history.push(
                    RecordView {
                        player_idx: player_idx as int,
                        action_type: "place"@,
                        score_delta: score,
                        words_formed: texts,
                    },
                ),
                ..v
            };
            assert(v1.racks[player_idx as int] == rest);
            assert(drawn_v == dr);
            assert(self.state@.racks.len() == w.racks.len());
            assert(self.state@.racks[player_idx as int] == rest + dr);
            assert(forall|j: int| 0 <= j < v.racks.len() && j != player_idx ==> self.state@.racks[j] == v1.racks[j]);
            assert(forall|j: int| 0 <= j < v.racks.len() && j != player_idx ==> v1.racks[j] == v.racks[j]);
            assert(self.state@.racks =~= w.racks);
            assert(self.state@.scores =~= w.scores);
            assert(self.state@ == w);
            assert forall|i: int| 0 <= i < w.racks.len() implies (#[trigger] w.racks[i]).len() <= 7 by {
                if i != player_idx {
                    assert(w.racks[i] == v.racks[i]);
                }
            }
            lemma_place_wf(v, w, player_idx as int, ts.len() as int);
        }
        self.advance_turn();
        proof {
            lemma_end_checked_wf(self.state@);
            lemma_scores_below(self.state@);
        }
        self.check_game_end();
        summary
    }

    fn apply_exchange(&mut self, player_idx: usize, tiles: Vec<Tile>) -> (r: Result<TurnResult, WordGameError>)
        requires
            old(self).wf(),
            !old(self).state.finished,
            player_idx == old(self).state.current_player_idx,
        ensures
            exchange_outcome(*old(self), *final(self), player_idx as int, tiles@, r),
            final(self).wf(),
    {
        let ghost v = self.state@;
        if self.state.bag.remaining() < MIN_BAG_FOR_EXCHANGE {
            return Err(WordGameError::ExchangeNotAllowed);
        }
        if tiles.len() == 0 {
            return Err(WordGameError::InvalidPlacement(crate::text::owned("must exchange at least one tile")));
        }
        proof {
            crate::rack::lemma_remove_run(v.racks[player_idx as int], tiles@);
        }
        // Remove tiles from rack
        let removed = match self.remove_from_rack(player_idx, &tiles) {
            Ok(x) => x,
            Err(e) => {
                proof {
                    assert(state_wf(self.state@));
                }
                return Err(e);
            },
        };
        let ghost v1 = self.state@;
        // Draw new tiles first, then return old ones
        let drawn = self.state.bag.draw(removed.len());
        let ghost bag_mid = self.state.bag@;
        let ghost drawn_v = drawn@;
        assert(self.state.players@[player_idx as int].rack@ == v1.racks[player_idx as int]);
        let ghost players1 = self.state.players@;
        self.state.players[player_idx].rack.add_tiles(drawn);
        assert(self.state.players@[player_idx as int].rack@ == v1.racks[player_idx as int] + drawn_v);
        assert(self.state.players@.len() == players1.len());
        assert(forall|j: int| 0 <= j < players1.len() && j != player_idx ==> self.state.players@[j] == players1[j]);
        let seed = self.next_rng();
        self.state.bag.return_tiles(removed, seed);
        let ghost bag_after = self.state.bag@;
        self.state.consecutive_zero_turns = self.state.consecutive_zero_turns + 1;
        let rec = zero_record(player_idx, "exchange");
        self.push_record(rec);
        proof {
            let (rest, rem, _) = remove_run(v.racks[player_idx as int], tiles@);
            let cut = v.bag.len() - draw_count(rem.len() as int, v.bag.len() as int);
            let dr = v.bag.subrange(cut, v.bag.len() as int);
            let w = GameView {
                zero: v.zero + 1,
                history: v.history.push(
                    RecordView {
                        player_idx: player_idx as int,
                        action_type: "exchange"@,
                        score_delta: 0,
                        words_formed: Seq::empty(),
                    },
                ),
                racks: v.racks.update(player_idx as int, rest + dr),
                bag: bag_after,
                ..v
            };
            assert(v1.racks[player_idx as int] == rest);
            assert(drawn_v == dr);
            assert(self.state@.racks[player_idx as int] == rest + dr);
            assert(self.state@.racks.len() == w.racks.len());
            assert(forall|j: int| 0 <= j < v.racks.len() && j != player_idx ==> self.state@.racks[j] == v1.racks[j]);
            assert(forall|j: int| 0 <= j < v.racks.len() && j != player_idx ==> v1.racks[j] == v.racks[j]);
            assert(self.state@.racks =~= w.racks);
            assert(self.state@.scores =~= w.scores);
            assert(self.state@ == w);
            assert(bag_mid == v.bag.subrange(0, cut));
            vstd::seq_lib::lemma_multiset_commutative(v.bag.subrange(0, cut), rem);
        }
        self.advance_turn();
        proof {
            let w = self.state@;
            assert forall|i: int| 0 <= i < w.racks.len() implies (#[trigger] w.racks[i]).len() <= 7 by {
                if i == player_idx {
                    let (rest, rem, _) = remove_run(v.racks[player_idx as int], tiles@);
                    assert(v.racks[i].len() <= 7);
                } else {
                    assert(w.racks[i] == v.racks[i]);
                }
            }
            lemma_scores_below(v);
            assert(w.scores == v.scores);
            assert(w.board == v.board);
            lemma_end_checked_wf(w);
        }
        self.check_game_end();
        let mut summary = crate::text::owned("exchanged ");
        summary.append(crate::text::usize_decimal(tiles.len()).as_str());
        summary.append(" tiles");
        Ok(TurnResult { score_delta: 0, turn_summary: summary })
    }


    /// Apply an action with an optional word validator.
    pub fn apply_action_with_validator<V: WordValidator>(
        &mut self,
        player_idx: usize,
        action: WordAction,
        validator: Option<&V>,
    ) -> (r: Result<TurnResult, WordGameError>)
        requires
            old(self).wf(),
        ensures
            action_outcome(*old(self), *final(self), player_idx as int, action, validator, r),
            final(self).wf(),
            r is Ok ==> tile_count(final(self).spec_state()@) == tile_count(old(self).spec_state()@),
    {
        if self.state.finished {
            return Err(WordGameError::GameAlreadyFinished);
        }
        if player_idx != self.state.current_player_idx {
            return Err(WordGameError::NotYourTurn);
        }
        if player_idx >= self.state.players.len() {
            return Err(WordGameError::InvalidPlayerIndex);
        }
        let ghost o = *self;
        match action {
            WordAction::Place(tiles) => {
                let r = self.apply_place(player_idx, tiles, validator);
                proof {
                    if r is Ok {
                        crate::placement::lemma_no_bad_tile(o.spec_state()@.board, tiles@);
                        lemma_place_keeps_count(o.spec_state()@, player_idx as int, tiles@);
                    }
                }
                r
            },
            WordAction::Exchange(tiles) => {
                let r = self.apply_exchange(player_idx, tiles);
                proof {
                    if r is Ok {
                        vstd::seq_lib::to_multiset_len(self.state@.bag);
                        vstd::seq_lib::to_multiset_len(exchange_bag(o.spec_state()@, player_idx as int, tiles@));
                        assert(self.state@.bag.len() == exchange_bag(o.spec_state()@, player_idx as int, tiles@).len());
                        lemma_exchange_keeps_count(o.spec_state()@, player_idx as int, tiles@, self.state@.bag);
                    }
                }
                r
            },
            WordAction::Pass => {
                let r = self.apply_pass(player_idx);
                proof {
                    lemma_pass_keeps_count(o.spec_state()@, player_idx as int);
                }
                r
            },
        }
    }

    fn check_game_end(&mut self)
        requires
            2 <= old(self).state@.racks.len() <= 4,
            forall|i: int| 0 <= i < old(self).state@.racks.len() ==> (#[trigger] old(self).state@.racks[i]).len() <= 7,
            forall|i: int| 0 <= i < old(self).state@.scores.len() ==> 0 <= #[trigger] old(self).state@.scores[i]
                <= 225 * max_move_score(),
        ensures
            final(self).state@ == end_checked(old(self).state@),
            final(self).config == old(self).config,
            final(self).rng_counter == old(self).rng_counter,
    {
        // Game ends if: consecutive zero turns >= 6
        if self.state.consecutive_zero_turns >= MAX_CONSECUTIVE_ZERO_TURNS {
            self.finish_game();
            return;
        }
        // Game ends if a player has emptied their rack and bag is empty
        if self.state.bag.is_empty() {
            let ghost v = self.state@;
            let mut any_empty = false;
            let mut i: usize = 0;
            while i < self.state.players.len()
                invariant
                    i <= v.racks.len(),
                    self.state@ == v,
                    any_empty == exists|k: int| 0 <= k < i && (#[trigger] v.racks[k]).len() == 0,
                decreases v.racks.len() - i,
            {
                assert(v.racks[i as int] == self.state.players@[i as int].rack@);
                if self.state.players[i].rack.is_empty() {
                    any_empty = true;
                }
                i = i + 1;
            }
            if any_empty {
                self.finish_game();
            }
        }
    }

    fn apply_pass(&mut self, player_idx: usize) -> (r: Result<TurnResult, WordGameError>)
        requires
            old(self).wf(),
            !old(self).state.finished,
            player_idx == old(self).state.current_player_idx,
        ensures
            final(self).state@ == after_pass(old(self).state@, player_idx as int),
            final(self).config == old(self).config,
            final(self).rng_counter == old(self).rng_counter,
            final(self).wf(),
            r matches Ok(tr) && tr.score_delta == 0 && tr.turn_summary@ == "passed"@,
    {
        let ghost v = self.state@;
        self.state.consecutive_zero_turns = self.state.consecutive_zero_turns + 1;
        let rec = zero_record(player_idx, "pass");
        self.push_record(rec);
        proof {
            let w = GameView {
                zero: v.zero + 1,
                history: v.history.push(
                    RecordView { player_idx: player_idx as int, action_type: "pass"@, score_delta: 0, words_formed: Seq::empty() },
                ),
                ..v
            };
            assert(self.state@.history =~= w.history);
            assert(self.state@.racks =~= w.racks);
            assert(self.state@.scores =~= w.scores);
        }
        self.advance_turn();
        proof {
            lemma_scores_below(v);
        }
        self.check_game_end();
        proof {
            lemma_zero_turn_wf(v, player_idx as int, "pass"@);
        }
        Ok(TurnResult { score_delta: 0, turn_summary: crate::text::owned("passed") })
    }

}

/// While a game runs, each score is within the bound that the end of the game needs.
proof fn lemma_scores_below(v: GameView)
    requires
        state_wf(v),
        !v.finished,
    ensures
        forall|i: int| 0 <= i < v.scores.len() ==> 0 <= #[trigger] v.scores[i] <= 225 * max_move_score(),
{
    v.board.lemma_set_num_tiles(0, 0, Tile::Blank(None));
    assert forall|i: int| 0 <= i < v.scores.len() implies 0 <= #[trigger] v.scores[i] <= 225 * max_move_score() by {
        assert(v.scores[i] <= v.board.num_tiles() * max_move_score());
        assert(v.board.num_tiles() * max_move_score() <= 225 * max_move_score()) by (nonlinear_arith)
            requires
                v.board.num_tiles() <= 225,
        ;
    }
}

/// The end check keeps a game well formed.
proof fn lemma_end_checked_wf(v: GameView)
    requires
        2 <= v.racks.len() <= 4,
        v.scores.len() == v.racks.len(),
        0 <= v.current < v.racks.len(),
        0 <= v.zero <= 6,
        !v.finished,
        forall|i: int| 0 <= i < v.racks.len() ==> (#[trigger] v.racks[i]).len() <= 7,
        forall|i: int|
            0 <= i < v.scores.len() ==> 0 <= #[trigger] v.scores[i] <= v.board.num_tiles() * max_move_score(),
    ensures
        state_wf(end_checked(v)),
{
    v.board.lemma_set_num_tiles(0, 0, Tile::Blank(None));
    assert forall|i: int| 0 <= i < v.scores.len() implies 0 <= #[trigger] v.scores[i] <= 225 * max_move_score() by {
        assert(v.board.num_tiles() * max_move_score() <= 225 * max_move_score()) by (nonlinear_arith)
            requires
                v.board.num_tiles() <= 225,
        ;
    }
    if v.zero >= 6 || (v.bag.len() == 0 && exists|i: int| 0 <= i < v.racks.len() && (#[trigger] v.racks[i]).len() == 0) {
        lemma_finished_wf(v);
    }
}

/// A turn without points keeps a game well formed.
proof fn lemma_zero_turn_wf(v: GameView, p: int, action: Seq<char>)
    requires
        state_wf(v),
        !v.finished,
    ensures
        state_wf(after_zero_turn(v, p, action)),
{
    let w = advanced(
        GameView {
            zero: v.zero + 1,
            history: v.history.push(
                RecordView { player_idx: p, action_type: action, score_delta: 0, words_formed: Seq::empty() },
            ),
            ..v
        },
    );
    lemma_end_checked_wf(w);
}

/// The record of a turn without points.
fn zero_record(player_idx: usize, action: &str) -> (rec: TurnRecord)
    ensures
        rec.record_view() == (RecordView {
            player_idx: player_idx as int,
            action_type: action@,
            score_delta: 0,
            words_formed: Seq::empty(),
        }),
{
    let rec = TurnRecord {
        player_idx,
        action_type: crate::text::owned(action),
        score_delta: 0,
        words_formed: Vec::new(),
    };
    assert(rec.words_formed@.map_values(|w: String| w@) =~= Seq::<Seq<char>>::empty());
    rec
}

/// What an exchange by player `p` of the tiles `qs` does, from game `o` to game `n`
/// with result `r`.
pub open spec fn exchange_outcome(
    o: WordGame,
    n: WordGame,
    p: int,
    qs: Seq<Tile>,
    r: Result<TurnResult, WordGameError>,
) -> bool {
    let v = o.spec_state()@;
    let (rest, removed, fail) = remove_run(v.racks[p], qs);
    if v.bag.len() < 7 {
        r == Err::<TurnResult, WordGameError>(WordGameError::ExchangeNotAllowed) && n == o
    } else if qs.len() == 0 {
        &&& r matches Err(e) && crate::placement::is_placement_error(e, "must exchange at least one tile"@)
        &&& n == o
    } else if fail is Some {
        &&& r == Err::<TurnResult, WordGameError>(WordGameError::TileNotInRack(tile_char(qs[fail->0])))
        &&& n.spec_state()@ == (GameView { racks: v.racks.update(p, rest), ..v })
        &&& n.spec_config() == o.spec_config()
        &&& n.spec_rng() == o.spec_rng()
    } else {
        &&& r matches Ok(tr) && tr.score_delta == 0 && tr.turn_summary@ == "exchanged "@
            + crate::text::nat_digits(qs.len()) + " tiles"@
        &&& n.spec_state()@ == after_exchange(v, p, qs, n.spec_state()@.bag)
        &&& n.spec_state()@.bag.to_multiset() == exchange_bag(v, p, qs).to_multiset()
        &&& n.spec_config() == o.spec_config()
        &&& n.spec_rng() == (if o.spec_rng() == u64::MAX { 0 } else { (o.spec_rng() + 1) as u64 })
    }
}

/// The word a result refuses, if it is `InvalidWord`.
pub open spec fn refused_word(r: Result<TurnResult, WordGameError>) -> Option<Seq<char>> {
    match r {
        Err(WordGameError::InvalidWord(w)) => Some(w@),
        _ => None,
    }
}

/// The first of the words `ws` that the validator rejects, if any.
pub open spec fn first_rejected<V: WordValidator>(val: V, ws: Seq<Seq<char>>) -> Option<int> {
    if exists|k: int| 0 <= k < ws.len() && !val.accepts(#[trigger] ws[k]) {
        Some(choose|k: int| 0 <= k < ws.len() && !val.accepts(ws[k]) && forall|j: int| 0 <= j < k ==> val.accepts(#[trigger] ws[j]))
    } else {
        None
    }
}

/// The first rejected word is rejected, and every word before it accepted.
proof fn lemma_first_rejected<V: WordValidator>(val: V, ws: Seq<Seq<char>>, k: int)
    requires
        0 <= k < ws.len(),
        !val.accepts(ws[k]),
        forall|j: int| 0 <= j < k ==> val.accepts(#[trigger] ws[j]),
    ensures
        first_rejected(val, ws) == Some(k),
{
    let c = choose|c: int| 0 <= c < ws.len() && !val.accepts(ws[c]) && forall|j: int| 0 <= j < c ==> val.accepts(#[trigger] ws[j]);
    assert(0 <= c < ws.len() && !val.accepts(ws[c]) && forall|j: int| 0 <= j < c ==> val.accepts(#[trigger] ws[j]));
    if c < k {
        assert(val.accepts(ws[c]));
    } else if k < c {
        assert(val.accepts(ws[k]));
    }
}
/// What a placement by player `p` of the tiles `ts` does, from game `o` to game `n`
/// with result `r`, when `validator` is handed in. When words are checked, the words
/// formed are asked of the validator in order; the first it rejects is refused as
/// `InvalidWord` and nothing changes, and when it accepts them all the placement goes on.
pub open spec fn place_outcome<V: WordValidator>(
    o: WordGame,
    n: WordGame,
    p: int,
    ts: Seq<PlacedTile>,
    validator: Option<&V>,
    r: Result<TurnResult, WordGameError>,
) -> bool {
    let v = o.spec_state()@;
    let first = v.board.spec_is_empty();
    let texts = word_texts(v.board, ts);
    let checked = o.spec_config().validate_words && validator is Some;
    let (rest, removed, fail) = remove_run(v.racks[p], placed_tiles(ts));
    if placement_failure(v.board, ts, first) is Some {
        &&& r matches Err(e) && crate::placement::is_placement_error(e, placement_failure(v.board, ts, first)->0)
        &&& n == o
    } else if checked && first_rejected(*validator->0, texts) is Some {
        &&& refused_word(r) == Some(texts[first_rejected(*validator->0, texts)->0])
        &&& n == o
    } else if fail is Some {
        &&& r == Err::<TurnResult, WordGameError>(WordGameError::TileNotInRack(tile_char(placed_tiles(ts)[fail->0])))
        &&& n.spec_state()@ == (GameView { racks: v.racks.update(p, rest), ..v })
        &&& n.spec_config() == o.spec_config()
        &&& n.spec_rng() == o.spec_rng()
    } else {
        &&& r matches Ok(tr) && tr.score_delta == place_score(v.board, ts) && tr.turn_summary@
            == place_summary(texts, place_score(v.board, ts))
        &&& n.spec_state()@ == after_place(v, p, ts)
        &&& n.spec_config() == o.spec_config()
        &&& n.spec_rng() == o.spec_rng()
    }
}

/// The placed tiles stand on distinct empty squares of the board, so the board gains
/// one tile per placed tile.
proof fn lemma_board_with(b: Board, ts: Seq<PlacedTile>)
    requires
        forall|i: int| 0 <= i < ts.len() ==> !bad_tile(b, #[trigger] ts[i]),
        !has_dup(ts),
    ensures
        board_with(b, ts).num_tiles() == b.num_tiles() + ts.len(),
        forall|r: int, c: int|
            !crate::placement::has_new(ts, r, c) ==> #[trigger] board_with(b, ts).at(r, c) == b.at(r, c),
    decreases ts.len(),
{
    b.lemma_set_num_tiles(0, 0, Tile::Blank(None));
    if ts.len() > 0 {
        let s = ts.drop_last();
        let t = ts.last();
        assert forall|i: int| 0 <= i < s.len() implies !bad_tile(b, #[trigger] s[i]) by {
            assert(s[i] == ts[i]);
        }
        assert(!has_dup(s)) by {
            if has_dup(s) {
                let (i, j) = choose|i: int, j: int|
                    0 <= i < j < s.len() && (#[trigger] s[i]).row == (#[trigger] s[j]).row && s[i].col == s[j].col;
                assert(ts[i] == s[i] && ts[j] == s[j]);
            }
        }
        lemma_board_with(b, s);
        let prev = board_with(b, s);
        assert(!bad_tile(b, ts[ts.len() - 1]));
        assert(!crate::placement::has_new(s, t.row as int, t.col as int)) by {
            if crate::placement::has_new(s, t.row as int, t.col as int) {
                let i = choose|i: int| 0 <= i < s.len() && crate::placement::at_pos(#[trigger] s[i], t.row as int, t.col as int);
                assert(ts[i] == s[i]);
                assert(ts[ts.len() - 1] == t);
            }
        }
        prev.lemma_set_num_tiles(t.row as int, t.col as int, t.tile);
        assert forall|r: int, c: int| !crate::placement::has_new(ts, r, c) implies #[trigger] board_with(b, ts).at(r, c)
            == b.at(r, c) by {
            if crate::placement::has_new(s, r, c) {
                let i = choose|i: int| 0 <= i < s.len() && crate::placement::at_pos(#[trigger] s[i], r, c);
                assert(ts[i] == s[i]);
            }
            if r == t.row && c == t.col {
                assert(crate::placement::at_pos(ts[ts.len() - 1], r, c));
            }
        }
    }
}

/// A placement keeps a game well formed up to the end check.
proof fn lemma_place_wf(v: GameView, w: GameView, p: int, n: int)
    requires
        state_wf(v),
        !v.finished,
        0 <= p < v.racks.len(),
        n >= 1,
        w.board.num_tiles() == v.board.num_tiles() + n,
        w.racks.len() == v.racks.len(),
        w.scores.len() == v.scores.len(),
        w.current == v.current,
        w.zero == 0,
        !w.finished,
        forall|i: int| 0 <= i < w.racks.len() ==> (#[trigger] w.racks[i]).len() <= 7,
        forall|i: int| 0 <= i < w.scores.len() && i != p ==> #[trigger] w.scores[i] == v.scores[i],
        v.scores[p] <= w.scores[p] <= v.scores[p] + max_move_score(),
    ensures
        state_wf(advanced(w)),
{
    assert forall|i: int| 0 <= i < w.scores.len() implies 0 <= #[trigger] w.scores[i] <= w.board.num_tiles()
        * max_move_score() by {
        assert(v.scores[i] <= v.board.num_tiles() * max_move_score());
        assert(v.board.num_tiles() * max_move_score() + max_move_score() <= w.board.num_tiles() * max_move_score())
            by (nonlinear_arith)
            requires
                w.board.num_tiles() >= v.board.num_tiles() + 1,
                max_move_score() > 0,
        ;
        assert(v.board.num_tiles() * max_move_score() <= w.board.num_tiles() * max_move_score())
            by (nonlinear_arith)
            requires
                w.board.num_tiles() >= v.board.num_tiles(),
                max_move_score() > 0,
        ;
    }
    w.board.lemma_set_num_tiles(0, 0, Tile::Blank(None));
    assert forall|i: int| 0 <= i < w.scores.len() implies -2000 <= #[trigger] w.scores[i] <= 225 * max_move_score()
        + 8000 by {
        assert(w.board.num_tiles() * max_move_score() <= 225 * max_move_score()) by (nonlinear_arith)
            requires
                w.board.num_tiles() <= 225,
                max_move_score() > 0,
        ;
    }
}

/// `ws` joined with `sep` between them.
fn join_words(ws: &Vec<String>, sep: &str) -> (s: String)
    ensures
        s@ == join(ws@.map_values(|w: String| w@), sep@),
{
    let ghost all = ws@.map_values(|w: String| w@);
    let mut out = crate::text::owned("");
    let mut k: usize = 0;
    proof {
        reveal_strlit("");
        assert(all.subrange(0, 0) =~= Seq::<Seq<char>>::empty());
    }
    while k < ws.len()
        invariant
            k <= ws@.len(),
            all == ws@.map_values(|w: String| w@),
            out@ == join(all.subrange(0, k as int), sep@),
        decreases ws@.len() - k,
    {
        assert(all.subrange(0, k + 1).drop_last() =~= all.subrange(0, k as int));
        assert(all.subrange(0, k + 1).last() == ws@[k as int]@);
        if k > 0 {
            out.append(sep);
        } else {
            assert(all.subrange(0, 1) =~= seq![ws@[0]@]);
            assert(out@ =~= Seq::<char>::empty());
        }
        out.append(ws[k].as_str());
        k = k + 1;
    }
    assert(all.subrange(0, ws@.len() as int) =~= all);
    out
}

/// The first word the validator rejects, asking it about the words in order and
/// stopping at the first it rejects.
fn first_bad_word<V: WordValidator>(val: &V, words: &Vec<String>) -> (r: Option<usize>)
    ensures
        r matches Some(k) ==> k < words@.len(),
        r matches Some(k) ==> !val.accepts(words@[k as int]@),
        forall|j: int| 0 <= j < (match r { Some(k) => k as int, None => words@.len() as int }) ==> val.accepts(
            (#[trigger] words@[j])@,
        ),
{
    let mut k: usize = 0;
    while k < words.len()
        invariant
            k <= words@.len(),
            forall|j: int| 0 <= j < k ==> val.accepts((#[trigger] words@[j])@),
        decreases words@.len() - k,
    {
        if !val.is_valid_word(words[k].as_str()) {
            return Some(k);
        }
        k = k + 1;
    }
    None
}

/// The tiles a placement requests from the rack, and its entries `(row, col, tile)`.
fn placement_requests(tiles: &Vec<PlacedTile>) -> (r: (Vec<Tile>, Vec<(usize, usize, Tile)>))
    ensures
        r.0@ == placed_tiles(tiles@),
        r.1@ == placed_map(tiles@),
{
    let ghost ts = tiles@;
    let mut requests: Vec<Tile> = Vec::new();
    let mut entries: Vec<(usize, usize, Tile)> = Vec::new();
    let mut k: usize = 0;
    while k < tiles.len()
        invariant
            k <= ts.len(),
            ts == tiles@,
            requests@ == placed_tiles(ts).subrange(0, k as int),
            entries@ == placed_map(ts).subrange(0, k as int),
        decreases ts.len() - k,
    {
        requests.push(tiles[k].tile);
        entries.push((tiles[k].row, tiles[k].col, tiles[k].tile));
        k = k + 1;
        assert(requests@ =~= placed_tiles(ts).subrange(0, k as int));
        assert(entries@ =~= placed_map(ts).subrange(0, k as int));
    }
    assert(requests@ =~= placed_tiles(ts));
    assert(entries@ =~= placed_map(ts));
    (requests, entries)
}

/// Puts the entries of a placement on the board, in order.
fn place_entries(board: &mut Board, tiles: &Vec<PlacedTile>, entries: &Vec<(usize, usize, Tile)>)
    requires
        entries@ == placed_map(tiles@),
    ensures
        *final(board) == board_with(*old(board), tiles@),
{
    let ghost ts = tiles@;
    let ghost b = *board;
    let mut k: usize = 0;
    assert(ts.subrange(0, 0) =~= Seq::<PlacedTile>::empty());
    while k < entries.len()
        invariant
            k <= ts.len(),
            ts == tiles@,
            entries@ == placed_map(ts),
            *board == board_with(b, ts.subrange(0, k as int)),
        decreases ts.len() - k,
    {
        let (row, col, tile) = entries[k];
        board.set(row, col, tile);
        assert(ts.subrange(0, k + 1).drop_last() =~= ts.subrange(0, k as int));
        k = k + 1;
    }
    assert(ts.subrange(0, ts.len() as int) =~= ts);
}

/// Points of an accepted placement: its words on the board before the tiles are put
/// down, and the bingo bonus.
fn placement_score(
    board: &Board,
    tiles: &Vec<PlacedTile>,
    entries: &Vec<(usize, usize, Tile)>,
    validated: &crate::placement::ValidatedPlacement,
) -> (total: i32)
    requires
        entries@ == placed_map(tiles@),
        tiles@.len() >= 1,
        tiles@.len() <= 7,
        forall|i: int| 0 <= i < tiles@.len() ==> !bad_tile(*board, #[trigger] tiles@[i]),
        direction_of(tiles@) == Some(validated.direction),
        crate::placement::words_match(
            *board,
            tiles@,
            words_spec(*board, tiles@, validated.direction),
            validated.words_formed@,
            validated.word_strings@,
        ),
    ensures
        total == place_score(*board, tiles@),
        0 <= total <= max_move_score(),
{
    let ghost ts = tiles@;
    let ghost d = validated.direction;
    let ghost ws = words_spec(*board, ts, d);
    proof {
        assert forall|i: int| 0 <= i < ts.len() implies !crate::placement::off_board(#[trigger] ts[i]) by {
            assert(!bad_tile(*board, ts[i]));
        }
        crate::placement::lemma_words_fit(*board, ts, d, ts, placed_map(ts));
    }
    let mut total_score: i32 = 0;
    let mut k: usize = 0;
    assert(ws.subrange(0, 0) =~= Seq::<Seq<(usize, usize)>>::empty());
    while k < validated.words_formed.len()
        invariant
            k <= ws.len(),
            ws.len() <= 8,
            ws == words_spec(*board, ts, d),
            validated.words_formed@.len() == ws.len(),
            forall|j: int| 0 <= j < ws.len() ==> (#[trigger] validated.words_formed@[j])@ == ws[j],
            forall|j: int|
                0 <= j < ws.len() ==> crate::scoring::score_word_fits(#[trigger] ws[j], *board, ts, placed_map(ts))
                    && 0 <= word_score(ws[j], *board, ts, placed_map(ts)) <= crate::scoring::max_word_score(),
            ts == tiles@,
            entries@ == placed_map(ts),
            total_score == words_total(ws.subrange(0, k as int), *board, ts),
            0 <= total_score <= k * crate::scoring::max_word_score(),
        decreases ws.len() - k,
    {
        let w = &validated.words_formed[k];
        assert(w@ == ws[k as int]);
        let sc = crate::scoring::score_word(w.as_slice(), board, tiles.as_slice(), entries.as_slice());
        assert(ws.subrange(0, k + 1).drop_last() =~= ws.subrange(0, k as int));
        assert(ws.subrange(0, k + 1).last() == ws[k as int]);
        total_score = total_score + sc;
        k = k + 1;
    }
    assert(ws.subrange(0, ws.len() as int) =~= ws);
    total_score + crate::scoring::bingo_bonus(tiles.len())
}

/// Number of tiles in the bag, on the racks and on the board.
pub open spec fn tile_count(v: GameView) -> int {
    v.bag.len() + racks_len(v.racks) + v.board.num_tiles()
}

/// Number of tiles on the racks.
pub open spec fn racks_len(racks: Seq<Seq<Tile>>) -> int
    decreases racks.len(),
{
    if racks.len() == 0 {
        0
    } else {
        racks_len(racks.drop_last()) + racks.last().len()
    }
}

/// Changing one rack changes the number of rack tiles by the change of its length.
pub proof fn lemma_racks_len_update(racks: Seq<Seq<Tile>>, p: int, r: Seq<Tile>)
    requires
        0 <= p < racks.len(),
    ensures
        racks_len(racks.update(p, r)) == racks_len(racks) - racks[p].len() + r.len(),
    decreases racks.len(),
{
    let u = racks.update(p, r);
    if p == racks.len() - 1 {
        assert(u.drop_last() =~= racks.drop_last());
    } else {
        assert(u.drop_last() =~= racks.drop_last().update(p, r));
        lemma_racks_len_update(racks.drop_last(), p, r);
    }
}

/// Passing moves no tile.
pub proof fn lemma_pass_keeps_count(v: GameView, p: int)
    ensures
        tile_count(after_pass(v, p)) == tile_count(v),
{
}

/// An exchange moves tiles between a rack and the bag, and loses none.
pub proof fn lemma_exchange_keeps_count(v: GameView, p: int, qs: Seq<Tile>, bag: Seq<Tile>)
    requires
        0 <= p < v.racks.len(),
        remove_run(v.racks[p], qs).2 is None,
        bag.len() == exchange_bag(v, p, qs).len(),
    ensures
        tile_count(after_exchange(v, p, qs, bag)) == tile_count(v),
{
    crate::rack::lemma_remove_run(v.racks[p], qs);
    let (rest, removed, _) = remove_run(v.racks[p], qs);
    let cut = v.bag.len() - draw_count(removed.len() as int, v.bag.len() as int);
    let drawn = v.bag.subrange(cut, v.bag.len() as int);
    lemma_racks_len_update(v.racks, p, rest + drawn);
}

/// A placement moves tiles from a rack to the board and from the bag to the rack,
/// and loses none.
pub proof fn lemma_place_keeps_count(v: GameView, p: int, ts: Seq<PlacedTile>)
    requires
        0 <= p < v.racks.len(),
        remove_run(v.racks[p], placed_tiles(ts)).2 is None,
        forall|i: int| 0 <= i < ts.len() ==> !bad_tile(v.board, #[trigger] ts[i]),
        !has_dup(ts),
    ensures
        tile_count(after_place(v, p, ts)) == tile_count(v),
{
    crate::rack::lemma_remove_run(v.racks[p], placed_tiles(ts));
    lemma_board_with(v.board, ts);
    let (rest, _, _) = remove_run(v.racks[p], placed_tiles(ts));
    let needed = if rest.len() < 7 { 7 - rest.len() } else { 0 };
    let cut = v.bag.len() - draw_count(needed, v.bag.len() as int);
    let drawn = v.bag.subrange(cut, v.bag.len() as int);
    lemma_racks_len_update(v.racks, p, rest + drawn);
}

/// What an action by player `p` does, from game `o` to game `n` with result `r`.
pub open spec fn action_outcome<V: WordValidator>(
    o: WordGame,
    n: WordGame,
    p: int,
    action: WordAction,
    validator: Option<&V>,
    r: Result<TurnResult, WordGameError>,
) -> bool {
    let v = o.spec_state()@;
    if v.finished {
        r == Err::<TurnResult, WordGameError>(WordGameError::GameAlreadyFinished) && n == o
    } else if p != v.current {
        r == Err::<TurnResult, WordGameError>(WordGameError::NotYourTurn) && n == o
    } else {
        match action {
            WordAction::Place(ts) => place_outcome(o, n, p, ts@, validator, r),
            WordAction::Exchange(qs) => exchange_outcome(o, n, p, qs@, r),
            WordAction::Pass => {
                &&& r matches Ok(tr) && tr.score_delta == 0 && tr.turn_summary@ == "passed"@
                &&& n.spec_state()@ == after_pass(v, p)
                &&& n.spec_config() == o.spec_config()
                &&& n.spec_rng() == o.spec_rng()
            },
        }
    }
}

/// A game as it starts: an empty board, `n` racks of seven tiles, the rest of the
/// standard tiles in the bag, no points, the first player to move.
pub open spec fn is_initial(v: GameView, n: int) -> bool {
    &&& v.board.spec_is_empty()
    &&& v.racks.len() == n
    &&& v.scores.len() == n
    &&& forall|i: int| 0 <= i < n ==> (#[trigger] v.racks[i]).len() == 7
    &&& forall|i: int| 0 <= i < n ==> #[trigger] v.scores[i] == 0
    &&& v.bag.len() == 100 - 7 * n
    &&& v.bag.to_multiset().add(racks_multiset(v.racks)) == crate::tile::standard_tiles().to_multiset()
    &&& v.current == 0
    &&& v.zero == 0
    &&& !v.finished
    &&& v.history.len() == 0
}

/// All tiles on the racks, as a multiset.
pub open spec fn racks_multiset(racks: Seq<Seq<Tile>>) -> vstd::multiset::Multiset<Tile>
    decreases racks.len(),
{
    if racks.len() == 0 {
        vstd::multiset::Multiset::empty()
    } else {
        racks_multiset(racks.drop_last()).add(racks.last().to_multiset())
    }
}

/// A copy of a turn record.
fn copy_record(r: &TurnRecord) -> (c: TurnRecord)
    ensures
        c.record_view() == r.record_view(),
{
    let mut words: Vec<String> = Vec::new();
    let mut i: usize = 0;
    while i < r.words_formed.len()
        invariant
            i <= r.words_formed@.len(),
            words@.len() == i,
            forall|k: int| 0 <= k < i ==> (#[trigger] words@[k])@ == r.words_formed@[k]@,
        decreases r.words_formed@.len() - i,
    {
        words.push(r.words_formed[i].clone());
        i = i + 1;
    }
    let c = TurnRecord {
        player_idx: r.player_idx,
        action_type: r.action_type.clone(),
        score_delta: r.score_delta,
        words_formed: words,
    };
    assert(c.words_formed@.map_values(|w: String| w@) =~= r.words_formed@.map_values(|w: String| w@));
    c
}

/// The largest of the scores; 0 when there are none.
pub open spec fn max_score(s: Seq<int>) -> int
    decreases s.len(),
{
    if s.len() == 0 {
        0
    } else if s.len() == 1 {
        s[0]
    } else {
        let m = max_score(s.drop_last());
        if s.last() > m { s.last() } else { m }
    }
}

/// The players whose score is the largest.
pub open spec fn top_players(s: Seq<int>) -> Set<int> {
    Set::new(|i: int| 0 <= i < s.len() && s[i] == max_score(s))
}

/// The winner: the only player with the largest score; none on a draw.
pub open spec fn winner_of(s: Seq<int>) -> Option<int> {
    if top_players(s).len() == 1 {
        Some(top_players(s).choose())
    } else {
        None
    }
}

/// The winner as an index.
pub open spec fn winner_index_of(s: Seq<int>) -> Option<usize> {
    match winner_of(s) {
        Some(i) => Some(i as usize),
        None => None,
    }
}

proof fn lemma_max_score(s: Seq<int>)
    requires
        s.len() >= 1,
    ensures
        forall|i: int| 0 <= i < s.len() ==> #[trigger] s[i] <= max_score(s),
        exists|i: int| 0 <= i < s.len() && #[trigger] s[i] == max_score(s),
    decreases s.len(),
{
    if s.len() > 1 {
        let t = s.drop_last();
        lemma_max_score(t);
        assert forall|i: int| 0 <= i < s.len() implies #[trigger] s[i] <= max_score(s) by {
            if i < s.len() - 1 {
                assert(s[i] == t[i]);
            }
        }
        if s.last() > max_score(t) {
            assert(s[s.len() - 1] == max_score(s));
        } else {
            let k = choose|k: int| 0 <= k < t.len() && #[trigger] t[k] == max_score(t);
            assert(s[k] == t[k]);
        }
    } else {
        assert(s[0] == max_score(s));
    }
}

/// The index of the only player with the largest score, if there is exactly one.
fn winner_index(scores: &Vec<i32>) -> (w: Option<usize>)
    ensures
        w == winner_index_of(scores@.map_values(|x: i32| x as int)),
{
    let ghost s = scores@.map_values(|x: i32| x as int);
    if scores.len() == 0 {
        proof {
            assert(top_players(s) =~= Set::<int>::empty());
        }
        return None;
    }
    let mut max: i32 = scores[0];
    let mut i: usize = 1;
    assert(s.subrange(0, 1).len() == 1);
    while i < scores.len()
        invariant
            1 <= i <= scores@.len(),
            s == scores@.map_values(|x: i32| x as int),
            max as int == max_score(s.subrange(0, i as int)),
        decreases scores@.len() - i,
    {
        assert(s.subrange(0, i + 1).drop_last() =~= s.subrange(0, i as int));
        if scores[i] > max {
            max = scores[i];
        }
        i = i + 1;
    }
    assert(s.subrange(0, s.len() as int) =~= s);
    let mut count: usize = 0;
    let mut first: usize = 0;
    let mut j: usize = 0;
    assert(Set::new(|k: int| 0 <= k < 0 && s[k] == max_score(s)) =~= Set::<int>::empty());
    while j < scores.len()
        invariant
            j <= scores@.len(),
            s == scores@.map_values(|x: i32| x as int),
            max as int == max_score(s),
            count as int == Set::new(|k: int| 0 <= k < j && s[k] == max_score(s)).len(),
            Set::new(|k: int| 0 <= k < j && s[k] == max_score(s)).finite(),
            count > 0 ==> first < j && s[first as int] == max_score(s),
            count == 1 ==> Set::new(|k: int| 0 <= k < j && s[k] == max_score(s)) == set![first as int],
            count <= j,
        decreases scores@.len() - j,
    {
        let ghost before = Set::new(|k: int| 0 <= k < j && s[k] == max_score(s));
        let ghost after = Set::new(|k: int| 0 <= k < j + 1 && s[k] == max_score(s));
        if scores[j] == max {
            assert(after =~= before.insert(j as int));
            assert(!before.contains(j as int));
            if count == 0 {
                first = j;
                assert(before =~= Set::<int>::empty());
            }
            count = count + 1;
            if count == 2 {
                assert(after =~= set![first as int].insert(j as int));
            }
        } else {
            assert(after =~= before);
        }
        j = j + 1;
    }
    assert(Set::new(|k: int| 0 <= k < scores@.len() && s[k] == max_score(s)) =~= top_players(s));
    if count == 1 {
        assert(top_players(s) == set![first as int]);
        assert(top_players(s).choose() == first as int) by {
            let c = top_players(s).choose();
            assert(top_players(s).contains(c));
        }
        Some(first)
    } else {
        None
    }
}

impl TurnBasedGame for WordGame {
    type State = WordGameState;
    type PlayerState = WordPlayerState;
    type Action = WordAction;
    type PublicView = WordPublicView;
    type Config = WordGameConfig;
    type Error = WordGameError;

    open spec fn valid(&self) -> bool {
        self.wf()
    }

    open spec fn over(&self) -> bool {
        self.spec_state().finished
    }

    open spec fn count_range() -> (usize, usize) {
        (2usize, 4usize)
    }

    open spec fn action_result(
        before: Self,
        after: Self,
        player: int,
        action: WordAction,
        r: Result<TurnResult, WordGameError>,
    ) -> bool {
        action_outcome(before, after, player, action, None::<&AcceptAllValidator>, r)
    }

    fn new_game(config: &WordGameConfig, num_players: usize, rng_seed: u64) -> (g: Self) {
        WordGame::new_game(config, num_players, rng_seed)
    }

    fn state(&self) -> (s: &WordGameState)
        ensures
            *s == self.spec_state(),
    {
        WordGame::state(self)
    }

    fn player_state(&self, player_idx: usize) -> (p: Option<&WordPlayerState>)
        ensures
            match p {
                Some(ps) => player_idx < self.spec_state().players@.len() && *ps
                    == self.spec_state().players@[player_idx as int],
                None => player_idx >= self.spec_state().players@.len(),
            },
    {
        WordGame::player_state(self, player_idx)
    }

    fn public_view(&self) -> (pv: WordPublicView)
        ensures
            pv.board == self.spec_state().board,
            pv.scores@.len() == self.spec_state().players@.len(),
            forall|i: int| 0 <= i < pv.scores@.len() ==> #[trigger] pv.scores@[i] == self.spec_state().players@[i].score,
            pv.current_player_idx == self.spec_state().current_player_idx,
            pv.tiles_remaining == self.spec_state().bag@.len(),
            pv.finished == self.spec_state().finished,
            pv.turn_history@.map_values(|r: TurnRecord| r.record_view()) == self.spec_state()@.history,
    {
        WordGame::public_view(self)
    }

    fn current_player(&self) -> (r: Option<usize>) {
        WordGame::current_player(self)
    }

    fn apply_action(&mut self, player_idx: usize, action: WordAction) -> (r: Result<TurnResult, WordGameError>)
        ensures
            r is Ok ==> tile_count(final(self).spec_state()@) == tile_count(old(self).spec_state()@),
    {
        WordGame::apply_action(self, player_idx, action)
    }

    fn is_finished(&self) -> (r: bool) {
        WordGame::is_finished(self)
    }

    fn results(&self) -> (r: Option<GameResults>) {
        WordGame::results(self)
    }

    fn num_players(&self) -> (r: usize)
        ensures
            r == self.spec_state().players@.len(),
    {
        WordGame::num_players(self)
    }

    fn player_count_range() -> (r: (usize, usize)) {
        WordGame::player_count_range()
    }
}

} // verus!
