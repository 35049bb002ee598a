//! The flow of a game session on one screen: what the panels say, what pressing a button
//! does to the game and to the tiles being placed, and when the computer player moves.
use vstd::prelude::*;
use crate::board::Board;
use crate::error::error_text;
use crate::game::{
    action_outcome, place_score, placed_map, word_texts, words_total, AcceptAllValidator, WordAction,
    WordGame, WordGameConfig,
};
use crate::match_state::GameResults;
use crate::pending::{as_placed, PendingPlacement, PendingTile};
use crate::placement::{
    bad_tile, direction_of, placement_failure, validate_placement, words_spec, PlacedTile,
};
use crate::scoring::{bingo_bonus, max_word_score, score_word, score_word_fits, word_score};
use crate::text::{chars_of, int_decimal, nat_digits, push_digits, string_from_chars};
use crate::tile::Tile;

verus! {

/// Appends the characters of `s` to `out`.
fn push_text(out: &mut Vec<char>, s: &str)
    ensures
        final(out)@ == old(out)@ + s@,
{
    let more = chars_of(s);
    let ghost start = out@;
    let mut i: usize = 0;
    while i < more.len()
        invariant
            i <= more@.len(),
            out@ == start + more@.take(i as int),
        decreases more@.len() - i,
    {
        out.push(more[i]);
        i = i + 1;
        assert(out@ =~= start + more@.take(i as int));
    }
    assert(more@.take(more@.len() as int) =~= more@);
}

/// Appends the decimal rendering of `n` to `out`.
fn push_int(out: &mut Vec<char>, n: i32)
    ensures
        final(out)@ == old(out)@ + int_decimal(n as int),
{
    if n < 0 {
        out.push('-');
        let m: i64 = -(n as i64);
        push_digits(m as u64, out);
    } else {
        push_digits(n as u64, out);
    }
    assert(final(out)@ =~= old(out)@ + int_decimal(n as int));
}

/// One player's entry on the score line: `P<number>: <score>`, numbered from one.
pub open spec fn score_entry(i: int, score: int) -> Seq<char> {
    "P"@ + nat_digits((i + 1) as nat) + ": "@ + int_decimal(score)
}

/// The entries of the first `n` players, two spaces apart.
pub open spec fn score_entries(scores: Seq<i32>, n: int) -> Seq<char>
    decreases n,
{
    if n <= 0 {
        Seq::empty()
    } else if n == 1 {
        score_entry(0, scores[0] as int)
    } else {
        score_entries(scores, n - 1) + "  "@ + score_entry(n - 1, scores[n - 1] as int)
    }
}

/// The score line: `Scores: ` and then every player's entry.
pub open spec fn scores_line(scores: Seq<i32>) -> Seq<char> {
    "Scores: "@ + score_entries(scores, scores.len() as int)
}

/// The text of the score line.
pub fn scores_text(scores: &[i32]) -> (s: String)
    ensures
        s@ == scores_line(scores@),
{
    let mut out: Vec<char> = Vec::new();
    push_text(&mut out, "Scores: ");
    let n = scores.len();
    let mut i: usize = 0;
    while i < n
        invariant
            i <= n == scores@.len(),
            out@ == "Scores: "@ + score_entries(scores@, i as int),
        decreases n - i,
    {
        let ghost before = out@;
        if i > 0 {
            push_text(&mut out, "  ");
        }
        push_text(&mut out, "P");
        push_digits((i as u64) + 1, &mut out);
        push_text(&mut out, ": ");
        push_int(&mut out, scores[i]);
        proof {
            let e = score_entry(i as int, scores@[i as int] as int);
            if i == 0 {
                assert(out@ =~= before + e);
                assert(score_entries(scores@, 0) =~= Seq::<char>::empty());
            } else {
                assert(out@ =~= before + "  "@ + e);
            }
            assert(score_entries(scores@, i + 1) == (if i == 0 { e } else { score_entries(scores@, i as int) + "  "@ + e }));
            assert(out@ =~= "Scores: "@ + score_entries(scores@, i + 1));
        }
        i = i + 1;
    }
    string_from_chars(&out)
}

/// Whose turn it is: `Player <number>'s Turn`, numbered from one.
pub open spec fn turn_line(current: int) -> Seq<char> {
    "Player "@ + nat_digits((current + 1) as nat) + "'s Turn"@
}

/// The text that says whose turn it is.
pub fn turn_text(current: usize) -> (s: String)
    requires
        current < usize::MAX,
    ensures
        s@ == turn_line(current as int),
{
    let mut out: Vec<char> = Vec::new();
    push_text(&mut out, "Player ");
    push_digits((current as u64) + 1, &mut out);
    push_text(&mut out, "'s Turn");
    assert(out@ =~= turn_line(current as int));
    string_from_chars(&out)
}

/// How many tiles are left in the bag: `Bag: <count> tiles`.
pub open spec fn bag_line(remaining: int) -> Seq<char> {
    "Bag: "@ + nat_digits(remaining as nat) + " tiles"@
}

/// The text that says how many tiles are left in the bag.
pub fn bag_text(remaining: usize) -> (s: String)
    ensures
        s@ == bag_line(remaining as int),
{
    let mut out: Vec<char> = Vec::new();
    push_text(&mut out, "Bag: ");
    push_digits(remaining as u64, &mut out);
    push_text(&mut out, " tiles");
    assert(out@ =~= bag_line(remaining as int));
    string_from_chars(&out)
}

/// One player's line on the final screen: `Player <number>: <score>`.
pub open spec fn final_entry(i: int, score: int) -> Seq<char> {
    "Player "@ + nat_digits((i + 1) as nat) + ": "@ + int_decimal(score)
}

/// The lines of the first `n` players, one per line.
pub open spec fn final_entries(scores: Seq<i32>, n: int) -> Seq<char>
    decreases n,
{
    if n <= 0 {
        Seq::empty()
    } else if n == 1 {
        final_entry(0, scores[0] as int)
    } else {
        final_entries(scores, n - 1) + "\n"@ + final_entry(n - 1, scores[n - 1] as int)
    }
}

/// The final screen: who won, or that it is a draw, then a blank line and every player's
/// score; `Game Over` alone when there are no results.
pub open spec fn final_screen(results: Option<GameResults>) -> Seq<char> {
    match results {
        None => "Game Over"@,
        Some(r) => {
            let head = match r.winner {
                Some(w) => "Player "@ + nat_digits((w + 1) as nat) + " wins!"@,
                None => "It's a draw!"@,
            };
            head + "\n\n"@ + final_entries(r.player_scores@, r.player_scores@.len() as int)
        },
    }
}

/// The text of the final screen.
pub fn game_over_text(results: Option<&GameResults>) -> (s: String)
    requires
        results matches Some(r) ==> (r.winner matches Some(w) ==> w < usize::MAX),
    ensures
        s@ == final_screen(
            match results {
                Some(r) => Some(*r),
                None => None,
            },
        ),
{
    match results {
        None => {
            let s = crate::text::owned("Game Over");
            s
        },
        Some(r) => {
            let mut out: Vec<char> = Vec::new();
            match r.winner {
                Some(w) => {
                    push_text(&mut out, "Player ");
                    push_digits((w as u64) + 1, &mut out);
                    push_text(&mut out, " wins!");
                },
                None => {
                    push_text(&mut out, "It's a draw!");
                },
            }
            push_text(&mut out, "\n\n");
            let ghost head = out@;
            let scores = &r.player_scores;
            let n = scores.len();
            let mut i: usize = 0;
            assert(head =~= head + final_entries(scores@, 0));
            while i < n
                invariant
                    i <= n == scores@.len(),
                    out@ == head + final_entries(scores@, i as int),
                decreases n - i,
            {
                let ghost before = out@;
                if i > 0 {
                    push_text(&mut out, "\n");
                }
                push_text(&mut out, "Player ");
                push_digits((i as u64) + 1, &mut out);
                push_text(&mut out, ": ");
                push_int(&mut out, scores[i]);
                proof {
                    let e = final_entry(i as int, scores@[i as int] as int);
                    if i == 0 {
                        assert(out@ =~= before + e);
                        assert(final_entries(scores@, 0) =~= Seq::<char>::empty());
                    } else {
                        assert(out@ =~= before + "\n"@ + e);
                    }
                    assert(final_entries(scores@, i + 1) == (if i == 0 { e } else { final_entries(scores@, i as int) + "\n"@ + e }));
                    assert(out@ =~= head + final_entries(scores@, i + 1));
                }
                i = i + 1;
            }
            string_from_chars(&out)
        },
    }
}

/// What the panel shows for the tiles being placed: each word formed with its score, and the
/// total with the bonus for placing seven tiles.
pub struct ScorePreview {
    pub words: Vec<(String, i32)>,
    pub total_score: i32,
    pub valid: bool,
}

impl Default for ScorePreview {
    fn default() -> (p: Self)
        ensures
            p.words@.len() == 0,
            p.total_score == 0,
            !p.valid,
    {
        ScorePreview { words: Vec::new(), total_score: 0, valid: false }
    }
}

/// The pending tiles as placed tiles.
pub open spec fn pending_tiles(p: PendingPlacement) -> Seq<PlacedTile> {
    p.tiles@.map_values(|t: crate::pending::PendingTile| as_placed(t))
}

/// Whether a preview is shown: some tiles are pending and they make a legal placement on
/// the board, the first move when the board is empty.
pub open spec fn previewable(b: Board, ts: Seq<PlacedTile>) -> bool {
    ts.len() > 0 && placement_failure(b, ts, b.spec_is_empty()) is None
}

/// The scores of the words `ts` forms on `b`, in the order the placement lists them.
pub open spec fn preview_scores(b: Board, ts: Seq<PlacedTile>) -> Seq<int> {
    let ws = words_spec(b, ts, direction_of(ts)->0);
    ws.map_values(|w: Seq<(usize, usize)>| word_score(w, b, ts, placed_map(ts)))
}

/// Each word formed with its score, and the total with the bonus for seven tiles.
fn preview_words(
    board: &Board,
    tiles: &Vec<PlacedTile>,
    validated: &crate::placement::ValidatedPlacement,
) -> (r: (Vec<(String, i32)>, i32))
    requires
        1 <= tiles@.len(),
        309825 * (tiles@.len() + 1) + 50 <= i32::MAX,
        forall|i: int| 0 <= i < tiles@.len() ==> !bad_tile(*board, #[trigger] tiles@[i]),
        direction_of(tiles@) == Some(validated.direction),
        crate::placement::words_match(
            *board,
            tiles@,
            words_spec(*board, tiles@, validated.direction),
            validated.words_formed@,
            validated.word_strings@,
        ),
    ensures
        r.1 == place_score(*board, tiles@),
        r.0@.len() == word_texts(*board, tiles@).len(),
        forall|j: int|
            0 <= j < r.0@.len() ==> (#[trigger] r.0@[j]).0@ == word_texts(*board, tiles@)[j] && r.0@[j].1
                == preview_scores(*board, tiles@)[j],
{
    let ghost ts = tiles@;
    let ghost d = validated.direction;
    let ghost ws = words_spec(*board, ts, d);
    let mut entries: Vec<(usize, usize, Tile)> = Vec::new();
    let mut e: usize = 0;
    while e < tiles.len()
        invariant
            e <= tiles@.len(),
            entries@ == placed_map(tiles@).take(e as int),
        decreases tiles@.len() - e,
    {
        let t = tiles[e];
        entries.push((t.row, t.col, t.tile));
        e = e + 1;
        assert(entries@ =~= placed_map(tiles@).take(e as int));
    }
    assert(placed_map(tiles@).take(e as int) =~= placed_map(tiles@));
    proof {
        assert forall|i: int| 0 <= i < ts.len() implies !crate::placement::off_board(#[trigger] ts[i]) by {
            assert(!bad_tile(*board, ts[i]));
        }
        crate::placement::lemma_words_fit(*board, ts, d, ts, placed_map(ts));
    }
    let mut words: Vec<(String, i32)> = Vec::new();
    let mut total: i32 = 0;
    let mut k: usize = 0;
    assert(ws.subrange(0, 0) =~= Seq::<Seq<(usize, usize)>>::empty());
    while k < validated.words_formed.len()
        invariant
            k <= ws.len(),
            ws.len() <= ts.len() + 1,
            309825 * (ts.len() + 1) + 50 <= i32::MAX,
            ws == words_spec(*board, ts, d),
            d == direction_of(ts)->0,
            validated.words_formed@.len() == ws.len(),
            validated.word_strings@.len() == ws.len(),
            forall|j: int| 0 <= j < ws.len() ==> (#[trigger] validated.words_formed@[j])@ == ws[j],
            forall|j: int|
                0 <= j < ws.len() ==> (#[trigger] validated.word_strings@[j])@ == crate::placement::letters(
                    *board,
                    ts,
                    ws[j],
                ),
            forall|j: int|
                0 <= j < ws.len() ==> score_word_fits(#[trigger] ws[j], *board, ts, placed_map(ts))
                    && 0 <= word_score(ws[j], *board, ts, placed_map(ts)) <= max_word_score(),
            ts == tiles@,
            entries@ == placed_map(ts),
            total == words_total(ws.subrange(0, k as int), *board, ts),
            0 <= total <= k * max_word_score(),
            words@.len() == k,
            forall|j: int|
                0 <= j < k ==> (#[trigger] words@[j]).0@ == word_texts(*board, ts)[j] && words@[j].1
                    == preview_scores(*board, ts)[j],
        decreases ws.len() - k,
    {
        let w = &validated.words_formed[k];
        assert(w@ == ws[k as int]);
        let sc = score_word(w.as_slice(), board, tiles.as_slice(), entries.as_slice());
        assert(ws.subrange(0, k + 1).drop_last() =~= ws.subrange(0, k as int));
        assert(ws.subrange(0, k + 1).last() == ws[k as int]);
        let text = validated.word_strings[k].clone();
        words.push((text, sc));
        total = total + sc;
        k = k + 1;
    }
    assert(ws.subrange(0, ws.len() as int) =~= ws);
    (words, total + bingo_bonus(tiles.len()))
}

/// The preview of the pending tiles on the board: shown, with every word formed and its
/// score and the total, when the tiles make a legal placement; otherwise empty and hidden.
/// The scores are `i32`: a word scores at most 309825, and the tiles form at most one word
/// each besides the main word, so the count of tiles is bounded by what that sum allows.
pub fn score_preview(board: &Board, pending: &PendingPlacement) -> (p: ScorePreview)
    requires
        309825 * (pending.tiles@.len() + 1) + 50 <= i32::MAX,
    ensures
        !previewable(*board, pending_tiles(*pending)) ==> p.words@.len() == 0 && p.total_score == 0
            && !p.valid,
        previewable(*board, pending_tiles(*pending)) ==> {
            &&& p.valid
            &&& p.total_score == place_score(*board, pending_tiles(*pending))
            &&& p.words@.len() == word_texts(*board, pending_tiles(*pending)).len()
            &&& forall|j: int|
                0 <= j < p.words@.len() ==> (#[trigger] p.words@[j]).0@ == word_texts(
                    *board,
                    pending_tiles(*pending),
                )[j] && p.words@[j].1 == preview_scores(*board, pending_tiles(*pending))[j]
        },
{
    if pending.tiles.len() == 0 {
        return ScorePreview::default();
    }
    let placed = pending.to_placed_tiles();
    let is_first_move = board.is_empty();
    match validate_placement(board, placed.as_slice(), is_first_move) {
        Ok(validated) => {
            let (words, total) = preview_words(board, &placed, &validated);
            ScorePreview { words, total_score: total, valid: true }
        },
        Err(_) => ScorePreview::default(),
    }
}

/// A word of the preview with its score: `<word>  +<score>`.
pub open spec fn preview_line(w: Seq<char>, score: int) -> Seq<char> {
    w + "  +"@ + int_decimal(score)
}

/// The lines of the first `n` words of the preview, one per line.
pub open spec fn preview_lines(ws: Seq<(String, i32)>, n: int) -> Seq<char>
    decreases n,
{
    if n <= 0 {
        Seq::empty()
    } else if n == 1 {
        preview_line(ws[0].0@, ws[0].1 as int)
    } else {
        preview_lines(ws, n - 1) + "\n"@ + preview_line(ws[n - 1].0@, ws[n - 1].1 as int)
    }
}

/// What the preview panel shows: nothing when the preview is hidden; else a line per word,
/// and below a rule and the total when more than one word is formed.
pub open spec fn preview_panel(p: ScorePreview) -> Option<Seq<char>> {
    if !p.valid {
        None
    } else {
        let body = preview_lines(p.words@, p.words@.len() as int);
        if p.words@.len() > 1 {
            Some(body + "\n"@ + "\u{2500}\u{2500}\u{2500}\u{2500}\u{2500}\u{2500}\nTotal  +"@ + int_decimal(
                p.total_score as int,
            ))
        } else {
            Some(body)
        }
    }
}

/// The text of the preview panel, or `None` when the panel is hidden.
pub fn preview_text(preview: &ScorePreview) -> (r: Option<String>)
    ensures
        r matches Some(s) ==> preview_panel(*preview) == Some(s@),
        r is None ==> preview_panel(*preview) is None,
{
    if !preview.valid {
        return None;
    }
    let mut out: Vec<char> = Vec::new();
    let n = preview.words.len();
    let mut i: usize = 0;
    assert(out@ =~= preview_lines(preview.words@, 0));
    while i < n
        invariant
            i <= n == preview.words@.len(),
            out@ == preview_lines(preview.words@, i as int),
        decreases n - i,
    {
        let ghost before = out@;
        if i > 0 {
            push_text(&mut out, "\n");
        }
        let (w, sc) = (&preview.words[i].0, preview.words[i].1);
        push_text(&mut out, w.as_str());
        push_text(&mut out, "  +");
        push_int(&mut out, sc);
        proof {
            let e = preview_line(preview.words@[i as int].0@, preview.words@[i as int].1 as int);
            if i == 0 {
                assert(out@ =~= before + e);
            } else {
                assert(out@ =~= before + "\n"@ + e);
            }
            assert(preview_lines(preview.words@, i + 1) == (if i == 0 { e } else { preview_lines(preview.words@, i as int) + "\n"@ + e }));
            assert(out@ =~= preview_lines(preview.words@, i + 1));
        }
        i = i + 1;
    }
    if n > 1 {
        let ghost body = out@;
        push_text(&mut out, "\n");
        push_text(&mut out, "\u{2500}\u{2500}\u{2500}\u{2500}\u{2500}\u{2500}\nTotal  +");
        push_int(&mut out, preview.total_score);
        assert(out@ =~= body + "\n"@ + "\u{2500}\u{2500}\u{2500}\u{2500}\u{2500}\u{2500}\nTotal  +"@ + int_decimal(
            preview.total_score as int,
        ));
    }
    Some(string_from_chars(&out))
}

/// What pressing a button of the turn did, for the screen to show.
pub struct TurnOutcome {
    /// The new status line.
    pub status: String,
    /// The pending tiles are gone and the selected rack tile is cleared.
    pub cleared: bool,
    /// The player the turn is handed over to, when a hand-over starts.
    pub hand_over: Option<usize>,
    /// The game has ended and the final screen follows.
    pub game_over: bool,
}

/// The status line for a refused move: `Invalid: ` and the error.
pub open spec fn invalid_line(e: crate::error::WordGameError) -> Seq<char> {
    "Invalid: "@ + error_text(e)
}

/// The status line for a refused pass: `Error: ` and the error.
pub open spec fn error_line(e: crate::error::WordGameError) -> Seq<char> {
    "Error: "@ + error_text(e)
}

/// The player to hand the turn to after a move: the one now to play, unless the game ended.
pub open spec fn next_hand_over(g: WordGame) -> Option<usize> {
    if g.spec_state().finished {
        None
    } else {
        Some(g.spec_state().current_player_idx)
    }
}

/// A string of the characters of `a` and then those of `b`.
fn joined(a: &str, b: &str) -> (s: String)
    ensures
        s@ == a@ + b@,
{
    let mut out: Vec<char> = Vec::new();
    push_text(&mut out, a);
    push_text(&mut out, b);
    assert(out@ =~= a@ + b@);
    string_from_chars(&out)
}

/// Pressing Play: with no tiles pending, asks for some; else plays them for the player to
/// move. A played move clears the pending tiles and, unless it ended the game, hands the
/// turn over; a refused one keeps them and says why.
pub fn press_play(game: &mut WordGame, pending: &mut PendingPlacement) -> (o: TurnOutcome)
    requires
        old(game).wf(),
    ensures
        final(game).wf(),
        !o.game_over,
        old(pending).tiles@.len() == 0 ==> {
            &&& *final(game) == *old(game)
            &&& final(pending).tiles@ == old(pending).tiles@
            &&& o.status@ == "Place some tiles first!"@
            &&& !o.cleared
            &&& o.hand_over is None
        },
        old(pending).tiles@.len() > 0 ==> exists|v: Vec<PlacedTile>, r: Result<crate::match_state::TurnResult, crate::error::WordGameError>|
            {
                &&& v@ == pending_tiles(*old(pending))
                &&& action_outcome(
                    *old(game),
                    *final(game),
                    old(game).spec_state().current_player_idx as int,
                    WordAction::Place(v),
                    None::<&AcceptAllValidator>,
                    r,
                )
                &&& match r {
                    Ok(tr) => {
                        &&& o.status@ == tr.turn_summary@
                        &&& final(pending).tiles@.len() == 0
                        &&& o.cleared
                        &&& o.hand_over == next_hand_over(*final(game))
                    },
                    Err(e) => {
                        &&& o.status@ == invalid_line(e)
                        &&& final(pending).tiles@ == old(pending).tiles@
                        &&& !o.cleared
                        &&& o.hand_over is None
                    },
                }
            },
{
    if pending.tiles.len() == 0 {
        return TurnOutcome {
            status: crate::text::owned("Place some tiles first!"),
            cleared: false,
            hand_over: None,
            game_over: false,
        };
    }
    let placed = pending.to_placed_tiles();
    let ghost v = placed;
    let player = game.state().current_player_idx;
    let r = game.apply_action(player, WordAction::Place(placed));
    match r {
        Ok(result) => {
            pending.tiles.clear();
            let hand_over = if !game.is_finished() {
                Some(game.state().current_player_idx)
            } else {
                None
            };
            TurnOutcome { status: result.turn_summary, cleared: true, hand_over, game_over: false }
        },
        Err(e) => {
            let msg = e.message();
            let status = joined("Invalid: ", msg.as_str());
            TurnOutcome { status, cleared: false, hand_over: None, game_over: false }
        },
    }
}

/// Pressing Pass: passes for the player to move. A pass clears the pending tiles and then
/// either ends the game or hands the turn over; a refused one says why.
pub fn press_pass(game: &mut WordGame, pending: &mut PendingPlacement) -> (o: TurnOutcome)
    requires
        old(game).wf(),
    ensures
        final(game).wf(),
        exists|r: Result<crate::match_state::TurnResult, crate::error::WordGameError>|
            {
                &&& action_outcome(
                    *old(game),
                    *final(game),
                    old(game).spec_state().current_player_idx as int,
                    WordAction::Pass,
                    None::<&AcceptAllValidator>,
                    r,
                )
                &&& match r {
                    Ok(tr) => {
                        &&& o.status@ == tr.turn_summary@
                        &&& final(pending).tiles@.len() == 0
                        &&& o.cleared
                        &&& o.game_over == final(game).spec_state().finished
                        &&& o.hand_over == next_hand_over(*final(game))
                    },
                    Err(e) => {
                        &&& o.status@ == error_line(e)
                        &&& final(pending).tiles@ == old(pending).tiles@
                        &&& !o.cleared
                        &&& !o.game_over
                        &&& o.hand_over is None
                    },
                }
            },
{
    let player = game.state().current_player_idx;
    let r = game.apply_action(player, WordAction::Pass);
    match r {
        Ok(result) => {
            pending.tiles.clear();
            let finished = game.is_finished();
            let hand_over = if !finished {
                Some(game.state().current_player_idx)
            } else {
                None
            };
            TurnOutcome { status: result.turn_summary, cleared: true, hand_over, game_over: finished }
        },
        Err(e) => {
            let msg = e.message();
            let status = joined("Error: ", msg.as_str());
            TurnOutcome { status, cleared: false, hand_over: None, game_over: false }
        },
    }
}

/// The delay before the computer player moves.
#[derive(Clone, Copy, PartialEq, Eq, Structural)]
pub enum AiTimer {
    /// No delay has started.
    Absent,
    /// The delay has started and has not run out.
    Running,
    /// The delay has run out.
    Elapsed,
}

/// What the computer player's side does on one frame.
#[derive(Clone, Copy, PartialEq, Eq, Structural)]
pub enum AiStep {
    /// Nothing: it is not the computer's turn, or the game is over or being handed over.
    Idle,
    /// Start the delay and say that the computer is thinking.
    StartTimer,
    /// Keep waiting for the delay to run out.
    Wait,
    /// Drop the delay and move.
    Move,
}

/// The step on a frame: only on the computer's own turn, in a game still going and not
/// being handed over, does it start the delay, wait for it, or move once it ran out.
pub open spec fn ai_step_spec(
    hand_over_active: bool,
    finished: bool,
    current: usize,
    ai_player: usize,
    timer: AiTimer,
) -> AiStep {
    if hand_over_active || finished || current != ai_player {
        AiStep::Idle
    } else {
        match timer {
            AiTimer::Absent => AiStep::StartTimer,
            AiTimer::Running => AiStep::Wait,
            AiTimer::Elapsed => AiStep::Move,
        }
    }
}

/// What the computer player's side does on this frame.
pub fn ai_step(hand_over_active: bool, finished: bool, current: usize, ai_player: usize, timer: AiTimer) -> (s:
    AiStep)
    ensures
        s == ai_step_spec(hand_over_active, finished, current, ai_player, timer),
{
    if hand_over_active || finished || current != ai_player {
        return AiStep::Idle;
    }
    match timer {
        AiTimer::Absent => AiStep::StartTimer,
        AiTimer::Running => AiStep::Wait,
        AiTimer::Elapsed => AiStep::Move,
    }
}

/// The status line while the computer player waits.
pub fn thinking_text() -> (s: String)
    ensures
        s@ == "AI is thinking..."@,
{
    crate::text::owned("AI is thinking...")
}

/// The action the computer plays: the one it chose, or a pass when it chose none.
pub open spec fn chosen_or_pass(chosen: Option<WordAction>) -> WordAction {
    match chosen {
        Some(a) => a,
        None => WordAction::Pass,
    }
}

/// The computer player moves for `current`: it plays what it chose, or passes when it chose
/// nothing or its move is refused. Returns the status line and whether the game has ended.
pub fn ai_move(game: &mut WordGame, current: usize, chosen: Option<WordAction>) -> (r: (String, bool))
    requires
        old(game).wf(),
    ensures
        final(game).wf(),
        r.1 == final(game).spec_state().finished,
        exists|mid: WordGame, r1: Result<crate::match_state::TurnResult, crate::error::WordGameError>|
            {
                &&& action_outcome(*old(game), mid, current as int, chosen_or_pass(chosen), None::<&AcceptAllValidator>, r1)
                &&& match r1 {
                    Ok(tr) => *final(game) == mid && r.0@ == "AI "@ + tr.turn_summary@,
                    Err(_) => {
                        &&& exists|r2: Result<crate::match_state::TurnResult, crate::error::WordGameError>|
                            action_outcome(mid, *final(game), current as int, WordAction::Pass, None::<&AcceptAllValidator>, r2)
                        &&& r.0@ == "AI passed"@
                    },
                }
            },
{
    let action = match chosen {
        Some(a) => a,
        None => WordAction::Pass,
    };
    let r1 = game.apply_action(current, action);
    match r1 {
        Ok(result) => {
            let status = joined("AI ", result.turn_summary.as_str());
            (status, game.is_finished())
        },
        Err(_) => {
            let ghost mid = *game;
            let _ = game.apply_action(current, WordAction::Pass);
            (crate::text::owned("AI passed"), game.is_finished())
        },
    }
}

/// The number of players each new-game button of the menu starts with.
#[derive(Clone, Copy, PartialEq, Eq, Structural)]
pub enum MenuChoice {
    TwoPlayers,
    ThreePlayers,
    FourPlayers,
}

impl MenuChoice {
    /// The number of players this choice starts a game with.
    pub open spec fn spec_players(self) -> usize {
        match self {
            MenuChoice::TwoPlayers => 2,
            MenuChoice::ThreePlayers => 3,
            MenuChoice::FourPlayers => 4,
        }
    }

    /// The number of players this choice starts a game with.
    pub fn players(self) -> (n: usize)
        ensures
            n == self.spec_players(),
            2 <= n <= 4,
    {
        match self {
            MenuChoice::TwoPlayers => 2,
            MenuChoice::ThreePlayers => 3,
            MenuChoice::FourPlayers => 4,
        }
    }
}

/// A new game for the choice made on the menu, with the default rules and the given seed.
pub fn start_game(choice: MenuChoice, seed: u64) -> (g: WordGame)
    ensures
        g.wf(),
        crate::game::is_initial(g.spec_state()@, choice.spec_players() as int),
        !g.spec_config().validate_words,
{
    let config = WordGameConfig::default();
    WordGame::new_game(&config, choice.players(), seed)
}

/// Dropping a dragged rack tile on `(row, col)`: it joins the pending tiles when that square
/// is on the board, empty, and holds no pending tile yet. Returns whether it did.
pub fn drop_tile(
    board: &Board,
    pending: &mut PendingPlacement,
    row: usize,
    col: usize,
    tile: Tile,
    rack_index: usize,
) -> (dropped: bool)
    ensures
        dropped == (crate::board::in_bounds(row as int, col as int) && board.at(row as int, col as int) is None
            && !(exists|i: int| 0 <= i < old(pending).tiles@.len() && crate::pending::pending_at(#[trigger] old(pending).tiles@[i], row, col))),
        dropped ==> final(pending).tiles@ == old(pending).tiles@.push(PendingTile { row, col, tile, rack_index }),
        !dropped ==> final(pending).tiles@ == old(pending).tiles@,
{
    if board.is_empty_at(row, col) && !pending.is_at(row, col) {
        pending.tiles.push(PendingTile { row, col, tile, rack_index });
        true
    } else {
        false
    }
}

/// Whether a rack tile is pending on the board.
pub open spec fn slot_pending(pending: PendingPlacement, idx: int) -> bool {
    exists|i: int| 0 <= i < pending.tiles@.len() && (#[trigger] pending.tiles@[i]).rack_index == idx
}

/// Whether the pending tiles include the rack tile at `idx`.
fn is_slot_pending(pending: &PendingPlacement, idx: usize) -> (r: bool)
    ensures
        r == slot_pending(*pending, idx as int),
{
    let mut i: usize = 0;
    while i < pending.tiles.len()
        invariant
            i <= pending.tiles@.len(),
            forall|j: int| 0 <= j < i ==> (#[trigger] pending.tiles@[j]).rack_index != idx,
        decreases pending.tiles@.len() - i,
    {
        if pending.tiles[i].rack_index == idx {
            return true;
        }
        i = i + 1;
    }
    false
}

/// Whether the rack tile at `idx` can be picked up: it is on the rack and not pending.
pub fn can_pick(pending: &PendingPlacement, rack_len: usize, idx: usize) -> (r: bool)
    ensures
        r == (idx < rack_len && !slot_pending(*pending, idx as int)),
{
    !is_slot_pending(pending, idx) && idx < rack_len
}

/// The rack slots shown, in order: none while the turn is handed over, else every slot whose
/// tile is not pending on the board.
pub fn visible_rack_slots(rack_len: usize, pending: &PendingPlacement, hand_over_active: bool) -> (v: Vec<usize>)
    ensures
        hand_over_active ==> v@.len() == 0,
        !hand_over_active ==> v@ == Seq::new(rack_len as nat, |i: int| i).filter(
            |i: int| !slot_pending(*pending, i),
        ).map_values(|i: int| i as usize),
{
    let mut v: Vec<usize> = Vec::new();
    if hand_over_active {
        return v;
    }
    let ghost all = Seq::new(rack_len as nat, |i: int| i);
    let ghost keep = |i: int| !slot_pending(*pending, i);
    let mut i: usize = 0;
    while i < rack_len
        invariant
            i <= rack_len,
            all == Seq::new(rack_len as nat, |i: int| i),
            keep == (|i: int| !slot_pending(*pending, i)),
            v@ == all.take(i as int).filter(keep).map_values(|i: int| i as usize),
        decreases rack_len - i,
    {
        proof {
            assert(all.take(i + 1) =~= all.take(i as int).push(i as int));
            all.take(i as int).lemma_filter_push(i as int, keep);
        }
        if !is_slot_pending(pending, i) {
            v.push(i);
        }
        i = i + 1;
        assert(v@ =~= all.take(i as int).filter(keep).map_values(|i: int| i as usize));
    }
    assert(all.take(rack_len as int) =~= all);
    v
}

} // verus!
