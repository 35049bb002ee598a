//! Errors of the word game.
use vstd::prelude::*;
use crate::text::{chars_of, owned, string_from_chars};

verus! {

#[derive(Debug, Clone, PartialEq, Eq)]
pub enum WordGameError {
    NotYourTurn,
    GameAlreadyFinished,
    InvalidPlayerIndex,
    InvalidPlacement(String),
    InvalidWord(String),
    InsufficientTiles,
    ExchangeNotAllowed,
    TileNotInRack(char),
}

/// The message that describes an error.
pub open spec fn error_text(e: WordGameError) -> Seq<char> {
    match e {
        WordGameError::NotYourTurn => "not your turn"@,
        WordGameError::GameAlreadyFinished => "game is already finished"@,
        WordGameError::InvalidPlayerIndex => "invalid player index"@,
        WordGameError::InvalidPlacement(msg) => "invalid placement: "@ + msg@,
        WordGameError::InvalidWord(word) => "invalid word: "@ + word@,
        WordGameError::InsufficientTiles => "not enough tiles in bag for exchange"@,
        WordGameError::ExchangeNotAllowed => "exchange not allowed when bag has fewer than 7 tiles"@,
        WordGameError::TileNotInRack(ch) => "tile '"@ + seq![ch] + "' not in rack"@,
    }
}

/// The characters of `a` followed by those of `b`.
fn concat_text(a: &str, b: &str) -> (s: String)
    ensures
        s@ == a@ + b@,
{
    let mut cs = chars_of(a);
    let more = chars_of(b);
    let ghost start = cs@;
    let mut i: usize = 0;
    while i < more.len()
        invariant
            i <= more@.len(),
            cs@ == start + more@.take(i as int),
        decreases more@.len() - i,
    {
        cs.push(more[i]);
        i = i + 1;
        assert(cs@ =~= start + more@.take(i as int));
    }
    assert(more@.take(more@.len() as int) =~= more@);
    string_from_chars(&cs)
}

impl WordGameError {
    /// The message that describes this error.
    pub fn message(&self) -> (s: String)
        ensures
            s@ == error_text(*self),
    {
        match self {
            WordGameError::NotYourTurn => owned("not your turn"),
            WordGameError::GameAlreadyFinished => owned("game is already finished"),
            WordGameError::InvalidPlayerIndex => owned("invalid player index"),
            WordGameError::InvalidPlacement(msg) => concat_text("invalid placement: ", msg.as_str()),
            WordGameError::InvalidWord(word) => concat_text("invalid word: ", word.as_str()),
            WordGameError::InsufficientTiles => owned("not enough tiles in bag for exchange"),
            WordGameError::ExchangeNotAllowed => owned("exchange not allowed when bag has fewer than 7 tiles"),
            WordGameError::TileNotInRack(ch) => {
                let mut cs = chars_of("tile '");
                cs.push(*ch);
                let head = string_from_chars(&cs);
                concat_text(head.as_str(), "' not in rack")
            },
        }
    }
}

} // verus!
