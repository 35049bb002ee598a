use vstd::prelude::*;

pub mod text;
pub mod random;
pub mod tile;
pub mod board;
pub mod rack;
pub mod error;
pub mod placement;
pub mod scoring;
pub mod match_state;
pub mod game_trait;
pub mod ai;
pub mod game;
pub mod keys;
pub mod fst_set;
pub mod dict;
pub mod gaddag;
pub mod movegen;
pub mod move_scores;
pub mod bag_values;
pub mod player;
pub mod lobby;
pub mod difficulty;
pub mod word_ai;
pub mod cli;
pub mod pending;
pub mod session;

verus! {

} // verus!
