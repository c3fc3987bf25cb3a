//! Ranking aggregator: computes the current champion of a pool of players
//! under the two-key ordering (higher ratio first, younger age as tiebreak),
//! together with the set of players tied with that champion.

pub mod player;
pub mod ranking;

pub use player::{are_equal_players, is_stronger, is_younger, Player, Pronostics};
pub use ranking::get_pronostics;
