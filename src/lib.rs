//! Standings for a round-robin competition: points are awarded per recorded
//! match (three for a win, one each for a draw) and participants are ranked by
//! their totals.
pub mod codec;
pub mod laws;
pub mod model;
pub mod tally;

pub use codec::{calculate_rankings, decode_results, standings_text, DecodeError};
pub use tally::compute_standings;
pub use model::{MatchEntry, MatchResult, MAX_ENTRIES};
