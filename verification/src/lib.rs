//! Instant-runoff tabulation of ranked-choice polls.

pub mod ballots;
pub mod candidate;
pub mod elimination;
pub mod error;
pub mod import;
pub mod majority;
pub mod number;
pub mod tabulator;
pub mod tally;
pub mod tiebreak;
pub mod voter;

pub use candidate::Candidate;
pub use elimination::{eliminate, remove_last_place_candidate, Elimination};
pub use error::PollError;
pub use import::{candidates_from_header, import_csv_poll, poll_from_table, voters_from_records};
pub use majority::check_for_majority;
pub use number::{extract_number, read_decimal};
pub use tabulator::{tabulate, Election, Outcome, Round, Step};
pub use tally::{get_candidate_tallies, show_tallies};
pub use tiebreak::loser_tie_breaker;
pub use voter::Voter;
