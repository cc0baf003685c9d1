pub mod aggregate;
pub mod engine;
pub mod errors;
pub mod laws;
pub mod model;
pub mod parse;
pub mod strutil;
pub mod ziparc;

pub use aggregate::{
    add_extra_ballots, analyze, resolve_extra, Analysis, ExtraVotes, OutcomeCount,
};
pub use engine::{final_pile_sizes, run, tabulate, WinnerRule};
pub use errors::{ConfigError, ParseError};
pub use model::{Ballot, Status};
pub use parse::{parse_ballots, race_of, BallotData, Race};

use model::spec_droop_quota;
use vstd::prelude::*;

verus! {

/// Computes the Droop quota for an election with `n_ballots` ballots and
/// `seats` seats.
pub fn droop_quota(n_ballots: usize, seats: usize) -> (q: usize)
    requires
        n_ballots + seats <= usize::MAX,
        seats < usize::MAX,
    ensures
        q == spec_droop_quota(n_ballots as int, seats as int),
{
    (n_ballots + seats) / (seats + 1)
}

} // verus!
