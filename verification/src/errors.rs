//! The error taxonomy: bad input files, bad what-if configuration. The
//! tabulation engine itself is total over well-formed input and has no error
//! path; internal accounting mistakes are excluded by proof rather than
//! reported at run time.
use vstd::prelude::*;

verus! {

/// A malformed or incomplete ballot file. Tabulation never runs on such
/// input; the caller must supply a valid file.
#[derive(Clone, Copy, Debug, PartialEq, Eq, Structural)]
pub enum ParseError {
    /// The archive could not be read as a zip file.
    BadArchive,
    /// One archive entry could not be read.
    BadEntry,
    /// No candidate-and-rules file was found for the race.
    MissingChp,
    /// A ballot file named by the rules was not in the archive.
    MissingPrm,
    /// The seat count did not parse as a number.
    BadSeats,
    /// A candidate definition line did not have the expected shape.
    BadCandidateDef,
    /// The separator definition is too short to name both separators.
    BadSeparators,
    /// A ballot line did not have the expected shape.
    BadBallot,
    /// A ballot line's id field did not have the expected shape.
    BadBallotId,
    /// A ranking token did not have the expected shape.
    BadRanking,
    /// A ballot names a candidate id that was never defined.
    UnknownCandidateId,
    /// More real candidates were defined than the 255 the count can hold.
    TooManyCandidates,
    /// A ballot file was not valid UTF-8.
    NotUtf8,
}

impl ParseError {
    /// A short human-readable name for the failure.
    pub fn message(&self) -> (r: &'static str)
        ensures
            r@.len() > 0,
    {
        let r = match self {
            ParseError::BadArchive => "could not read the ballot archive",
            ParseError::BadEntry => "could not read an archive entry",
            ParseError::MissingChp => "missing .chp file",
            ParseError::MissingPrm => "missing .prm file",
            ParseError::BadSeats => "failed to parse the seat count",
            ParseError::BadCandidateDef => "failed to parse a candidate definition",
            ParseError::BadSeparators => "failed to parse the ballot-format separators",
            ParseError::BadBallot => "failed to parse a ballot",
            ParseError::BadBallotId => "failed to parse a ballot id",
            ParseError::BadRanking => "failed to parse a ranking",
            ParseError::UnknownCandidateId => "a ballot names an unknown candidate",
            ParseError::TooManyCandidates => "more than 255 candidates",
            ParseError::NotUtf8 => "a ballot file is not valid UTF-8",
        };
        proof {
            reveal_strlit("could not read the ballot archive");
            reveal_strlit("could not read an archive entry");
            reveal_strlit("missing .chp file");
            reveal_strlit("missing .prm file");
            reveal_strlit("failed to parse the seat count");
            reveal_strlit("failed to parse a candidate definition");
            reveal_strlit("failed to parse the ballot-format separators");
            reveal_strlit("failed to parse a ballot");
            reveal_strlit("failed to parse a ballot id");
            reveal_strlit("failed to parse a ranking");
            reveal_strlit("a ballot names an unknown candidate");
            reveal_strlit("more than 255 candidates");
            reveal_strlit("a ballot file is not valid UTF-8");
        }
        r
    }
}

/// A what-if perturbation that names something the election does not have.
#[derive(Clone, Copy, Debug, PartialEq, Eq, Structural)]
pub enum ConfigError {
    /// The named candidate is not on the ballot.
    UnknownCandidate,
    /// The named precinct group does not exist.
    UnknownPrecinct,
    /// The named election is not one this deployment carries.
    UnknownElection,
}

impl ConfigError {
    /// A short human-readable name for the failure.
    pub fn message(&self) -> (r: &'static str)
        ensures
            r@.len() > 0,
    {
        let r = match self {
            ConfigError::UnknownCandidate => "unknown candidate",
            ConfigError::UnknownPrecinct => "unknown precinct",
            ConfigError::UnknownElection => "unknown election",
        };
        proof {
            reveal_strlit("unknown candidate");
            reveal_strlit("unknown precinct");
            reveal_strlit("unknown election");
        }
        r
    }
}

} // verus!
