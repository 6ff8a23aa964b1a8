//! Election winners from ranked ballots, by instant-runoff voting and by the
//! Schulze method.
//!
//! A ballot lists candidates with a rank each; a lower rank is a stronger
//! preference. Every function here is a pure computation over its
//! arguments, and none of them panics: what a function needs of its
//! arguments stands in its `requires`.
//!
//! - `ballot`: what a valid ballot is, and how many candidates an election
//!   has.
//! - `pairwise`: how many voters prefer one candidate to another.
//! - `widest_path`: the widest paths through a matrix of weights.
//! - `ranking`: what the Schulze ranking is, and what holds of it.
//! - `schulze_method`: the Schulze ranking and its winner.
//! - `instant_runoff_voting`: the winner by instant runoff.
//! - `counting`: counting the indices at which a predicate holds.

use vstd::prelude::*;

pub mod ballot;
pub mod counting;
pub mod instant_runoff_voting;
pub mod pairwise;
pub mod ranking;
pub mod widest_path;
pub mod schulze_method;

pub use crate::ballot::{all_ballots_unique, highest_id, unique_candidates};
pub use crate::pairwise::PairwisePreferences;

verus! {

/// A candidate, known by a small non-negative integer handle.
///
/// Handles are taken to be dense from zero: the highest handle on any ballot
/// fixes how many candidates an election has.
#[derive(Copy, Clone, PartialEq, Eq, Debug, Hash, Structural)]
pub struct Candidate {
    id: usize,
}

/// A rank on a ballot. Lower is more preferred; equal ranks are allowed.
pub type Rank = i32;

/// The candidates one voter ranked, in no particular order.
pub type Ballot = Vec<(Candidate, Rank)>;

/// A borrowed ballot.
pub type BallotSlice = [(Candidate, Rank)];

impl View for Candidate {
    type V = nat;

    closed spec fn view(&self) -> nat {
        self.id as nat
    }
}

impl DeepView for Candidate {
    type V = nat;

    open spec fn deep_view(&self) -> nat {
        self.view()
    }
}

impl Candidate {
    /// The candidate's handle.
    pub fn id(&self) -> (id: usize)
        ensures
            id == self@,
    {
        self.id
    }
}

impl From<usize> for Candidate {
    fn from(id: usize) -> (candidate: Candidate)
        ensures
            candidate@ == id,
    {
        Candidate { id }
    }
}

impl vstd::std_specs::convert::FromSpecImpl<usize> for Candidate {
    open spec fn obeys_from_spec() -> bool {
        true
    }

    closed spec fn from_spec(id: usize) -> Candidate {
        Candidate { id }
    }
}

} // verus!
