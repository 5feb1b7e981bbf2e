//! A voter and the ballot it cast.

use crate::ballots::{well_formed, Ballot, Name};
use crate::candidate::Candidate;
use std::rc::Rc;
use vstd::prelude::*;

verus! {

/// A voter: a name and a ballot, the candidates in order of preference, most
/// preferred first.
pub struct Voter {
    pub name: String,
    pub votes: Vec<Rc<Candidate>>,
}

/// The names of a sequence of candidates, in the same order.
pub open spec fn names_of(candidates: Seq<Rc<Candidate>>) -> Seq<Name> {
    Seq::new(candidates.len(), |i: int| candidates[i]@)
}

/// The ballots of a sequence of voters, in the same order.
pub open spec fn ballots_of(voters: Seq<Voter>) -> Seq<Ballot> {
    Seq::new(voters.len(), |i: int| voters[i].ballot())
}

impl Voter {
    /// The ballot of this voter in the model.
    pub open spec fn ballot(&self) -> Ballot {
        names_of(self.votes@)
    }

    /// Whether the ballot ranks `candidate`.
    pub open spec fn ranks(&self, candidate: Name) -> bool {
        self.ballot().contains(candidate)
    }

    /// Creates the voter called `name` who cast the ballot `votes`.
    pub fn new(name: String, votes: Vec<Rc<Candidate>>) -> (voter: Voter)
        ensures
            voter.name == name,
            voter.votes == votes,
    {
        Voter { name, votes }
    }

    /// Ranks `candidate` below everything the ballot holds so far. A well-formed
    /// ballot stays well formed when it did not rank the candidate before.
    pub fn vote(&mut self, candidate: Rc<Candidate>)
        ensures
            final(self).name == old(self).name,
            final(self).votes@ == old(self).votes@.push(candidate),
            final(self).ballot() == old(self).ballot().push(candidate@),
            well_formed(old(self).ballot()) && !old(self).ranks(candidate@) ==> well_formed(
                final(self).ballot(),
            ),
    {
        self.votes.push(candidate);
        proof {
            let before = old(self).ballot();
            let after = self.ballot();
            assert(after =~= before.push(candidate@));
            if well_formed(before) && !old(self).ranks(candidate@) {
                assert forall|i: int, j: int|
                    0 <= i < after.len() && 0 <= j < after.len() && i != j implies after[i]
                    != after[j] by {
                    if i < before.len() {
                        assert(before[i] == after[i]);
                    }
                    if j < before.len() {
                        assert(before[j] == after[j]);
                    }
                }
            }
        }
    }
}

} // verus!
