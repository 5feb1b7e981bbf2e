//! The mathematical model of a poll: ballots as sequences of candidate names,
//! and the counts that tabulation is defined by.

use vstd::prelude::*;

verus! {

/// A candidate in the model: the characters of its name.
pub type Name = Seq<char>;

/// A ballot in the model: candidate names, most preferred first.
pub type Ballot = Seq<Name>;

/// `known`, followed by the candidates of `ballot` that `known` lacks, each once,
/// in the order in which the ballot ranks them.
pub open spec fn with_ballot(known: Seq<Name>, ballot: Ballot) -> Seq<Name>
    decreases ballot.len(),
{
    if ballot.len() == 0 {
        known
    } else {
        let before = with_ballot(known, ballot.drop_last());
        if before.contains(ballot.last()) {
            before
        } else {
            before.push(ballot.last())
        }
    }
}

/// The active candidates: those that some ballot still ranks, each once, in the
/// order in which they first appear when the ballots are read front to back.
pub open spec fn candidates(ballots: Seq<Ballot>) -> Seq<Name>
    decreases ballots.len(),
{
    if ballots.len() == 0 {
        Seq::empty()
    } else {
        with_ballot(candidates(ballots.drop_last()), ballots.last())
    }
}

/// Whether `ballot` gives `candidate` the rank `rank` (0 is the first choice).
pub open spec fn ranks_at(ballot: Ballot, candidate: Name, rank: int) -> bool {
    0 <= rank < ballot.len() && ballot[rank] == candidate
}

/// The number of ballots that give `candidate` the rank `rank`.
pub open spec fn votes_at(ballots: Seq<Ballot>, candidate: Name, rank: int) -> nat
    decreases ballots.len(),
{
    if ballots.len() == 0 {
        0
    } else {
        votes_at(ballots.drop_last(), candidate, rank) + if ranks_at(
            ballots.last(),
            candidate,
            rank,
        ) {
            1nat
        } else {
            0nat
        }
    }
}

/// The number of ranks present across the ballots: the length of the longest one.
pub open spec fn rank_count(ballots: Seq<Ballot>) -> nat
    decreases ballots.len(),
{
    if ballots.len() == 0 {
        0
    } else {
        let before = rank_count(ballots.drop_last());
        if ballots.last().len() > before {
            ballots.last().len()
        } else {
            before
        }
    }
}

/// The number of ballots that still rank at least one candidate.
pub open spec fn live(ballots: Seq<Ballot>) -> nat
    decreases ballots.len(),
{
    if ballots.len() == 0 {
        0
    } else {
        live(ballots.drop_last()) + if ballots.last().len() > 0 {
            1nat
        } else {
            0nat
        }
    }
}

/// A ballot is well formed when it ranks no candidate twice.
pub open spec fn well_formed(ballot: Ballot) -> bool {
    ballot.no_duplicates()
}

/// Whether some ballot ranks `candidate`.
pub open spec fn ranked(ballots: Seq<Ballot>, candidate: Name) -> bool {
    exists|v: int| 0 <= v < ballots.len() && #[trigger] ballots[v].contains(candidate)
}

/// What `with_ballot` yields: it keeps `known` as a prefix, adds exactly the
/// candidates of the ballot, and introduces no repetition.
pub proof fn lemma_with_ballot(known: Seq<Name>, ballot: Ballot)
    ensures
        known.is_prefix_of(with_ballot(known, ballot)),
        forall|c: Name| #[trigger]
            with_ballot(known, ballot).contains(c) <==> known.contains(c) || ballot.contains(c),
        known.no_duplicates() ==> with_ballot(known, ballot).no_duplicates(),
    decreases ballot.len(),
{
    if ballot.len() > 0 {
        let front = ballot.drop_last();
        let before = with_ballot(known, front);
        lemma_with_ballot(known, front);
        assert forall|c: Name| #[trigger]
            with_ballot(known, ballot).contains(c) <==> known.contains(c) || ballot.contains(
                c,
            ) by {
            if ballot.contains(c) {
                let i = choose|i: int| 0 <= i < ballot.len() && ballot[i] == c;
                if i < ballot.len() - 1 {
                    assert(front[i] == c);
                }
            }
            if front.contains(c) {
                let i = choose|i: int| 0 <= i < front.len() && front[i] == c;
                assert(ballot[i] == c);
            }
            if !before.contains(ballot.last()) {
                let after = before.push(ballot.last());
                assert(after[before.len() as int] == ballot.last());
                if before.contains(c) {
                    let i = choose|i: int| 0 <= i < before.len() && before[i] == c;
                    assert(after[i] == c);
                }
            }
            assert(ballot[ballot.len() - 1] == ballot.last());
        }
    }
}

/// The active candidates are pairwise distinct.
pub proof fn lemma_candidates_distinct(ballots: Seq<Ballot>)
    ensures
        candidates(ballots).no_duplicates(),
    decreases ballots.len(),
{
    if ballots.len() > 0 {
        lemma_candidates_distinct(ballots.drop_last());
        lemma_with_ballot(candidates(ballots.drop_last()), ballots.last());
    }
}

/// A candidate is active exactly when some ballot ranks it.
pub proof fn lemma_candidates_ranked(ballots: Seq<Ballot>, candidate: Name)
    ensures
        candidates(ballots).contains(candidate) <==> ranked(ballots, candidate),
    decreases ballots.len(),
{
    if ballots.len() > 0 {
        let front = ballots.drop_last();
        lemma_candidates_ranked(front, candidate);
        lemma_with_ballot(candidates(front), ballots.last());
        if ranked(ballots, candidate) {
            let v = choose|v: int| 0 <= v < ballots.len() && #[trigger] ballots[v].contains(candidate);
            if v < ballots.len() - 1 {
                assert(front[v].contains(candidate));
            }
        }
        if ranked(front, candidate) {
            let v = choose|v: int| 0 <= v < front.len() && #[trigger] front[v].contains(candidate);
            assert(ballots[v].contains(candidate));
        }
        if ballots.last().contains(candidate) {
            assert(ballots[ballots.len() - 1].contains(candidate));
        }
    }
}

} // verus!
