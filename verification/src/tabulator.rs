//! Running the rounds of an election until it is settled.

use crate::ballots::{candidates, rank_count, votes_at, Ballot, Name};
use crate::candidate::{share, Candidate};
use crate::elimination::{
    after_elimination, eliminated, lemma_elimination_shrinks, records_elimination,
    remove_last_place_candidate, Elimination,
};
use crate::error::PollError;
use crate::majority::{check_for_majority, decided, has_majority, lemma_majority_unique};
use crate::tally::{get_candidate_tallies, lemma_unseen_has_no_votes, table_of, tallies};
use crate::tiebreak::{lemma_lowest_of_equals, lemma_tie_of_equals};
use crate::voter::{ballots_of, Voter};
use std::rc::Rc;
use vstd::prelude::*;

verus! {

/// How an election ends, in the model.
pub enum Verdict {
    /// A candidate reached a majority.
    Winner(Name),
    /// Every candidate was eliminated before any reached a majority.
    Exhausted,
}

/// How an election ended.
pub enum Outcome {
    /// A candidate reached a majority.
    Winner(Rc<Candidate>),
    /// Every candidate was eliminated before any reached a majority.
    Exhausted,
}

impl View for Outcome {
    type V = Verdict;

    open spec fn view(&self) -> Verdict {
        match self {
            Outcome::Winner(candidate) => Verdict::Winner(candidate@),
            Outcome::Exhausted => Verdict::Exhausted,
        }
    }
}

/// What a round decided.
pub enum Step {
    /// A candidate had a majority and won.
    Majority(Rc<Candidate>),
    /// Nobody had a majority, and the candidates in last place were eliminated.
    Eliminated(Elimination),
}

/// One round: the tallies it counted and what it decided.
pub struct Round {
    /// The number of the round, starting at one.
    pub number: usize,
    /// The tallies of the candidates active in this round.
    pub tallies: Vec<(Rc<Candidate>, Vec<usize>)>,
    /// What the round decided.
    pub step: Step,
}

/// A tabulated election: its rounds in order and how it ended.
pub struct Election {
    pub rounds: Vec<Round>,
    pub outcome: Outcome,
}

/// The candidate with a majority, where there is one.
pub open spec fn majority_winner(ballots: Seq<Ballot>) -> Name {
    choose|c: Name| has_majority(ballots, c)
}

/// How the election on `ballots` ends. While candidates are active, a round
/// either finds a majority winner or eliminates the candidates in last place.
pub open spec fn verdict(ballots: Seq<Ballot>) -> Verdict
    decreases candidates(ballots).len(),
    via elimination_decreases
{
    if candidates(ballots).len() == 0 {
        Verdict::Exhausted
    } else if decided(ballots) {
        Verdict::Winner(majority_winner(ballots))
    } else {
        verdict(after_elimination(ballots))
    }
}

/// Why `verdict` is well defined: every elimination leaves fewer candidates.
#[via_fn]
proof fn elimination_decreases(ballots: Seq<Ballot>) {
    lemma_elimination_shrinks(ballots);
}

/// The number of rounds that the election on `ballots` takes.
pub open spec fn rounds_run(ballots: Seq<Ballot>) -> nat
    decreases candidates(ballots).len(),
    via rounds_decrease
{
    if candidates(ballots).len() == 0 {
        0
    } else if decided(ballots) {
        1
    } else {
        1 + rounds_run(after_elimination(ballots))
    }
}

/// Why `rounds_run` is well defined: every elimination leaves fewer candidates.
#[via_fn]
proof fn rounds_decrease(ballots: Seq<Ballot>) {
    lemma_elimination_shrinks(ballots);
}

/// The ballots as they stand after `eliminations` eliminations.
pub open spec fn ballots_after(ballots: Seq<Ballot>, eliminations: nat) -> Seq<Ballot>
    decreases eliminations,
{
    if eliminations == 0 {
        ballots
    } else {
        after_elimination(ballots_after(ballots, (eliminations - 1) as nat))
    }
}

/// Whether `round` is the record of round `index` (counted from zero) held on
/// `ballots`: it holds their tallies, and either the majority winner or the
/// elimination due.
pub open spec fn records_round(round: Round, ballots: Seq<Ballot>, index: int) -> bool {
    &&& round.number == index + 1
    &&& table_of(round.tallies@) == tallies(ballots)
    &&& match round.step {
        Step::Majority(winner) => has_majority(ballots, winner@),
        Step::Eliminated(elimination) => !decided(ballots) && records_elimination(
            elimination,
            ballots,
        ),
    }
}

/// Whether `election` is the record of the election on `ballots`: one round for
/// each round run, each held on the ballots as the eliminations before it left
/// them, and the verdict.
pub open spec fn records_election(election: Election, ballots: Seq<Ballot>) -> bool {
    &&& election.outcome@ == verdict(ballots)
    &&& election.rounds@.len() == rounds_run(ballots)
    &&& forall|k: int|
        0 <= k < election.rounds@.len() ==> records_round(
            #[trigger] election.rounds@[k],
            ballots_after(ballots, k as nat),
            k,
        )
}

/// Termination: an election takes no more rounds than it has candidates.
pub proof fn lemma_rounds_bounded(ballots: Seq<Ballot>)
    ensures
        rounds_run(ballots) <= candidates(ballots).len(),
    decreases candidates(ballots).len(),
{
    if candidates(ballots).len() > 0 && !decided(ballots) {
        lemma_elimination_shrinks(ballots);
        lemma_rounds_bounded(after_elimination(ballots));
    }
}

/// A candidate who holds a majority when the election starts wins in the first
/// round, before any elimination.
pub proof fn lemma_majority_wins_at_once(ballots: Seq<Ballot>, candidate: Name)
    requires
        has_majority(ballots, candidate),
    ensures
        verdict(ballots) == Verdict::Winner(candidate),
        rounds_run(ballots) == 1,
{
    if !candidates(ballots).contains(candidate) {
        lemma_unseen_has_no_votes(ballots, candidate, 0);
    }
    lemma_majority_unique(ballots, candidate, majority_winner(ballots));
}

/// Whether the active candidates are in a dead heat: any two of them have
/// equally many votes at every rank.
pub open spec fn dead_heat(ballots: Seq<Ballot>) -> bool {
    forall|one: Name, other: Name, rank: int|
        candidates(ballots).contains(one) && candidates(ballots).contains(other) ==> #[trigger] votes_at(
            ballots,
            one,
            rank,
        ) == #[trigger] votes_at(ballots, other, rank)
}

/// Two or more candidates in a dead heat are all eliminated together in the
/// first round, and the election ends there without a winner.
pub proof fn lemma_dead_heat_exhausts(ballots: Seq<Ballot>)
    requires
        candidates(ballots).len() >= 2,
        dead_heat(ballots),
    ensures
        eliminated(ballots) == candidates(ballots),
        candidates(after_elimination(ballots)).len() == 0,
        verdict(ballots) == Verdict::Exhausted,
        rounds_run(ballots) == 1,
{
    let active = candidates(ballots);
    let rows = tallies(ballots);
    let ranks = rank_count(ballots) as int;
    assert forall|k: int, j: int, r: int|
        0 <= k < rows.len() && 0 <= j < rows.len() && 0 <= r < ranks
        implies #[trigger] rows[k].counts[r] == #[trigger] rows[j].counts[r] by {
        assert(active.contains(active[k]) && active.contains(active[j]));
        assert(votes_at(ballots, active[k], r) == votes_at(ballots, active[j], r));
    }
    crate::tally::lemma_active_means_ranks(ballots);
    assert forall|k: int, j: int| 0 <= k < rows.len() && 0 <= j < rows.len() implies (
    #[trigger] rows[k]).counts[0] == (#[trigger] rows[j]).counts[0] by {
        assert(rows[k].counts[0] == rows[j].counts[0]);
    }
    lemma_lowest_of_equals(rows, 0);
    lemma_tie_of_equals(rows, 1, ranks);
    assert(eliminated(ballots) =~= active);
    lemma_elimination_shrinks(ballots);
    let stays = |c: Name| !eliminated(ballots).contains(c);
    assert(active.all(|c: Name| !stays(c))) by {
        assert forall|i: int| 0 <= i < active.len() implies !stays(#[trigger] active[i]) by {
            assert(active.contains(active[i]));
        }
    }
    active.lemma_all_neg_filter_empty(stays);
    assert(!decided(ballots)) by {
        assert forall|c: Name| !has_majority(ballots, c) by {
            if active.contains(c) {
                crate::ballots::lemma_candidates_distinct(ballots);
                let other = if active[0] == c {
                    active[1]
                } else {
                    active[0]
                };
                assert(active.contains(active[0]) && active.contains(active[1]));
                assert(votes_at(ballots, c, 0) == votes_at(ballots, other, 0));
                crate::majority::lemma_first_choices_shared(ballots, c, other);
            } else {
                lemma_unseen_has_no_votes(ballots, c, 0);
            }
        }
    }
    assert(rounds_run(after_elimination(ballots)) == 0);
    assert(verdict(after_elimination(ballots)) == Verdict::Exhausted);
}

/// Runs the election: round after round, the tallies are counted; a candidate
/// with a majority wins; otherwise the candidates in last place are eliminated.
/// It ends with a winner, or with no winner once nobody is left, after at most
/// as many rounds as there are candidates. Where no ballot ranks any candidate
/// there is nothing to tabulate.
pub fn tabulate(voters: Vec<Voter>) -> (result: Result<Election, PollError>)
    ensures
        match result {
            Ok(election) => candidates(ballots_of(voters@)).len() > 0 && records_election(
                election,
                ballots_of(voters@),
            ) && election.rounds@.len() <= candidates(ballots_of(voters@)).len(),
            Err(error) => error == PollError::InsufficientData && candidates(
                ballots_of(voters@),
            ).len() == 0,
        },
{
    let ghost start = ballots_of(voters@);
    let mut remaining = voters;
    let mut rounds: Vec<Round> = Vec::new();
    let first = get_candidate_tallies(&remaining);
    let limit = first.len();
    proof {
        assert(table_of(first@).len() == tallies(start).len());
    }
    if limit == 0 {
        return Err(PollError::InsufficientData);
    }
    loop
        invariant
            start == ballots_of(voters@),
            limit == candidates(start).len(),
            limit > 0,
            ballots_of(remaining@) == ballots_after(start, rounds@.len() as nat),
            rounds@.len() + candidates(ballots_of(remaining@)).len() <= limit,
            verdict(ballots_of(remaining@)) == verdict(start),
            rounds@.len() + rounds_run(ballots_of(remaining@)) == rounds_run(start),
            forall|k: int|
                0 <= k < rounds@.len() ==> records_round(
                    #[trigger] rounds@[k],
                    ballots_after(start, k as nat),
                    k,
                ),
        decreases candidates(ballots_of(remaining@)).len(),
    {
        let ghost ballots = ballots_of(remaining@);
        let tallies = get_candidate_tallies(&remaining);
        proof {
            assert(table_of(tallies@).len() == crate::tally::tallies(ballots).len());
        }
        if tallies.len() == 0 {
            proof {
                lemma_rounds_bounded(start);
            }
            return Ok(Election { rounds, outcome: Outcome::Exhausted });
        }
        let number = rounds.len() + 1;
        match check_for_majority(&remaining) {
            Some(winner) => {
                proof {
                    lemma_majority_wins_at_once(ballots, winner@);
                    lemma_rounds_bounded(start);
                }
                let round = Round { number, tallies, step: Step::Majority(share(&winner)) };
                rounds.push(round);
                return Ok(Election { rounds, outcome: Outcome::Winner(winner) });
            },
            None => {
                proof {
                    lemma_elimination_shrinks(ballots);
                }
                let elimination = remove_last_place_candidate(&mut remaining);
                let round = Round { number, tallies, step: Step::Eliminated(elimination) };
                rounds.push(round);
            },
        }
    }
}

} // verus!
