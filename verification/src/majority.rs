//! Detecting a majority winner.

use crate::ballots::{candidates, live, votes_at, Ballot, Name};
use crate::candidate::{share, Candidate};
use crate::tally::{
    get_candidate_tallies, lemma_first_preferences_add_up, lemma_live_at_most_ballots,
    lemma_table_entry, lemma_total_grows, lemma_unseen_has_no_votes, table_of, tallies, total_at,
};
use crate::voter::{ballots_of, Voter};
use std::rc::Rc;
use vstd::prelude::*;

verus! {

/// Whether `candidate` is the first choice of strictly more than half of the
/// ballots that still rank anyone.
pub open spec fn has_majority(ballots: Seq<Ballot>, candidate: Name) -> bool {
    2 * votes_at(ballots, candidate, 0) > live(ballots)
}

/// Whether some candidate has a majority.
pub open spec fn decided(ballots: Seq<Ballot>) -> bool {
    exists|c: Name| has_majority(ballots, c)
}

/// Two different candidates share the ballots: together they are the first
/// choice of no more ballots than rank anyone.
pub proof fn lemma_first_choices_shared(ballots: Seq<Ballot>, one: Name, other: Name)
    requires
        one != other,
    ensures
        votes_at(ballots, one, 0) + votes_at(ballots, other, 0) <= live(ballots),
    decreases ballots.len(),
{
    if ballots.len() > 0 {
        lemma_first_choices_shared(ballots.drop_last(), one, other);
    }
}

/// At most one candidate has a majority.
pub proof fn lemma_majority_unique(ballots: Seq<Ballot>, one: Name, other: Name)
    requires
        has_majority(ballots, one),
        has_majority(ballots, other),
    ensures
        one == other,
{
    if one != other {
        lemma_first_choices_shared(ballots, one, other);
    }
}

/// Looks for a candidate who is the first choice of strictly more than half of
/// the ballots that still rank anyone. The comparison is exact: a candidate with
/// exactly half has no majority.
pub fn check_for_majority(voters: &Vec<Voter>) -> (winner: Option<Rc<Candidate>>)
    ensures
        match winner {
            Some(w) => has_majority(ballots_of(voters@), w@),
            None => !decided(ballots_of(voters@)),
        },
{
    let ghost ballots = ballots_of(voters@);
    let ghost active = candidates(ballots);
    let table = get_candidate_tallies(voters);
    if table.len() == 0 {
        proof {
            assert(tallies(ballots).len() == table_of(table@).len());
            assert forall|c: Name| !has_majority(ballots, c) by {
                lemma_unseen_has_no_votes(ballots, c, 0);
            }
        }
        return None;
    }
    proof {
        lemma_table_entry(table@, ballots, 0);
        lemma_first_preferences_add_up(ballots);
        lemma_live_at_most_ballots(ballots);
        assert(ballots.len() == voters.len());
        assert(active.take(0) =~= Seq::<Name>::empty());
        assert forall|j: int| 0 <= j < table@.len() implies (#[trigger] table@[j]).1@.len() > 0
            && table@[j].1@[0] == votes_at(ballots, active[j], 0) by {
            lemma_table_entry(table@, ballots, j);
        }
    }
    let mut leader: usize = 0;
    let mut total: usize = 0;
    let mut k: usize = 0;
    while k < table.len()
        invariant
            k <= table@.len(),
            leader < table@.len(),
            table@.len() == active.len(),
            total_at(ballots, active, 0) <= usize::MAX,
            total == total_at(ballots, active.take(k as int), 0),
            forall|j: int|
                0 <= j < table@.len() ==> (#[trigger] table@[j]).1@.len() > 0 && table@[j].1@[0]
                    == votes_at(ballots, active[j], 0),
            forall|j: int| 0 <= j < k ==> (#[trigger] table@[j]).1@[0] <= table@[leader as int].1@[0],
        decreases table@.len() - k,
    {
        proof {
            assert(active.take(k + 1).drop_last() =~= active.take(k as int));
            assert(active.take(k + 1).last() == active[k as int]);
            lemma_total_grows(ballots, active, k + 1, 0);
        }
        total += table[k].1[0];
        if table[k].1[0] > table[leader].1[0] {
            leader = k;
        }
        k += 1;
    }
    proof {
        assert(active.take(k as int) =~= active);
        lemma_first_preferences_add_up(ballots);
        lemma_table_entry(table@, ballots, leader as int);
        lemma_total_grows(ballots, active, leader + 1, 0);
        assert(active.take(leader + 1).drop_last() =~= active.take(leader as int));
        assert(active.take(leader + 1).last() == active[leader as int]);
    }
    let most = table[leader].1[0];
    if most > total - most {
        Some(share(&table[leader].0))
    } else {
        proof {
            assert forall|c: Name| !has_majority(ballots, c) by {
                if active.contains(c) {
                    let j = choose|j: int| 0 <= j < active.len() && active[j] == c;
                    assert(table@[j].1@[0] == votes_at(ballots, c, 0));
                } else {
                    lemma_unseen_has_no_votes(ballots, c, 0);
                }
            }
        }
        None
    }
}

} // verus!
