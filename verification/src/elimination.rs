//! Eliminating the candidates in last place.

use crate::ballots::{
    candidates, live, rank_count, well_formed, with_ballot, Ballot, Name,
};
use crate::candidate::{share, Candidate};
use crate::tally::{
    get_candidate_tallies, lemma_active_means_ranks, table_of, tallies, Tally,
};
use crate::tiebreak::{
    break_tie, is_lowest_at, keep_lowest, lemma_lowest_at_uniform, loser_tie_breaker, lowest_at,
    rounds_of, tie_rounds, uniform, width,
};
use crate::voter::{ballots_of, names_of, Voter};
use std::rc::Rc;
use vstd::prelude::*;

verus! {

/// The candidates that a sequence of tallies is about, in the same order.
pub open spec fn candidates_in(rows: Seq<Tally>) -> Seq<Name> {
    Seq::new(rows.len(), |k: int| rows[k].candidate)
}

/// The active candidates with the fewest first-preference votes: those in last
/// place before any tie among them is broken.
pub open spec fn trailing(ballots: Seq<Ballot>) -> Seq<Tally> {
    lowest_at(tallies(ballots), 0)
}

/// The tallies of the candidates that the next elimination removes: those in
/// last place, narrowed by the tie-break where there are several.
pub open spec fn last_place(ballots: Seq<Ballot>) -> Seq<Tally> {
    break_tie(trailing(ballots), 1, rank_count(ballots) as int)
}

/// The candidates that the next elimination removes.
pub open spec fn eliminated(ballots: Seq<Ballot>) -> Seq<Name> {
    candidates_in(last_place(ballots))
}

/// `ballot` without the candidates in `out`; the others keep their order, so
/// those ranked below a removed candidate move up.
pub open spec fn strike(ballot: Ballot, out: Seq<Name>) -> Ballot {
    ballot.filter(|c: Name| !out.contains(c))
}

/// Every ballot without the candidates in `out`.
pub open spec fn without(ballots: Seq<Ballot>, out: Seq<Name>) -> Seq<Ballot> {
    Seq::new(ballots.len(), |v: int| strike(ballots[v], out))
}

/// The ballots as the next elimination leaves them.
pub open spec fn after_elimination(ballots: Seq<Ballot>) -> Seq<Ballot> {
    without(ballots, eliminated(ballots))
}

/// What an elimination did.
pub struct Elimination {
    /// The candidates removed from every ballot.
    pub removed: Vec<Rc<Candidate>>,
    /// The rounds of the tie-break, where several candidates shared last place.
    pub tie_break: Option<Vec<Vec<(Rc<Candidate>, usize)>>>,
}

/// The tallies of a poll all have one count for each rank present.
pub proof fn lemma_tallies_uniform(ballots: Seq<Ballot>)
    ensures
        uniform(tallies(ballots), rank_count(ballots) as int),
{
}

/// Whether `outcome` is the record of the elimination due on `ballots`: it names
/// the eliminated candidates in tally order, and it holds the rounds of the
/// tie-break exactly when several candidates shared last place.
pub open spec fn records_elimination(outcome: Elimination, ballots: Seq<Ballot>) -> bool {
    &&& names_of(outcome.removed@) == eliminated(ballots)
    &&& match outcome.tie_break {
        Some(rounds) => trailing(ballots).len() > 1 && rounds_of(rounds@) == tie_rounds(
            trailing(ballots),
            1,
            rank_count(ballots) as int,
        ),
        None => trailing(ballots).len() <= 1,
    }
}

/// Whether `candidates` holds a candidate called like `candidate`.
fn holds(candidates: &Vec<Rc<Candidate>>, candidate: &Candidate) -> (found: bool)
    ensures
        found == names_of(candidates@).contains(candidate@),
{
    let mut k: usize = 0;
    while k < candidates.len()
        invariant
            k <= candidates@.len(),
            forall|j: int| 0 <= j < k ==> names_of(candidates@)[j] != candidate@,
        decreases candidates@.len() - k,
    {
        if *candidates[k] == *candidate {
            proof {
                assert(names_of(candidates@)[k as int] == candidate@);
            }
            return true;
        }
        k += 1;
    }
    false
}

/// Removes from `votes` every candidate that `out` holds.
fn strike_out(votes: &mut Vec<Rc<Candidate>>, out: &Vec<Rc<Candidate>>)
    ensures
        names_of(final(votes)@) == strike(names_of(old(votes)@), names_of(out@)),
{
    let ghost ballot = names_of(votes@);
    let ghost gone = names_of(out@);
    let ghost pred = |c: Name| !gone.contains(c);
    let ghost start = votes@;
    let ghost mut seen: int = 0;
    let mut kept: usize = 0;
    proof {
        reveal(Seq::filter);
        assert(ballot.take(0) =~= Seq::<Name>::empty());
        assert(ballot.take(0).filter(pred) + ballot.skip(0) =~= ballot);
    }
    while kept < votes.len()
        invariant
            ballot == names_of(start),
            gone == names_of(out@),
            pred == |c: Name| !gone.contains(c),
            0 <= seen <= start.len(),
            kept <= votes@.len(),
            votes@.len() - kept == start.len() - seen,
            names_of(votes@) == ballot.take(seen).filter(pred) + ballot.skip(seen),
            ballot.take(seen).filter(pred).len() == kept,
        decreases votes@.len() - kept,
    {
        let ghost before = votes@;
        proof {
            assert(names_of(votes@)[kept as int] == ballot.skip(seen)[0]);
            assert(votes@[kept as int]@ == ballot[seen]);
            assert(ballot.take(seen + 1) =~= ballot.take(seen).push(ballot[seen]));
            ballot.take(seen).lemma_filter_push(ballot[seen], pred);
        }
        if holds(out, &votes[kept]) {
            votes.remove(kept);
            proof {
                assert(names_of(votes@) =~= names_of(before).remove(kept as int));
                assert(names_of(votes@) =~= ballot.take(seen + 1).filter(pred) + ballot.skip(
                    seen + 1,
                ));
            }
        } else {
            kept += 1;
            proof {
                assert(names_of(votes@) =~= ballot.take(seen + 1).filter(pred) + ballot.skip(
                    seen + 1,
                ));
            }
        }
        proof {
            seen = seen + 1;
        }
    }
    proof {
        assert(ballot.take(seen) =~= ballot);
        assert(ballot.skip(seen) =~= Seq::<Name>::empty());
        assert(names_of(votes@) =~= ballot.filter(pred));
    }
}

/// Removes the given candidates from every ballot; the candidates ranked below
/// a removed one move up. A ballot that lacks a candidate stays as it is.
pub fn eliminate(voters: &mut Vec<Voter>, candidates: &Vec<Rc<Candidate>>)
    ensures
        ballots_of(final(voters)@) == without(ballots_of(old(voters)@), names_of(candidates@)),
        final(voters)@.len() == old(voters)@.len(),
        forall|v: int|
            0 <= v < old(voters)@.len() ==> (#[trigger] final(voters)@[v]).name == old(
                voters,
            )@[v].name,
{
    let ghost start = voters@;
    let ghost ballots = ballots_of(start);
    let ghost gone = names_of(candidates@);
    let mut v: usize = 0;
    while v < voters.len()
        invariant
            v <= voters@.len(),
            voters@.len() == start.len(),
            ballots == ballots_of(start),
            gone == names_of(candidates@),
            forall|j: int|
                0 <= j < v ==> (#[trigger] voters@[j]).name == start[j].name && voters@[j].ballot()
                    == strike(ballots[j], gone),
            forall|j: int| v <= j < voters@.len() ==> voters@[j] == start[j],
        decreases voters@.len() - v,
    {
        strike_out(&mut voters[v].votes, candidates);
        v += 1;
    }
    proof {
        assert(ballots_of(voters@) =~= without(ballots, gone));
    }
}

/// The candidates that the entries of `table` are for, in the same order.
fn candidates_of_entries(table: &Vec<(Rc<Candidate>, Vec<usize>)>) -> (found: Vec<Rc<Candidate>>)
    ensures
        names_of(found@) == candidates_in(table_of(table@)),
{
    let mut found: Vec<Rc<Candidate>> = Vec::new();
    let mut k: usize = 0;
    while k < table.len()
        invariant
            k <= table@.len(),
            found@.len() == k,
            forall|j: int| 0 <= j < k ==> (#[trigger] found@[j])@ == table@[j].0@,
        decreases table@.len() - k,
    {
        found.push(share(&table[k].0));
        k += 1;
    }
    proof {
        assert(names_of(found@) =~= candidates_in(table_of(table@)));
    }
    found
}

/// Eliminates the candidates in last place. Those with the fewest
/// first-preference votes are found; where there are several, the tie-break
/// narrows them; all that remain are removed from every ballot, and the
/// candidates ranked below them move up. The removed candidates are returned in
/// tally order, with the rounds of the tie-break if there was one. Where no
/// ballot ranks anyone, nothing is removed.
pub fn remove_last_place_candidate(voters: &mut Vec<Voter>) -> (outcome: Elimination)
    ensures
        records_elimination(outcome, ballots_of(old(voters)@)),
        ballots_of(final(voters)@) == after_elimination(ballots_of(old(voters)@)),
        final(voters)@.len() == old(voters)@.len(),
        forall|v: int|
            0 <= v < old(voters)@.len() ==> (#[trigger] final(voters)@[v]).name == old(
                voters,
            )@[v].name,
{
    let ghost ballots = ballots_of(voters@);
    let ghost ranks = rank_count(ballots) as int;
    let mut table = get_candidate_tallies(voters);
    proof {
        lemma_tallies_uniform(ballots);
        if table@.len() > 0 {
            assert(tallies(ballots).len() == table_of(table@).len());
            lemma_active_means_ranks(ballots);
        }
        assert forall|k: int| 0 <= k < table@.len() implies 0 < (#[trigger] table@[k]).1@.len() by {
            assert(table_of(table@)[k].counts.len() == ranks);
        }
    }
    keep_lowest(&mut table, 0);
    proof {
        lemma_lowest_at_uniform(tallies(ballots), 0, ranks);
        if table@.len() > 0 {
            assert(table_of(table@)[0].counts.len() == ranks);
            assert(width(table_of(table@)) == ranks);
        }
    }
    let tie_break = if table.len() > 1 {
        Some(loser_tie_breaker(&mut table))
    } else {
        None
    };
    proof {
        assert(table_of(table@) == last_place(ballots));
    }
    let removed = candidates_of_entries(&table);
    eliminate(voters, &removed);
    Elimination { removed, tie_break }
}

/// Striking candidates from a ballot and then noting whom it ranks gives the
/// candidates noted from the whole ballot, without those struck.
proof fn lemma_with_ballot_without(known: Seq<Name>, ballot: Ballot, out: Seq<Name>)
    ensures
        with_ballot(known.filter(|c: Name| !out.contains(c)), strike(ballot, out)) == with_ballot(
            known,
            ballot,
        ).filter(|c: Name| !out.contains(c)),
    decreases ballot.len(),
{
    let stays = |c: Name| !out.contains(c);
    if ballot.len() == 0 {
        reveal(Seq::filter);
        assert(ballot.filter(stays) =~= ballot);
    } else {
        let front = ballot.drop_last();
        let c = ballot.last();
        let noted = with_ballot(known, front);
        lemma_with_ballot_without(known, front, out);
        assert(ballot =~= front.push(c));
        front.lemma_filter_push(c, stays);
        noted.lemma_filter_push(c, stays);
        if stays(c) {
            assert(strike(ballot, out).drop_last() =~= strike(front, out));
            assert(strike(ballot, out).last() == c);
            if noted.contains(c) {
                let i = choose|i: int| 0 <= i < noted.len() && noted[i] == c;
                noted.lemma_filter_contains(stays, i);
            } else {
                if noted.filter(stays).contains(c) {
                    noted.lemma_filter_contains_rev(stays, c);
                }
            }
        }
    }
}

/// The candidates still active once those in `out` are struck from every ballot
/// are the candidates active before, without those in `out`, in the same order.
pub proof fn lemma_candidates_without(ballots: Seq<Ballot>, out: Seq<Name>)
    ensures
        candidates(without(ballots, out)) == candidates(ballots).filter(
            |c: Name| !out.contains(c),
        ),
    decreases ballots.len(),
{
    let stays = |c: Name| !out.contains(c);
    if ballots.len() == 0 {
        reveal(Seq::filter);
        assert(candidates(ballots).filter(stays) =~= candidates(ballots));
    } else {
        let front = ballots.drop_last();
        lemma_candidates_without(front, out);
        assert(without(ballots, out).drop_last() =~= without(front, out));
        assert(without(ballots, out).last() == strike(ballots.last(), out));
        lemma_with_ballot_without(candidates(front), ballots.last(), out);
    }
}

/// Among one or more tallies, one has the fewest votes at `rank`.
pub proof fn lemma_some_lowest(rows: Seq<Tally>, rank: int) -> (k: int)
    requires
        rows.len() > 0,
    ensures
        0 <= k < rows.len(),
        is_lowest_at(rows, rows[k], rank),
    decreases rows.len(),
{
    if rows.len() == 1 {
        0
    } else {
        let front = rows.drop_last();
        let j = lemma_some_lowest(front, rank);
        assert(front[j] == rows[j]);
        let best = if rows.last().counts[rank] < rows[j].counts[rank] {
            rows.len() - 1
        } else {
            j
        };
        assert forall|i: int| 0 <= i < rows.len() implies rows[best].counts[rank] <= (
        #[trigger] rows[i]).counts[rank] by {
            if i < front.len() {
                assert(front[i] == rows[i]);
            }
        }
        best
    }
}

/// Narrowing one or more tallies leaves at least one, and only tallies that were
/// there before.
pub proof fn lemma_lowest_at_some(rows: Seq<Tally>, rank: int)
    ensures
        rows.len() > 0 ==> lowest_at(rows, rank).len() > 0,
        forall|row: Tally| #[trigger] lowest_at(rows, rank).contains(row) ==> rows.contains(row),
{
    let pred = |row: Tally| is_lowest_at(rows, row, rank);
    if rows.len() > 0 {
        let k = lemma_some_lowest(rows, rank);
        rows.lemma_filter_contains(pred, k);
    }
    assert forall|row: Tally| #[trigger] lowest_at(rows, rank).contains(row) implies rows.contains(
        row,
    ) by {
        rows.lemma_filter_contains_rev(pred, row);
    }
}

/// The tie-break leaves at least one of one or more tallies, and only tallies
/// that were there before.
pub proof fn lemma_break_tie_some(rows: Seq<Tally>, rank: int, ranks: int)
    ensures
        rows.len() > 0 ==> break_tie(rows, rank, ranks).len() > 0,
        break_tie(rows, rank, ranks).len() <= rows.len(),
        forall|row: Tally| #[trigger]
            break_tie(rows, rank, ranks).contains(row) ==> rows.contains(row),
    decreases ranks - rank,
{
    if rows.len() <= 1 || rank >= ranks {
    } else {
        lemma_lowest_at_some(rows, rank);
        rows.lemma_filter_len(|row: Tally| is_lowest_at(rows, row, rank));
        lemma_break_tie_some(lowest_at(rows, rank), rank + 1, ranks);
    }
}

/// A sequence that loses an element to a filter gets shorter.
proof fn lemma_filter_shortens(names: Seq<Name>, stays: spec_fn(Name) -> bool, i: int)
    requires
        0 <= i < names.len(),
        !stays(names[i]),
    ensures
        names.filter(stays).len() < names.len(),
    decreases names.len(),
{
    reveal(Seq::filter);
    let front = names.drop_last();
    front.lemma_filter_len(stays);
    if i < names.len() - 1 {
        lemma_filter_shortens(front, stays, i);
    }
}

/// Shrinkage: while candidates are active, an elimination removes at least one
/// of them, removes only active ones, and leaves the others active and in order.
pub proof fn lemma_elimination_shrinks(ballots: Seq<Ballot>)
    ensures
        candidates(after_elimination(ballots)) == candidates(ballots).filter(
            |c: Name| !eliminated(ballots).contains(c),
        ),
        candidates(after_elimination(ballots)).len() <= candidates(ballots).len(),
        forall|c: Name| #[trigger]
            eliminated(ballots).contains(c) ==> candidates(ballots).contains(c),
        candidates(ballots).len() > 0 ==> eliminated(ballots).len() > 0 && candidates(
            after_elimination(ballots),
        ).len() < candidates(ballots).len(),
{
    let active = candidates(ballots);
    let gone = eliminated(ballots);
    let stays = |c: Name| !gone.contains(c);
    let rows = tallies(ballots);
    let ranks = rank_count(ballots) as int;
    lemma_candidates_without(ballots, gone);
    active.lemma_filter_len(stays);
    lemma_lowest_at_some(rows, 0);
    lemma_break_tie_some(trailing(ballots), 1, ranks);
    assert forall|c: Name| #[trigger] gone.contains(c) implies active.contains(c) by {
        let k = choose|k: int| 0 <= k < gone.len() && gone[k] == c;
        let row = last_place(ballots)[k];
        assert(last_place(ballots).contains(row));
        assert(trailing(ballots).contains(row));
        assert(rows.contains(row));
        let j = choose|j: int| 0 <= j < rows.len() && rows[j] == row;
        assert(active[j] == c);
    }
    if active.len() > 0 {
        assert(rows.len() > 0);
        let c = gone[0];
        assert(gone.contains(c));
        let i = choose|i: int| 0 <= i < active.len() && active[i] == c;
        lemma_filter_shortens(active, stays, i);
    }
}

/// A ballot that ranks nobody after candidates are struck from it may have
/// ranked somebody before, but never the other way round: the number of
/// ballots that still rank a candidate never grows.
pub proof fn lemma_live_never_grows(ballots: Seq<Ballot>, out: Seq<Name>)
    ensures
        live(without(ballots, out)) <= live(ballots),
    decreases ballots.len(),
{
    if ballots.len() > 0 {
        let front = ballots.drop_last();
        lemma_live_never_grows(front, out);
        assert(without(ballots, out).drop_last() =~= without(front, out));
        assert(without(ballots, out).last() == strike(ballots.last(), out));
        ballots.last().lemma_filter_len(|c: Name| !out.contains(c));
    }
}

/// While every ballot still ranks a candidate, all the ballots count.
pub proof fn lemma_live_counts_all(ballots: Seq<Ballot>)
    requires
        forall|v: int| 0 <= v < ballots.len() ==> (#[trigger] ballots[v]).len() > 0,
    ensures
        live(ballots) == ballots.len(),
    decreases ballots.len(),
{
    if ballots.len() > 0 {
        let front = ballots.drop_last();
        assert forall|v: int| 0 <= v < front.len() implies (#[trigger] front[v]).len() > 0 by {
            assert(front[v] == ballots[v]);
        }
        lemma_live_counts_all(front);
        assert(ballots.last() == ballots[ballots.len() - 1]);
    }
}

/// A well-formed ballot stays well formed when candidates are struck from it.
pub proof fn lemma_strike_keeps_well_formed(ballot: Ballot, out: Seq<Name>)
    requires
        well_formed(ballot),
    ensures
        well_formed(strike(ballot, out)),
    decreases ballot.len(),
{
    let stays = |c: Name| !out.contains(c);
    reveal(Seq::filter);
    if ballot.len() > 0 {
        let front = ballot.drop_last();
        assert forall|i: int, j: int|
            0 <= i < front.len() && 0 <= j < front.len() && i != j implies front[i]
            != front[j] by {
            assert(front[i] == ballot[i] && front[j] == ballot[j]);
        }
        lemma_strike_keeps_well_formed(front, out);
        let kept = front.filter(stays);
        if stays(ballot.last()) {
            if kept.contains(ballot.last()) {
                front.lemma_filter_contains_rev(stays, ballot.last());
                let i = choose|i: int| 0 <= i < front.len() && front[i] == ballot.last();
                assert(ballot[i] == ballot[ballot.len() - 1]);
            }
            let after = kept.push(ballot.last());
            assert forall|i: int, j: int|
                0 <= i < after.len() && 0 <= j < after.len() && i != j implies after[i]
                != after[j] by {
                if i < kept.len() && j < kept.len() {
                    assert(kept[i] != kept[j]);
                } else if i < kept.len() {
                    assert(kept.contains(kept[i]));
                } else if j < kept.len() {
                    assert(kept.contains(kept[j]));
                }
            }
        }
    }
}

} // verus!
