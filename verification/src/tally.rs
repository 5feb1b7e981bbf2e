//! Tallies: for each active candidate, how many ballots give it each rank.

use crate::ballots::{candidates, live, rank_count, ranks_at, votes_at, Ballot, Name};
use crate::candidate::{share, Candidate};
use crate::voter::{ballots_of, Voter};
use std::rc::Rc;
use vstd::prelude::*;

verus! {

/// The tally of one candidate in the model: `counts[r]` ballots give it rank `r`.
pub struct Tally {
    pub candidate: Name,
    pub counts: Seq<int>,
}

/// The tally that a table entry stands for.
pub open spec fn tally_of(entry: (Rc<Candidate>, Vec<usize>)) -> Tally {
    Tally { candidate: entry.0@, counts: Seq::new(entry.1@.len(), |r: int| entry.1@[r] as int) }
}

/// The tallies that a table stands for, in the same order.
pub open spec fn table_of(entries: Seq<(Rc<Candidate>, Vec<usize>)>) -> Seq<Tally> {
    Seq::new(entries.len(), |k: int| tally_of(entries[k]))
}

/// The tally of `candidate` over `ballots`: one count for each rank present.
pub open spec fn tally(ballots: Seq<Ballot>, candidate: Name) -> Tally {
    Tally {
        candidate,
        counts: Seq::new(rank_count(ballots), |r: int| votes_at(ballots, candidate, r) as int),
    }
}

/// The tallies of all active candidates, in the order of `candidates`.
pub open spec fn tallies(ballots: Seq<Ballot>) -> Seq<Tally> {
    Seq::new(candidates(ballots).len(), |k: int| tally(ballots, candidates(ballots)[k]))
}

/// Each candidate of `rows` with its votes at `rank`, in the same order.
pub open spec fn standings(rows: Seq<Tally>, rank: int) -> Seq<(Name, int)> {
    Seq::new(rows.len(), |k: int| (rows[k].candidate, rows[k].counts[rank]))
}

/// The standings that a list of candidates with their votes stands for.
pub open spec fn standings_of(listed: Seq<(Rc<Candidate>, usize)>) -> Seq<(Name, int)> {
    Seq::new(listed.len(), |k: int| (listed[k].0@, listed[k].1 as int))
}

/// The votes at `rank` of the candidates `among`, added up.
pub open spec fn total_at(ballots: Seq<Ballot>, among: Seq<Name>, rank: int) -> nat
    decreases among.len(),
{
    if among.len() == 0 {
        0
    } else {
        total_at(ballots, among.drop_last(), rank) + votes_at(ballots, among.last(), rank)
    }
}

/// No ballot is longer than the number of ranks present.
pub proof fn lemma_rank_count_bounds(ballots: Seq<Ballot>, v: int)
    requires
        0 <= v < ballots.len(),
    ensures
        ballots[v].len() <= rank_count(ballots),
    decreases ballots.len(),
{
    if v < ballots.len() - 1 {
        lemma_rank_count_bounds(ballots.drop_last(), v);
    }
}

/// A candidate gets at most one vote at a rank from each ballot.
pub proof fn lemma_votes_at_most_ballots(ballots: Seq<Ballot>, candidate: Name, rank: int)
    ensures
        votes_at(ballots, candidate, rank) <= ballots.len(),
    decreases ballots.len(),
{
    if ballots.len() > 0 {
        lemma_votes_at_most_ballots(ballots.drop_last(), candidate, rank);
    }
}

/// The ballots before `v`, followed by the first `i` ranks of ballot `v`.
spec fn read_so_far(ballots: Seq<Ballot>, v: int, i: int) -> Seq<Ballot> {
    ballots.take(v).push(ballots[v].take(i))
}

/// Before a ballot's first rank is read, what was read is the ballots before it.
proof fn lemma_read_start(ballots: Seq<Ballot>, v: int, candidate: Name, rank: int)
    requires
        0 <= v < ballots.len(),
    ensures
        candidates(read_so_far(ballots, v, 0)) == candidates(ballots.take(v)),
        votes_at(read_so_far(ballots, v, 0), candidate, rank) == votes_at(
            ballots.take(v),
            candidate,
            rank,
        ),
{
    let read = read_so_far(ballots, v, 0);
    assert(read.drop_last() =~= ballots.take(v));
    assert(read.last().len() == 0);
}

/// Once a ballot's last rank is read, the ballot is among those read.
proof fn lemma_read_end(ballots: Seq<Ballot>, v: int)
    requires
        0 <= v < ballots.len(),
    ensures
        read_so_far(ballots, v, ballots[v].len() as int) == ballots.take(v + 1),
{
    assert(ballots[v].take(ballots[v].len() as int) =~= ballots[v]);
    assert(read_so_far(ballots, v, ballots[v].len() as int) =~= ballots.take(v + 1));
}

/// Reading one more rank of a ballot notes its candidate, if new, and gives that
/// candidate one more vote at that rank.
proof fn lemma_read_step(ballots: Seq<Ballot>, v: int, i: int)
    requires
        0 <= v < ballots.len(),
        0 <= i < ballots[v].len(),
    ensures
        candidates(read_so_far(ballots, v, i + 1)) == if candidates(
            read_so_far(ballots, v, i),
        ).contains(ballots[v][i]) {
            candidates(read_so_far(ballots, v, i))
        } else {
            candidates(read_so_far(ballots, v, i)).push(ballots[v][i])
        },
        forall|c: Name, r: int| #[trigger]
            votes_at(read_so_far(ballots, v, i + 1), c, r) == votes_at(
                read_so_far(ballots, v, i),
                c,
                r,
            ) + if r == i && c == ballots[v][i] {
                1nat
            } else {
                0nat
            },
{
    let before = read_so_far(ballots, v, i);
    let after = read_so_far(ballots, v, i + 1);
    assert(before.drop_last() =~= ballots.take(v));
    assert(after.drop_last() =~= ballots.take(v));
    assert(after.last().drop_last() =~= before.last());
    assert(after.last().last() == ballots[v][i]);
    assert forall|c: Name, r: int| #[trigger]
        votes_at(after, c, r) == votes_at(before, c, r) + if r == i && c == ballots[v][i] {
            1nat
        } else {
            0nat
        } by {
        assert(ranks_at(after.last(), c, r) <==> ranks_at(before.last(), c, r) || (r == i && c
            == ballots[v][i]));
        assert(!(ranks_at(before.last(), c, r) && r == i));
    }
}

/// A row of `width` zero counts.
fn zeros(width: usize) -> (row: Vec<usize>)
    ensures
        row@.len() == width,
        forall|r: int| 0 <= r < width ==> row@[r] == 0,
{
    let mut row: Vec<usize> = Vec::new();
    while row.len() < width
        invariant
            row@.len() <= width,
            forall|r: int| 0 <= r < row@.len() ==> row@[r] == 0,
        decreases width - row@.len(),
    {
        row.push(0);
    }
    row
}

/// The length of the longest ballot.
fn longest_ballot(voters: &Vec<Voter>) -> (width: usize)
    ensures
        width == rank_count(ballots_of(voters@)),
{
    let ghost ballots = ballots_of(voters@);
    let mut width: usize = 0;
    let mut v: usize = 0;
    while v < voters.len()
        invariant
            v <= voters.len(),
            ballots == ballots_of(voters@),
            width == rank_count(ballots.take(v as int)),
        decreases voters.len() - v,
    {
        proof {
            assert(ballots.take(v + 1).drop_last() =~= ballots.take(v as int));
            assert(ballots.take(v + 1).last() == ballots[v as int]);
        }
        if voters[v].votes.len() > width {
            width = voters[v].votes.len();
        }
        v += 1;
    }
    proof {
        assert(ballots.take(v as int) =~= ballots);
    }
    width
}

/// The index of the first entry of `table` for `candidate`, if it has one.
fn entry_of(table: &Vec<(Rc<Candidate>, Vec<usize>)>, candidate: &Candidate) -> (found:
    Option<usize>)
    ensures
        match found {
            Some(k) => k < table@.len() && table@[k as int].0@ == candidate@ && forall|j: int|
                0 <= j < k ==> table@[j].0@ != candidate@,
            None => forall|j: int| 0 <= j < table@.len() ==> table@[j].0@ != candidate@,
        },
{
    let mut k: usize = 0;
    while k < table.len()
        invariant
            k <= table@.len(),
            forall|j: int| 0 <= j < k ==> table@[j].0@ != candidate@,
        decreases table@.len() - k,
    {
        if *table[k].0 == *candidate {
            return Some(k);
        }
        k += 1;
    }
    None
}

/// Counts, for every candidate that some ballot ranks and for every rank present,
/// the ballots that give the candidate that rank. The entries come in the order
/// in which the candidates first appear, reading the ballots front to back.
pub fn get_candidate_tallies(voters: &Vec<Voter>) -> (table: Vec<(Rc<Candidate>, Vec<usize>)>)
    ensures
        table_of(table@) == tallies(ballots_of(voters@)),
{
    let ghost ballots = ballots_of(voters@);
    let width = longest_ballot(voters);
    let mut table: Vec<(Rc<Candidate>, Vec<usize>)> = Vec::new();
    let mut v: usize = 0;
    while v < voters.len()
        invariant
            v <= voters.len(),
            ballots == ballots_of(voters@),
            width == rank_count(ballots),
            table@.len() == candidates(ballots.take(v as int)).len(),
            forall|k: int|
                0 <= k < table@.len() ==> (#[trigger] table@[k]).0@ == candidates(
                    ballots.take(v as int),
                )[k] && table@[k].1@.len() == width,
            forall|k: int, r: int|
                0 <= k < table@.len() && 0 <= r < width ==> #[trigger] table@[k].1@[r] == votes_at(
                    ballots.take(v as int),
                    table@[k].0@,
                    r,
                ),
        decreases voters.len() - v,
    {
        let voter = &voters[v];
        let ghost ballot = ballots[v as int];
        proof {
            lemma_rank_count_bounds(ballots, v as int);
            assert forall|k: int, r: int| 0 <= k < table@.len() && 0 <= r < width implies (
            #[trigger] table@[k].1@[r]) == votes_at(
                read_so_far(ballots, v as int, 0),
                table@[k].0@,
                r,
            ) by {
                lemma_read_start(ballots, v as int, table@[k].0@, r);
            }
            lemma_read_start(ballots, v as int, Seq::empty(), 0);
        }
        let mut i: usize = 0;
        while i < voter.votes.len()
            invariant
                v < voters.len(),
                i <= voter.votes@.len(),
                voter == &voters@[v as int],
                ballots == ballots_of(voters@),
                ballot == ballots[v as int],
                ballot.len() == voter.votes@.len(),
                ballot.len() <= width,
                table@.len() == candidates(read_so_far(ballots, v as int, i as int)).len(),
                forall|k: int|
                    0 <= k < table@.len() ==> (#[trigger] table@[k]).0@ == candidates(
                        read_so_far(ballots, v as int, i as int),
                    )[k] && table@[k].1@.len() == width,
                forall|k: int, r: int|
                    0 <= k < table@.len() && 0 <= r < width ==> #[trigger] table@[k].1@[r]
                        == votes_at(read_so_far(ballots, v as int, i as int), table@[k].0@, r),
            decreases voter.votes@.len() - i,
        {
            let vote = &voter.votes[i];
            let ghost before = read_so_far(ballots, v as int, i as int);
            let ghost known = candidates(before);
            let ghost old_table = table@;
            proof {
                assert(ballot[i as int] == vote@);
                lemma_read_step(ballots, v as int, i as int);
            }
            match entry_of(&table, vote) {
                Some(k) => {
                    proof {
                        assert(known[k as int] == vote@);
                        assert(known.contains(vote@));
                        assert(before.drop_last() =~= ballots.take(v as int));
                        assert(!ranks_at(before.last(), vote@, i as int));
                        lemma_votes_at_most_ballots(ballots.take(v as int), vote@, i as int);
                    }
                    table[k].1[i] += 1;
                    proof {
                        assert forall|j: int| 0 <= j < table@.len() implies (#[trigger] table@[j]).0@
                            == known[j] && table@[j].1@.len() == width by {
                            assert(old_table[j].0@ == known[j]);
                        }
                        assert forall|j: int, r: int|
                            0 <= j < table@.len() && 0 <= r < width implies #[trigger] table@[j].1@[r]
                            == votes_at(
                            read_so_far(ballots, v as int, i + 1),
                            table@[j].0@,
                            r,
                        ) by {
                            assert(old_table[j].1@[r] == votes_at(before, old_table[j].0@, r));
                            if j != k {
                                assert(old_table[j].0@ == known[j]);
                                crate::ballots::lemma_candidates_distinct(before);
                            }
                        }
                    }
                },
                None => {
                    let mut row = zeros(width);
                    row[i] = 1;
                    proof {
                        assert(!known.contains(vote@)) by {
                            if known.contains(vote@) {
                                let j = choose|j: int| 0 <= j < known.len() && known[j] == vote@;
                                assert(old_table[j].0@ == known[j]);
                            }
                        }
                        assert forall|r: int| 0 <= r < width implies #[trigger] row@[r] == votes_at(
                            read_so_far(ballots, v as int, i + 1),
                            vote@,
                            r,
                        ) by {
                            lemma_unseen_has_no_votes(before, vote@, r);
                        }
                    }
                    table.push((share(vote), row));
                    proof {
                        assert forall|j: int| 0 <= j < table@.len() implies (#[trigger] table@[j]).0@
                            == known.push(vote@)[j] && table@[j].1@.len() == width by {
                            if j < old_table.len() {
                                assert(old_table[j].0@ == known[j]);
                            }
                        }
                        assert forall|j: int, r: int|
                            0 <= j < table@.len() && 0 <= r < width implies #[trigger] table@[j].1@[r]
                            == votes_at(
                            read_so_far(ballots, v as int, i + 1),
                            table@[j].0@,
                            r,
                        ) by {
                            if j < old_table.len() {
                                assert(old_table[j].1@[r] == votes_at(before, old_table[j].0@, r));
                                assert(old_table[j].0@ == known[j]);
                                assert(known.contains(known[j]));
                            }
                        }
                    }
                },
            }
            i += 1;
        }
        proof {
            lemma_read_end(ballots, v as int);
        }
        v += 1;
    }
    proof {
        assert(ballots.take(v as int) =~= ballots);
        assert forall|k: int| 0 <= k < table@.len() implies #[trigger] table_of(table@)[k]
            == tallies(ballots)[k] by {
            assert(table@[k].0@ == candidates(ballots)[k]);
            assert forall|r: int| 0 <= r < width implies tally_of(table@[k]).counts[r] == tally(
                ballots,
                candidates(ballots)[k],
            ).counts[r] by {
                assert(table@[k].1@[r] == votes_at(ballots, table@[k].0@, r));
            }
            assert(tally_of(table@[k]).counts =~= tally(ballots, candidates(ballots)[k]).counts);
        }
        assert(table_of(table@) =~= tallies(ballots));
    }
    table
}

/// A candidate that no ballot ranks has no votes at any rank.
pub proof fn lemma_unseen_has_no_votes(ballots: Seq<Ballot>, candidate: Name, rank: int)
    requires
        !candidates(ballots).contains(candidate),
    ensures
        votes_at(ballots, candidate, rank) == 0,
    decreases ballots.len(),
{
    if ballots.len() > 0 {
        let front = ballots.drop_last();
        crate::ballots::lemma_with_ballot(candidates(front), ballots.last());
        lemma_unseen_has_no_votes(front, candidate, rank);
        if ranks_at(ballots.last(), candidate, rank) {
            assert(ballots.last().contains(candidate));
        }
    }
}

/// What a table that stands for the tallies of `ballots` holds at entry `k`.
pub proof fn lemma_table_entry(
    table: Seq<(Rc<Candidate>, Vec<usize>)>,
    ballots: Seq<Ballot>,
    k: int,
)
    requires
        table_of(table) == tallies(ballots),
        0 <= k < table.len(),
    ensures
        table.len() == candidates(ballots).len(),
        table[k].0@ == candidates(ballots)[k],
        table[k].1@.len() == rank_count(ballots),
        rank_count(ballots) > 0,
        forall|r: int|
            0 <= r < rank_count(ballots) ==> #[trigger] table[k].1@[r] == votes_at(
                ballots,
                candidates(ballots)[k],
                r,
            ),
{
    assert(table_of(table).len() == table.len());
    assert(tallies(ballots).len() == candidates(ballots).len());
    assert(table_of(table)[k] == tallies(ballots)[k]);
    assert(table_of(table)[k].counts.len() == table[k].1@.len());
    assert(tallies(ballots)[k].counts.len() == rank_count(ballots));
    lemma_active_means_ranks(ballots);
    assert forall|r: int| 0 <= r < rank_count(ballots) implies #[trigger] table[k].1@[r]
        == votes_at(ballots, candidates(ballots)[k], r) by {
        assert(table_of(table)[k].counts[r] == table[k].1@[r] as int);
        assert(tallies(ballots)[k].counts[r] == votes_at(ballots, candidates(ballots)[k], r) as int);
    }
}

/// Where a ballot ranks a candidate there is at least one rank.
pub proof fn lemma_active_means_ranks(ballots: Seq<Ballot>)
    requires
        candidates(ballots).len() > 0,
    ensures
        rank_count(ballots) > 0,
{
    let c = candidates(ballots)[0];
    assert(candidates(ballots).contains(c));
    crate::ballots::lemma_candidates_ranked(ballots, c);
    let v = choose|v: int| 0 <= v < ballots.len() && #[trigger] ballots[v].contains(c);
    lemma_rank_count_bounds(ballots, v);
}

/// Each entry's candidate with its votes at `rank`, in table order.
pub(crate) fn standings_at(table: &Vec<(Rc<Candidate>, Vec<usize>)>, rank: usize) -> (listed: Vec<
    (Rc<Candidate>, usize),
>)
    requires
        forall|k: int| 0 <= k < table@.len() ==> rank < (#[trigger] table@[k]).1@.len(),
    ensures
        standings_of(listed@) == standings(table_of(table@), rank as int),
{
    let mut listed: Vec<(Rc<Candidate>, usize)> = Vec::new();
    let mut k: usize = 0;
    while k < table.len()
        invariant
            k <= table@.len(),
            listed@.len() == k,
            forall|j: int| 0 <= j < table@.len() ==> rank < (#[trigger] table@[j]).1@.len(),
            forall|j: int|
                0 <= j < k ==> (#[trigger] listed@[j]).0@ == table@[j].0@ && listed@[j].1
                    == table@[j].1@[rank as int],
        decreases table@.len() - k,
    {
        listed.push((share(&table[k].0), table[k].1[rank]));
        k += 1;
    }
    proof {
        assert(standings_of(listed@) =~= standings(table_of(table@), rank as int));
    }
    listed
}

/// The first-preference votes of every active candidate, in tally order, for
/// display.
pub fn show_tallies(voters: &Vec<Voter>) -> (listed: Vec<(Rc<Candidate>, usize)>)
    ensures
        standings_of(listed@) == standings(tallies(ballots_of(voters@)), 0),
{
    let table = get_candidate_tallies(voters);
    proof {
        let ballots = ballots_of(voters@);
        if table@.len() > 0 {
            assert(tallies(ballots).len() == table_of(table@).len());
            lemma_active_means_ranks(ballots);
        }
        assert forall|k: int| 0 <= k < table@.len() implies 0 < (#[trigger] table@[k]).1@.len() by {
            assert(table_of(table@)[k].counts.len() == rank_count(ballots));
        }
    }
    standings_at(&table, 0)
}

/// How many of the candidates `among` the ballot `ballot` ranks at `rank`.
spec fn hits(among: Seq<Name>, ballot: Ballot, rank: int) -> nat
    decreases among.len(),
{
    if among.len() == 0 {
        0
    } else {
        hits(among.drop_last(), ballot, rank) + if ranks_at(ballot, among.last(), rank) {
            1nat
        } else {
            0nat
        }
    }
}

/// The votes over all ballots are those over all but the last, and what the
/// last ballot adds.
proof fn lemma_total_split(ballots: Seq<Ballot>, among: Seq<Name>, rank: int)
    requires
        ballots.len() > 0,
    ensures
        total_at(ballots, among, rank) == total_at(ballots.drop_last(), among, rank) + hits(
            among,
            ballots.last(),
            rank,
        ),
    decreases among.len(),
{
    if among.len() > 0 {
        lemma_total_split(ballots, among.drop_last(), rank);
    }
}

/// A ballot ranks at most one of several distinct candidates at a rank: the one
/// it has there, if that one is among them.
proof fn lemma_hits(among: Seq<Name>, ballot: Ballot, rank: int)
    ensures
        !(0 <= rank < ballot.len() && among.contains(ballot[rank])) ==> hits(among, ballot, rank)
            == 0,
        0 <= rank < ballot.len() && among.contains(ballot[rank]) && among.no_duplicates() ==> hits(
            among,
            ballot,
            rank,
        ) == 1,
    decreases among.len(),
{
    if among.len() > 0 {
        let front = among.drop_last();
        lemma_hits(front, ballot, rank);
        if 0 <= rank < ballot.len() {
            let c = ballot[rank];
            if front.contains(c) {
                let i = choose|i: int| 0 <= i < front.len() && front[i] == c;
                assert(among[i] == c);
            }
            if among.last() == c {
                assert(among[among.len() - 1] == c);
            }
            if among.contains(c) && among.last() != c {
                let i = choose|i: int| 0 <= i < among.len() && among[i] == c;
                assert(front[i] == c);
            }
            if among.no_duplicates() {
                assert forall|i: int, j: int|
                    0 <= i < front.len() && 0 <= j < front.len() && i != j implies front[i]
                    != front[j] by {
                    assert(front[i] == among[i] && front[j] == among[j]);
                }
                if among.last() == c && front.contains(c) {
                    let i = choose|i: int| 0 <= i < front.len() && front[i] == c;
                    assert(among[i] == among[among.len() - 1]);
                }
            }
        }
    }
}

/// Candidates that no ballot ranks add nothing to a total.
proof fn lemma_total_of_unseen(ballots: Seq<Ballot>, among: Seq<Name>, n: int, rank: int)
    requires
        0 <= n <= among.len(),
        forall|j: int| n <= j < among.len() ==> !candidates(ballots).contains(#[trigger] among[j]),
    ensures
        total_at(ballots, among, rank) == total_at(ballots, among.take(n), rank),
    decreases among.len() - n,
{
    if n < among.len() {
        let front = among.drop_last();
        assert(among.last() == among[among.len() - 1]);
        lemma_unseen_has_no_votes(ballots, among.last(), rank);
        assert forall|j: int| n <= j < front.len() implies !candidates(ballots).contains(
            #[trigger] front[j],
        ) by {
            assert(front[j] == among[j]);
        }
        lemma_total_of_unseen(ballots, front, n, rank);
        assert(front.take(n) =~= among.take(n));
    } else {
        assert(among.take(n) =~= among);
    }
}

/// Conservation: the first-preference votes of the active candidates add up to
/// the number of ballots that still rank at least one candidate.
pub proof fn lemma_first_preferences_add_up(ballots: Seq<Ballot>)
    ensures
        total_at(ballots, candidates(ballots), 0) == live(ballots),
    decreases ballots.len(),
{
    if ballots.len() > 0 {
        let front = ballots.drop_last();
        let all = candidates(ballots);
        let base = candidates(front);
        lemma_first_preferences_add_up(front);
        crate::ballots::lemma_with_ballot(base, ballots.last());
        crate::ballots::lemma_candidates_distinct(ballots);
        lemma_total_split(ballots, all, 0);
        assert forall|j: int| base.len() <= j < all.len() implies !base.contains(
            #[trigger] all[j],
        ) by {
            if base.contains(all[j]) {
                let i = choose|i: int| 0 <= i < base.len() && base[i] == all[j];
                assert(all[i] == base[i]);
            }
        }
        lemma_total_of_unseen(front, all, base.len() as int, 0);
        assert(all.take(base.len() as int) =~= base);
        lemma_hits(all, ballots.last(), 0);
        if ballots.last().len() > 0 {
            assert(ballots.last().contains(ballots.last()[0]));
        }
    }
}

/// The votes of some of the candidates are no more than the votes of all of them.
pub proof fn lemma_total_grows(ballots: Seq<Ballot>, among: Seq<Name>, n: int, rank: int)
    requires
        0 <= n <= among.len(),
    ensures
        total_at(ballots, among.take(n), rank) <= total_at(ballots, among, rank),
    decreases among.len() - n,
{
    if n < among.len() {
        lemma_total_grows(ballots, among.drop_last(), n, rank);
        assert(among.drop_last().take(n) =~= among.take(n));
    } else {
        assert(among.take(n) =~= among);
    }
}

/// No more ballots rank a candidate than there are ballots.
pub proof fn lemma_live_at_most_ballots(ballots: Seq<Ballot>)
    ensures
        live(ballots) <= ballots.len(),
    decreases ballots.len(),
{
    if ballots.len() > 0 {
        lemma_live_at_most_ballots(ballots.drop_last());
    }
}

} // verus!
