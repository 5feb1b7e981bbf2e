//! Choosing among tied candidates by their counts at successive ranks.

use crate::ballots::Name;
use crate::candidate::Candidate;
use crate::tally::{standings, standings_of, standings_at, table_of, tally_of, Tally};
use std::rc::Rc;
use vstd::prelude::*;

verus! {

/// Whether every tally of `rows` has exactly `ranks` counts.
pub open spec fn uniform(rows: Seq<Tally>, ranks: int) -> bool {
    forall|k: int| 0 <= k < rows.len() ==> (#[trigger] rows[k]).counts.len() == ranks
}

/// The number of ranks that `rows` have counts for: as many as the first tally
/// has.
pub open spec fn width(rows: Seq<Tally>) -> int {
    if rows.len() == 0 {
        0
    } else {
        rows[0].counts.len() as int
    }
}

/// Whether no tally of `rows` has fewer votes at `rank` than `row` has.
pub open spec fn is_lowest_at(rows: Seq<Tally>, row: Tally, rank: int) -> bool {
    forall|j: int| 0 <= j < rows.len() ==> row.counts[rank] <= (#[trigger] rows[j]).counts[rank]
}

/// The tallies of `rows` with the fewest votes at `rank`, in their order.
pub open spec fn lowest_at(rows: Seq<Tally>, rank: int) -> Seq<Tally> {
    rows.filter(|row: Tally| is_lowest_at(rows, row, rank))
}

/// The tied tallies `rows` narrowed rank by rank, from `rank` on: at each rank
/// only those with the fewest votes stay. It ends when one tally is left or when
/// the `ranks` ranks are used up; whatever is left then is still tied.
pub open spec fn break_tie(rows: Seq<Tally>, rank: int, ranks: int) -> Seq<Tally>
    decreases ranks - rank,
{
    if rows.len() <= 1 || rank >= ranks {
        rows
    } else {
        break_tie(lowest_at(rows, rank), rank + 1, ranks)
    }
}

/// The standings of the rounds that `break_tie` goes through, in order.
pub open spec fn tie_rounds(rows: Seq<Tally>, rank: int, ranks: int) -> Seq<Seq<(Name, int)>>
    decreases ranks - rank,
{
    if rows.len() <= 1 || rank >= ranks {
        Seq::empty()
    } else {
        seq![standings(rows, rank)] + tie_rounds(lowest_at(rows, rank), rank + 1, ranks)
    }
}

/// The standings that recorded rounds stand for, in order.
pub open spec fn rounds_of(rounds: Seq<Vec<(Rc<Candidate>, usize)>>) -> Seq<Seq<(Name, int)>> {
    Seq::new(rounds.len(), |k: int| standings_of(rounds[k]@))
}

/// Narrowing keeps tallies of the table it narrows, so their widths stay.
pub proof fn lemma_lowest_at_uniform(rows: Seq<Tally>, rank: int, ranks: int)
    requires
        uniform(rows, ranks),
    ensures
        uniform(lowest_at(rows, rank), ranks),
        lowest_at(rows, rank).len() <= rows.len(),
{
    let pred = |row: Tally| is_lowest_at(rows, row, rank);
    let kept = rows.filter(pred);
    rows.lemma_filter_len(pred);
    assert forall|k: int| 0 <= k < kept.len() implies (#[trigger] kept[k]).counts.len()
        == ranks by {
        rows.lemma_filter_contains_rev(pred, kept[k]);
        let j = choose|j: int| 0 <= j < rows.len() && rows[j] == kept[k];
        assert(rows[j].counts.len() == ranks);
    }
}

/// The fewest votes that any entry of `table` has at `rank`.
fn fewest_at(table: &Vec<(Rc<Candidate>, Vec<usize>)>, rank: usize) -> (fewest: usize)
    requires
        table@.len() > 0,
        forall|k: int| 0 <= k < table@.len() ==> rank < (#[trigger] table@[k]).1@.len(),
    ensures
        exists|k: int| 0 <= k < table@.len() && (#[trigger] table@[k]).1@[rank as int] == fewest,
        forall|k: int| 0 <= k < table@.len() ==> fewest <= (#[trigger] table@[k]).1@[rank as int],
{
    let mut fewest = table[0].1[rank];
    let mut k: usize = 1;
    while k < table.len()
        invariant
            1 <= k <= table@.len(),
            forall|j: int| 0 <= j < table@.len() ==> rank < (#[trigger] table@[j]).1@.len(),
            exists|j: int| 0 <= j < k && (#[trigger] table@[j]).1@[rank as int] == fewest,
            forall|j: int| 0 <= j < k ==> fewest <= (#[trigger] table@[j]).1@[rank as int],
        decreases table@.len() - k,
    {
        if table[k].1[rank] < fewest {
            fewest = table[k].1[rank];
        }
        k += 1;
    }
    fewest
}

/// Drops from `table` every entry that has more votes at `rank` than some other.
pub(crate) fn keep_lowest(table: &mut Vec<(Rc<Candidate>, Vec<usize>)>, rank: usize)
    requires
        forall|k: int| 0 <= k < old(table)@.len() ==> rank < (#[trigger] old(table)@[k]).1@.len(),
    ensures
        table_of(final(table)@) == lowest_at(table_of(old(table)@), rank as int),
{
    let ghost rows = table_of(table@);
    let ghost pred = |row: Tally| is_lowest_at(rows, row, rank as int);
    if table.len() == 0 {
        proof {
            reveal(Seq::filter);
            assert(rows.filter(pred) =~= rows);
        }
        return ;
    }
    let fewest = fewest_at(table, rank);
    let ghost entries = table@;
    let mut kept: usize = 0;
    let ghost mut seen: int = 0;
    proof {
        assert(rows.take(0) =~= Seq::<Tally>::empty());
        reveal(Seq::filter);
        assert(rows.skip(0) =~= rows);
        assert(rows.take(0).filter(pred) + rows.skip(0) =~= rows);
    }
    while kept < table.len()
        invariant
            rows == table_of(entries),
            pred == |row: Tally| is_lowest_at(rows, row, rank as int),
            0 <= seen <= entries.len(),
            kept <= table@.len(),
            table@.len() - kept == entries.len() - seen,
            table_of(table@) == rows.take(seen).filter(pred) + rows.skip(seen),
            rows.take(seen).filter(pred).len() == kept,
            forall|k: int| 0 <= k < entries.len() ==> rank < (#[trigger] entries[k]).1@.len(),
            forall|k: int| kept <= k < table@.len() ==> table@[k] == entries[k - kept + seen],
            exists|k: int| 0 <= k < entries.len() && (#[trigger] entries[k]).1@[rank as int] == fewest,
            forall|k: int| 0 <= k < entries.len() ==> fewest <= (#[trigger] entries[k]).1@[rank as int],
        decreases table@.len() - kept,
    {
        let ghost before = table@;
        let ghost front = rows.take(seen).filter(pred);
        proof {
            assert(table@[kept as int] == entries[seen]);
            assert(rows.take(seen + 1) =~= rows.take(seen).push(rows[seen]));
            rows.take(seen).lemma_filter_push(rows[seen], pred);
            assert(rows[seen] == tally_of(entries[seen]));
            let witness = choose|k: int|
                0 <= k < entries.len() && (#[trigger] entries[k]).1@[rank as int] == fewest;
            assert(rows[witness].counts[rank as int] == fewest);
            assert(pred(rows[seen]) <==> entries[seen].1@[rank as int] == fewest) by {
                if entries[seen].1@[rank as int] == fewest {
                    assert forall|j: int| 0 <= j < rows.len() implies rows[seen].counts[rank as int]
                        <= (#[trigger] rows[j]).counts[rank as int] by {
                        assert(rows[j] == tally_of(entries[j]));
                    }
                }
            }
        }
        if table[kept].1[rank] == fewest {
            kept += 1;
            proof {
                assert(table_of(table@) =~= rows.take(seen + 1).filter(pred) + rows.skip(seen + 1));
            }
        } else {
            table.remove(kept);
            proof {
                assert(table_of(table@) =~= table_of(before).remove(kept as int));
                assert(table_of(table@) =~= rows.take(seen + 1).filter(pred) + rows.skip(seen + 1));
            }
        }
        proof {
            seen = seen + 1;
        }
    }
    proof {
        assert(seen == entries.len());
        assert(rows.take(seen) =~= rows);
        assert(rows.skip(seen) =~= Seq::<Tally>::empty());
        assert(table_of(table@) =~= rows.filter(pred));
    }
}

/// Breaks a tie for last place. Starting at the second preference, each round
/// keeps only the tied candidates with the fewest votes at that rank; it ends
/// when one candidate is left or no rank is left, and then all that remain are
/// eliminated together. The rounds gone through are returned for display.
pub fn loser_tie_breaker(candidate_tallies: &mut Vec<(Rc<Candidate>, Vec<usize>)>) -> (rounds: Vec<
    Vec<(Rc<Candidate>, usize)>,
>)
    requires
        uniform(table_of(old(candidate_tallies)@), width(table_of(old(candidate_tallies)@))),
    ensures
        table_of(final(candidate_tallies)@) == break_tie(
            table_of(old(candidate_tallies)@),
            1,
            width(table_of(old(candidate_tallies)@)),
        ),
        rounds_of(rounds@) == tie_rounds(
            table_of(old(candidate_tallies)@),
            1,
            width(table_of(old(candidate_tallies)@)),
        ),
{
    let mut rounds: Vec<Vec<(Rc<Candidate>, usize)>> = Vec::new();
    if candidate_tallies.len() == 0 {
        proof {
            assert(rounds_of(rounds@) =~= Seq::<Seq<(Name, int)>>::empty());
        }
        return rounds;
    }
    let ranks = candidate_tallies[0].1.len();
    let ghost start = table_of(candidate_tallies@);
    let mut rank: usize = 1;
    proof {
        assert(start[0].counts.len() == ranks);
        assert(rounds_of(rounds@) =~= Seq::<Seq<(Name, int)>>::empty());
    }
    while rank < ranks && candidate_tallies.len() > 1
        invariant
            1 <= rank,
            uniform(table_of(candidate_tallies@), ranks as int),
            break_tie(table_of(candidate_tallies@), rank as int, ranks as int) == break_tie(
                start,
                1,
                ranks as int,
            ),
            rounds_of(rounds@) + tie_rounds(table_of(candidate_tallies@), rank as int, ranks as int)
                == tie_rounds(start, 1, ranks as int),
        decreases ranks - rank,
    {
        let ghost rows = table_of(candidate_tallies@);
        let ghost recorded = rounds_of(rounds@);
        proof {
            assert forall|k: int| 0 <= k < candidate_tallies@.len() implies rank < (
            #[trigger] candidate_tallies@[k]).1@.len() by {
                assert(rows[k].counts.len() == ranks);
            }
        }
        let round = standings_at(candidate_tallies, rank);
        rounds.push(round);
        keep_lowest(candidate_tallies, rank);
        proof {
            lemma_lowest_at_uniform(rows, rank as int, ranks as int);
            assert(rounds_of(rounds@) =~= recorded.push(standings(rows, rank as int)));
            assert(rounds_of(rounds@) + tie_rounds(
                lowest_at(rows, rank as int),
                rank + 1,
                ranks as int,
            ) =~= recorded + tie_rounds(rows, rank as int, ranks as int));
        }
        rank += 1;
    }
    proof {
        assert(tie_rounds(table_of(candidate_tallies@), rank as int, ranks as int)
            =~= Seq::<Seq<(Name, int)>>::empty());
        assert(rounds_of(rounds@) =~= tie_rounds(start, 1, ranks as int));
    }
    rounds
}

/// Narrowing two tallies keeps the one with fewer votes at the rank, or both
/// where they have equally many.
pub proof fn lemma_lowest_of_two(one: Tally, other: Tally, rank: int)
    ensures
        lowest_at(seq![one, other], rank) == if one.counts[rank] < other.counts[rank] {
            seq![one]
        } else if other.counts[rank] < one.counts[rank] {
            seq![other]
        } else {
            seq![one, other]
        },
{
    let rows = seq![one, other];
    let pred = |row: Tally| is_lowest_at(rows, row, rank);
    let none = Seq::<Tally>::empty();
    reveal(Seq::filter);
    assert(none.filter(pred) =~= none);
    none.lemma_filter_push(one, pred);
    none.push(one).lemma_filter_push(other, pred);
    assert(none.push(one).push(other) =~= rows);
    assert(rows[0] == one && rows[1] == other);
    assert(pred(one) <==> one.counts[rank] <= other.counts[rank]);
    assert(pred(other) <==> other.counts[rank] <= one.counts[rank]);
    assert(none.push(one) =~= seq![one]);
    assert(none.push(other) =~= seq![other]);
}

/// Tie-break determinism for two tied candidates: the ranks are gone through
/// from `from` on, and at the first rank `decisive` at which the two differ, the
/// one with fewer votes is singled out for elimination. Where they are tied at
/// every rank (`decisive` is `ranks`), both stay, to be eliminated together.
pub proof fn lemma_tie_of_two(one: Tally, other: Tally, from: int, ranks: int, decisive: int)
    requires
        0 <= from <= decisive <= ranks,
        forall|r: int| from <= r < decisive ==> one.counts[r] == other.counts[r],
    ensures
        decisive == ranks ==> break_tie(seq![one, other], from, ranks) == seq![one, other],
        decisive < ranks && one.counts[decisive] < other.counts[decisive] ==> break_tie(
            seq![one, other],
            from,
            ranks,
        ) == seq![one],
        decisive < ranks && other.counts[decisive] < one.counts[decisive] ==> break_tie(
            seq![one, other],
            from,
            ranks,
        ) == seq![other],
    decreases decisive - from,
{
    assert(seq![one, other].len() == 2);
    if from < ranks {
        lemma_lowest_of_two(one, other, from);
        if from < decisive {
            lemma_tie_of_two(one, other, from + 1, ranks, decisive);
        } else {
            assert(break_tie(seq![one], from + 1, ranks) == seq![one]);
            assert(break_tie(seq![other], from + 1, ranks) == seq![other]);
        }
    }
}

/// Tallies that agree at a rank all stay when that rank narrows them.
pub proof fn lemma_lowest_of_equals(rows: Seq<Tally>, rank: int)
    requires
        forall|k: int, j: int|
            0 <= k < rows.len() && 0 <= j < rows.len() ==> (#[trigger] rows[k]).counts[rank] == (
            #[trigger] rows[j]).counts[rank],
    ensures
        lowest_at(rows, rank) == rows,
{
    let pred = |row: Tally| is_lowest_at(rows, row, rank);
    assert forall|n: int| 0 <= n <= rows.len() implies #[trigger] rows.take(n).filter(pred)
        == rows.take(n) by {
        lemma_filter_keeps(rows, pred, n);
    }
    assert(rows.take(rows.len() as int) =~= rows);
}

/// A filter that every tally passes keeps every prefix as it is.
proof fn lemma_filter_keeps(rows: Seq<Tally>, pred: spec_fn(Tally) -> bool, n: int)
    requires
        0 <= n <= rows.len(),
        forall|k: int| 0 <= k < rows.len() ==> pred(#[trigger] rows[k]),
    ensures
        rows.take(n).filter(pred) == rows.take(n),
    decreases n,
{
    reveal(Seq::filter);
    if n > 0 {
        lemma_filter_keeps(rows, pred, n - 1);
        assert(rows.take(n).drop_last() =~= rows.take(n - 1));
        assert(rows.take(n).last() == rows[n - 1]);
        assert(rows.take(n) =~= rows.take(n - 1).push(rows[n - 1]));
    } else {
        assert(rows.take(0).filter(pred) =~= rows.take(0));
    }
}

/// Tallies that agree at every rank from `rank` on are still all tied when the
/// tie-break ends.
pub proof fn lemma_tie_of_equals(rows: Seq<Tally>, rank: int, ranks: int)
    requires
        0 <= rank,
        forall|k: int, j: int, r: int|
            0 <= k < rows.len() && 0 <= j < rows.len() && rank <= r < ranks
                ==> #[trigger] rows[k].counts[r] == #[trigger] rows[j].counts[r],
    ensures
        break_tie(rows, rank, ranks) == rows,
    decreases ranks - rank,
{
    if rows.len() > 1 && rank < ranks {
        lemma_lowest_of_equals(rows, rank);
        lemma_tie_of_equals(rows, rank + 1, ranks);
    }
}

} // verus!
