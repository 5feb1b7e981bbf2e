use instant_runoff::{
    check_for_majority, eliminate, get_candidate_tallies, loser_tie_breaker, remove_last_place_candidate,
    show_tallies, tabulate, Candidate, Outcome, Step, Voter,
};
use std::rc::Rc;

fn cast(ranking: &[&str]) -> Voter {
    let votes = ranking.iter().map(|name| Rc::new(Candidate::new(name))).collect();
    Voter::new("someone".to_string(), votes)
}

fn casts(ballots: &[(&[&str], usize)]) -> Vec<Voter> {
    let mut voters = Vec::new();
    for (ranking, copies) in ballots {
        for _ in 0..*copies {
            voters.push(cast(ranking));
        }
    }
    voters
}

fn entry(name: &str, counts: &[usize]) -> (Rc<Candidate>, Vec<usize>) {
    (Rc::new(Candidate::new(name)), counts.to_vec())
}

fn shown(table: &[(Rc<Candidate>, Vec<usize>)]) -> Vec<(String, Vec<usize>)> {
    table.iter().map(|(c, counts)| (c.name.clone(), counts.clone())).collect()
}

fn standings(listed: &[(Rc<Candidate>, usize)]) -> Vec<(String, usize)> {
    listed.iter().map(|(c, votes)| (c.name.clone(), *votes)).collect()
}

fn named(candidates: &[Rc<Candidate>]) -> Vec<String> {
    candidates.iter().map(|c| c.name.clone()).collect()
}

fn text(name: &str, counts: &[usize]) -> (String, Vec<usize>) {
    (name.to_string(), counts.to_vec())
}

fn pair(name: &str, votes: usize) -> (String, usize) {
    (name.to_string(), votes)
}

#[test]
fn candidates_are_the_same_by_name() {
    let ada = Candidate::new("Ada");
    assert!(ada == Candidate::new("Ada"));
    assert!(ada != Candidate::new("Bo"));
    assert!(ada.clone() == ada);
    assert_eq!(ada.clone().name, "Ada");
}

#[test]
fn vote_ranks_below_earlier_votes() {
    let mut voter = Voter::new("Zoe".to_string(), Vec::new());
    voter.vote(Rc::new(Candidate::new("Ada")));
    voter.vote(Rc::new(Candidate::new("Bo")));
    assert_eq!(voter.name, "Zoe");
    assert_eq!(named(&voter.votes), vec!["Ada".to_string(), "Bo".to_string()]);
}

#[test]
fn tallies_list_candidates_in_order_of_first_appearance() {
    let voters = casts(&[(&["B", "A"], 1), (&["C"], 1), (&["A", "C", "B"], 1)]);
    let table = get_candidate_tallies(&voters);
    assert_eq!(
        shown(&table),
        vec![text("B", &[1, 0, 1]), text("A", &[1, 1, 0]), text("C", &[1, 1, 0])]
    );
    assert!(Rc::ptr_eq(&table[0].0, &voters[0].votes[0]));
    assert!(Rc::ptr_eq(&table[2].0, &voters[1].votes[0]));
}

#[test]
fn tallies_of_nothing_are_empty() {
    assert!(get_candidate_tallies(&Vec::new()).is_empty());
    assert!(get_candidate_tallies(&casts(&[(&[], 2)])).is_empty());
    assert!(show_tallies(&casts(&[(&[], 2)])).is_empty());
}

#[test]
fn first_preferences_add_up_to_the_ballots_that_rank_someone() {
    let voters = casts(&[(&["A", "B"], 3), (&[], 2), (&["B"], 1), (&["C", "A"], 2)]);
    let listed = show_tallies(&voters);
    assert_eq!(standings(&listed), vec![pair("A", 3), pair("B", 1), pair("C", 2)]);
    let total: usize = listed.iter().map(|(_, votes)| *votes).sum();
    assert_eq!(total, 6);
}

#[test]
fn ballots_that_rank_nobody_do_not_count_towards_a_majority() {
    let voters = casts(&[(&["A"], 2), (&["B"], 1), (&[], 2)]);
    assert_eq!(check_for_majority(&voters).unwrap().name, "A");
    assert!(check_for_majority(&casts(&[(&[], 2)])).is_none());
    assert!(check_for_majority(&Vec::new()).is_none());
}

#[test]
fn majority_in_the_first_round_wins_without_elimination() {
    let voters = casts(&[(&["A", "B", "C"], 3), (&["B", "C", "A"], 1), (&["C", "B", "A"], 1)]);
    let election = tabulate(voters).unwrap();
    assert_eq!(election.rounds.len(), 1);
    assert_eq!(election.rounds[0].number, 1);
    assert_eq!(
        shown(&election.rounds[0].tallies),
        vec![text("A", &[3, 0, 2]), text("B", &[1, 4, 0]), text("C", &[1, 1, 3])]
    );
    match &election.rounds[0].step {
        Step::Majority(winner) => assert_eq!(winner.name, "A"),
        Step::Eliminated(_) => panic!("nobody was to be eliminated"),
    }
    match &election.outcome {
        Outcome::Winner(winner) => assert_eq!(winner.name, "A"),
        Outcome::Exhausted => panic!("a winner was due"),
    }
}

#[test]
fn tie_break_goes_rank_by_rank() {
    let mut table = vec![entry("A", &[2, 1, 0]), entry("B", &[2, 0, 3]), entry("C", &[2, 0, 1])];
    let rounds = loser_tie_breaker(&mut table);
    assert_eq!(shown(&table), vec![text("C", &[2, 0, 1])]);
    assert_eq!(rounds.len(), 2);
    assert_eq!(standings(&rounds[0]), vec![pair("A", 1), pair("B", 0), pair("C", 0)]);
    assert_eq!(standings(&rounds[1]), vec![pair("B", 3), pair("C", 1)]);
}

#[test]
fn tie_break_of_two_removes_the_one_with_fewer_second_preferences() {
    let mut table = vec![entry("A", &[3, 5, 0]), entry("B", &[3, 4, 9])];
    let rounds = loser_tie_breaker(&mut table);
    assert_eq!(shown(&table), vec![text("B", &[3, 4, 9])]);
    assert_eq!(rounds.len(), 1);
    let mut table = vec![entry("A", &[3, 4, 1]), entry("B", &[3, 4, 2])];
    let rounds = loser_tie_breaker(&mut table);
    assert_eq!(shown(&table), vec![text("A", &[3, 4, 1])]);
    assert_eq!(rounds.len(), 2);
}

#[test]
fn tie_through_all_ranks_keeps_everyone() {
    let mut table = vec![entry("A", &[1, 1]), entry("B", &[1, 1])];
    let rounds = loser_tie_breaker(&mut table);
    assert_eq!(shown(&table), vec![text("A", &[1, 1]), text("B", &[1, 1])]);
    assert_eq!(rounds.len(), 1);
    assert_eq!(standings(&rounds[0]), vec![pair("A", 1), pair("B", 1)]);
}

#[test]
fn tie_break_has_nothing_to_do_for_one_or_none() {
    let mut table = vec![entry("A", &[1, 0, 2])];
    assert!(loser_tie_breaker(&mut table).is_empty());
    assert_eq!(shown(&table), vec![text("A", &[1, 0, 2])]);
    let mut table = Vec::new();
    assert!(loser_tie_breaker(&mut table).is_empty());
    assert!(table.is_empty());
    let mut table = vec![entry("A", &[1]), entry("B", &[1])];
    assert!(loser_tie_breaker(&mut table).is_empty());
    assert_eq!(table.len(), 2);
}

#[test]
fn elimination_copes_with_ballots_that_lack_the_loser() {
    let mut voters = casts(&[(&["A", "B"], 2), (&["B"], 2), (&["C", "A"], 1)]);
    let elimination = remove_last_place_candidate(&mut voters);
    assert_eq!(named(&elimination.removed), vec!["C".to_string()]);
    assert!(elimination.tie_break.is_none());
    assert_eq!(voters.len(), 5);
    assert_eq!(named(&voters[0].votes), vec!["A".to_string(), "B".to_string()]);
    assert_eq!(named(&voters[2].votes), vec!["B".to_string()]);
    assert_eq!(named(&voters[4].votes), vec!["A".to_string()]);
    assert_eq!(voters[4].name, "someone");
}

#[test]
fn elimination_of_nobody_changes_nothing() {
    let mut voters = casts(&[(&[], 2)]);
    let elimination = remove_last_place_candidate(&mut voters);
    assert!(elimination.removed.is_empty());
    assert!(elimination.tie_break.is_none());
    assert_eq!(voters.len(), 2);
}

#[test]
fn every_elimination_leaves_fewer_candidates() {
    let mut voters = casts(&[
        (&["A", "B", "C", "D"], 4),
        (&["B", "A", "D", "C"], 3),
        (&["C", "D", "A", "B"], 2),
        (&["D", "C", "B", "A"], 2),
    ]);
    let mut active = get_candidate_tallies(&voters).len();
    assert_eq!(active, 4);
    while active > 0 {
        let elimination = remove_last_place_candidate(&mut voters);
        let left = get_candidate_tallies(&voters).len();
        assert!(left < active);
        assert_eq!(left + elimination.removed.len(), active);
        active = left;
    }
}

#[test]
fn election_takes_no_more_rounds_than_candidates() {
    let voters = casts(&[
        (&["A", "B", "C", "D"], 4),
        (&["B", "A", "D", "C"], 3),
        (&["C", "D", "A", "B"], 2),
        (&["D", "C", "B", "A"], 2),
    ]);
    let election = tabulate(voters).unwrap();
    assert_eq!(election.rounds.len(), 3);
    let removed: Vec<Vec<String>> = election
        .rounds
        .iter()
        .map(|round| match &round.step {
            Step::Eliminated(elimination) => named(&elimination.removed),
            Step::Majority(winner) => vec![format!("{} wins", winner.name)],
        })
        .collect();
    assert_eq!(
        removed,
        vec![vec!["D".to_string()], vec!["B".to_string()], vec!["A wins".to_string()]]
    );
    let numbers: Vec<usize> = election.rounds.iter().map(|round| round.number).collect();
    assert_eq!(numbers, vec![1, 2, 3]);
}

#[test]
fn lone_candidate_wins() {
    let election = tabulate(casts(&[(&["A"], 1), (&[], 1)])).unwrap();
    assert_eq!(election.rounds.len(), 1);
    assert!(matches!(election.outcome, Outcome::Winner(_)));
}

#[test]
fn three_way_dead_heat_ends_without_a_winner() {
    let voters = casts(&[(&["A", "B", "C"], 1), (&["B", "C", "A"], 1), (&["C", "A", "B"], 1)]);
    let election = tabulate(voters).unwrap();
    assert_eq!(election.rounds.len(), 1);
    match &election.rounds[0].step {
        Step::Eliminated(elimination) => {
            assert_eq!(
                named(&elimination.removed),
                vec!["A".to_string(), "B".to_string(), "C".to_string()]
            );
            assert_eq!(elimination.tie_break.as_ref().unwrap().len(), 2);
        }
        Step::Majority(_) => panic!("no majority in a dead heat"),
    }
    assert!(matches!(election.outcome, Outcome::Exhausted));
}

#[test]
fn eliminate_strikes_the_given_candidates_from_every_ballot() {
    let mut voters = casts(&[(&["A", "B", "C", "D"], 1), (&["D", "B"], 1), (&["C"], 1)]);
    let gone = vec![Rc::new(Candidate::new("B")), Rc::new(Candidate::new("C"))];
    eliminate(&mut voters, &gone);
    assert_eq!(voters.len(), 3);
    assert_eq!(named(&voters[0].votes), vec!["A".to_string(), "D".to_string()]);
    assert_eq!(named(&voters[1].votes), vec!["D".to_string()]);
    assert!(voters[2].votes.is_empty());
    eliminate(&mut voters, &Vec::new());
    assert_eq!(named(&voters[0].votes), vec!["A".to_string(), "D".to_string()]);
}
